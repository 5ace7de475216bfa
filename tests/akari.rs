use akari::board::{Akari, BoardError, DecodeError};
use akari::formula::{is_satisfied, Constraint, Lit};
use akari::stripe::get_neighbour_strips;

fn board(text: &str) -> Akari {
    Akari::parse(text).unwrap()
}

fn text_of(a: &Akari) -> String {
    let (rows, cols) = a.get_dim();
    let mut out = String::new();
    for r in 0..rows {
        for c in 0..cols {
            out.push(a.cell(r, c));
        }
        out.push('\n');
    }
    out
}

fn all_hold(cs: &[Constraint], values: &Vec<u64>) -> bool {
    cs.iter().all(|c| is_satisfied(c, values))
}

#[test]
fn stripes_of_documented_example() {
    let a = board("- - 2 - -\n- - - - -");
    assert_eq!(a.get_stripes(), vec![(0, (0, 1)), (0, (3, 4)), (1, (0, 4))]);
}

#[test]
fn stripes_are_deterministic() {
    let a = board("- x - -\n1 - - x\n- - x -");
    let first = a.get_stripes();
    let second = a.get_stripes();
    assert_eq!(first, second);
    assert_eq!(first, vec![(0, (0, 0)), (0, (2, 3)), (1, (1, 2)), (2, (0, 1)), (2, (3, 3))]);
}

#[test]
fn dimensions() {
    let a = board("- 2 -\n- - -");
    assert_eq!(a.get_dim(), (2, 3));
}

#[test]
fn parse_skips_empty_lines_and_spaces() {
    let a = board("\n- x\n\n0 -\n");
    assert_eq!(a.get_dim(), (2, 2));
    assert_eq!(text_of(&a), "-x\n0-\n");
}

#[test]
fn parse_rejects_ragged_rows() {
    assert_eq!(Akari::parse("- - -\n- -").unwrap_err(), BoardError::Ragged);
}

#[test]
fn parse_rejects_empty_board() {
    assert_eq!(Akari::parse("").unwrap_err(), BoardError::Empty);
    assert_eq!(Akari::parse("\n\n").unwrap_err(), BoardError::Empty);
    assert_eq!(Akari::parse("   \n- -").unwrap_err(), BoardError::Empty);
}

#[test]
fn parse_rejects_unknown_cells() {
    assert_eq!(Akari::parse("- 5").unwrap_err(), BoardError::BadCell);
    assert_eq!(Akari::parse("- ?\n- -").unwrap_err(), BoardError::BadCell);
}

#[test]
fn neighbours_of_a_clue() {
    let a = board("- 2 -\n- - -");
    let strips = a.get_stripes();
    assert_eq!(
        get_neighbour_strips((0, 1), &strips),
        vec![(0, (0, 0)), (1, (0, 2)), (2, (1, 1))]
    );
}

#[test]
fn neighbours_at_left_edge() {
    let strips = vec![(0, (0, 0))];
    assert_eq!(get_neighbour_strips((0, 2), &strips), vec![]);
    assert_eq!(get_neighbour_strips((0, 1), &strips), vec![(0, (0, 0))]);
    assert_eq!(get_neighbour_strips((1, 0), &strips), vec![(0, (0, 0))]);
}

#[test]
fn domain_constraints() {
    let a = board("- x\n- -");
    let cs = a.get_asserts();
    assert!(cs.contains(&Constraint::AtLeast { var: 0, bound: 0 }));
    assert!(cs.contains(&Constraint::AtMost { var: 0, bound: 1 }));
    assert!(cs.contains(&Constraint::AtLeast { var: 1, bound: 0 }));
    assert!(cs.contains(&Constraint::AtMost { var: 1, bound: 2 }));
}

#[test]
fn sentinel_is_in_domain_and_places_no_bulb() {
    let mut a = board("- - x");
    let cs = a.get_asserts();
    let values = vec![2u64];
    assert!(is_satisfied(&Constraint::AtLeast { var: 0, bound: 0 }, &values));
    assert!(is_satisfied(&Constraint::AtMost { var: 0, bound: 2 }, &values));
    assert!(cs.contains(&Constraint::AtMost { var: 0, bound: 2 }));
    a.set_solution(&values).unwrap();
    assert_eq!(text_of(&a), "--x\n");
}

#[test]
fn clue_choices_enumerate_combinations() {
    let a = board("- 1 -");
    let cs = a.get_asserts();
    let l0 = Lit { var: 0, val: 0 };
    let l1 = Lit { var: 1, val: 2 };
    assert!(cs.contains(&Constraint::ExactGroup { group: vec![l0], others: vec![l1] }));
    assert!(cs.contains(&Constraint::ExactGroup { group: vec![l1], others: vec![l0] }));
    let groups = cs.iter().filter(|c| matches!(c, Constraint::ExactGroup { .. })).count();
    assert_eq!(groups, 2);
}

#[test]
fn clue_two_of_three_combinations() {
    let a = board("- 2 -\n- - -");
    let cs = a.get_asserts();
    let groups = cs.iter().filter(|c| matches!(c, Constraint::ExactGroup { .. })).count();
    assert_eq!(groups, 3);
    let l0 = Lit { var: 0, val: 0 };
    let l1 = Lit { var: 1, val: 2 };
    let l2 = Lit { var: 2, val: 1 };
    assert!(cs.contains(&Constraint::ExactGroup { group: vec![l0, l2], others: vec![l1] }));
}

#[test]
fn clue_zero_forbids_neighbours() {
    let a = board("- 0\n- -");
    let cs = a.get_asserts();
    assert!(cs.contains(&Constraint::NoneOf {
        lits: vec![Lit { var: 0, val: 0 }, Lit { var: 1, val: 1 }]
    }));
}

#[test]
fn clue_beyond_neighbour_stripes_is_unsatisfiable() {
    let a = board("x 3 x\n- x -");
    let cs = a.get_asserts();
    assert!(cs.contains(&Constraint::Unsatisfiable));
    assert!(!all_hold(&cs, &vec![0, 0]));
    assert!(!all_hold(&cs, &vec![1, 3]));
}

#[test]
fn clue_beyond_its_cell_is_refused() {
    assert_eq!(Akari::parse("4 -").unwrap_err(), BoardError::ClueTooLarge);
    assert_eq!(Akari::parse("3").unwrap_err(), BoardError::ClueTooLarge);
    assert_eq!(Akari::parse("- 3\n- -").unwrap_err(), BoardError::ClueTooLarge);
    assert!(Akari::parse("- 2 -").is_ok());
}

#[test]
fn column_constraints() {
    let a = board("- x\n- -");
    let cs = a.get_asserts();
    assert!(cs.contains(&Constraint::NotBoth {
        first: Lit { var: 0, val: 0 },
        second: Lit { var: 1, val: 0 }
    }));
    assert!(cs.contains(&Constraint::IfEmptyThenAny { var: 0, sentinel: 1, lits: vec![Lit { var: 1, val: 0 }] }));
    assert!(cs.contains(&Constraint::IfEmptyThenAny { var: 1, sentinel: 2, lits: vec![Lit { var: 0, val: 0 }] }));
    // stripe 1 is alone in column 1, so it gets no illumination constraint there
    assert!(!cs.contains(&Constraint::IfEmptyThenAny { var: 1, sentinel: 2, lits: vec![] }));
    assert_eq!(cs.len(), 7);
}

#[test]
fn no_two_bulbs_in_one_column_segment() {
    let a = board("- x\n- -");
    let cs = a.get_asserts();
    assert!(!all_hold(&cs, &vec![0, 0]));
    assert!(all_hold(&cs, &vec![0, 1]));
    let b = board("- x\n- -\nx -\n- -");
    let cs = b.get_asserts();
    // stripes: (0,(0,0)), (1,(0,1)), (2,(1,1)), (3,(0,1)); column 1 has rows 1..=3 in one segment
    assert!(cs.contains(&Constraint::NotBoth {
        first: Lit { var: 1, val: 1 },
        second: Lit { var: 3, val: 1 }
    }));
    assert!(!cs.contains(&Constraint::NotBoth {
        first: Lit { var: 0, val: 0 },
        second: Lit { var: 3, val: 0 }
    }));
}

#[test]
fn round_trip() {
    let mut a = board("- x\n- -");
    let cs = a.get_asserts();
    let model = vec![0u64, 1];
    assert!(all_hold(&cs, &model));
    a.set_solution(&model).unwrap();
    assert_eq!(text_of(&a), "ox\n-o\n");
}

#[test]
fn round_trip_with_clue() {
    let mut a = board("x 1\n- -");
    let cs = a.get_asserts();
    let model = vec![1u64];
    assert!(all_hold(&cs, &model));
    assert!(!all_hold(&cs, &vec![0u64]));
    assert!(!all_hold(&cs, &vec![2u64]));
    a.set_solution(&model).unwrap();
    assert_eq!(text_of(&a), "x1\n-o\n");
}

#[test]
fn clue_with_one_bulb_beside_it() {
    let a = board("- 1\n- -");
    let cs = a.get_asserts();
    assert!(all_hold(&cs, &vec![0u64, 2]));
    assert!(!all_hold(&cs, &vec![0u64, 1]));
    assert!(!all_hold(&cs, &vec![1u64, 2]));
}

#[test]
fn equal_constraints_appear_once() {
    let a = board("0 x 0");
    assert_eq!(a.get_asserts(), vec![Constraint::NoneOf { lits: vec![] }]);
    let b = board("- -");
    let cs = b.get_asserts();
    assert_eq!(cs.len(), 2);
    for (k, x) in cs.iter().enumerate() {
        for y in cs.iter().skip(k + 1) {
            assert_ne!(x, y);
        }
    }
}

#[test]
fn encoding_twice_gives_the_same_list() {
    let a = board("- - x -\n1 - - -\n- x 2 -");
    assert_eq!(a.get_asserts(), a.get_asserts());
}

#[test]
fn solved_board_encodes_the_same() {
    let mut a = board("- x\n- -");
    let before = a.get_asserts();
    let strips = a.get_stripes();
    a.set_solution(&vec![0, 1]).unwrap();
    assert_eq!(a.get_stripes(), strips);
    assert_eq!(a.get_asserts(), before);
    let b = board("o x\n- o");
    assert_eq!(b.get_asserts(), before);
}

#[test]
fn decode_rejects_wrong_count() {
    let mut a = board("- x\n- -");
    assert_eq!(a.set_solution(&vec![0]).unwrap_err(), DecodeError::WrongCount);
    assert_eq!(text_of(&a), "-x\n--\n");
}

#[test]
fn decode_rejects_out_of_domain() {
    let mut a = board("x -\n- -");
    assert_eq!(a.set_solution(&vec![0, 0]).unwrap_err(), DecodeError::OutOfDomain);
    assert_eq!(a.set_solution(&vec![3, 0]).unwrap_err(), DecodeError::OutOfDomain);
    assert_eq!(text_of(&a), "x-\n--\n");
}

#[test]
fn two_bulbs_around_a_clue() {
    let mut a = board("- 2 -\n- - -");
    assert_eq!(a.get_stripes(), vec![(0, (0, 0)), (0, (2, 2)), (1, (0, 2))]);
    let cs = a.get_asserts();
    // one bulb beside the clue, one below it
    let model = vec![0u64, 3, 1];
    let clue_constraints: Vec<&Constraint> = cs
        .iter()
        .filter(|c| matches!(c, Constraint::ExactGroup { .. }))
        .collect();
    assert!(clue_constraints.iter().all(|c| is_satisfied(c, &model)));
    // three bulbs around the clue break its count
    assert!(!clue_constraints.iter().all(|c| is_satisfied(c, &vec![0, 2, 1])));
    // with the bulb below the clue, cell (0, 2) would stay dark
    assert!(!all_hold(&cs, &model));
    // the bulbs on both sides satisfy every constraint
    let full = vec![0u64, 2, 3];
    assert!(all_hold(&cs, &full));
    let mut b = a.clone();
    b.set_solution(&full).unwrap();
    assert_eq!(text_of(&b), "o2o\n---\n");
    a.set_solution(&model).unwrap();
    assert_eq!(text_of(&a), "o2-\n-o-\n");
}

#[test]
fn lone_zero_clue() {
    let mut a = board("0");
    assert_eq!(a.get_stripes(), vec![]);
    let cs = a.get_asserts();
    assert_eq!(cs, vec![Constraint::NoneOf { lits: vec![] }]);
    assert!(all_hold(&cs, &vec![]));
    a.set_solution(&vec![]).unwrap();
    assert_eq!(text_of(&a), "0\n");
}

#[test]
fn lone_empty_cell() {
    let mut a = board("-");
    assert_eq!(a.get_stripes(), vec![(0, (0, 0))]);
    let cs = a.get_asserts();
    assert!(cs.contains(&Constraint::AtLeast { var: 0, bound: 0 }));
    assert!(cs.contains(&Constraint::AtMost { var: 0, bound: 1 }));
    assert_eq!(cs.len(), 2);
    assert!(all_hold(&cs, &vec![0]));
    assert!(all_hold(&cs, &vec![1]));
    let mut b = a.clone();
    a.set_solution(&vec![0]).unwrap();
    assert_eq!(text_of(&a), "o\n");
    b.set_solution(&vec![1]).unwrap();
    assert_eq!(text_of(&b), "-\n");
}

#[test]
fn unequal_rows_are_rejected() {
    assert_eq!(Akari::parse("- -\n-").unwrap_err(), BoardError::Ragged);
}
