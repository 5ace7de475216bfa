use vstd::prelude::*;
use itertools::Itertools;
use crate::board::{cells_of, clue_count, clue_value, grid_wf, is_clue};
use crate::formula::{holds, satisfies, Constraint, Lit};
use crate::dedup::{dedup, lemma_dedup_keeps, same};
use crate::stripe::{covers, stripes_in, the_stripes, get_neighbour_strips, is_placeable_at, is_stripe, neighbours, stripes_of, Pos, Strip};

verus! {

/// `b` is `a` with constraints appended.
pub open spec fn grows(a: Seq<Constraint>, b: Seq<Constraint>) -> bool {
    a.len() <= b.len() && forall|k: int| 0 <= k < a.len() ==> #[trigger] b[k] == a[k]
}

proof fn lemma_contains_grows(a: Seq<Constraint>, b: Seq<Constraint>, x: Constraint)
    requires
        a.contains(x),
        grows(a, b),
    ensures
        b.contains(x),
{
    let k = choose|k: int| 0 <= k < a.len() && a[k] == x;
    assert(b[k] == a[k]);
}

/// Variable `i` lies in `[start, end + 1]` of stripe `i`.
pub open spec fn var_domain_encoded(ss: Seq<Strip>, cs: Seq<Constraint>, i: int) -> bool {
    &&& cs.contains(Constraint::AtLeast { var: i as usize, bound: ss[i].1.0 })
    &&& cs.contains(Constraint::AtMost { var: i as usize, bound: (ss[i].1.1 + 1) as usize })
}

/// Every variable lies in `[start, end + 1]` of its stripe.
pub open spec fn domain_encoded(ss: Seq<Strip>, cs: Seq<Constraint>) -> bool {
    forall|i: int| 0 <= i < ss.len() ==> #[trigger] var_domain_encoded(ss, cs, i)
}

/// The neighbour-bulb indicators of a clue: stripe `i` has its bulb on the
/// adjacent cell.
pub open spec fn lits_of(nb: Seq<(usize, Pos)>) -> Seq<Lit> {
    nb.map_values(|x: (usize, Pos)| Lit { var: x.0, val: x.1.1 })
}

/// `s` lists `k` distinct positions below `m`, in increasing order.
pub open spec fn is_combination(s: Seq<usize>, m: int, k: int) -> bool {
    &&& s.len() == k
    &&& forall|j: int| 0 <= j < s.len() ==> #[trigger] s[j] < m
    &&& forall|j: int, l: int| 0 <= j < l < s.len() ==> #[trigger] s[j] < #[trigger] s[l]
}

pub open spec fn pick(lits: Seq<Lit>, s: Seq<usize>) -> Seq<Lit> {
    s.map_values(|j: usize| lits[j as int])
}

/// The entries among the first `n` of `lits` whose position is not in `s`.
pub open spec fn rest_upto(lits: Seq<Lit>, s: Seq<usize>, n: int) -> Seq<Lit>
    decreases n,
{
    if n <= 0 {
        seq![]
    } else if s.contains((n - 1) as usize) {
        rest_upto(lits, s, n - 1)
    } else {
        rest_upto(lits, s, n - 1).push(lits[n - 1])
    }
}

pub open spec fn rest(lits: Seq<Lit>, s: Seq<usize>) -> Seq<Lit> {
    rest_upto(lits, s, lits.len() as int)
}

pub open spec fn is_none_of(x: Constraint, lits: Seq<Lit>) -> bool {
    match x {
        Constraint::NoneOf { lits: l } => l@ == lits,
        _ => false,
    }
}

pub open spec fn is_group(x: Constraint, group: Seq<Lit>, others: Seq<Lit>) -> bool {
    match x {
        Constraint::ExactGroup { group: g, others: o } => g@ == group && o@ == others,
        _ => false,
    }
}

pub open spec fn has_none_of(cs: Seq<Constraint>, lits: Seq<Lit>) -> bool {
    exists|k: int| 0 <= k < cs.len() && #[trigger] is_none_of(cs[k], lits)
}

pub open spec fn has_group(cs: Seq<Constraint>, group: Seq<Lit>, others: Seq<Lit>) -> bool {
    exists|k: int| 0 <= k < cs.len() && #[trigger] is_group(cs[k], group, others)
}

/// The clue at `(r, c)` is encoded: with count 0, no indicator may hold;
/// with more than there are indicators, a constraint that never holds; else,
/// for each choice of exactly that many indicators, they all hold if and only
/// if none of the others does.
pub open spec fn clue_encoded(g: Seq<Seq<char>>, ss: Seq<Strip>, cs: Seq<Constraint>, r: int, c: int) -> bool {
    let lits = lits_of(neighbours((r as usize, c as usize), ss));
    let n = clue_value(g[r][c]);
    if n == 0 {
        has_none_of(cs, lits)
    } else if lits.len() < n {
        cs.contains(Constraint::Unsatisfiable)
    } else {
        forall|s: Seq<usize>|
            #[trigger] is_combination(s, lits.len() as int, n) ==> has_group(
                cs,
                pick(lits, s),
                rest(lits, s),
            )
    }
}

pub open spec fn clues_encoded(g: Seq<Seq<char>>, ss: Seq<Strip>, cs: Seq<Constraint>) -> bool {
    forall|r: int, c: int|
        0 <= r < g.len() && 0 <= c < g[r].len() && is_clue(g[r][c]) ==> #[trigger] clue_encoded(
            g,
            ss,
            cs,
            r,
            c,
        )
}

proof fn lemma_clue_grows(g: Seq<Seq<char>>, ss: Seq<Strip>, a: Seq<Constraint>, b: Seq<Constraint>, r: int, c: int)
    requires
        clue_encoded(g, ss, a, r, c),
        grows(a, b),
    ensures
        clue_encoded(g, ss, b, r, c),
{
    let lits = lits_of(neighbours((r as usize, c as usize), ss));
    let n = clue_value(g[r][c]);
    if n == 0 {
        let k = choose|k: int| 0 <= k < a.len() && #[trigger] is_none_of(a[k], lits);
        assert(b[k] == a[k]);
    } else if lits.len() < n {
        lemma_contains_grows(a, b, Constraint::Unsatisfiable);
    } else {
        assert forall|s: Seq<usize>| #[trigger] is_combination(s, lits.len() as int, n) implies has_group(
            b,
            pick(lits, s),
            rest(lits, s),
        ) by {
            let k = choose|k: int| 0 <= k < a.len() && #[trigger] is_group(a[k], pick(lits, s), rest(lits, s));
            assert(b[k] == a[k]);
        }
    }
}

/// `x` is a domain constraint of variable `i`.
pub open spec fn domain_required(ss: Seq<Strip>, x: Constraint, i: int) -> bool {
    0 <= i < ss.len() && (x == Constraint::AtLeast { var: i as usize, bound: ss[i].1.0 } || x
        == Constraint::AtMost { var: i as usize, bound: (ss[i].1.1 + 1) as usize })
}

/// `x` is one of the constraints of the clue at `(r, c)`.
pub open spec fn clue_required(g: Seq<Seq<char>>, ss: Seq<Strip>, x: Constraint, r: int, c: int) -> bool {
    let lits = lits_of(neighbours((r as usize, c as usize), ss));
    let n = clue_value(g[r][c]);
    &&& 0 <= r < g.len()
    &&& 0 <= c < g[r].len()
    &&& is_clue(g[r][c])
    &&& if n == 0 {
        is_none_of(x, lits)
    } else if lits.len() < n {
        x == Constraint::Unsatisfiable
    } else {
        exists|s: Seq<usize>|
            #[trigger] is_combination(s, lits.len() as int, n) && is_group(x, pick(lits, s), rest(lits, s))
    }
}

/// `x` is a constraint of the column segment at column `c` holding stripe `i`.
pub open spec fn column_required(g: Seq<Seq<char>>, ss: Seq<Strip>, x: Constraint, c: int, i: int) -> bool {
    &&& 0 <= i < ss.len()
    &&& covers(ss[i], ss[i].0 as int, c)
    &&& ((is_if_empty(x, g, ss, c, i) && has_partner(g, ss, c, i)) || exists|j: int|
        i < j && #[trigger] in_segment(g, ss, c, i, j) && x == not_both(i as usize, j as usize, c as usize))
}

/// `x` is one of the constraints that the rules ask for.
pub open spec fn required(g: Seq<Seq<char>>, ss: Seq<Strip>, x: Constraint) -> bool {
    ||| exists|i: int| #[trigger] domain_required(ss, x, i)
    ||| exists|r: int, c: int| #[trigger] clue_required(g, ss, x, r, c)
    ||| exists|c: int, i: int| #[trigger] column_required(g, ss, x, c, i)
}

/// Everything that `b` holds beyond `a` is required.
pub open spec fn appended_required(g: Seq<Seq<char>>, ss: Seq<Strip>, a: Seq<Constraint>, b: Seq<Constraint>) -> bool {
    forall|k: int| a.len() <= k < b.len() ==> required(g, ss, #[trigger] b[k])
}

proof fn lemma_required_push(g: Seq<Seq<char>>, ss: Seq<Strip>, a: Seq<Constraint>, b: Seq<Constraint>, x: Constraint)
    requires
        appended_required(g, ss, a, b),
        a.len() <= b.len(),
        required(g, ss, x),
    ensures
        appended_required(g, ss, a, b.push(x)),
{
    assert forall|k: int| a.len() <= k < b.push(x).len() implies required(g, ss, #[trigger] b.push(x)[k]) by {
        if k < b.len() {
            assert(b.push(x)[k] == b[k]);
        }
    }
}

proof fn lemma_required_trans(g: Seq<Seq<char>>, ss: Seq<Strip>, a: Seq<Constraint>, b: Seq<Constraint>, c: Seq<Constraint>)
    requires
        appended_required(g, ss, a, b),
        appended_required(g, ss, b, c),
        grows(a, b),
        grows(b, c),
    ensures
        appended_required(g, ss, a, c),
        grows(a, c),
{
    assert forall|k: int| a.len() <= k < c.len() implies required(g, ss, #[trigger] c[k]) by {
        if k < b.len() {
            assert(c[k] == b[k]);
        }
    }
    assert forall|k: int| 0 <= k < a.len() implies #[trigger] c[k] == a[k] by {
        assert(c[k] == b[k]);
    }
}

/// Relies on itertools' `Itertools::combinations`: on `0..m` it yields every
/// `k`-element combination once, each in increasing order.
#[verifier::external_body]
fn index_combinations(m: usize, k: usize) -> (r: Vec<Vec<usize>>)
    ensures
        forall|i: int| 0 <= i < r@.len() ==> is_combination(#[trigger] r@[i]@, m as int, k as int),
        forall|s: Seq<usize>|
            #[trigger] is_combination(s, m as int, k as int) ==> exists|i: int|
                0 <= i < r@.len() && r@[i]@ == s,
{
    (0..m).combinations(k).collect()
}

fn add_domain(ss: &Vec<Strip>, cs: &mut Vec<Constraint>, Ghost(g): Ghost<Seq<Seq<char>>>)
    requires
        forall|i: int| 0 <= i < ss@.len() ==> (#[trigger] ss@[i]).1.1 < usize::MAX,
    ensures
        grows(old(cs)@, final(cs)@),
        appended_required(g, ss@, old(cs)@, final(cs)@),
        domain_encoded(ss@, final(cs)@),
{
    let ghost c0 = cs@;
    let mut i: usize = 0;
    while i < ss.len()
        invariant
            i <= ss@.len(),
            forall|i: int| 0 <= i < ss@.len() ==> (#[trigger] ss@[i]).1.1 < usize::MAX,
            grows(c0, cs@),
            appended_required(g, ss@, c0, cs@),
            forall|j: int| 0 <= j < i ==> #[trigger] var_domain_encoded(ss@, cs@, j),
        decreases ss@.len() - i,
    {
        let (_, (start, end)) = ss[i];
        let ghost before = cs@;
        proof {
            assert(domain_required(ss@, Constraint::AtLeast { var: i, bound: start }, i as int));
            assert(domain_required(ss@, Constraint::AtMost { var: i, bound: (end + 1) as usize }, i as int));
            lemma_required_push(g, ss@, c0, cs@, Constraint::AtLeast { var: i, bound: start });
            lemma_required_push(g, ss@, c0, cs@.push(Constraint::AtLeast { var: i, bound: start }), Constraint::AtMost { var: i, bound: (end + 1) as usize });
        }
        cs.push(Constraint::AtLeast { var: i, bound: start });
        cs.push(Constraint::AtMost { var: i, bound: end + 1 });
        proof {
            assert forall|j: int| 0 <= j < i + 1 implies #[trigger] var_domain_encoded(ss@, cs@, j) by {
                if j < i {
                    assert(var_domain_encoded(ss@, before, j));
                    lemma_contains_grows(before, cs@, Constraint::AtLeast { var: j as usize, bound: ss@[j].1.0 });
                    lemma_contains_grows(before, cs@, Constraint::AtMost { var: j as usize, bound: (ss@[j].1.1 + 1) as usize });
                } else {
                    assert(cs@[before.len() as int] == Constraint::AtLeast { var: j as usize, bound: ss@[j].1.0 });
                    assert(cs@[before.len() as int + 1] == Constraint::AtMost { var: j as usize, bound: (ss@[j].1.1 + 1) as usize });
                }
            }
        }
        i = i + 1;
    }
}

fn contains_index(s: &Vec<usize>, p: usize) -> (r: bool)
    ensures
        r == s@.contains(p),
{
    let mut j: usize = 0;
    while j < s.len()
        invariant
            j <= s@.len(),
            forall|l: int| 0 <= l < j ==> s@[l] != p,
        decreases s@.len() - j,
    {
        if s[j] == p {
            return true;
        }
        j = j + 1;
    }
    false
}

/// The entries of `lits` at the positions `s`, and those at the other positions.
fn split_lits(lits: &Vec<Lit>, s: &Vec<usize>) -> (r: (Vec<Lit>, Vec<Lit>))
    requires
        forall|j: int| 0 <= j < s@.len() ==> #[trigger] s@[j] < lits@.len(),
    ensures
        r.0@ == pick(lits@, s@),
        r.1@ == rest(lits@, s@),
{
    let mut group: Vec<Lit> = Vec::new();
    let mut j: usize = 0;
    while j < s.len()
        invariant
            j <= s@.len(),
            forall|j: int| 0 <= j < s@.len() ==> #[trigger] s@[j] < lits@.len(),
            group@ == pick(lits@, s@.take(j as int)),
        decreases s@.len() - j,
    {
        group.push(lits[s[j]]);
        j = j + 1;
        assert(group@ =~= pick(lits@, s@.take(j as int)));
    }
    assert(s@.take(s@.len() as int) =~= s@);
    let mut others: Vec<Lit> = Vec::new();
    let mut p: usize = 0;
    while p < lits.len()
        invariant
            p <= lits@.len(),
            others@ == rest_upto(lits@, s@, p as int),
        decreases lits@.len() - p,
    {
        if !contains_index(s, p) {
            others.push(lits[p]);
        }
        p = p + 1;
    }
    (group, others)
}

/// Appends the constraints of the clue at `(r, c)`.
fn add_clue(b: &Vec<Vec<char>>, ss: &Vec<Strip>, r: usize, c: usize, cs: &mut Vec<Constraint>)
    requires
        grid_wf(cells_of(b)),
        r < cells_of(b).len(),
        c < cells_of(b)[r as int].len(),
        is_clue(cells_of(b)[r as int][c as int]),
    ensures
        grows(old(cs)@, final(cs)@),
        appended_required(cells_of(b), ss@, old(cs)@, final(cs)@),
        clue_encoded(cells_of(b), ss@, final(cs)@, r as int, c as int),
{
    let ghost g = cells_of(b);
    let ghost c0 = cs@;
    let nb = get_neighbour_strips((r, c), ss);
    let mut lits: Vec<Lit> = Vec::new();
    let mut k: usize = 0;
    while k < nb.len()
        invariant
            k <= nb@.len(),
            lits@ == lits_of(nb@.take(k as int)),
        decreases nb@.len() - k,
    {
        let (var, pos) = nb[k];
        lits.push(Lit { var, val: pos.1 });
        k = k + 1;
        assert(lits@ =~= lits_of(nb@.take(k as int)));
    }
    assert(nb@.take(nb@.len() as int) =~= nb@);
    assert(b@[r as int]@ == g[r as int]);
    let n = clue_count(b[r][c]);
    if n == 0 {
        let x = Constraint::NoneOf { lits };
        proof {
            assert(clue_required(g, ss@, x, r as int, c as int));
            lemma_required_push(g, ss@, c0, cs@, x);
        }
        cs.push(x);
        assert(is_none_of(cs@[cs@.len() - 1], lits_of(nb@)));
    } else if lits.len() < n {
        proof {
            assert(clue_required(g, ss@, Constraint::Unsatisfiable, r as int, c as int));
            lemma_required_push(g, ss@, c0, cs@, Constraint::Unsatisfiable);
        }
        cs.push(Constraint::Unsatisfiable);
        assert(cs@[cs@.len() - 1] == Constraint::Unsatisfiable);
    } else {
        let m = lits.len();
        let combos = index_combinations(m, n);
        let mut t: usize = 0;
        while t < combos.len()
            invariant
                t <= combos@.len(),
                m == lits@.len(),
                lits@ == lits_of(nb@),
                nb@ == neighbours((r, c), ss@),
                grows(c0, cs@),
                appended_required(g, ss@, c0, cs@),
                g == cells_of(b),
                0 <= r < g.len(),
                0 <= c < g[r as int].len(),
                is_clue(g[r as int][c as int]),
                n == clue_value(g[r as int][c as int]),
                1 <= n <= m,
                forall|i: int| 0 <= i < combos@.len() ==> is_combination(#[trigger] combos@[i]@, m as int, n as int),
                forall|i: int| 0 <= i < t ==> has_group(cs@, pick(lits@, #[trigger] combos@[i]@), rest(lits@, combos@[i]@)),
            decreases combos@.len() - t,
        {
            assert(is_combination(combos@[t as int]@, m as int, n as int));
            let (group, others) = split_lits(&lits, &combos[t]);
            let ghost before = cs@;
            let x = Constraint::ExactGroup { group, others };
            proof {
                assert(is_group(x, pick(lits@, combos@[t as int]@), rest(lits@, combos@[t as int]@)));
                assert(clue_required(g, ss@, x, r as int, c as int));
                lemma_required_push(g, ss@, c0, cs@, x);
            }
            cs.push(x);
            proof {
                assert forall|i: int| 0 <= i < t + 1 implies has_group(cs@, pick(lits@, #[trigger] combos@[i]@), rest(lits@, combos@[i]@)) by {
                    if i < t {
                        let k = choose|k: int| 0 <= k < before.len() && #[trigger] is_group(before[k], pick(lits@, combos@[i]@), rest(lits@, combos@[i]@));
                        assert(cs@[k] == before[k]);
                    } else {
                        assert(is_group(cs@[before.len() as int], pick(lits@, combos@[i]@), rest(lits@, combos@[i]@)));
                    }
                }
            }
            t = t + 1;
        }
        proof {
            assert forall|s: Seq<usize>| #[trigger] is_combination(s, m as int, n as int) implies has_group(
                cs@,
                pick(lits@, s),
                rest(lits@, s),
            ) by {
                let i = choose|i: int| 0 <= i < combos@.len() && combos@[i]@ == s;
                assert(has_group(cs@, pick(lits@, combos@[i]@), rest(lits@, combos@[i]@)));
            }
        }
    }
}

/// Stripes `i` and `j` both pass through column `c`, and every cell of that
/// column between their rows is placeable: a bulb of one on column `c` would
/// light the other's cell there.
pub open spec fn in_segment(g: Seq<Seq<char>>, ss: Seq<Strip>, c: int, i: int, j: int) -> bool {
    &&& 0 <= i < ss.len()
    &&& 0 <= j < ss.len()
    &&& covers(ss[i], ss[i].0 as int, c)
    &&& covers(ss[j], ss[j].0 as int, c)
    &&& forall|r: int|
        (ss[i].0 <= r <= ss[j].0 || ss[j].0 <= r <= ss[i].0) ==> #[trigger] is_placeable_at(g, r, c)
}

/// `ls` holds, for every other stripe in the segment of stripe `i` at column
/// `c`, the indicator "its bulb is on column `c`", and nothing else.
pub open spec fn segment_lits(g: Seq<Seq<char>>, ss: Seq<Strip>, c: int, i: int, ls: Seq<Lit>) -> bool {
    &&& forall|k: int|
        0 <= k < ls.len() ==> {
            &&& (#[trigger] ls[k]).val == c
            &&& ls[k].var != i
            &&& in_segment(g, ss, c, i, ls[k].var as int)
        }
    &&& forall|j: int|
        #![trigger in_segment(g, ss, c, i, j)]
        j != i && in_segment(g, ss, c, i, j) ==> ls.contains(Lit { var: j as usize, val: c as usize })
    &&& forall|k: int, l: int| 0 <= k < l < ls.len() ==> (#[trigger] ls[k]).var < (#[trigger] ls[l]).var
}

/// Some other stripe shares the segment of stripe `i` at column `c`.
pub open spec fn has_partner(g: Seq<Seq<char>>, ss: Seq<Strip>, c: int, i: int) -> bool {
    exists|j: int| j != i && #[trigger] in_segment(g, ss, c, i, j)
}

pub open spec fn is_if_empty(x: Constraint, g: Seq<Seq<char>>, ss: Seq<Strip>, c: int, i: int) -> bool {
    match x {
        Constraint::IfEmptyThenAny { var, sentinel, lits } => var == i && sentinel == ss[i].1.1 + 1
            && segment_lits(g, ss, c, i, lits@),
        _ => false,
    }
}

pub open spec fn has_if_empty(cs: Seq<Constraint>, g: Seq<Seq<char>>, ss: Seq<Strip>, c: int, i: int) -> bool {
    exists|k: int| 0 <= k < cs.len() && #[trigger] is_if_empty(cs[k], g, ss, c, i)
}

/// The constraint that stripes `i` and `j` do not both have their bulb on column `c`.
pub open spec fn not_both(i: usize, j: usize, c: usize) -> Constraint {
    Constraint::NotBoth { first: Lit { var: i, val: c }, second: Lit { var: j, val: c } }
}

/// No two stripes of one segment of column `c` both put their bulb on it.
pub open spec fn pair_encoded(g: Seq<Seq<char>>, ss: Seq<Strip>, cs: Seq<Constraint>, c: int, i: int, j: int) -> bool {
    (i < j && in_segment(g, ss, c, i, j)) ==> cs.contains(
        not_both(i as usize, j as usize, c as usize),
    )
}

/// If stripe `i`, which passes through column `c`, has no bulb, another stripe
/// of that segment has its bulb on column `c`. A stripe alone in its segment
/// gets no such constraint: nothing else could light that cell, but a lone
/// stripe is left free.
pub open spec fn lit_encoded(g: Seq<Seq<char>>, ss: Seq<Strip>, cs: Seq<Constraint>, c: int, i: int) -> bool {
    (0 <= i < ss.len() && covers(ss[i], ss[i].0 as int, c) && has_partner(g, ss, c, i)) ==> has_if_empty(cs, g, ss, c, i)
}

pub open spec fn column_encoded(g: Seq<Seq<char>>, ss: Seq<Strip>, cs: Seq<Constraint>, c: int) -> bool {
    &&& forall|i: int, j: int| #[trigger] pair_encoded(g, ss, cs, c, i, j)
    &&& forall|i: int| #[trigger] lit_encoded(g, ss, cs, c, i)
}

pub open spec fn columns_encoded(g: Seq<Seq<char>>, ss: Seq<Strip>, cs: Seq<Constraint>) -> bool {
    forall|c: int| 0 <= c < g[0].len() ==> #[trigger] column_encoded(g, ss, cs, c)
}

proof fn lemma_pair_grows(g: Seq<Seq<char>>, ss: Seq<Strip>, a: Seq<Constraint>, b: Seq<Constraint>, c: int, i: int, j: int)
    requires
        pair_encoded(g, ss, a, c, i, j),
        grows(a, b),
    ensures
        pair_encoded(g, ss, b, c, i, j),
{
    if i < j && in_segment(g, ss, c, i, j) {
        lemma_contains_grows(a, b, not_both(i as usize, j as usize, c as usize));
    }
}

proof fn lemma_lit_grows(g: Seq<Seq<char>>, ss: Seq<Strip>, a: Seq<Constraint>, b: Seq<Constraint>, c: int, i: int)
    requires
        lit_encoded(g, ss, a, c, i),
        grows(a, b),
    ensures
        lit_encoded(g, ss, b, c, i),
{
    if 0 <= i < ss.len() && covers(ss[i], ss[i].0 as int, c) && has_partner(g, ss, c, i) {
        let k = choose|k: int| 0 <= k < a.len() && #[trigger] is_if_empty(a[k], g, ss, c, i);
        assert(b[k] == a[k]);
    }
}

proof fn lemma_column_grows(g: Seq<Seq<char>>, ss: Seq<Strip>, a: Seq<Constraint>, b: Seq<Constraint>, c: int)
    requires
        column_encoded(g, ss, a, c),
        grows(a, b),
    ensures
        column_encoded(g, ss, b, c),
{
    assert forall|i: int, j: int| #[trigger] pair_encoded(g, ss, b, c, i, j) by {
        assert(pair_encoded(g, ss, a, c, i, j));
        lemma_pair_grows(g, ss, a, b, c, i, j);
    }
    assert forall|i: int| #[trigger] lit_encoded(g, ss, b, c, i) by {
        assert(lit_encoded(g, ss, a, c, i));
        lemma_lit_grows(g, ss, a, b, c, i);
    }
}

/// Stripe `i` crosses column `c` in one of the rows `start..=end`.
pub open spec fn in_rows(ss: Seq<Strip>, c: int, start: int, end: int, i: int) -> bool {
    0 <= i < ss.len() && start <= ss[i].0 <= end && covers(ss[i], ss[i].0 as int, c)
}

/// Rows `start..=end` form a maximal run of placeable cells in column `c`.
pub open spec fn is_column_segment(g: Seq<Seq<char>>, c: int, start: int, end: int) -> bool {
    &&& 0 <= start <= end < g.len()
    &&& forall|r: int| start <= r <= end ==> #[trigger] is_placeable_at(g, r, c)
    &&& (start == 0 || !is_placeable_at(g, start - 1, c))
    &&& !is_placeable_at(g, end + 1, c)
}

proof fn lemma_segment_closed(g: Seq<Seq<char>>, ss: Seq<Strip>, c: int, start: int, end: int, i: int, j: int)
    requires
        is_column_segment(g, c, start, end),
        in_rows(ss, c, start, end, i),
        in_segment(g, ss, c, i, j),
    ensures
        in_rows(ss, c, start, end, j),
{
    if ss[j].0 < start {
        assert(is_placeable_at(g, start - 1, c));
    }
    if ss[j].0 > end {
        assert(is_placeable_at(g, end + 1, c));
    }
}

/// Appends the constraints of the column segment `start..=end` of column `c`.
fn add_segment(ss: &Vec<Strip>, c: usize, start: usize, end: usize, cs: &mut Vec<Constraint>, Ghost(g): Ghost<Seq<Seq<char>>>)
    requires
        stripes_of(g, ss@),
        is_column_segment(g, c as int, start as int, end as int),
        forall|i: int| 0 <= i < ss@.len() ==> (#[trigger] ss@[i]).1.1 < usize::MAX,
    ensures
        grows(old(cs)@, final(cs)@),
        appended_required(g, ss@, old(cs)@, final(cs)@),
        forall|i: int, j: int|
            in_rows(ss@, c as int, start as int, end as int, i) ==> #[trigger] pair_encoded(g, ss@, final(cs)@, c as int, i, j),
        forall|i: int|
            in_rows(ss@, c as int, start as int, end as int, i) ==> #[trigger] lit_encoded(g, ss@, final(cs)@, c as int, i),
{
    let ghost c0 = cs@;
    let mut seg: Vec<usize> = Vec::new();
    let mut i: usize = 0;
    while i < ss.len()
        invariant
            i <= ss@.len(),
            forall|k: int| 0 <= k < seg@.len() ==> #[trigger] seg@[k] < i && in_rows(ss@, c as int, start as int, end as int, seg@[k] as int),
            forall|k: int, l: int| 0 <= k < l < seg@.len() ==> #[trigger] seg@[k] < #[trigger] seg@[l],
            forall|j: int| 0 <= j < i && #[trigger] in_rows(ss@, c as int, start as int, end as int, j) ==> seg@.contains(j as usize),
        decreases ss@.len() - i,
    {
        let (sr, (a, e)) = ss[i];
        if start <= sr && sr <= end && a <= c && c <= e {
            let ghost old_seg = seg@;
            seg.push(i);
            proof {
                assert forall|j: int| 0 <= j < i + 1 && #[trigger] in_rows(ss@, c as int, start as int, end as int, j) implies seg@.contains(j as usize) by {
                    if j < i {
                        let k = choose|k: int| 0 <= k < old_seg.len() && old_seg[k] == j as usize;
                        assert(seg@[k] == j as usize);
                    } else {
                        assert(seg@[old_seg.len() as int] == j as usize);
                    }
                }
            }
        }
        i = i + 1;
    }
    let n = seg.len();
    let sl = ss.len();
    let mut a: usize = 0;
    while a < n
        invariant
            n == seg@.len(),
            sl == ss@.len(),
            a <= n,
            stripes_of(g, ss@),
            is_column_segment(g, c as int, start as int, end as int),
            forall|i: int| 0 <= i < ss@.len() ==> (#[trigger] ss@[i]).1.1 < usize::MAX,
            forall|j: int| #[trigger] in_rows(ss@, c as int, start as int, end as int, j) ==> seg@.contains(j as usize),
            forall|k: int| 0 <= k < seg@.len() ==> in_rows(ss@, c as int, start as int, end as int, #[trigger] seg@[k] as int),
            forall|k: int, l: int| 0 <= k < l < seg@.len() ==> #[trigger] seg@[k] < #[trigger] seg@[l],
            grows(c0, cs@),
            appended_required(g, ss@, c0, cs@),
            forall|k: int, l: int| 0 <= k < a && k < l < n ==> cs@.contains(
                #[trigger] not_both(seg@[k], seg@[l], c),
            ),
            n >= 2 ==> forall|k: int| 0 <= k < a ==> has_if_empty(cs@, g, ss@, c as int, #[trigger] seg@[k] as int),
        decreases n - a,
    {
        let ghost at_a = cs@;
        let mut bb: usize = a + 1;
        while bb < n
            invariant
                n == seg@.len(),
                a < n,
                a + 1 <= bb <= n,
                grows(at_a, cs@),
                grows(c0, at_a),
                appended_required(g, ss@, c0, cs@),
                is_column_segment(g, c as int, start as int, end as int),
                forall|k: int| 0 <= k < seg@.len() ==> in_rows(ss@, c as int, start as int, end as int, #[trigger] seg@[k] as int),
                forall|k: int, l: int| 0 <= k < l < seg@.len() ==> #[trigger] seg@[k] < #[trigger] seg@[l],
                forall|l: int| a < l < bb ==> cs@.contains(
                    #[trigger] not_both(seg@[a as int], seg@[l], c),
                ),
            decreases n - bb,
        {
            let ghost before = cs@;
            let x = Constraint::NotBoth { first: Lit { var: seg[a], val: c }, second: Lit { var: seg[bb], val: c } };
            proof {
                let i = seg@[a as int] as int;
                let j = seg@[bb as int] as int;
                assert(in_rows(ss@, c as int, start as int, end as int, i));
                assert(in_rows(ss@, c as int, start as int, end as int, j));
                assert(seg@[a as int] < seg@[bb as int]);
                assert(in_segment(g, ss@, c as int, i, j));
                assert(column_required(g, ss@, x, c as int, i));
                lemma_required_push(g, ss@, c0, cs@, x);
            }
            cs.push(x);
            proof {
                assert(cs@[before.len() as int] == x);
                assert forall|l: int| a < l < bb + 1 implies cs@.contains(
                    #[trigger] not_both(seg@[a as int], seg@[l], c),
                ) by {
                    if l < bb {
                        lemma_contains_grows(before, cs@, not_both(seg@[a as int], seg@[l], c));
                    }
                }
            }
            bb = bb + 1;
        }
        let mut lits: Vec<Lit> = Vec::new();
        let ghost mut pos: Seq<int> = seq![];
        let mut k: usize = 0;
        while k < n
            invariant
                n == seg@.len(),
                a < n,
                k <= n,
                pos.len() == lits@.len(),
                forall|q: int| 0 <= q < lits@.len() ==> 0 <= #[trigger] pos[q] < k && pos[q] != a && lits@[q] == (Lit { var: seg@[pos[q]], val: c }),
                forall|q1: int, q2: int| 0 <= q1 < q2 < pos.len() ==> #[trigger] pos[q1] < #[trigger] pos[q2],
                forall|p: int| 0 <= p < k && p != a ==> lits@.contains(Lit { var: #[trigger] seg@[p], val: c }),
            decreases n - k,
        {
            if k != a {
                let ghost old_lits = lits@;
                lits.push(Lit { var: seg[k], val: c });
                proof {
                    pos = pos.push(k as int);
                    assert(lits@[old_lits.len() as int] == Lit { var: seg@[k as int], val: c });
                    assert forall|p: int| 0 <= p < k + 1 && p != a implies lits@.contains(Lit { var: #[trigger] seg@[p], val: c }) by {
                        if p < k {
                            let q = choose|q: int| 0 <= q < old_lits.len() && old_lits[q] == (Lit { var: seg@[p], val: c });
                            assert(lits@[q] == old_lits[q]);
                        }
                    }
                }
            }
            k = k + 1;
        }
        let (_, (_, e)) = ss[seg[a]];
        let ghost si = seg@[a as int] as int;
        proof {
            assert(is_stripe(g, ss@[si]));
            assert forall|q: int| 0 <= q < lits@.len() implies {
                &&& (#[trigger] lits@[q]).val == c
                &&& lits@[q].var != si
                &&& in_segment(g, ss@, c as int, si, lits@[q].var as int)
            } by {
                let p = pos[q];
                assert(in_rows(ss@, c as int, start as int, end as int, seg@[p] as int));
                assert(in_rows(ss@, c as int, start as int, end as int, si));
                if p < a {
                    assert(seg@[p] < seg@[a as int]);
                } else {
                    assert(seg@[a as int] < seg@[p]);
                }
            }
            assert forall|k1: int, l1: int| 0 <= k1 < l1 < lits@.len() implies (#[trigger] lits@[k1]).var < (#[trigger] lits@[l1]).var by {
                assert(pos[k1] < pos[l1]);
                assert(seg@[pos[k1]] < seg@[pos[l1]]);
            }
            assert forall|j: int|
                #![trigger in_segment(g, ss@, c as int, si, j)]
                j != si && in_segment(g, ss@, c as int, si, j) implies lits@.contains(Lit { var: j as usize, val: c }) by {
                lemma_segment_closed(g, ss@, c as int, start as int, end as int, si, j);
                assert(in_rows(ss@, c as int, start as int, end as int, j));
                assert(seg@.contains(j as usize));
                let p = choose|p: int| 0 <= p < n && seg@[p] == j as usize;
                assert(0 <= j < ss@.len());
                assert(seg@[p] as int == j);
                assert(p != a);
                assert(lits@.contains(Lit { var: seg@[p], val: c }));
            }
        }
        if n >= 2 {
            let ghost before = cs@;
            let x = Constraint::IfEmptyThenAny { var: seg[a], sentinel: e + 1, lits };
            proof {
                assert(is_if_empty(x, g, ss@, c as int, si));
                let p = if a == 0 { 1int } else { 0int };
                assert(in_rows(ss@, c as int, start as int, end as int, seg@[p] as int));
                assert(in_rows(ss@, c as int, start as int, end as int, si));
                if p < a {
                    assert(seg@[p] < seg@[a as int]);
                } else {
                    assert(seg@[a as int] < seg@[p]);
                }
                assert(in_segment(g, ss@, c as int, si, seg@[p] as int));
                assert(has_partner(g, ss@, c as int, si));
                assert(column_required(g, ss@, x, c as int, si));
                lemma_required_push(g, ss@, c0, cs@, x);
            }
            cs.push(x);
            proof {
                assert(is_if_empty(cs@[before.len() as int], g, ss@, c as int, si));
                assert forall|k: int, l: int| 0 <= k < a + 1 && k < l < n implies cs@.contains(
                    #[trigger] not_both(seg@[k], seg@[l], c),
                ) by {
                    if k < a {
                        lemma_contains_grows(at_a, cs@, not_both(seg@[k], seg@[l], c));
                    } else {
                        lemma_contains_grows(before, cs@, not_both(seg@[k], seg@[l], c));
                    }
                }
                assert forall|k: int| 0 <= k < a + 1 implies has_if_empty(cs@, g, ss@, c as int, #[trigger] seg@[k] as int) by {
                    if k < a {
                        let w = choose|w: int| 0 <= w < at_a.len() && #[trigger] is_if_empty(at_a[w], g, ss@, c as int, seg@[k] as int);
                        assert(cs@[w] == at_a[w]);
                    } else {
                        assert(is_if_empty(cs@[before.len() as int], g, ss@, c as int, seg@[k] as int));
                    }
                }
            }
        } else {
            proof {
                assert forall|k: int, l: int| 0 <= k < a + 1 && k < l < n implies cs@.contains(
                    #[trigger] not_both(seg@[k], seg@[l], c),
                ) by {}
            }
        }
        a = a + 1;
    }
    proof {
        assert forall|i: int, j: int|
            in_rows(ss@, c as int, start as int, end as int, i) implies #[trigger] pair_encoded(g, ss@, cs@, c as int, i, j) by {
            if i < j && in_segment(g, ss@, c as int, i, j) {
                lemma_segment_closed(g, ss@, c as int, start as int, end as int, i, j);
                assert(seg@.contains(i as usize));
                assert(seg@.contains(j as usize));
                let k = choose|k: int| 0 <= k < n && seg@[k] == i as usize;
                let l = choose|l: int| 0 <= l < n && seg@[l] == j as usize;
                if l <= k {
                    if l < k {
                        assert(seg@[l] < seg@[k]);
                    }
                }
                assert(cs@.contains(not_both(seg@[k], seg@[l], c)));
            }
        }
        assert forall|i: int|
            in_rows(ss@, c as int, start as int, end as int, i) implies #[trigger] lit_encoded(g, ss@, cs@, c as int, i) by {
            if has_partner(g, ss@, c as int, i) {
                let j = choose|j: int| j != i && #[trigger] in_segment(g, ss@, c as int, i, j);
                lemma_segment_closed(g, ss@, c as int, start as int, end as int, i, j);
                assert(seg@.contains(i as usize));
                assert(seg@.contains(j as usize));
                let k = choose|k: int| 0 <= k < n && seg@[k] == i as usize;
                let l = choose|l: int| 0 <= l < n && seg@[l] == j as usize;
                assert(0 <= i < ss@.len() && 0 <= j < ss@.len());
                assert(k != l);
                assert(has_if_empty(cs@, g, ss@, c as int, seg@[k] as int));
            }
        }
    }
}

fn cell_placeable(b: &Vec<Vec<char>>, r: usize, c: usize) -> (p: bool)
    requires
        grid_wf(cells_of(b)),
        r < cells_of(b).len(),
        c < cells_of(b)[0].len(),
    ensures
        p == is_placeable_at(cells_of(b), r as int, c as int),
{
    let ghost g = cells_of(b);
    assert(b@[r as int]@ == g[r as int]);
    assert(g[r as int].len() == g[0].len());
    b[r][c] == '-' || b[r][c] == 'o'
}

/// Appends the constraints of every segment of column `c`.
fn add_column(b: &Vec<Vec<char>>, ss: &Vec<Strip>, c: usize, cs: &mut Vec<Constraint>)
    requires
        grid_wf(cells_of(b)),
        stripes_of(cells_of(b), ss@),
        c < cells_of(b)[0].len(),
        forall|i: int| 0 <= i < ss@.len() ==> (#[trigger] ss@[i]).1.1 < usize::MAX,
    ensures
        grows(old(cs)@, final(cs)@),
        appended_required(cells_of(b), ss@, old(cs)@, final(cs)@),
        column_encoded(cells_of(b), ss@, final(cs)@, c as int),
{
    let ghost g = cells_of(b);
    let ghost c0 = cs@;
    let h = b.len();
    let mut r: usize = 0;
    while r < h
        invariant
            g == cells_of(b),
            grid_wf(g),
            stripes_of(g, ss@),
            c < g[0].len(),
            forall|i: int| 0 <= i < ss@.len() ==> (#[trigger] ss@[i]).1.1 < usize::MAX,
            h == g.len(),
            r <= h,
            r == 0 || !is_placeable_at(g, r - 1, c as int) || !is_placeable_at(g, r as int, c as int),
            grows(c0, cs@),
            appended_required(g, ss@, c0, cs@),
            forall|i: int, j: int| 0 <= i < ss@.len() && ss@[i].0 < r ==> #[trigger] pair_encoded(g, ss@, cs@, c as int, i, j),
            forall|i: int| 0 <= i < ss@.len() && ss@[i].0 < r ==> #[trigger] lit_encoded(g, ss@, cs@, c as int, i),
        decreases h - r,
    {
        assert(b@[r as int]@ == g[r as int]);
        assert(g[r as int].len() == g[0].len());
        if cell_placeable(b, r, c) {
            let start = r;
            while r < h && cell_placeable(b, r, c)
                invariant
                    g == cells_of(b),
                    grid_wf(g),
                    c < g[0].len(),
                    h == g.len(),
                    start <= r <= h,
                    forall|q: int| start <= q < r ==> #[trigger] is_placeable_at(g, q, c as int),
                decreases h - r,
            {
                assert(b@[r as int]@ == g[r as int]);
                assert(g[r as int].len() == g[0].len());
                r = r + 1;
            }
            proof {
                if r < h {
                    assert(b@[r as int]@ == g[r as int]);
                    assert(g[r as int].len() == g[0].len());
                }
                assert(is_column_segment(g, c as int, start as int, r - 1));
            }
            let ghost before = cs@;
            add_segment(ss, c, start, r - 1, cs, Ghost(g));
            proof {
                lemma_required_trans(g, ss@, c0, before, cs@);
                assert forall|i: int, j: int| 0 <= i < ss@.len() && ss@[i].0 < r implies #[trigger] pair_encoded(g, ss@, cs@, c as int, i, j) by {
                    if ss@[i].0 < start {
                        assert(pair_encoded(g, ss@, before, c as int, i, j));
                        lemma_pair_grows(g, ss@, before, cs@, c as int, i, j);
                    } else if !covers(ss@[i], ss@[i].0 as int, c as int) {
                    } else {
                        assert(in_rows(ss@, c as int, start as int, r - 1, i));
                    }
                }
                assert forall|i: int| 0 <= i < ss@.len() && ss@[i].0 < r implies #[trigger] lit_encoded(g, ss@, cs@, c as int, i) by {
                    if ss@[i].0 < start {
                        assert(lit_encoded(g, ss@, before, c as int, i));
                        lemma_lit_grows(g, ss@, before, cs@, c as int, i);
                    } else if !covers(ss@[i], ss@[i].0 as int, c as int) {
                    } else {
                        assert(in_rows(ss@, c as int, start as int, r - 1, i));
                    }
                }
            }
        } else {
            proof {
                assert forall|i: int, j: int| 0 <= i < ss@.len() && ss@[i].0 < r + 1 implies #[trigger] pair_encoded(g, ss@, cs@, c as int, i, j) by {
                    if ss@[i].0 == r && covers(ss@[i], r as int, c as int) {
                        assert(is_stripe(g, ss@[i]));
                        assert(is_placeable_at(g, r as int, c as int));
                    }
                }
                assert forall|i: int| 0 <= i < ss@.len() && ss@[i].0 < r + 1 implies #[trigger] lit_encoded(g, ss@, cs@, c as int, i) by {
                    if ss@[i].0 == r && covers(ss@[i], r as int, c as int) {
                        assert(is_stripe(g, ss@[i]));
                        assert(is_placeable_at(g, r as int, c as int));
                    }
                }
            }
            r = r + 1;
        }
    }
    proof {
        assert forall|i: int, j: int| #[trigger] pair_encoded(g, ss@, cs@, c as int, i, j) by {
            if 0 <= i < ss@.len() {
                assert(is_stripe(g, ss@[i]));
            }
        }
        assert forall|i: int| #[trigger] lit_encoded(g, ss@, cs@, c as int, i) by {
            if 0 <= i < ss@.len() {
                assert(is_stripe(g, ss@[i]));
            }
        }
    }
}

fn add_columns(b: &Vec<Vec<char>>, ss: &Vec<Strip>, cs: &mut Vec<Constraint>)
    requires
        grid_wf(cells_of(b)),
        stripes_of(cells_of(b), ss@),
        forall|i: int| 0 <= i < ss@.len() ==> (#[trigger] ss@[i]).1.1 < usize::MAX,
    ensures
        grows(old(cs)@, final(cs)@),
        appended_required(cells_of(b), ss@, old(cs)@, final(cs)@),
        columns_encoded(cells_of(b), ss@, final(cs)@),
{
    let ghost g = cells_of(b);
    let ghost c0 = cs@;
    assert(b@[0]@ == g[0]);
    let w = b[0].len();
    let mut c: usize = 0;
    while c < w
        invariant
            g == cells_of(b),
            grid_wf(g),
            stripes_of(g, ss@),
            forall|i: int| 0 <= i < ss@.len() ==> (#[trigger] ss@[i]).1.1 < usize::MAX,
            w == g[0].len(),
            c <= w,
            grows(c0, cs@),
            appended_required(g, ss@, c0, cs@),
            forall|k: int| 0 <= k < c ==> #[trigger] column_encoded(g, ss@, cs@, k),
        decreases w - c,
    {
        let ghost before = cs@;
        add_column(b, ss, c, cs);
        proof {
            lemma_required_trans(g, ss@, c0, before, cs@);
            assert forall|k: int| 0 <= k < c + 1 implies #[trigger] column_encoded(g, ss@, cs@, k) by {
                if k < c {
                    lemma_column_grows(g, ss@, before, cs@, k);
                }
            }
        }
        c = c + 1;
    }
}

fn add_clues(b: &Vec<Vec<char>>, ss: &Vec<Strip>, cs: &mut Vec<Constraint>)
    requires
        grid_wf(cells_of(b)),
    ensures
        grows(old(cs)@, final(cs)@),
        appended_required(cells_of(b), ss@, old(cs)@, final(cs)@),
        clues_encoded(cells_of(b), ss@, final(cs)@),
{
    let ghost g = cells_of(b);
    let ghost c0 = cs@;
    let h = b.len();
    let mut r: usize = 0;
    while r < h
        invariant
            g == cells_of(b),
            grid_wf(g),
            h == g.len(),
            r <= h,
            grows(c0, cs@),
            appended_required(g, ss@, c0, cs@),
            forall|rr: int, cc: int|
                0 <= rr < r && 0 <= cc < g[rr].len() && is_clue(g[rr][cc]) ==> #[trigger] clue_encoded(g, ss@, cs@, rr, cc),
        decreases h - r,
    {
        assert(b@[r as int]@ == g[r as int]);
        let w = b[r].len();
        let mut c: usize = 0;
        while c < w
            invariant
                g == cells_of(b),
                grid_wf(g),
                h == g.len(),
                r < h,
                w == g[r as int].len(),
                c <= w,
                grows(c0, cs@),
                appended_required(g, ss@, c0, cs@),
                forall|rr: int, cc: int|
                    ((0 <= rr < r && 0 <= cc < g[rr].len()) || (rr == r && 0 <= cc < c)) && is_clue(g[rr][cc]) ==> #[trigger] clue_encoded(g, ss@, cs@, rr, cc),
            decreases w - c,
        {
            assert(b@[r as int]@ == g[r as int]);
            let x = b[r][c];
            if x != '-' && x != 'o' && x != 'x' {
                let ghost before = cs@;
                add_clue(b, ss, r, c, cs);
                proof {
                    lemma_required_trans(g, ss@, c0, before, cs@);
                    assert forall|rr: int, cc: int|
                        ((0 <= rr < r && 0 <= cc < g[rr].len()) || (rr == r && 0 <= cc < c + 1)) && is_clue(g[rr][cc]) implies #[trigger] clue_encoded(g, ss@, cs@, rr, cc) by {
                        if rr < r || cc < c {
                            lemma_clue_grows(g, ss@, before, cs@, rr, cc);
                        }
                    }
                }
            }
            c = c + 1;
        }
        r = r + 1;
    }
}

/// The constraints of `b` are in place over its stripes `ss`: the domain of
/// every variable, every clue, and every column segment.
pub open spec fn encodes(g: Seq<Seq<char>>, ss: Seq<Strip>, cs: Seq<Constraint>) -> bool {
    &&& domain_encoded(ss, cs)
    &&& clues_encoded(g, ss, cs)
    &&& columns_encoded(g, ss, cs)
}

/// The constraints of a grid over the variables of its stripes.
pub fn encode(b: &Vec<Vec<char>>) -> (cs: Vec<Constraint>)
    requires
        grid_wf(cells_of(b)),
    ensures
        stripes_of(cells_of(b), the_stripes(cells_of(b))),
        the_stripes(cells_of(b)).len() <= usize::MAX,
        encodes(cells_of(b), the_stripes(cells_of(b)), cs@),
        forall|k: int| 0 <= k < cs@.len() ==> required(cells_of(b), the_stripes(cells_of(b)), #[trigger] cs@[k]),
        forall|k: int, l: int| 0 <= k < l < cs@.len() ==> !same(#[trigger] cs@[k], #[trigger] cs@[l]),
{
    let ghost g = cells_of(b);
    let ss = stripes_in(b);
    let n_stripes = ss.len();
    assert(b@[0]@ == g[0]);
    let w = b[0].len();
    proof {
        assert forall|i: int| 0 <= i < ss@.len() implies (#[trigger] ss@[i]).1.1 < usize::MAX by {
            assert(is_stripe(g, ss@[i]));
            assert(g[ss@[i].0 as int].len() == w);
        }
    }
    let mut cs: Vec<Constraint> = Vec::new();
    add_domain(&ss, &mut cs, Ghost(g));
    let ghost c1 = cs@;
    add_clues(b, &ss, &mut cs);
    let ghost c2 = cs@;
    add_columns(b, &ss, &mut cs);
    proof {
        lemma_required_trans(g, ss@, seq![], c1, c2);
        lemma_required_trans(g, ss@, seq![], c2, cs@);
        assert forall|i: int| 0 <= i < ss@.len() implies #[trigger] var_domain_encoded(ss@, cs@, i) by {
            assert(var_domain_encoded(ss@, c1, i));
            lemma_contains_grows(c1, c2, Constraint::AtLeast { var: i as usize, bound: ss@[i].1.0 });
            lemma_contains_grows(c1, c2, Constraint::AtMost { var: i as usize, bound: (ss@[i].1.1 + 1) as usize });
            lemma_contains_grows(c2, cs@, Constraint::AtLeast { var: i as usize, bound: ss@[i].1.0 });
            lemma_contains_grows(c2, cs@, Constraint::AtMost { var: i as usize, bound: (ss@[i].1.1 + 1) as usize });
        }
        assert forall|r: int, c: int|
            0 <= r < g.len() && 0 <= c < g[r].len() && is_clue(g[r][c]) implies #[trigger] clue_encoded(g, ss@, cs@, r, c) by {
            lemma_clue_grows(g, ss@, c2, cs@, r, c);
        }
    }
    let ghost all = cs@;
    let out = dedup(cs);
    proof {
        lemma_dedup_keeps(g, ss@, all, out@);
    }
    out
}

/// The "no bulb" value `end + 1` of every stripe satisfies both domain
/// constraints of its variable, which the encoding holds.
pub proof fn lemma_sentinel_in_domain(g: Seq<Seq<char>>, ss: Seq<Strip>, cs: Seq<Constraint>, a: Seq<int>, i: int)
    requires
        stripes_of(g, ss),
        encodes(g, ss, cs),
        0 <= i < ss.len(),
        ss.len() <= usize::MAX,
        ss[i].1.1 < usize::MAX,
        a.len() == ss.len(),
        a[i] == ss[i].1.1 + 1,
    ensures
        cs.contains(Constraint::AtLeast { var: i as usize, bound: ss[i].1.0 }),
        cs.contains(Constraint::AtMost { var: i as usize, bound: (ss[i].1.1 + 1) as usize }),
        holds(Constraint::AtLeast { var: i as usize, bound: ss[i].1.0 }, a),
        holds(Constraint::AtMost { var: i as usize, bound: (ss[i].1.1 + 1) as usize }, a),
{
    assert(var_domain_encoded(ss, cs, i));
    assert(is_stripe(g, ss[i]));
}

/// In a model of the encoding, no two stripes of one unobstructed column
/// segment both put their bulb on that column.
pub proof fn lemma_no_column_conflict(
    g: Seq<Seq<char>>,
    ss: Seq<Strip>,
    cs: Seq<Constraint>,
    a: Seq<int>,
    c: int,
    i: int,
    j: int,
)
    requires
        grid_wf(g),
        stripes_of(g, ss),
        encodes(g, ss, cs),
        satisfies(cs, a),
        a.len() == ss.len(),
        ss.len() <= usize::MAX,
        g[0].len() <= usize::MAX,
        i != j,
        in_segment(g, ss, c, i, j),
    ensures
        !(a[i] == c && a[j] == c),
{
    assert(is_stripe(g, ss[i]));
    assert(g[ss[i].0 as int].len() == g[0].len());
    assert(column_encoded(g, ss, cs, c));
    let (x, y) = if i < j { (i, j) } else { (j, i) };
    assert(pair_encoded(g, ss, cs, c, x, y));
    assert(in_segment(g, ss, c, x, y));
    let k = choose|k: int| 0 <= k < cs.len() && cs[k] == not_both(x as usize, y as usize, c as usize);
    assert(holds(cs[k], a));
}

} // verus!
