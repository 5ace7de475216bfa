use vstd::prelude::*;
use crate::board::{clue_value, grid_wf, is_clue};
use crate::encode::{
    clue_encoded, clue_required, column_encoded, column_required, domain_required, encodes,
    has_group, has_if_empty, has_none_of, has_partner, in_segment, is_combination, is_group,
    is_if_empty, is_none_of, lit_encoded, lits_of, not_both, pair_encoded, pick, required, rest,
    segment_lits, var_domain_encoded,
};
use crate::formula::{Constraint, Lit};
use crate::stripe::{is_stripe, neighbours, stripes_of, Strip};

verus! {

/// `x` and `y` are structurally equal: same kind, same fields, same literals
/// in the same order.
pub open spec fn same(x: Constraint, y: Constraint) -> bool {
    match (x, y) {
        (Constraint::AtLeast { var: v1, bound: b1 }, Constraint::AtLeast { var: v2, bound: b2 }) => v1 == v2 && b1 == b2,
        (Constraint::AtMost { var: v1, bound: b1 }, Constraint::AtMost { var: v2, bound: b2 }) => v1 == v2 && b1 == b2,
        (Constraint::NoneOf { lits: l1 }, Constraint::NoneOf { lits: l2 }) => l1@ == l2@,
        (Constraint::ExactGroup { group: g1, others: o1 }, Constraint::ExactGroup { group: g2, others: o2 }) => g1@ == g2@ && o1@ == o2@,
        (Constraint::NotBoth { first: f1, second: s1 }, Constraint::NotBoth { first: f2, second: s2 }) => f1 == f2 && s1 == s2,
        (
            Constraint::IfEmptyThenAny { var: v1, sentinel: t1, lits: l1 },
            Constraint::IfEmptyThenAny { var: v2, sentinel: t2, lits: l2 },
        ) => v1 == v2 && t1 == t2 && l1@ == l2@,
        (Constraint::Unsatisfiable, Constraint::Unsatisfiable) => true,
        _ => false,
    }
}

/// Some entry of `out` is structurally equal to `x`.
pub open spec fn kept(out: Seq<Constraint>, x: Constraint) -> bool {
    exists|k: int| 0 <= k < out.len() && #[trigger] same(x, out[k])
}

fn same_lits(a: &Vec<Lit>, b: &Vec<Lit>) -> (r: bool)
    ensures
        r == (a@ == b@),
{
    if a.len() != b.len() {
        return false;
    }
    let mut k: usize = 0;
    while k < a.len()
        invariant
            a@.len() == b@.len(),
            k <= a@.len(),
            forall|j: int| 0 <= j < k ==> a@[j] == b@[j],
        decreases a@.len() - k,
    {
        if a[k] != b[k] {
            return false;
        }
        k = k + 1;
    }
    assert(a@ =~= b@);
    true
}

/// Whether two constraints are structurally equal.
pub fn same_constraint(x: &Constraint, y: &Constraint) -> (r: bool)
    ensures
        r == same(*x, *y),
{
    match (x, y) {
        (Constraint::AtLeast { var: v1, bound: b1 }, Constraint::AtLeast { var: v2, bound: b2 }) => *v1 == *v2 && *b1 == *b2,
        (Constraint::AtMost { var: v1, bound: b1 }, Constraint::AtMost { var: v2, bound: b2 }) => *v1 == *v2 && *b1 == *b2,
        (Constraint::NoneOf { lits: l1 }, Constraint::NoneOf { lits: l2 }) => same_lits(l1, l2),
        (Constraint::ExactGroup { group: g1, others: o1 }, Constraint::ExactGroup { group: g2, others: o2 }) => same_lits(g1, g2) && same_lits(o1, o2),
        (Constraint::NotBoth { first: f1, second: s1 }, Constraint::NotBoth { first: f2, second: s2 }) => *f1 == *f2 && *s1 == *s2,
        (
            Constraint::IfEmptyThenAny { var: v1, sentinel: t1, lits: l1 },
            Constraint::IfEmptyThenAny { var: v2, sentinel: t2, lits: l2 },
        ) => *v1 == *v2 && *t1 == *t2 && same_lits(l1, l2),
        (Constraint::Unsatisfiable, Constraint::Unsatisfiable) => true,
        _ => false,
    }
}

fn any_same(cs: &Vec<Constraint>, x: &Constraint) -> (r: bool)
    ensures
        r == exists|j: int| 0 <= j < cs@.len() && #[trigger] same(cs@[j], *x),
{
    let mut j: usize = 0;
    while j < cs.len()
        invariant
            j <= cs@.len(),
            forall|i: int| 0 <= i < j ==> !#[trigger] same(cs@[i], *x),
        decreases cs@.len() - j,
    {
        if same_constraint(&cs[j], x) {
            return true;
        }
        j = j + 1;
    }
    false
}

/// Keeps one constraint of each group of structurally equal ones.
pub fn dedup(cs: Vec<Constraint>) -> (out: Vec<Constraint>)
    ensures
        forall|k: int| 0 <= k < out@.len() ==> cs@.contains(#[trigger] out@[k]),
        forall|j: int| 0 <= j < cs@.len() ==> kept(out@, #[trigger] cs@[j]),
        forall|k: int, l: int| 0 <= k < l < out@.len() ==> !same(#[trigger] out@[k], #[trigger] out@[l]),
{
    let ghost orig = cs@;
    let mut rest = cs;
    let mut out: Vec<Constraint> = Vec::new();
    while rest.len() > 0
        invariant
            rest@ == orig.take(rest@.len() as int),
            rest@.len() <= orig.len(),
            forall|k: int| 0 <= k < out@.len() ==> orig.contains(#[trigger] out@[k]),
            forall|j: int|
                rest@.len() <= j < orig.len() ==> kept(out@, #[trigger] orig[j]) || kept(rest@, orig[j]),
            forall|k: int, l: int| 0 <= k < l < out@.len() ==> !same(#[trigger] out@[k], #[trigger] out@[l]),
            forall|k: int, i: int| 0 <= k < out@.len() && 0 <= i < rest@.len() ==> !same(#[trigger] out@[k], #[trigger] orig[i]),
        decreases rest@.len(),
    {
        let ghost n = rest@.len() as int;
        assert(orig.take(n) == rest@);
        let x = rest.pop().unwrap();
        assert(x == orig[n - 1]);
        assert(rest@ =~= orig.take(n - 1));
        if !any_same(&rest, &x) {
            let ghost old_out = out@;
            out.push(x);
            proof {
                assert forall|k: int| 0 <= k < out@.len() implies orig.contains(#[trigger] out@[k]) by {
                    if k < old_out.len() {
                        assert(out@[k] == old_out[k]);
                    } else {
                        assert(out@[k] == orig[n - 1]);
                        assert(orig.contains(out@[k]));
                    }
                }
                assert forall|j: int|
                    rest@.len() <= j < orig.len() implies kept(out@, #[trigger] orig[j]) || kept(rest@, orig[j]) by {
                    if j == n - 1 {
                        assert(same(orig[j], out@[old_out.len() as int]));
                    } else if kept(old_out, orig[j]) {
                        let k = choose|k: int| 0 <= k < old_out.len() && #[trigger] same(orig[j], old_out[k]);
                        assert(out@[k] == old_out[k]);
                        assert(same(orig[j], out@[k]));
                    } else {
                        let pre = orig.take(n);
                        let i = choose|i: int| 0 <= i < pre.len() && #[trigger] same(orig[j], pre[i]);
                        if i == n - 1 {
                            assert(same(orig[j], out@[old_out.len() as int]));
                        } else {
                            assert(rest@[i] == pre[i]);
                            assert(same(orig[j], rest@[i]));
                        }
                    }
                }
                assert forall|k: int, l: int| 0 <= k < l < out@.len() implies !same(#[trigger] out@[k], #[trigger] out@[l]) by {
                    assert(out@[k] == old_out[k]);
                    if l < old_out.len() {
                        assert(out@[l] == old_out[l]);
                    } else {
                        assert(!same(old_out[k], orig[n - 1]));
                    }
                }
                assert forall|k: int, i: int| 0 <= k < out@.len() && 0 <= i < rest@.len() implies !same(#[trigger] out@[k], #[trigger] orig[i]) by {
                    assert(rest@[i] == orig[i]);
                    if k < old_out.len() {
                        assert(out@[k] == old_out[k]);
                    } else {
                        assert(!same(rest@[i], x));
                    }
                }
            }
        } else {
            proof {
                let i0 = choose|i: int| 0 <= i < rest@.len() && #[trigger] same(rest@[i], x);
                assert(rest@[i0] == orig[i0]);
                assert forall|j: int|
                    rest@.len() <= j < orig.len() implies kept(out@, #[trigger] orig[j]) || kept(rest@, orig[j]) by {
                    if j == n - 1 {
                        assert(same(orig[j], rest@[i0]));
                    } else if kept(out@, orig[j]) {
                    } else {
                        let pre = orig.take(n);
                        let i = choose|i: int| 0 <= i < pre.len() && #[trigger] same(orig[j], pre[i]);
                        if i == n - 1 {
                            assert(same(orig[j], rest@[i0]));
                        } else {
                            assert(rest@[i] == pre[i]);
                            assert(same(orig[j], rest@[i]));
                        }
                    }
                }
            }
        }
    }
    out
}

proof fn lemma_kept_contains(a: Seq<Constraint>, b: Seq<Constraint>, x: Constraint)
    requires
        a.contains(x),
        forall|j: int| 0 <= j < a.len() ==> kept(b, #[trigger] a[j]),
        x is AtLeast || x is AtMost || x is NotBoth || x is Unsatisfiable,
    ensures
        b.contains(x),
{
    let j = choose|j: int| 0 <= j < a.len() && a[j] == x;
    assert(kept(b, a[j]));
    let k = choose|k: int| 0 <= k < b.len() && #[trigger] same(a[j], b[k]);
    assert(b[k] == x);
}

/// Dropping structurally equal repeats keeps the encoding's facts, and
/// keeps only required constraints.
pub proof fn lemma_dedup_keeps(g: Seq<Seq<char>>, ss: Seq<Strip>, a: Seq<Constraint>, b: Seq<Constraint>)
    requires
        encodes(g, ss, a),
        forall|k: int| 0 <= k < a.len() ==> required(g, ss, #[trigger] a[k]),
        forall|j: int| 0 <= j < a.len() ==> kept(b, #[trigger] a[j]),
        forall|k: int| 0 <= k < b.len() ==> a.contains(#[trigger] b[k]),
    ensures
        encodes(g, ss, b),
        forall|k: int| 0 <= k < b.len() ==> required(g, ss, #[trigger] b[k]),
{
    assert forall|k: int| 0 <= k < b.len() implies required(g, ss, #[trigger] b[k]) by {
        assert(a.contains(b[k]));
        let j = choose|j: int| 0 <= j < a.len() && a[j] == b[k];
        assert(required(g, ss, a[j]));
    }
    assert forall|i: int| 0 <= i < ss.len() implies #[trigger] var_domain_encoded(ss, b, i) by {
        assert(var_domain_encoded(ss, a, i));
        lemma_kept_contains(a, b, Constraint::AtLeast { var: i as usize, bound: ss[i].1.0 });
        lemma_kept_contains(a, b, Constraint::AtMost { var: i as usize, bound: (ss[i].1.1 + 1) as usize });
    }
    assert forall|r: int, c: int|
        0 <= r < g.len() && 0 <= c < g[r].len() && is_clue(g[r][c]) implies #[trigger] clue_encoded(g, ss, b, r, c) by {
        assert(clue_encoded(g, ss, a, r, c));
        let lits = lits_of(neighbours((r as usize, c as usize), ss));
        let n = clue_value(g[r][c]);
        if n == 0 {
            let j = choose|j: int| 0 <= j < a.len() && #[trigger] is_none_of(a[j], lits);
            assert(kept(b, a[j]));
            let k = choose|k: int| 0 <= k < b.len() && #[trigger] same(a[j], b[k]);
            assert(is_none_of(b[k], lits));
        } else if lits.len() < n {
            lemma_kept_contains(a, b, Constraint::Unsatisfiable);
        } else {
            assert forall|s: Seq<usize>| #[trigger] is_combination(s, lits.len() as int, n) implies has_group(b, pick(lits, s), rest(lits, s)) by {
                assert(has_group(a, pick(lits, s), rest(lits, s)));
                let j = choose|j: int| 0 <= j < a.len() && #[trigger] is_group(a[j], pick(lits, s), rest(lits, s));
                assert(kept(b, a[j]));
                let k = choose|k: int| 0 <= k < b.len() && #[trigger] same(a[j], b[k]);
                assert(is_group(b[k], pick(lits, s), rest(lits, s)));
            }
        }
    }
    assert forall|c: int| 0 <= c < g[0].len() implies #[trigger] column_encoded(g, ss, b, c) by {
        assert(column_encoded(g, ss, a, c));
        assert forall|i: int, j: int| #[trigger] pair_encoded(g, ss, b, c, i, j) by {
            assert(pair_encoded(g, ss, a, c, i, j));
            if a.contains(not_both(i as usize, j as usize, c as usize)) {
                lemma_kept_contains(a, b, not_both(i as usize, j as usize, c as usize));
            }
        }
        assert forall|i: int| #[trigger] lit_encoded(g, ss, b, c, i) by {
            assert(lit_encoded(g, ss, a, c, i));
            if has_if_empty(a, g, ss, c, i) {
                let j = choose|j: int| 0 <= j < a.len() && #[trigger] is_if_empty(a[j], g, ss, c, i);
                assert(kept(b, a[j]));
                let k = choose|k: int| 0 <= k < b.len() && #[trigger] same(a[j], b[k]);
                assert(is_if_empty(b[k], g, ss, c, i));
            }
        }
    }
}

proof fn lemma_lits_unique(l1: Seq<Lit>, l2: Seq<Lit>)
    requires
        forall|k: int, l: int| 0 <= k < l < l1.len() ==> (#[trigger] l1[k]).var < (#[trigger] l1[l]).var,
        forall|k: int, l: int| 0 <= k < l < l2.len() ==> (#[trigger] l2[k]).var < (#[trigger] l2[l]).var,
        forall|x: Lit| l1.contains(x) <==> l2.contains(x),
    ensures
        l1 == l2,
    decreases l1.len(),
{
    if l1.len() == 0 {
        if l2.len() > 0 {
            assert(l2.contains(l2[0]));
        }
        assert(l1 =~= l2);
    } else {
        assert(l1.contains(l1[0]));
        assert(l2.contains(l2[0]));
        let j = choose|j: int| 0 <= j < l2.len() && l2[j] == l1[0];
        let i = choose|i: int| 0 <= i < l1.len() && l1[i] == l2[0];
        if j > 0 && i > 0 {
            assert(l2[0].var < l2[j].var);
            assert(l1[0].var < l1[i].var);
        }
        assert(l1[0] == l2[0]);
        let t1 = l1.drop_first();
        let t2 = l2.drop_first();
        assert forall|x: Lit| t1.contains(x) <==> t2.contains(x) by {
            if t1.contains(x) {
                let k = choose|k: int| 0 <= k < t1.len() && t1[k] == x;
                assert(l1[0].var < l1[k + 1].var);
                assert(l2.contains(x));
                let l = choose|l: int| 0 <= l < l2.len() && l2[l] == x;
                assert(l != 0);
                assert(t2[l - 1] == x);
            }
            if t2.contains(x) {
                let k = choose|k: int| 0 <= k < t2.len() && t2[k] == x;
                assert(l2[0].var < l2[k + 1].var);
                assert(l1.contains(x));
                let l = choose|l: int| 0 <= l < l1.len() && l1[l] == x;
                assert(l != 0);
                assert(t1[l - 1] == x);
            }
        }
        assert forall|k: int, l: int| 0 <= k < l < t1.len() implies (#[trigger] t1[k]).var < (#[trigger] t1[l]).var by {
            assert(l1[k + 1].var < l1[l + 1].var);
        }
        assert forall|k: int, l: int| 0 <= k < l < t2.len() implies (#[trigger] t2[k]).var < (#[trigger] t2[l]).var by {
            assert(l2[k + 1].var < l2[l + 1].var);
        }
        lemma_lits_unique(t1, t2);
        assert forall|k: int| 0 <= k < l1.len() implies l1[k] == l2[k] by {
            if k > 0 {
                assert(l1[k] == t1[k - 1]);
                assert(l2[k] == t2[k - 1]);
            }
        }
        assert(l1 =~= l2);
    }
}

proof fn lemma_segment_lits_unique(g: Seq<Seq<char>>, ss: Seq<Strip>, c: int, i: int, l1: Seq<Lit>, l2: Seq<Lit>)
    requires
        segment_lits(g, ss, c, i, l1),
        segment_lits(g, ss, c, i, l2),
    ensures
        l1 == l2,
{
    assert forall|x: Lit| l1.contains(x) implies l2.contains(x) by {
        let k = choose|k: int| 0 <= k < l1.len() && l1[k] == x;
        assert(in_segment(g, ss, c, i, l1[k].var as int));
    }
    assert forall|x: Lit| l2.contains(x) implies l1.contains(x) by {
        let k = choose|k: int| 0 <= k < l2.len() && l2[k] == x;
        assert(in_segment(g, ss, c, i, l2[k].var as int));
    }
    lemma_lits_unique(l1, l2);
}

/// The encoding is fixed up to order: two constraint lists that both meet
/// the encoder's contract hold structurally equal constraints.
pub proof fn lemma_encoding_unique(g: Seq<Seq<char>>, ss: Seq<Strip>, a: Seq<Constraint>, b: Seq<Constraint>)
    requires
        grid_wf(g),
        stripes_of(g, ss),
        encodes(g, ss, b),
        forall|k: int| 0 <= k < a.len() ==> required(g, ss, #[trigger] a[k]),
    ensures
        forall|k: int| 0 <= k < a.len() ==> kept(b, #[trigger] a[k]),
{
    assert forall|k: int| 0 <= k < a.len() implies kept(b, #[trigger] a[k]) by {
        let x = a[k];
        assert(required(g, ss, x));
        if exists|i: int| #[trigger] domain_required(ss, x, i) {
            let i = choose|i: int| #[trigger] domain_required(ss, x, i);
            assert(var_domain_encoded(ss, b, i));
            assert(b.contains(x));
            let m = choose|m: int| 0 <= m < b.len() && b[m] == x;
            assert(same(x, b[m]));
        } else if exists|r: int, c: int| #[trigger] clue_required(g, ss, x, r, c) {
            let (r, c) = choose|r: int, c: int| #[trigger] clue_required(g, ss, x, r, c);
            assert(clue_encoded(g, ss, b, r, c));
            let lits = lits_of(neighbours((r as usize, c as usize), ss));
            let n = clue_value(g[r][c]);
            if n == 0 {
                let m = choose|m: int| 0 <= m < b.len() && #[trigger] is_none_of(b[m], lits);
                assert(same(x, b[m]));
            } else if lits.len() < n {
                let m = choose|m: int| 0 <= m < b.len() && b[m] == Constraint::Unsatisfiable;
                assert(same(x, b[m]));
            } else {
                let s = choose|s: Seq<usize>| #[trigger] is_combination(s, lits.len() as int, n) && is_group(x, pick(lits, s), rest(lits, s));
                assert(has_group(b, pick(lits, s), rest(lits, s)));
                let m = choose|m: int| 0 <= m < b.len() && #[trigger] is_group(b[m], pick(lits, s), rest(lits, s));
                assert(same(x, b[m]));
            }
        } else {
            let (c, i) = choose|c: int, i: int| #[trigger] column_required(g, ss, x, c, i);
            assert(is_stripe(g, ss[i]));
            assert(g[ss[i].0 as int].len() == g[0].len());
            assert(column_encoded(g, ss, b, c));
            if is_if_empty(x, g, ss, c, i) && has_partner(g, ss, c, i) {
                assert(lit_encoded(g, ss, b, c, i));
                let m = choose|m: int| 0 <= m < b.len() && #[trigger] is_if_empty(b[m], g, ss, c, i);
                match (x, b[m]) {
                    (Constraint::IfEmptyThenAny { lits: l1, .. }, Constraint::IfEmptyThenAny { lits: l2, .. }) => {
                        lemma_segment_lits_unique(g, ss, c, i, l1@, l2@);
                    },
                    _ => {},
                }
                assert(same(x, b[m]));
            } else {
                let j = choose|j: int| i < j && #[trigger] in_segment(g, ss, c, i, j) && x == not_both(i as usize, j as usize, c as usize);
                assert(pair_encoded(g, ss, b, c, i, j));
                let m = choose|m: int| 0 <= m < b.len() && b[m] == x;
                assert(same(x, b[m]));
            }
        }
    }
}

} // verus!
