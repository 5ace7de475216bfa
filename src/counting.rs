use vstd::prelude::*;
use crate::board::{bulb_of, clue_value, grid_wf, is_clue};
use crate::encode::{
    clue_encoded, encodes, has_group, is_combination, is_group, is_none_of, lits_of,
    pick, rest, rest_upto,
};
use crate::formula::{all_hold, any_holds, holds, lit_holds, satisfies, Constraint, Lit};
use crate::stripe::{lemma_neighbour_cells, neighbours, neighbours_upto, stripes_of, Pos, Strip};

verus! {

/// How many of the first `k` literals hold under `a`.
pub open spec fn count_upto(lits: Seq<Lit>, a: Seq<int>, k: int) -> int
    decreases k,
{
    if k <= 0 {
        0
    } else {
        count_upto(lits, a, k - 1) + if lit_holds(lits[k - 1], a) { 1int } else { 0int }
    }
}

/// How many literals of `lits` hold under `a`.
pub open spec fn count_holding(lits: Seq<Lit>, a: Seq<int>) -> int {
    count_upto(lits, a, lits.len() as int)
}

proof fn lemma_count_bounds(lits: Seq<Lit>, a: Seq<int>, k: int)
    requires
        0 <= k,
    ensures
        0 <= count_upto(lits, a, k) <= k,
    decreases k,
{
    if k > 0 {
        lemma_count_bounds(lits, a, k - 1);
    }
}

proof fn lemma_count_zero(lits: Seq<Lit>, a: Seq<int>, k: int)
    requires
        0 <= k <= lits.len(),
        forall|p: int| 0 <= p < k ==> !lit_holds(#[trigger] lits[p], a),
    ensures
        count_upto(lits, a, k) == 0,
    decreases k,
{
    if k > 0 {
        lemma_count_zero(lits, a, k - 1);
    }
}

/// Position `p` is chosen: it is among the first `bt` holding literals or
/// among the first `bf` failing ones.
pub open spec fn chosen(lits: Seq<Lit>, a: Seq<int>, bt: int, bf: int, p: int) -> bool {
    if lit_holds(lits[p], a) {
        count_upto(lits, a, p) < bt
    } else {
        p - count_upto(lits, a, p) < bf
    }
}

pub open spec fn min(x: int, y: int) -> int {
    if x <= y {
        x
    } else {
        y
    }
}

/// The chosen positions below `k`, in increasing order.
pub open spec fn select(lits: Seq<Lit>, a: Seq<int>, bt: int, bf: int, k: int) -> Seq<usize>
    decreases k,
{
    if k <= 0 {
        seq![]
    } else if chosen(lits, a, bt, bf, k - 1) {
        select(lits, a, bt, bf, k - 1).push((k - 1) as usize)
    } else {
        select(lits, a, bt, bf, k - 1)
    }
}

proof fn lemma_select(lits: Seq<Lit>, a: Seq<int>, bt: int, bf: int, k: int)
    requires
        0 <= k <= lits.len() <= usize::MAX,
        0 <= bt,
        0 <= bf,
    ensures
        select(lits, a, bt, bf, k).len() == min(count_upto(lits, a, k), bt) + min(
            k - count_upto(lits, a, k),
            bf,
        ),
        forall|j: int| 0 <= j < select(lits, a, bt, bf, k).len() ==> #[trigger] select(lits, a, bt, bf, k)[j] < k,
        forall|j: int, l: int|
            0 <= j < l < select(lits, a, bt, bf, k).len() ==> #[trigger] select(lits, a, bt, bf, k)[j]
                < #[trigger] select(lits, a, bt, bf, k)[l],
        forall|p: int|
            0 <= p < k ==> (#[trigger] select(lits, a, bt, bf, k).contains(p as usize) <==> chosen(
                lits,
                a,
                bt,
                bf,
                p,
            )),
    decreases k,
{
    if k > 0 {
        lemma_select(lits, a, bt, bf, k - 1);
        lemma_count_bounds(lits, a, k - 1);
        let prev = select(lits, a, bt, bf, k - 1);
        let cur = select(lits, a, bt, bf, k);
        if chosen(lits, a, bt, bf, k - 1) {
            assert(cur == prev.push((k - 1) as usize));
        } else {
            assert(cur == prev);
        }
        assert forall|p: int| 0 <= p < k implies (#[trigger] cur.contains(p as usize) <==> chosen(lits, a, bt, bf, p)) by {
            if p < k - 1 {
                assert(prev.contains(p as usize) == chosen(lits, a, bt, bf, p));
                if cur.contains(p as usize) {
                    let j = choose|j: int| 0 <= j < cur.len() && cur[j] == p as usize;
                    if j < prev.len() {
                        assert(prev[j] == cur[j]);
                        assert(prev.contains(p as usize));
                    } else {
                        assert(cur[j] == (k - 1) as usize);
                    }
                }
                if prev.contains(p as usize) {
                    let j = choose|j: int| 0 <= j < prev.len() && prev[j] == p as usize;
                    assert(cur[j] == prev[j]);
                    assert(cur.contains(p as usize));
                }
            } else {
                if chosen(lits, a, bt, bf, k - 1) {
                    assert(cur[cur.len() - 1] == (k - 1) as usize);
                    assert(cur.contains(p as usize));
                } else if cur.contains(p as usize) {
                    let j = choose|j: int| 0 <= j < cur.len() && cur[j] == p as usize;
                    assert(prev[j] < k - 1);
                }
            }
        }
    }
}

proof fn lemma_nth_holding(lits: Seq<Lit>, a: Seq<int>, k: int, j: int)
    requires
        0 <= k <= lits.len(),
        0 <= j < count_upto(lits, a, k),
    ensures
        exists|p: int| 0 <= p < k && lit_holds(lits[p], a) && #[trigger] count_upto(lits, a, p) == j,
    decreases k,
{
    if j < count_upto(lits, a, k - 1) {
        lemma_nth_holding(lits, a, k - 1, j);
    } else {
        assert(count_upto(lits, a, k - 1) == j);
    }
}

proof fn lemma_first_failing(lits: Seq<Lit>, a: Seq<int>, k: int)
    requires
        0 <= k <= lits.len(),
        count_upto(lits, a, k) < k,
    ensures
        exists|p: int| 0 <= p < k && !lit_holds(lits[p], a) && p - #[trigger] count_upto(lits, a, p) == 0,
    decreases k,
{
    lemma_count_bounds(lits, a, k - 1);
    if count_upto(lits, a, k - 1) < k - 1 {
        lemma_first_failing(lits, a, k - 1);
    } else {
        assert(!lit_holds(lits[k - 1], a));
    }
}

proof fn lemma_rest_members(lits: Seq<Lit>, s: Seq<usize>, n: int)
    requires
        0 <= n <= lits.len() <= usize::MAX,
    ensures
        forall|p: int| 0 <= p < n && !s.contains(p as usize) ==> #[trigger] rest_upto(lits, s, n).contains(lits[p]),
        forall|q: int|
            0 <= q < rest_upto(lits, s, n).len() ==> exists|p: int|
                0 <= p < n && !s.contains(p as usize) && #[trigger] rest_upto(lits, s, n)[q] == lits[p],
    decreases n,
{
    if n > 0 {
        lemma_rest_members(lits, s, n - 1);
        let prev = rest_upto(lits, s, n - 1);
        let cur = rest_upto(lits, s, n);
        if s.contains((n - 1) as usize) {
            assert(cur == prev);
        } else {
            assert(cur == prev.push(lits[n - 1]));
        }
        assert forall|p: int| 0 <= p < n && !s.contains(p as usize) implies #[trigger] cur.contains(lits[p]) by {
            if p < n - 1 {
                assert(prev.contains(lits[p]));
                let q = choose|q: int| 0 <= q < prev.len() && prev[q] == lits[p];
                assert(cur[q] == prev[q]);
            } else {
                assert(cur[cur.len() - 1] == lits[p]);
            }
        }
        assert forall|q: int| 0 <= q < cur.len() implies exists|p: int|
            0 <= p < n && !s.contains(p as usize) && #[trigger] cur[q] == lits[p] by {
            if q < prev.len() {
                assert(cur[q] == prev[q]);
                let p = choose|p: int| 0 <= p < n - 1 && !s.contains(p as usize) && #[trigger] prev[q] == lits[p];
                assert(0 <= p < n && !s.contains(p as usize) && cur[q] == lits[p]);
            } else {
                assert(cur[q] == lits[n - 1]);
                assert(!s.contains((n - 1) as usize));
            }
        }
    } else {
        assert(rest_upto(lits, s, n).len() == 0);
    }
}

/// The exact-count encoding is exact: if, for every choice of `n` of the
/// literals, "all chosen hold" is equivalent to "no other holds", then exactly
/// `n` literals hold.
pub proof fn lemma_exactly_n(lits: Seq<Lit>, a: Seq<int>, n: int)
    requires
        1 <= n <= lits.len() <= usize::MAX,
        forall|s: Seq<usize>|
            #[trigger] is_combination(s, lits.len() as int, n) ==> (all_hold(pick(lits, s), a) == !any_holds(
                rest(lits, s),
                a,
            )),
    ensures
        count_holding(lits, a) == n,
{
    let m = lits.len() as int;
    let t = count_holding(lits, a);
    lemma_count_bounds(lits, a, m);
    lemma_rest_members(lits, seq![], m);
    if t > n {
        let s = select(lits, a, n, 0, m);
        lemma_select(lits, a, n, 0, m);
        assert(is_combination(s, m, n));
        assert forall|j: int| 0 <= j < pick(lits, s).len() implies lit_holds(#[trigger] pick(lits, s)[j], a) by {
            let p = s[j] as int;
            assert(s.contains(p as usize));
            lemma_count_bounds(lits, a, p);
            assert(chosen(lits, a, n, 0, p));
        }
        lemma_nth_holding(lits, a, m, n);
        let p = choose|p: int| 0 <= p < m && lit_holds(lits[p], a) && #[trigger] count_upto(lits, a, p) == n;
        assert(!s.contains(p as usize));
        lemma_rest_members(lits, s, m);
        assert(rest(lits, s).contains(lits[p]));
        let q = choose|q: int| 0 <= q < rest(lits, s).len() && rest(lits, s)[q] == lits[p];
        assert(any_holds(rest(lits, s), a));
    } else if t < n {
        let s = select(lits, a, m, n - t, m);
        lemma_select(lits, a, m, n - t, m);
        assert(is_combination(s, m, n));
        lemma_first_failing(lits, a, m);
        let p = choose|p: int| 0 <= p < m && !lit_holds(lits[p], a) && p - #[trigger] count_upto(lits, a, p) == 0;
        assert(s.contains(p as usize));
        let j = choose|j: int| 0 <= j < s.len() && s[j] == p as usize;
        assert(pick(lits, s)[j] == lits[p]);
        assert(!all_hold(pick(lits, s), a));
        assert(any_holds(rest(lits, s), a));
        lemma_rest_members(lits, s, m);
        let q = choose|q: int| 0 <= q < rest(lits, s).len() && lit_holds(#[trigger] rest(lits, s)[q], a);
        let p2 = choose|p2: int| 0 <= p2 < m && !s.contains(p2 as usize) && #[trigger] rest(lits, s)[q] == lits[p2];
        lemma_count_bounds(lits, a, p2);
        assert(chosen(lits, a, m, n - t, p2));
    }
}

proof fn lemma_neighbours_len(p: Pos, ss: Seq<Strip>, n: int)
    requires
        0 <= n,
    ensures
        neighbours_upto(p, ss, n).len() <= n,
    decreases n,
{
    if n > 0 {
        lemma_neighbours_len(p, ss, n - 1);
    }
}

/// In every model of the encoding, each clue has exactly as many of its
/// neighbour-bulb indicators holding as its number asks for.
pub proof fn lemma_clue_exact(
    g: Seq<Seq<char>>,
    ss: Seq<Strip>,
    cs: Seq<Constraint>,
    a: Seq<int>,
    r: int,
    c: int,
)
    requires
        grid_wf(g),
        stripes_of(g, ss),
        encodes(g, ss, cs),
        satisfies(cs, a),
        ss.len() <= usize::MAX,
        0 <= r < g.len(),
        0 <= c < g[r].len(),
        is_clue(g[r][c]),
    ensures
        count_holding(lits_of(neighbours((r as usize, c as usize), ss)), a) == clue_value(g[r][c]),
{
    let lits = lits_of(neighbours((r as usize, c as usize), ss));
    let n = clue_value(g[r][c]);
    lemma_neighbours_len((r as usize, c as usize), ss, ss.len() as int);
    assert(clue_encoded(g, ss, cs, r, c));
    if n == 0 {
        let k = choose|k: int| 0 <= k < cs.len() && #[trigger] is_none_of(cs[k], lits);
        assert(holds(cs[k], a));
        assert forall|p: int| 0 <= p < lits.len() implies !lit_holds(#[trigger] lits[p], a) by {}
        lemma_count_zero(lits, a, lits.len() as int);
    } else if lits.len() < n {
        let k = choose|k: int| 0 <= k < cs.len() && cs[k] == Constraint::Unsatisfiable;
        assert(holds(cs[k], a));
    } else {
        assert forall|s: Seq<usize>| #[trigger] is_combination(s, lits.len() as int, n) implies (all_hold(
            pick(lits, s),
            a,
        ) == !any_holds(rest(lits, s), a)) by {
            assert(has_group(cs, pick(lits, s), rest(lits, s)));
            let k = choose|k: int| 0 <= k < cs.len() && #[trigger] is_group(cs[k], pick(lits, s), rest(lits, s));
            assert(holds(cs[k], a));
        }
        lemma_exactly_n(lits, a, n);
    }
}

/// A neighbour-bulb indicator of `p` holds under a model exactly when
/// decoding that model puts its stripe's bulb on the indicator's cell, which
/// is orthogonally next to `p`.
pub proof fn lemma_indicator_is_bulb(g: Seq<Seq<char>>, ss: Seq<Strip>, vals: Seq<u64>, p: Pos, k: int)
    requires
        stripes_of(g, ss),
        ss.len() <= usize::MAX,
        vals.len() == ss.len(),
        0 <= k < neighbours(p, ss).len(),
    ensures
        lit_holds(lits_of(neighbours(p, ss))[k], vals.map_values(|v: u64| v as int)) == bulb_of(
            ss,
            vals,
            neighbours(p, ss)[k].0 as int,
            neighbours(p, ss)[k].1.0 as int,
            neighbours(p, ss)[k].1.1 as int,
        ),
{
    lemma_neighbour_cells(g, p, ss);
    let (i, q) = neighbours(p, ss)[k];
    assert(0 <= i < ss.len());
}

} // verus!
