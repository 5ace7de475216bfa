use vstd::prelude::*;
use crate::board::{cells_of, grid_wf, placeable};

verus! {

/// A grid position: row, column.
pub type Pos = (usize, usize);

/// A maximal horizontal run of placeable cells: row, (first column, last column).
pub type Strip = (usize, (usize, usize));

pub open spec fn is_placeable_at(g: Seq<Seq<char>>, r: int, c: int) -> bool {
    0 <= r < g.len() && 0 <= c < g[r].len() && placeable(g[r][c])
}

/// `s` is a maximal run of placeable cells of `g`.
pub open spec fn is_stripe(g: Seq<Seq<char>>, s: Strip) -> bool {
    let (r, (a, e)) = s;
    &&& r < g.len()
    &&& a <= e < g[r as int].len()
    &&& forall|c: int| a <= c <= e ==> is_placeable_at(g, r as int, c)
    &&& (a == 0 || !is_placeable_at(g, r as int, a - 1))
    &&& !is_placeable_at(g, r as int, e + 1)
}

/// `s` comes before `t` in row-major, left-to-right order.
pub open spec fn before(s: Strip, t: Strip) -> bool {
    s.0 < t.0 || (s.0 == t.0 && s.1.1 < t.1.0)
}

pub open spec fn covers(s: Strip, r: int, c: int) -> bool {
    s.0 == r && s.1.0 <= c <= s.1.1
}

pub open spec fn covered(ss: Seq<Strip>, r: int, c: int) -> bool {
    exists|i: int| 0 <= i < ss.len() && #[trigger] covers(ss[i], r, c)
}

/// `ss` is the list of stripes of `g`: every entry a maximal run, in
/// row-major order, and every placeable cell on one of them.
pub open spec fn stripes_of(g: Seq<Seq<char>>, ss: Seq<Strip>) -> bool {
    &&& forall|i: int| 0 <= i < ss.len() ==> is_stripe(g, #[trigger] ss[i])
    &&& forall|i: int, j: int| 0 <= i < j < ss.len() ==> before(#[trigger] ss[i], #[trigger] ss[j])
    &&& forall|r: int, c: int| #[trigger] is_placeable_at(g, r, c) ==> covered(ss, r, c)
}

proof fn lemma_covered_push(ss: Seq<Strip>, s: Strip, r: int, c: int)
    requires
        covered(ss, r, c) || covers(s, r, c),
    ensures
        covered(ss.push(s), r, c),
{
    if covered(ss, r, c) {
        let i = choose|i: int| 0 <= i < ss.len() && #[trigger] covers(ss[i], r, c);
        assert(covers(ss.push(s)[i], r, c));
    } else {
        assert(covers(ss.push(s)[ss.len() as int], r, c));
    }
}

/// The stripes of a grid, in row-major, left-to-right order.
pub fn stripes_in(b: &Vec<Vec<char>>) -> (ss: Vec<Strip>)
    requires
        grid_wf(cells_of(b)),
    ensures
        stripes_of(cells_of(b), ss@),
        ss@ == the_stripes(cells_of(b)),
{
    let ghost g = cells_of(b);
    let mut ss: Vec<Strip> = Vec::new();
    let h = b.len();
    let mut r: usize = 0;
    while r < h
        invariant
            g == cells_of(b),
            grid_wf(g),
            h == g.len(),
            r <= h,
            forall|i: int| 0 <= i < ss@.len() ==> is_stripe(g, #[trigger] ss@[i]),
            forall|i: int, j: int|
                0 <= i < j < ss@.len() ==> before(#[trigger] ss@[i], #[trigger] ss@[j]),
            forall|i: int| 0 <= i < ss@.len() ==> (#[trigger] ss@[i]).0 < r,
            forall|rr: int, c: int|
                #[trigger] is_placeable_at(g, rr, c) && rr < r ==> covered(ss@, rr, c),
        decreases h - r,
    {
        let row = &b[r];
        assert(row@ == g[r as int]);
        let w = row.len();
        let mut c: usize = 0;
        while c < w
            invariant
                g == cells_of(b),
                grid_wf(g),
                h == g.len(),
                r < h,
                row@ == g[r as int],
                w == row@.len(),
                c <= w,
                c == 0 || !is_placeable_at(g, r as int, c - 1) || !is_placeable_at(g, r as int, c as int),
                forall|i: int| 0 <= i < ss@.len() ==> is_stripe(g, #[trigger] ss@[i]),
                forall|i: int, j: int|
                    0 <= i < j < ss@.len() ==> before(#[trigger] ss@[i], #[trigger] ss@[j]),
                forall|i: int|
                    0 <= i < ss@.len() ==> (#[trigger] ss@[i]).0 < r || (ss@[i].0 == r
                        && ss@[i].1.1 < c),
                forall|rr: int, cc: int|
                    #[trigger] is_placeable_at(g, rr, cc) && (rr < r || (rr == r && cc < c))
                        ==> covered(ss@, rr, cc),
            decreases w - c,
        {
            if row[c] == '-' || row[c] == 'o' {
                let start = c;
                while c < w && (row[c] == '-' || row[c] == 'o')
                    invariant
                        start <= c <= w,
                        w == row@.len(),
                        forall|k: int| start <= k < c ==> placeable(#[trigger] row@[k]),
                    decreases w - c,
                {
                    c = c + 1;
                }
                let s: Strip = (r, (start, c - 1));
                assert(is_stripe(g, s));
                let ghost old_ss = ss@;
                ss.push(s);
                assert forall|i: int, j: int| 0 <= i < j < ss@.len() implies before(
                    #[trigger] ss@[i],
                    #[trigger] ss@[j],
                ) by {
                    if j == old_ss.len() {
                        assert(ss@[i] == old_ss[i]);
                    } else {
                        assert(ss@[i] == old_ss[i] && ss@[j] == old_ss[j]);
                    }
                }
                assert forall|rr: int, cc: int|
                    #[trigger] is_placeable_at(g, rr, cc) && (rr < r || (rr == r && cc < c))
                        implies covered(ss@, rr, cc) by {
                    lemma_covered_push(old_ss, s, rr, cc);
                }
            } else {
                c = c + 1;
            }
        }
        r = r + 1;
    }
    assert forall|rr: int, cc: int| #[trigger] is_placeable_at(g, rr, cc) implies covered(
        ss@,
        rr,
        cc,
    ) by {
        assert(g[rr].len() == g[0].len());
    }
    proof {
        assert(stripes_of(g, ss@));
        lemma_stripes_unique(g, ss@, the_stripes(g));
    }
    ss
}

/// Two stripes that share a cell are the same stripe.
pub proof fn lemma_same_cell_same_stripe(g: Seq<Seq<char>>, s: Strip, t: Strip, r: int, c: int)
    requires
        is_stripe(g, s),
        is_stripe(g, t),
        covers(s, r, c),
        covers(t, r, c),
    ensures
        s == t,
{
    if t.1.0 < s.1.0 {
        assert(is_placeable_at(g, r, s.1.0 - 1));
    }
    if s.1.0 < t.1.0 {
        assert(is_placeable_at(g, r, t.1.0 - 1));
    }
    if t.1.1 < s.1.1 {
        assert(is_placeable_at(g, r, t.1.1 + 1));
    }
    if s.1.1 < t.1.1 {
        assert(is_placeable_at(g, r, s.1.1 + 1));
    }
}

pub open spec fn sorted(ss: Seq<Strip>) -> bool {
    &&& forall|i: int| 0 <= i < ss.len() ==> (#[trigger] ss[i]).1.0 <= ss[i].1.1
    &&& forall|i: int, j: int| 0 <= i < j < ss.len() ==> before(#[trigger] ss[i], #[trigger] ss[j])
}

proof fn lemma_sorted_unique(s1: Seq<Strip>, s2: Seq<Strip>)
    requires
        sorted(s1),
        sorted(s2),
        forall|x: Strip| s1.contains(x) <==> s2.contains(x),
    ensures
        s1 == s2,
    decreases s1.len(),
{
    if s1.len() == 0 {
        if s2.len() > 0 {
            assert(s2.contains(s2[0]));
        }
        assert(s1 =~= s2);
    } else {
        assert(s1.contains(s1[0]));
        assert(s2.len() > 0);
        assert(s2.contains(s2[0]));
        let j = choose|j: int| 0 <= j < s2.len() && s2[j] == s1[0];
        let i = choose|i: int| 0 <= i < s1.len() && s1[i] == s2[0];
        if j > 0 && i > 0 {
            assert(before(s2[0], s2[j]));
            assert(before(s1[0], s1[i]));
        }
        assert(s1[0] == s2[0]);
        let t1 = s1.drop_first();
        let t2 = s2.drop_first();
        assert forall|x: Strip| t1.contains(x) <==> t2.contains(x) by {
            if t1.contains(x) {
                let k = choose|k: int| 0 <= k < t1.len() && t1[k] == x;
                assert(before(s1[0], s1[k + 1]));
                assert(s2.contains(x));
                let l = choose|l: int| 0 <= l < s2.len() && s2[l] == x;
                assert(l != 0);
                assert(t2[l - 1] == x);
            }
            if t2.contains(x) {
                let k = choose|k: int| 0 <= k < t2.len() && t2[k] == x;
                assert(before(s2[0], s2[k + 1]));
                assert(s1.contains(x));
                let l = choose|l: int| 0 <= l < s1.len() && s1[l] == x;
                assert(l != 0);
                assert(t1[l - 1] == x);
            }
        }
        lemma_sorted_unique(t1, t2);
        assert(s1 =~= s2) by {
            assert forall|k: int| 0 <= k < s1.len() implies s1[k] == s2[k] by {
                if k > 0 {
                    assert(s1[k] == t1[k - 1]);
                    assert(s2[k] == t2[k - 1]);
                }
            }
        }
    }
}

/// Extraction is deterministic: a grid has exactly one list of stripes, so
/// any two extractions from the same grid agree entry for entry.
pub proof fn lemma_stripes_unique(g: Seq<Seq<char>>, s1: Seq<Strip>, s2: Seq<Strip>)
    requires
        stripes_of(g, s1),
        stripes_of(g, s2),
    ensures
        s1 == s2,
{
    assert forall|x: Strip| s1.contains(x) implies s2.contains(x) by {
        let i = choose|i: int| 0 <= i < s1.len() && s1[i] == x;
        assert(is_stripe(g, s1[i]));
        assert(is_placeable_at(g, x.0 as int, x.1.0 as int));
        let j = choose|j: int| 0 <= j < s2.len() && #[trigger] covers(s2[j], x.0 as int, x.1.0 as int);
        lemma_same_cell_same_stripe(g, x, s2[j], x.0 as int, x.1.0 as int);
        assert(s2[j] == x);
    }
    assert forall|x: Strip| s2.contains(x) implies s1.contains(x) by {
        let i = choose|i: int| 0 <= i < s2.len() && s2[i] == x;
        assert(is_stripe(g, s2[i]));
        assert(is_placeable_at(g, x.0 as int, x.1.0 as int));
        let j = choose|j: int| 0 <= j < s1.len() && #[trigger] covers(s1[j], x.0 as int, x.1.0 as int);
        lemma_same_cell_same_stripe(g, x, s1[j], x.0 as int, x.1.0 as int);
        assert(s1[j] == x);
    }
    assert(sorted(s1));
    assert(sorted(s2));
    lemma_sorted_unique(s1, s2);
}

/// The list of stripes of `g` (the only one, by `lemma_stripes_unique`).
pub open spec fn the_stripes(g: Seq<Seq<char>>) -> Seq<Strip> {
    choose|ss: Seq<Strip>| stripes_of(g, ss)
}

/// The cell of stripe `s` that lies orthogonally next to `p`, if any: the
/// cell beside `p` where `s` ends or starts right next to it in its row, or
/// the cell straight above or below `p` where `s` passes over that column.
pub open spec fn neighbour_pos(p: Pos, s: Strip) -> Option<Pos> {
    let (r, c) = p;
    let (sr, (a, e)) = s;
    if r == sr {
        if c == e + 1 {
            Some((r, e))
        } else if a >= 1 && c == a - 1 {
            Some((r, a))
        } else {
            None
        }
    } else if r == sr + 1 || sr == r + 1 {
        if a <= c <= e {
            Some((sr, c))
        } else {
            None
        }
    } else {
        None
    }
}

/// The stripes among the first `n` of `ss` that have a cell next to `p`,
/// with their index and that cell, in the order of `ss`.
pub open spec fn neighbours_upto(p: Pos, ss: Seq<Strip>, n: int) -> Seq<(usize, Pos)>
    decreases n,
{
    if n <= 0 {
        seq![]
    } else {
        let prev = neighbours_upto(p, ss, n - 1);
        match neighbour_pos(p, ss[n - 1]) {
            Some(q) => prev.push(((n - 1) as usize, q)),
            None => prev,
        }
    }
}

pub open spec fn neighbours(p: Pos, ss: Seq<Strip>) -> Seq<(usize, Pos)> {
    neighbours_upto(p, ss, ss.len() as int)
}

/// The stripes that have a cell orthogonally next to `p`, each with its index
/// in `strips` and that cell, in the order of `strips`.
pub fn get_neighbour_strips(p: Pos, strips: &Vec<Strip>) -> (res: Vec<(usize, Pos)>)
    ensures
        res@ == neighbours(p, strips@),
{
    let (r, c) = p;
    let mut res: Vec<(usize, Pos)> = Vec::new();
    let mut i: usize = 0;
    while i < strips.len()
        invariant
            p == (r, c),
            i <= strips@.len(),
            res@ == neighbours_upto(p, strips@, i as int),
        decreases strips@.len() - i,
    {
        let (sr, (a, e)) = strips[i];
        if r == sr {
            if e < usize::MAX && c == e + 1 {
                res.push((i, (r, e)));
            } else if a >= 1 && c == a - 1 {
                res.push((i, (r, a)));
            }
        } else if (sr < usize::MAX && r == sr + 1) || (r < usize::MAX && sr == r + 1) {
            if a <= c && c <= e {
                res.push((i, (sr, c)));
            }
        }
        i = i + 1;
    }
    res
}

/// `q` is orthogonally next to `p`.
pub open spec fn adjacent(p: Pos, q: Pos) -> bool {
    (q.0 == p.0 && (q.1 + 1 == p.1 || p.1 + 1 == q.1)) || (q.1 == p.1 && (q.0 + 1 == p.0 || p.0 + 1
        == q.0))
}

proof fn lemma_neighbours_upto(p: Pos, ss: Seq<Strip>, n: int)
    requires
        0 <= n <= ss.len() <= usize::MAX,
        forall|i: int| 0 <= i < ss.len() ==> (#[trigger] ss[i]).1.0 <= ss[i].1.1,
    ensures
        forall|k: int|
            0 <= k < neighbours_upto(p, ss, n).len() ==> {
                let (i, q) = #[trigger] neighbours_upto(p, ss, n)[k];
                &&& 0 <= i < n
                &&& neighbour_pos(p, ss[i as int]) == Some(q)
            },
        forall|k: int, l: int|
            0 <= k < l < neighbours_upto(p, ss, n).len() ==> (#[trigger] neighbours_upto(p, ss, n)[k]).0
                < (#[trigger] neighbours_upto(p, ss, n)[l]).0,
    decreases n,
{
    if n > 0 {
        lemma_neighbours_upto(p, ss, n - 1);
        let prev = neighbours_upto(p, ss, n - 1);
        let cur = neighbours_upto(p, ss, n);
        match neighbour_pos(p, ss[n - 1]) {
            Some(q) => {
                assert(cur == prev.push(((n - 1) as usize, q)));
                assert forall|k: int| 0 <= k < cur.len() implies {
                    let (i, q) = #[trigger] cur[k];
                    &&& 0 <= i < n
                    &&& neighbour_pos(p, ss[i as int]) == Some(q)
                } by {
                    if k < prev.len() {
                        assert(cur[k] == prev[k]);
                    }
                }
                assert forall|k: int, l: int| 0 <= k < l < cur.len() implies (#[trigger] cur[k]).0 < (#[trigger] cur[l]).0 by {
                    assert(cur[k] == prev[k]);
                    if l < prev.len() {
                        assert(cur[l] == prev[l]);
                    }
                }
            },
            None => {
                assert(cur == prev);
            },
        }
    }
}

/// Each neighbour-bulb indicator of `p` names a cell that is orthogonally
/// next to `p` and lies on the indicator's own stripe; the indicators belong
/// to distinct stripes, in the stripes' order.
pub proof fn lemma_neighbour_cells(g: Seq<Seq<char>>, p: Pos, ss: Seq<Strip>)
    requires
        stripes_of(g, ss),
        ss.len() <= usize::MAX,
    ensures
        forall|k: int|
            0 <= k < neighbours(p, ss).len() ==> {
                let (i, q) = #[trigger] neighbours(p, ss)[k];
                &&& 0 <= i < ss.len()
                &&& adjacent(p, q)
                &&& covers(ss[i as int], q.0 as int, q.1 as int)
            },
        forall|k: int, l: int|
            0 <= k < l < neighbours(p, ss).len() ==> (#[trigger] neighbours(p, ss)[k]).0
                < (#[trigger] neighbours(p, ss)[l]).0,
{
    assert forall|i: int| 0 <= i < ss.len() implies (#[trigger] ss[i]).1.0 <= ss[i].1.1 by {
        assert(is_stripe(g, ss[i]));
    }
    lemma_neighbours_upto(p, ss, ss.len() as int);
}

} // verus!
