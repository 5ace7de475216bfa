use vstd::prelude::*;
use vstd::string::StringSliceAdditionalSpecFns;
use crate::encode::{encode, encodes, lemma_no_column_conflict, has_partner, required, clue_required, column_required, not_both, clue_encoded, clues_encoded, column_encoded, columns_encoded, in_segment, lit_encoded, pair_encoded, segment_lits, is_if_empty, has_if_empty};
use crate::formula::{satisfies, Constraint};
use crate::dedup::same;
use crate::stripe::{covers, lemma_same_cell_same_stripe, covered, is_placeable_at, is_stripe, lemma_stripes_unique, stripes_in, stripes_of, the_stripes, Strip};

verus! {

/// A board cell character: `-` empty, `o` empty with a bulb, `x` wall, `0`..`4` clue.
pub open spec fn valid_cell(c: char) -> bool {
    c == '-' || c == 'o' || c == 'x' || ('0' <= c && c <= '4')
}

/// A cell on which a bulb may stand and through which light passes.
pub open spec fn placeable(c: char) -> bool {
    c == '-' || c == 'o'
}

pub open spec fn is_clue(c: char) -> bool {
    '0' <= c && c <= '4'
}

pub open spec fn clue_value(c: char) -> int {
    c as int - '0' as int
}

/// The number that a clue cell asks for.
pub fn clue_count(c: char) -> (n: usize)
    requires
        is_clue(c),
    ensures
        n == clue_value(c),
        n <= 4,
{
    (c as u32 - '0' as u32) as usize
}

/// How many orthogonal neighbours cell `(r, c)` has on an `h` by `w` board.
pub open spec fn neighbour_count(h: int, w: int, r: int, c: int) -> int {
    (if r > 0 { 1int } else { 0int }) + (if r + 1 < h { 1int } else { 0int }) + (if c > 0 {
        1int
    } else {
        0int
    }) + (if c + 1 < w { 1int } else { 0int })
}

/// Every clue asks for no more bulbs than its cell has neighbours.
pub open spec fn clues_fit(g: Seq<Seq<char>>) -> bool {
    forall|r: int, c: int|
        0 <= r < g.len() && 0 <= c < g[r].len() && is_clue(#[trigger] g[r][c]) ==> clue_value(g[r][c])
            <= neighbour_count(g.len() as int, g[r].len() as int, r, c)
}

/// A non-empty rectangular grid of valid cells whose clues fit their cells.
pub open spec fn grid_wf(g: Seq<Seq<char>>) -> bool {
    &&& g.len() >= 1
    &&& g[0].len() >= 1
    &&& forall|r: int| 0 <= r < g.len() ==> #[trigger] g[r].len() == g[0].len()
    &&& forall|r: int, c: int|
        0 <= r < g.len() && 0 <= c < g[r].len() ==> valid_cell(#[trigger] g[r][c])
    &&& clues_fit(g)
}

/// The text format, read byte by byte: lines are separated by `\n`, spaces
/// are dropped, and a line that was empty before dropping spaces is skipped.
/// The state after a prefix is the finished rows, the row being read, and
/// whether the current line has held any byte at all.
pub open spec fn scan(bs: Seq<u8>) -> (Seq<Seq<u8>>, Seq<u8>, bool)
    decreases bs.len(),
{
    if bs.len() == 0 {
        (seq![], seq![], false)
    } else {
        let (done, cur, seen) = scan(bs.drop_last());
        let b = bs.last();
        if b == 10u8 {
            if seen {
                (done.push(cur), seq![], false)
            } else {
                (done, seq![], false)
            }
        } else if b == 32u8 {
            (done, cur, true)
        } else {
            (done, cur.push(b), true)
        }
    }
}

/// The rows that a text holds, spaces removed, empty lines skipped.
pub open spec fn text_rows(bs: Seq<u8>) -> Seq<Seq<u8>> {
    let (done, cur, seen) = scan(bs);
    if seen {
        done.push(cur)
    } else {
        done
    }
}

/// The cell that a byte of the text stands for.
pub open spec fn byte_char(b: u8) -> char {
    if b == 45u8 {
        '-'
    } else if b == 111u8 {
        'o'
    } else if b == 120u8 {
        'x'
    } else if b == 48u8 {
        '0'
    } else if b == 49u8 {
        '1'
    } else if b == 50u8 {
        '2'
    } else if b == 51u8 {
        '3'
    } else if b == 52u8 {
        '4'
    } else {
        '?'
    }
}

fn to_cell(b: u8) -> (c: char)
    ensures
        c == byte_char(b),
        valid_byte(b) ==> valid_cell(c),
{
    if b == 45u8 {
        '-'
    } else if b == 111u8 {
        'o'
    } else if b == 120u8 {
        'x'
    } else if b == 48u8 {
        '0'
    } else if b == 49u8 {
        '1'
    } else if b == 50u8 {
        '2'
    } else if b == 51u8 {
        '3'
    } else if b == 52u8 {
        '4'
    } else {
        '?'
    }
}

pub open spec fn rows_empty(rows: Seq<Seq<u8>>) -> bool {
    rows.len() == 0 || rows[0].len() == 0
}

pub open spec fn rows_ragged(rows: Seq<Seq<u8>>) -> bool {
    exists|r: int| 0 <= r < rows.len() && #[trigger] rows[r].len() != rows[0].len()
}

pub open spec fn valid_byte(b: u8) -> bool {
    b == 45u8 || b == 111u8 || b == 120u8 || (48u8 <= b <= 52u8)
}

fn valid(b: u8) -> (r: bool)
    ensures
        r == valid_byte(b),
{
    b == 45u8 || b == 111u8 || b == 120u8 || (48u8 <= b && b <= 52u8)
}

pub open spec fn rows_chars(rows: Seq<Seq<u8>>) -> Seq<Seq<char>> {
    rows.map_values(|row: Seq<u8>| row.map_values(|b: u8| byte_char(b)))
}

/// Rows that form a board: at least one, the first non-empty, all of equal
/// length, every byte a cell.
pub open spec fn rows_ok(rows: Seq<Seq<u8>>) -> bool {
    &&& rows.len() >= 1
    &&& rows[0].len() >= 1
    &&& forall|r: int| 0 <= r < rows.len() ==> #[trigger] rows[r].len() == rows[0].len()
    &&& forall|r: int, c: int|
        0 <= r < rows.len() && 0 <= c < rows[r].len() ==> valid_byte(#[trigger] rows[r][c])
}

/// Stripe `i` of `ss` has its bulb on `(r, c)` under the values `vals`.
pub open spec fn bulb_of(ss: Seq<Strip>, vals: Seq<u64>, i: int, r: int, c: int) -> bool {
    ss[i].0 == r && vals[i] == c && c <= ss[i].1.1
}

/// Some stripe has its bulb on `(r, c)`.
pub open spec fn bulb_at(ss: Seq<Strip>, vals: Seq<u64>, r: int, c: int) -> bool {
    exists|i: int| 0 <= i < ss.len() && #[trigger] bulb_of(ss, vals, i, r, c)
}

/// Every value lies in the domain `[start, end + 1]` of its stripe.
pub open spec fn values_in_domain(ss: Seq<Strip>, vals: Seq<u64>) -> bool {
    &&& vals.len() == ss.len()
    &&& forall|i: int| 0 <= i < ss.len() ==> (#[trigger] ss[i]).1.0 <= vals[i] <= ss[i].1.1 + 1
}

/// `g` with a bulb marker on every cell where a stripe has its bulb.
pub open spec fn with_bulbs(g: Seq<Seq<char>>, ss: Seq<Strip>, vals: Seq<u64>) -> Seq<Seq<char>> {
    Seq::new(
        g.len(),
        |r: int| Seq::new(g[r].len(), |c: int| if bulb_at(ss, vals, r, c) { 'o' } else { g[r][c] }),
    )
}

#[derive(Debug, Clone, Copy, PartialEq, Eq, Structural)]
pub enum DecodeError {
    /// The model does not give exactly one value per stripe.
    WrongCount,
    /// A value lies outside its stripe's domain.
    OutOfDomain,
}

#[derive(Debug, Clone, Copy, PartialEq, Eq, Structural)]
pub enum BoardError {
    /// No row, or a first row without cells.
    Empty,
    /// Rows of different lengths.
    Ragged,
    /// A character that is no cell.
    BadCell,
    /// A clue asking for more bulbs than its cell has neighbours.
    ClueTooLarge,
}

/// The grid that nested vectors of cells hold.
pub open spec fn cells_of(b: &Vec<Vec<char>>) -> Seq<Seq<char>> {
    b@.map_values(|row: Vec<char>| row@)
}

/// An Akari board: a rectangular grid of cells.
#[derive(Debug, Clone)]
pub struct Akari {
    pub(crate) board: Vec<Vec<char>>,
}

impl Akari {
    pub closed spec fn grid(&self) -> Seq<Seq<char>> {
        cells_of(&self.board)
    }

    pub open spec fn wf(&self) -> bool {
        grid_wf(self.grid())
    }

    pub open spec fn rows(&self) -> int {
        self.grid().len() as int
    }

    pub open spec fn cols(&self) -> int {
        self.grid()[0].len() as int
    }

    /// Reads a board from text: one row per line, `-` empty, `o` a bulb on
    /// an empty cell, `x` a wall, `0` to `4` a clue; spaces are ignored and
    /// empty lines skipped.
    pub fn parse(text: &str) -> (res: Result<Akari, BoardError>)
        ensures
            rows_empty(text_rows(text.spec_bytes())) ==> res == Err::<Akari, BoardError>(BoardError::Empty),
            !rows_empty(text_rows(text.spec_bytes())) && rows_ragged(text_rows(text.spec_bytes()))
                ==> res == Err::<Akari, BoardError>(BoardError::Ragged),
            !rows_empty(text_rows(text.spec_bytes())) && !rows_ragged(text_rows(text.spec_bytes()))
                && !rows_ok(text_rows(text.spec_bytes())) ==> res == Err::<Akari, BoardError>(BoardError::BadCell),
            rows_ok(text_rows(text.spec_bytes())) && !clues_fit(rows_chars(text_rows(text.spec_bytes())))
                ==> res == Err::<Akari, BoardError>(BoardError::ClueTooLarge),
            res is Ok <==> rows_ok(text_rows(text.spec_bytes())) && clues_fit(rows_chars(text_rows(text.spec_bytes()))),
            res matches Ok(a) ==> a.wf() && a.grid() == rows_chars(text_rows(text.spec_bytes())),
    {
        let bs = text.as_bytes();
        let ghost all = text.spec_bytes();
        let mut done: Vec<Vec<u8>> = Vec::new();
        let mut cur: Vec<u8> = Vec::new();
        let mut seen = false;
        let mut i: usize = 0;
        while i < bs.len()
            invariant
                bs@ == all,
                i <= all.len(),
                scan(all.take(i as int)) == (done@.map_values(|v: Vec<u8>| v@), cur@, seen),
            decreases all.len() - i,
        {
            let b = bs[i];
            assert(all.take(i + 1).drop_last() =~= all.take(i as int));
            if b == 10u8 {
                if seen {
                    done.push(cur);
                    assert(done@.map_values(|v: Vec<u8>| v@) =~= scan(all.take(i as int)).0.push(scan(all.take(i as int)).1));
                }
                cur = Vec::new();
                seen = false;
            } else if b == 32u8 {
                seen = true;
            } else {
                cur.push(b);
                seen = true;
            }
            i = i + 1;
        }
        assert(all.take(all.len() as int) =~= all);
        if seen {
            done.push(cur);
        }
        let ghost rows = text_rows(all);
        assert(done@.map_values(|v: Vec<u8>| v@) =~= rows);
        if done.len() == 0 || done[0].len() == 0 {
            return Err(BoardError::Empty);
        }
        let w = done[0].len();
        let mut r: usize = 0;
        while r < done.len()
            invariant
                rows == done@.map_values(|v: Vec<u8>| v@),
                rows == text_rows(all),
                all == text.spec_bytes(),
                !rows_empty(rows),
                w == rows[0].len(),
                rows.len() >= 1,
                r <= rows.len(),
                forall|q: int| 0 <= q < r ==> #[trigger] rows[q].len() == w,
            decreases rows.len() - r,
        {
            assert(rows[r as int] == done@[r as int]@);
            if done[r].len() != w {
                assert(rows[r as int].len() != rows[0].len());
                return Err(BoardError::Ragged);
            }
            r = r + 1;
        }
        assert(!rows_ragged(rows));
        let mut board: Vec<Vec<char>> = Vec::new();
        r = 0;
        while r < done.len()
            invariant
                rows == done@.map_values(|v: Vec<u8>| v@),
                rows == text_rows(all),
                all == text.spec_bytes(),
                !rows_empty(rows),
                !rows_ragged(rows),
                w == rows[0].len(),
                w >= 1,
                rows.len() >= 1,
                r <= rows.len(),
                forall|q: int| 0 <= q < rows.len() ==> #[trigger] rows[q].len() == w,
                forall|q: int, c: int| 0 <= q < r && 0 <= c < w ==> valid_byte(#[trigger] rows[q][c]),
                cells_of(&board) == rows_chars(rows.take(r as int)),
            decreases rows.len() - r,
        {
            assert(rows[r as int] == done@[r as int]@);
            let row = &done[r];
            let mut out: Vec<char> = Vec::new();
            let mut c: usize = 0;
            while c < w
                invariant
                    rows == text_rows(all),
                    all == text.spec_bytes(),
                    !rows_empty(rows),
                    !rows_ragged(rows),
                    r < rows.len(),
                    row@ == rows[r as int],
                    w == row@.len(),
                    c <= w,
                    forall|k: int| 0 <= k < c ==> valid_byte(#[trigger] row@[k]),
                    out@ == row@.take(c as int).map_values(|b: u8| byte_char(b)),
                decreases w - c,
            {
                if !valid(row[c]) {
                    assert(!valid_byte(rows[r as int][c as int]));
                    return Err(BoardError::BadCell);
                }
                out.push(to_cell(row[c]));
                c = c + 1;
                assert(out@ =~= row@.take(c as int).map_values(|b: u8| byte_char(b)));
            }
            assert(row@.take(w as int) =~= row@);
            let ghost before = cells_of(&board);
            board.push(out);
            assert(cells_of(&board) =~= before.push(out@));
            assert(rows_chars(rows.take(r + 1)) =~= rows_chars(rows.take(r as int)).push(rows[r as int].map_values(|b: u8| byte_char(b))));
            r = r + 1;
        }
        assert(rows.take(rows.len() as int) =~= rows);
        let ghost g = rows_chars(rows);
        assert(cells_of(&board) == g);
        assert(rows_ok(rows));
        let h = board.len();
        r = 0;
        while r < h
            invariant
                cells_of(&board) == g,
                g == rows_chars(rows),
                rows == text_rows(all),
                all == text.spec_bytes(),
                rows_ok(rows),
                rows.len() >= 1,
                forall|q: int| 0 <= q < rows.len() ==> #[trigger] rows[q].len() == w,
                forall|q: int, c: int| 0 <= q < rows.len() && 0 <= c < w ==> valid_byte(#[trigger] rows[q][c]),
                h == g.len(),
                r <= h,
                forall|q: int, c: int|
                    0 <= q < r && 0 <= c < g[q].len() && is_clue(#[trigger] g[q][c]) ==> clue_value(g[q][c])
                        <= neighbour_count(g.len() as int, g[q].len() as int, q, c),
            decreases h - r,
        {
            assert(board@[r as int]@ == g[r as int]);
            let mut c: usize = 0;
            while c < w
                invariant
                    cells_of(&board) == g,
                    g == rows_chars(rows),
                    h == g.len(),
                    r < h,
                    w == g[r as int].len(),
                    board@[r as int]@ == g[r as int],
                    c <= w,
                    rows == text_rows(all),
                    all == text.spec_bytes(),
                    rows_ok(rows),
                    rows.len() == h,
                    forall|q: int| 0 <= q < rows.len() ==> #[trigger] rows[q].len() == w,
                    forall|q: int, cc: int|
                        ((0 <= q < r && 0 <= cc < g[q].len()) || (q == r && 0 <= cc < c)) && is_clue(#[trigger] g[q][cc]) ==> clue_value(g[q][cc])
                            <= neighbour_count(g.len() as int, g[q].len() as int, q, cc),
                decreases w - c,
            {
                let x = board[r][c];
                assert(valid_byte(rows[r as int][c as int]));
                assert(x == byte_char(rows[r as int][c as int]));
                if x != '-' && x != 'o' && x != 'x' {
                    let n = clue_count(x);
                    let mut room: usize = 0;
                    if r > 0 {
                        room = room + 1;
                    }
                    if r + 1 < h {
                        room = room + 1;
                    }
                    if c > 0 {
                        room = room + 1;
                    }
                    if c + 1 < w {
                        room = room + 1;
                    }
                    if n > room {
                        assert(!clues_fit(g));
                        return Err(BoardError::ClueTooLarge);
                    }
                }
                c = c + 1;
            }
            r = r + 1;
        }
        let a = Akari { board };
        proof {
            assert(a.grid() == rows_chars(rows));
            assert forall|q: int, c: int| 0 <= q < a.grid().len() && 0 <= c < a.grid()[q].len() implies valid_cell(#[trigger] a.grid()[q][c]) by {
                assert(valid_byte(rows[q][c]));
            }
        }
        Ok(a)
    }

    /// The number of rows and of columns.
    pub fn get_dim(&self) -> (r: (usize, usize))
        requires
            self.wf(),
        ensures
            r.0 == self.rows(),
            r.1 == self.cols(),
    {
        assert(self.grid()[0] == self.board@[0]@);
        (self.board.len(), self.board[0].len())
    }

    /// The stripes of the board: its maximal horizontal runs of empty cells,
    /// row by row, left to right.
    pub fn get_stripes(&self) -> (ss: Vec<Strip>)
        requires
            self.wf(),
        ensures
            ss@ == the_stripes(self.grid()),
            stripes_of(self.grid(), ss@),
    {
        stripes_in(&self.board)
    }

    /// The constraints whose models are the solutions of the board, over one
    /// variable per stripe (the `i`-th variable belongs to the `i`-th stripe).
    pub fn get_asserts(&self) -> (cs: Vec<Constraint>)
        requires
            self.wf(),
        ensures
            stripes_of(self.grid(), the_stripes(self.grid())),
            the_stripes(self.grid()).len() <= usize::MAX,
            encodes(self.grid(), the_stripes(self.grid()), cs@),
            forall|k: int| 0 <= k < cs@.len() ==> required(self.grid(), the_stripes(self.grid()), #[trigger] cs@[k]),
            forall|k: int, l: int| 0 <= k < l < cs@.len() ==> !same(#[trigger] cs@[k], #[trigger] cs@[l]),
    {
        encode(&self.board)
    }

    /// Marks the bulbs of a model (one value per stripe, in stripe order)
    /// on the board. Fails, leaving the board as it was, when the model
    /// does not give one value in each stripe's domain.
    pub fn set_solution(&mut self, values: &Vec<u64>) -> (res: Result<(), DecodeError>)
        requires
            old(self).wf(),
        ensures
            final(self).wf(),
            stripes_of(old(self).grid(), the_stripes(old(self).grid())),
            values@.len() != the_stripes(old(self).grid()).len() ==> res == Err::<(), DecodeError>(DecodeError::WrongCount),
            values@.len() == the_stripes(old(self).grid()).len() && !values_in_domain(the_stripes(old(self).grid()), values@)
                ==> res == Err::<(), DecodeError>(DecodeError::OutOfDomain),
            res is Ok <==> values_in_domain(the_stripes(old(self).grid()), values@),
            res is Ok ==> final(self).grid() == with_bulbs(old(self).grid(), the_stripes(old(self).grid()), values@),
            res is Err ==> final(self).grid() == old(self).grid(),
    {
        let ghost g0 = self.grid();
        let ss = stripes_in(&self.board);
        proof {
            lemma_stripes_unique(g0, ss@, the_stripes(g0));
        }
        if values.len() != ss.len() {
            return Err(DecodeError::WrongCount);
        }
        let mut i: usize = 0;
        while i < ss.len()
            invariant
                self.grid() == g0,
                g0 == old(self).grid(),
                grid_wf(g0),
                ss@ == the_stripes(g0),
                stripes_of(g0, ss@),
                i <= ss@.len(),
                values@.len() == ss@.len(),
                forall|j: int| 0 <= j < i ==> (#[trigger] ss@[j]).1.0 <= values@[j] <= ss@[j].1.1 + 1,
            decreases ss@.len() - i,
        {
            let (_, (a, e)) = ss[i];
            if (values[i] as u128) < a as u128 || values[i] as u128 > e as u128 + 1 {
                return Err(DecodeError::OutOfDomain);
            }
            i = i + 1;
        }
        let mut k: usize = 0;
        while k < ss.len()
            invariant
                g0 == old(self).grid(),
                grid_wf(g0),
                ss@ == the_stripes(g0),
                stripes_of(g0, ss@),
                values_in_domain(ss@, values@),
                k <= ss@.len(),
                self.board@.len() == g0.len(),
                forall|r: int| 0 <= r < g0.len() ==> (#[trigger] self.board@[r])@.len() == g0[r].len(),
                forall|r: int, c: int| 0 <= r < g0.len() && 0 <= c < g0[r].len() ==>
                    #[trigger] self.board@[r]@[c] == if exists|j: int| 0 <= j < k && #[trigger] bulb_of(ss@, values@, j, r, c) { 'o' } else { g0[r][c] },
            decreases ss@.len() - k,
        {
            let (r, (_, e)) = ss[k];
            let v = values[k];
            if v <= e as u64 {
                proof {
                    assert(is_stripe(g0, ss@[k as int]));
                }
                let vc = v as usize;
                self.board[r][vc] = 'o';
            }
            proof {
                assert forall|rr: int, c: int| 0 <= rr < g0.len() && 0 <= c < g0[rr].len() implies
                    #[trigger] self.board@[rr]@[c] == if exists|j: int| 0 <= j < k + 1 && #[trigger] bulb_of(ss@, values@, j, rr, c) { 'o' } else { g0[rr][c] } by {
                    if bulb_of(ss@, values@, k as int, rr, c) {
                    } else {
                        if exists|j: int| 0 <= j < k + 1 && #[trigger] bulb_of(ss@, values@, j, rr, c) {
                            let j = choose|j: int| 0 <= j < k + 1 && #[trigger] bulb_of(ss@, values@, j, rr, c);
                            assert(j < k);
                        }
                    }
                }
            }
            k = k + 1;
        }
        proof {
            assert(self.grid() =~= with_bulbs(g0, ss@, values@)) by {
                assert forall|r: int| 0 <= r < g0.len() implies #[trigger] self.grid()[r] =~= with_bulbs(g0, ss@, values@)[r] by {
                    assert forall|c: int| 0 <= c < g0[r].len() implies self.grid()[r][c] == with_bulbs(g0, ss@, values@)[r][c] by {
                        assert(self.board@[r]@[c] == if exists|j: int| 0 <= j < ss@.len() && #[trigger] bulb_of(ss@, values@, j, r, c) { 'o' } else { g0[r][c] });
                    }
                }
            }
        }
        Ok(())
    }

    /// The cell at row `r`, column `c`.
    pub fn cell(&self, r: usize, c: usize) -> (x: char)
        requires
            self.wf(),
            r < self.rows(),
            c < self.cols(),
        ensures
            x == self.grid()[r as int][c as int],
    {
        assert(self.grid()[r as int] == self.board@[r as int]@);
        self.board[r][c]
    }
}

proof fn lemma_bulbs_on_placeable(g: Seq<Seq<char>>, ss: Seq<Strip>, vals: Seq<u64>)
    requires
        grid_wf(g),
        stripes_of(g, ss),
        values_in_domain(ss, vals),
    ensures
        grid_wf(with_bulbs(g, ss, vals)),
        with_bulbs(g, ss, vals).len() == g.len(),
        forall|r: int| 0 <= r < g.len() ==> #[trigger] with_bulbs(g, ss, vals)[r].len() == g[r].len(),
        forall|r: int, c: int|
            #[trigger] is_placeable_at(with_bulbs(g, ss, vals), r, c) == is_placeable_at(g, r, c),
        forall|r: int, c: int|
            0 <= r < g.len() && 0 <= c < g[r].len() && !placeable(g[r][c]) ==> #[trigger] with_bulbs(g, ss, vals)[r][c] == g[r][c],
{
    let h = with_bulbs(g, ss, vals);
    assert forall|r: int, c: int| 0 <= r < g.len() && 0 <= c < g[r].len() && bulb_at(ss, vals, r, c) implies placeable(#[trigger] g[r][c]) by {
        let i = choose|i: int| 0 <= i < ss.len() && #[trigger] bulb_of(ss, vals, i, r, c);
        assert(is_stripe(g, ss[i]));
        assert(is_placeable_at(g, r, c));
    }
    assert forall|r: int, c: int| #[trigger] is_placeable_at(h, r, c) == is_placeable_at(g, r, c) by {
        if 0 <= r < g.len() && 0 <= c < g[r].len() {
            if bulb_at(ss, vals, r, c) {
                assert(placeable(g[r][c]));
            }
        }
    }
    assert forall|r: int| 0 <= r < h.len() implies #[trigger] h[r].len() == h[0].len() by {
        assert(g[r].len() == g[0].len());
    }
    assert forall|r: int, c: int| 0 <= r < h.len() && 0 <= c < h[r].len() implies valid_cell(#[trigger] h[r][c]) by {
        assert(valid_cell(g[r][c]));
    }
}

/// Marking bulbs is invisible to extraction and encoding: bulbs stand on
/// empty cells and count as empty, so a solved board has the same stripes as
/// the board it came from, and the same constraints describe both.
pub proof fn lemma_solved_board_encodes_alike(g: Seq<Seq<char>>, ss: Seq<Strip>, vals: Seq<u64>, cs: Seq<crate::formula::Constraint>)
    requires
        grid_wf(g),
        stripes_of(g, ss),
        values_in_domain(ss, vals),
    ensures
        grid_wf(with_bulbs(g, ss, vals)),
        the_stripes(with_bulbs(g, ss, vals)) == ss,
        encodes(with_bulbs(g, ss, vals), ss, cs) == encodes(g, ss, cs),
        forall|k: int| 0 <= k < cs.len() ==> required(with_bulbs(g, ss, vals), ss, #[trigger] cs[k]) == required(g, ss, cs[k]),
{
    let h = with_bulbs(g, ss, vals);
    lemma_bulbs_on_placeable(g, ss, vals);
    assert forall|i: int| 0 <= i < ss.len() implies is_stripe(h, #[trigger] ss[i]) by {
        assert(is_stripe(g, ss[i]));
    }
    assert forall|r: int, c: int| #[trigger] is_placeable_at(h, r, c) implies covered(ss, r, c) by {
        assert(is_placeable_at(g, r, c));
    }
    assert(stripes_of(h, ss));
    lemma_stripes_unique(h, ss, the_stripes(h));
    assert forall|c: int, i: int, j: int| #[trigger] in_segment(h, ss, c, i, j) == in_segment(g, ss, c, i, j) by {
        if in_segment(h, ss, c, i, j) {
            assert forall|r: int| (ss[i].0 <= r <= ss[j].0 || ss[j].0 <= r <= ss[i].0) implies #[trigger] is_placeable_at(g, r, c) by {
                assert(is_placeable_at(h, r, c));
            }
        }
        if in_segment(g, ss, c, i, j) {
            assert forall|r: int| (ss[i].0 <= r <= ss[j].0 || ss[j].0 <= r <= ss[i].0) implies #[trigger] is_placeable_at(h, r, c) by {
                assert(is_placeable_at(g, r, c));
            }
        }
    }
    assert forall|c: int, i: int, ls: Seq<crate::formula::Lit>| #[trigger] segment_lits(h, ss, c, i, ls) == segment_lits(g, ss, c, i, ls) by {
        assert forall|k: int| 0 <= k < ls.len() implies in_segment(h, ss, c, i, #[trigger] ls[k].var as int) == in_segment(g, ss, c, i, ls[k].var as int) by {}
        if segment_lits(h, ss, c, i, ls) {
            assert forall|j: int| #![trigger in_segment(g, ss, c, i, j)] j != i && in_segment(g, ss, c, i, j) implies ls.contains(crate::formula::Lit { var: j as usize, val: c as usize }) by {
                assert(in_segment(h, ss, c, i, j));
            }
        }
        if segment_lits(g, ss, c, i, ls) {
            assert forall|j: int| #![trigger in_segment(h, ss, c, i, j)] j != i && in_segment(h, ss, c, i, j) implies ls.contains(crate::formula::Lit { var: j as usize, val: c as usize }) by {
                assert(in_segment(g, ss, c, i, j));
            }
        }
    }
    assert forall|k: int, c: int, i: int| 0 <= k < cs.len() implies #[trigger] is_if_empty(cs[k], h, ss, c, i) == is_if_empty(cs[k], g, ss, c, i) by {}
    assert forall|c: int, i: int| #[trigger] lit_encoded(h, ss, cs, c, i) == lit_encoded(g, ss, cs, c, i) by {
        if has_partner(h, ss, c, i) {
            let j = choose|j: int| j != i && #[trigger] in_segment(h, ss, c, i, j);
            assert(in_segment(g, ss, c, i, j));
        }
        if has_partner(g, ss, c, i) {
            let j = choose|j: int| j != i && #[trigger] in_segment(g, ss, c, i, j);
            assert(in_segment(h, ss, c, i, j));
        }
        if has_if_empty(cs, h, ss, c, i) {
            let k = choose|k: int| 0 <= k < cs.len() && #[trigger] is_if_empty(cs[k], h, ss, c, i);
            assert(is_if_empty(cs[k], g, ss, c, i));
        }
        if has_if_empty(cs, g, ss, c, i) {
            let k = choose|k: int| 0 <= k < cs.len() && #[trigger] is_if_empty(cs[k], g, ss, c, i);
            assert(is_if_empty(cs[k], h, ss, c, i));
        }
    }
    assert forall|c: int, i: int, j: int| #[trigger] pair_encoded(h, ss, cs, c, i, j) == pair_encoded(g, ss, cs, c, i, j) by {
        assert(in_segment(h, ss, c, i, j) == in_segment(g, ss, c, i, j));
    }
    assert forall|c: int| #[trigger] column_encoded(h, ss, cs, c) == column_encoded(g, ss, cs, c) by {
        if column_encoded(h, ss, cs, c) {
            assert forall|i: int, j: int| #[trigger] pair_encoded(g, ss, cs, c, i, j) by {
                assert(pair_encoded(h, ss, cs, c, i, j));
            }
            assert forall|i: int| #[trigger] lit_encoded(g, ss, cs, c, i) by {
                assert(lit_encoded(h, ss, cs, c, i));
            }
        }
        if column_encoded(g, ss, cs, c) {
            assert forall|i: int, j: int| #[trigger] pair_encoded(h, ss, cs, c, i, j) by {
                assert(pair_encoded(g, ss, cs, c, i, j));
            }
            assert forall|i: int| #[trigger] lit_encoded(h, ss, cs, c, i) by {
                assert(lit_encoded(g, ss, cs, c, i));
            }
        }
    }
    assert(h[0].len() == g[0].len());
    if columns_encoded(h, ss, cs) {
        assert forall|c: int| 0 <= c < g[0].len() implies #[trigger] column_encoded(g, ss, cs, c) by {
            assert(column_encoded(h, ss, cs, c));
        }
    }
    if columns_encoded(g, ss, cs) {
        assert forall|c: int| 0 <= c < h[0].len() implies #[trigger] column_encoded(h, ss, cs, c) by {
            assert(column_encoded(g, ss, cs, c));
        }
    }
    assert forall|r: int, c: int| 0 <= r < g.len() && 0 <= c < g[r].len() && is_clue(g[r][c]) implies
        #[trigger] clue_encoded(h, ss, cs, r, c) == clue_encoded(g, ss, cs, r, c) && is_clue(h[r][c]) by {
        assert(h[r][c] == g[r][c]);
    }
    assert forall|r: int, c: int| 0 <= r < g.len() && 0 <= c < g[r].len() && is_clue(h[r][c]) implies is_clue(#[trigger] g[r][c]) by {
        if placeable(g[r][c]) {
            assert(is_placeable_at(h, r, c));
        }
    }
    if clues_encoded(h, ss, cs) {
        assert forall|r: int, c: int| 0 <= r < g.len() && 0 <= c < g[r].len() && is_clue(g[r][c]) implies #[trigger] clue_encoded(g, ss, cs, r, c) by {
            assert(h[r][c] == g[r][c]);
            assert(clue_encoded(h, ss, cs, r, c));
        }
    }
    if clues_encoded(g, ss, cs) {
        assert forall|r: int, c: int| 0 <= r < h.len() && 0 <= c < h[r].len() && is_clue(h[r][c]) implies #[trigger] clue_encoded(h, ss, cs, r, c) by {
            assert(is_clue(g[r][c]));
            assert(h[r][c] == g[r][c]);
            assert(clue_encoded(g, ss, cs, r, c));
        }
    }
    assert forall|k: int| 0 <= k < cs.len() implies required(h, ss, #[trigger] cs[k]) == required(g, ss, cs[k]) by {
        let x = cs[k];
        assert forall|r: int, c: int| #[trigger] clue_required(h, ss, x, r, c) == clue_required(g, ss, x, r, c) by {
            if 0 <= r < g.len() && 0 <= c < g[r].len() {
                if is_clue(g[r][c]) || is_clue(h[r][c]) {
                    assert(is_clue(g[r][c]));
                    assert(h[r][c] == g[r][c]);
                }
            }
        }
        assert forall|c: int, i: int| #[trigger] column_required(h, ss, x, c, i) == column_required(g, ss, x, c, i) by {
            assert(is_if_empty(x, h, ss, c, i) == is_if_empty(x, g, ss, c, i));
            if has_partner(h, ss, c, i) {
                let j = choose|j: int| j != i && #[trigger] in_segment(h, ss, c, i, j);
                assert(in_segment(g, ss, c, i, j));
            }
            if has_partner(g, ss, c, i) {
                let j = choose|j: int| j != i && #[trigger] in_segment(g, ss, c, i, j);
                assert(in_segment(h, ss, c, i, j));
            }
            if exists|j: int| i < j && #[trigger] in_segment(h, ss, c, i, j) && x == not_both(i as usize, j as usize, c as usize) {
                let j = choose|j: int| i < j && #[trigger] in_segment(h, ss, c, i, j) && x == not_both(i as usize, j as usize, c as usize);
                assert(in_segment(g, ss, c, i, j));
            }
            if exists|j: int| i < j && #[trigger] in_segment(g, ss, c, i, j) && x == not_both(i as usize, j as usize, c as usize) {
                let j = choose|j: int| i < j && #[trigger] in_segment(g, ss, c, i, j) && x == not_both(i as usize, j as usize, c as usize);
                assert(in_segment(h, ss, c, i, j));
            }
        }
        if required(h, ss, x) {
            if exists|r: int, c: int| #[trigger] clue_required(h, ss, x, r, c) {
                let (r, c) = choose|r: int, c: int| #[trigger] clue_required(h, ss, x, r, c);
                assert(clue_required(g, ss, x, r, c));
            }
            if exists|c: int, i: int| #[trigger] column_required(h, ss, x, c, i) {
                let (c, i) = choose|c: int, i: int| #[trigger] column_required(h, ss, x, c, i);
                assert(column_required(g, ss, x, c, i));
            }
        }
        if required(g, ss, x) {
            if exists|r: int, c: int| #[trigger] clue_required(g, ss, x, r, c) {
                let (r, c) = choose|r: int, c: int| #[trigger] clue_required(g, ss, x, r, c);
                assert(clue_required(h, ss, x, r, c));
            }
            if exists|c: int, i: int| #[trigger] column_required(g, ss, x, c, i) {
                let (c, i) = choose|c: int, i: int| #[trigger] column_required(g, ss, x, c, i);
                assert(column_required(h, ss, x, c, i));
            }
        }
    }
}

/// The "no bulb" value of a stripe decodes to no bulb: every cell of that
/// stripe keeps what it held.
pub proof fn lemma_sentinel_places_no_bulb(g: Seq<Seq<char>>, ss: Seq<Strip>, vals: Seq<u64>, k: int, c: int)
    requires
        grid_wf(g),
        stripes_of(g, ss),
        values_in_domain(ss, vals),
        0 <= k < ss.len(),
        vals[k] == ss[k].1.1 + 1,
        ss[k].1.0 <= c <= ss[k].1.1,
    ensures
        with_bulbs(g, ss, vals)[ss[k].0 as int][c] == g[ss[k].0 as int][c],
{
    let r = ss[k].0 as int;
    assert(is_stripe(g, ss[k]));
    if bulb_at(ss, vals, r, c) {
        let i = choose|i: int| 0 <= i < ss.len() && #[trigger] bulb_of(ss, vals, i, r, c);
        assert(is_stripe(g, ss[i]));
        assert(covers(ss[i], r, c) && covers(ss[k], r, c));
        lemma_same_cell_same_stripe(g, ss[i], ss[k], r, c);
        if i < k {
            assert(crate::stripe::before(ss[i], ss[k]));
        } else if k < i {
            assert(crate::stripe::before(ss[k], ss[i]));
        }
    }
}

/// Decoding a model of the encoding never puts two bulbs in one column with
/// only placeable cells between them.
pub proof fn lemma_decoded_no_column_conflict(
    g: Seq<Seq<char>>,
    ss: Seq<Strip>,
    cs: Seq<Constraint>,
    vals: Seq<u64>,
    c: int,
    r1: int,
    r2: int,
)
    requires
        grid_wf(g),
        stripes_of(g, ss),
        ss.len() <= usize::MAX,
        g[0].len() <= usize::MAX,
        encodes(g, ss, cs),
        satisfies(cs, vals.map_values(|v: u64| v as int)),
        values_in_domain(ss, vals),
        r1 < r2,
        forall|r: int| r1 <= r <= r2 ==> #[trigger] is_placeable_at(g, r, c),
    ensures
        !(bulb_at(ss, vals, r1, c) && bulb_at(ss, vals, r2, c)),
{
    if bulb_at(ss, vals, r1, c) && bulb_at(ss, vals, r2, c) {
        let a = vals.map_values(|v: u64| v as int);
        let i = choose|i: int| 0 <= i < ss.len() && #[trigger] bulb_of(ss, vals, i, r1, c);
        let j = choose|j: int| 0 <= j < ss.len() && #[trigger] bulb_of(ss, vals, j, r2, c);
        assert(is_stripe(g, ss[i]));
        assert(g[r1].len() == g[0].len());
        assert(in_segment(g, ss, c, i, j));
        assert(i != j);
        lemma_no_column_conflict(g, ss, cs, a, c, i, j);
    }
}

} // verus!
