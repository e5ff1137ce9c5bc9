//! The scans of the band engine: closing one word, and the singles.

use vstd::prelude::*;
use crate::band::state::{
    band_changed, cells_marked, digit_changed, digits_due, digits_marked, entry, entry_cell,
    entry_digit, lemma_cells_mark, lemma_close_cell, lemma_digit_words, words_due, BState,
    QUEUE_LEN, Queue,
};
use crate::band::tables::Tables;
use crate::bits::{
    bit16, bit32, group_bits16, group_bits32, lemma_count_lone, lemma_count_mono, lemma_count_some,
    lemma_count_witness, lemma_ext16, lemma_low_masks16, lemma_low_masks32, lemma_nonzero32,
    lemma_pop_band, lemma_small32, lemma_subset16, lemma_subset32, lowest32, pop32,
    without_lowest32,
};
use crate::boards::{
    admits, boards_ok, cand, dead, digits_at, keeps, lemma_bit_occupied, lemma_naked_next,
    lemma_naked_skip, lemma_settled_mono, lemma_within_cands, naked_at, naked_singles, tally,
    within,
};
use crate::grid::{is_grid, lemma_grid_facts};
use crate::layout::{
    band_cell, cut, implied, in_band, band_pos, lay, lemma_band_cell, lemma_cut, lemma_fits_closed,
    lemma_line_cell, lemma_lone, lemma_no_perm, lemma_single, lemma_views, lemma_views_row,
    line_cell, lone, views,
};
use crate::minirow::{
    closed_at, closed_word, closes, closure_of, has_perm, is_pattern, lemma_close_cells,
    lemma_closure_closed, lemma_in_some_perm,
    lemma_supported_lines, occupied, supported, BAND_ALL,
};
use crate::rest::{lemma_forced_sole, sole};

verus! {

broadcast use {group_bits16, group_bits32};

/// The two states agree on which cells are solved, and as what.
pub open spec fn same_solved(a: BState, b: BState) -> bool {
    &&& a.unsolved == b.unsolved
    &&& a.solved_rows == b.solved_rows
    &&& a.solved_cols == b.solved_cols
    &&& a.n_unsolved == b.n_unsolved
}

/// `q` is `q0` with more assignments, each to an open cell and each made by
/// every grid the boards admit.
pub open spec fn pushed(q0: Queue, q: Queue, s: BState) -> bool {
    &&& q.ok()
    &&& q0.len <= q.len
    &&& forall|j: int| 0 <= j < q0.len ==> #[trigger] q.buf[j] == q0.buf[j]
    &&& forall|j: int|
        q0.len <= j < q.len ==> s.open(entry_cell(#[trigger] q.buf[j])) && implied(
            s.bands@,
            entry_cell(q.buf[j]),
            entry_digit(q.buf[j]),
        )
}

/// Line `l` of band `bi` is recorded as solved for digit `d`.
pub open spec fn line_solved(s: BState, bi: int, l: int, d: int) -> bool {
    if bi < 3 {
        bit16(s.solved_rows[d], 3 * bi + l)
    } else {
        bit16(s.solved_cols[d], 3 * (bi - 3) + l)
    }
}

/// The hidden singles of digit `d` in the first `n` lines of band `bi` that
/// are not recorded as solved are queued.
pub open spec fn singles_queued(s: BState, q: Queue, bi: int, d: int, n: int) -> bool {
    forall|l: int, x: int|
        0 <= l < n && 0 <= x < 9 && !line_solved(s, bi, l, d) && #[trigger] lone(
            s.bands@,
            bi,
            d,
            l,
            x,
        ) ==> q.has(line_cell(bi, l, x), d)
}

/// The hidden single of digit `d` in line `l` of band `bi`, as a cell and a
/// digit, if the line has one and is not recorded as solved.
pub open spec fn line_single(s: BState, bi: int, d: int, l: int) -> Seq<(int, int)> {
    if !line_solved(s, bi, l, d) && exists|x: int|
        0 <= x < 9 && #[trigger] lone(s.bands@, bi, d, l, x) {
        let x = choose|x: int| 0 <= x < 9 && #[trigger] lone(s.bands@, bi, d, l, x);
        seq![(line_cell(bi, l, x), d)]
    } else {
        Seq::empty()
    }
}

/// The hidden singles of digit `d` in the first `n` lines of band `bi`.
pub open spec fn singles_of(s: BState, bi: int, d: int, n: int) -> Seq<(int, int)>
    decreases n,
{
    if n <= 0 {
        Seq::empty()
    } else {
        singles_of(s, bi, d, n - 1) + line_single(s, bi, d, n - 1)
    }
}

/// What is queued stays queued.
pub proof fn lemma_has_kept(q0: Queue, q: Queue, c: int, d: int)
    requires
        q0.has(c, d),
        q0.len <= q.len,
        forall|j: int| 0 <= j < q0.len ==> #[trigger] q.buf[j] == q0.buf[j],
    ensures
        q.has(c, d),
{
    let j = choose|j: int|
        0 <= j < q0.len && entry_cell(#[trigger] q0.buf[j]) == c && entry_digit(q0.buf[j]) == d;
    assert(q.buf[j] == q0.buf[j]);
}

/// One more line whose single, if it has one, is queued.
proof fn lemma_singles_kept(s: BState, q0: Queue, q: Queue, bi: int, d: int, r: int)
    requires
        0 <= r < 3,
        singles_queued(s, q0, bi, d, r),
        q0.len <= q.len,
        forall|j: int| 0 <= j < q0.len ==> #[trigger] q.buf[j] == q0.buf[j],
        forall|x: int|
            0 <= x < 9 && !line_solved(s, bi, r, d) && #[trigger] lone(s.bands@, bi, d, r, x)
                ==> q.has(line_cell(bi, r, x), d),
    ensures
        singles_queued(s, q, bi, d, r + 1),
{
    assert forall|l: int, x: int|
        0 <= l < r + 1 && 0 <= x < 9 && !line_solved(s, bi, l, d) && #[trigger] lone(
            s.bands@,
            bi,
            d,
            l,
            x,
        ) implies q.has(line_cell(bi, l, x), d) by {
        if l < r {
            lemma_has_kept(q0, q, line_cell(bi, l, x), d);
        }
    }
}

/// One more assignment.
proof fn lemma_pushed(q0: Queue, q1: Queue, q: Queue, s: BState)
    requires
        pushed(q0, q1, s),
        q.ok(),
        q.len == q1.len + 1,
        q.buf@ == q1.buf@.update(q1.len as int, q.buf[q1.len as int]),
        s.open(entry_cell(q.buf[q1.len as int])),
        implied(s.bands@, entry_cell(q.buf[q1.len as int]), entry_digit(q.buf[q1.len as int])),
    ensures
        pushed(q0, q, s),
{
    assert forall|j: int| 0 <= j < q0.len implies #[trigger] q.buf[j] == q0.buf[j] by {
        assert(q.buf[j] == q1.buf[j]);
    }
    assert forall|j: int| q0.len <= j < q.len implies s.open(entry_cell(#[trigger] q.buf[j]))
        && implied(s.bands@, entry_cell(q.buf[j]), entry_digit(q.buf[j])) by {
        if j < q1.len {
            assert(q.buf[j] == q1.buf[j]);
        }
    }
}

/// The only candidate of a line not recorded as solved is an open cell.
proof fn lemma_line_single(s: BState, m: u32, bi: int, d: int, l: int, x: int)
    requires
        s.solved_ok(),
        0 <= bi < 6,
        0 <= d < 9,
        0 <= l < 3,
        0 <= x < 9,
        views(m, s.bands@, bi, d),
        !line_solved(s, bi, l, d),
        bit32(m, 9 * l + x),
        forall|y: int| 0 <= y < 9 && #[trigger] bit32(m, 9 * l + y) ==> y == x,
    ensures
        s.open(band_cell(bi, 9 * l + x)),
        implied(s.bands@, band_cell(bi, 9 * l + x), d),
        bi < 3 ==> band_cell(bi, 9 * l + x) == 27 * bi + 9 * l + x,
{
    let p = 9 * l + x;
    let c = band_cell(bi, p);
    assert(p / 9 == l && p % 9 == x);
    lemma_single(m, s.bands@, bi, d, l, x);
    lemma_band_cell(bi, p);
    reveal(views);
    assert(cand(s.bands@, c, d));
    if !s.open(c) {
        assert(s.marked(c, d));
        if bi < 3 {
            assert(c / 9 == 3 * bi + l);
        } else {
            assert(c % 9 == 3 * (bi - 3) + l);
        }
    }
}

impl BState {
    /// A word that needs no scan is closed, but for one word.
    pub open spec fn clean_but(&self, b0: int, d0: int) -> bool {
        forall|b: int, d: int|
            0 <= b < 3 && 0 <= d < 9 && (b != b0 || d != d0) && !#[trigger] bit32(
                self.dirty_bd,
                3 * d + b,
            ) ==> closed_word(self.bands[9 * b + d])
    }

    /// Queues the hidden singles of a digit along the lines of a band; says
    /// whether there were any.
    pub fn push_singles(&self, q: &mut Queue, m: u32, bi: usize, d: usize, t: &Tables) -> (r: bool)
        requires
            self.shape(),
            self.solved_ok(),
            t.ok(),
            bi < 6,
            d < 9,
            views(m, self.bands@, bi as int, d as int),
            supported(m),
            old(q).ok(),
            old(q).len + 3 <= QUEUE_LEN,
        ensures
            pushed(*old(q), *final(q), *self),
            final(q).len <= old(q).len + 3,
            r <==> final(q).len > old(q).len,
            singles_queued(*self, *final(q), bi as int, d as int, 3),
            final(q).list() == old(q).list() + singles_of(*self, bi as int, d as int, 3),
    {
        let ghost q0 = *q;
        let solved = if bi < 3 {
            self.solved_rows[d] >> (3 * bi as u16)
        } else {
            self.solved_cols[d] >> (3 * (bi - 3) as u16)
        };
        proof {
            lemma_low_masks32();
            assert forall|l: int| 0 <= l < 3 implies (#[trigger] bit16(solved, l) <==> line_solved(
                *self,
                bi as int,
                l,
                d as int,
            )) by {}
        }
        let mut any = false;
        let mut r: usize = 0;
        proof {
            assert(q.list() =~= q0.list() + singles_of(*self, bi as int, d as int, 0));
        }
        while r < 3
            invariant
                q.list() == q0.list() + singles_of(*self, bi as int, d as int, r as int),
                r <= 3,
                bi < 6,
                d < 9,
                t.ok(),
                self.shape(),
                self.solved_ok(),
                views(m, self.bands@, bi as int, d as int),
                supported(m),
                q0.len + 3 <= QUEUE_LEN,
                pushed(q0, *q, *self),
                q.len <= q0.len + r,
                any <==> q.len > q0.len,
                singles_queued(*self, *q, bi as int, d as int, r as int),
                forall|i: int| #[trigger] bit32(0x1FFu32, i) <==> 0 <= i < 9,
                forall|l: int|
                    0 <= l < 3 ==> (#[trigger] bit16(solved, l) <==> line_solved(
                        *self,
                        bi as int,
                        l,
                        d as int,
                    )),
            decreases 3 - r,
        {
            proof {
                assert(bit16(solved, r as int) <==> (solved >> (r as u16)) & 1 == 1) by {
                    reveal(bit16);
                }
            }
            let ghost q2 = *q;
            if (solved >> (r as u16)) & 1 != 1 {
                let line = (m >> (9 * r as u32)) & 0x1FF;
                proof {
                    let x = lemma_supported_lines(m, r as int);
                    assert(bit32(line, x));
                    assert forall|y: int| #[trigger] bit32(line, y) <==> 0 <= y < 9 && bit32(
                        m,
                        9 * r + y,
                    ) by {}
                }
                let rest = without_lowest32(line);
                if rest == 0 {
                    let x = lowest32(line);
                    let idx = 9 * r + x;
                    let (b, i) = if bi < 3 {
                        (bi, idx)
                    } else {
                        t.stack_cell(bi - 3, idx)
                    };
                    proof {
                        assert forall|y: int| 0 <= y < 9 && #[trigger] bit32(
                            m,
                            9 * r + y,
                        ) implies y == x by {
                            assert(bit32(line, y));
                            assert(!bit32(0u32, y));
                        }
                        assert(bit32(line, x as int));
                        lemma_line_single(*self, m, bi as int, d as int, r as int, x as int);
                    }
                    let ghost q1 = *q;
                    q.push(entry(d, b, i));
                    any = true;
                    proof {
                        lemma_pushed(q0, q1, *q, *self);
                        lemma_line_cell(bi as int, r as int, x as int);
                        assert(entry_cell(q.buf[q1.len as int]) == line_cell(
                            bi as int,
                            r as int,
                            x as int,
                        ));
                        assert(q.has(line_cell(bi as int, r as int, x as int), d as int));
                        assert forall|y: int|
                            0 <= y < 9 && #[trigger] lone(
                                self.bands@,
                                bi as int,
                                d as int,
                                r as int,
                                y,
                            ) implies y == x by {
                            lemma_lone(m, self.bands@, bi as int, d as int, r as int, y);
                            assert(bit32(m, 9 * r + y));
                        }
                        assert(lone(self.bands@, bi as int, d as int, r as int, x as int)) by {
                            reveal(views);
                            assert forall|y: int|
                                0 <= y < 9 && #[trigger] cand(
                                    self.bands@,
                                    line_cell(bi as int, r as int, y),
                                    d as int,
                                ) implies y == x by {
                                lemma_line_cell(bi as int, r as int, y);
                                assert(bit32(m, 9 * r + y));
                            }
                            assert(bit32(m, 9 * r + x));
                        }
                        assert(line_single(*self, bi as int, d as int, r as int) == seq![
                            (line_cell(bi as int, r as int, x as int), d as int),
                        ]);
                        assert(q.list() =~= q1.list().push(
                            (line_cell(bi as int, r as int, x as int), d as int),
                        ));
                    }
                } else {
                    proof {
                        let z = lemma_nonzero32(rest);
                        assert(bit32(rest, z));
                        let w = choose|w: int|
                            #![trigger bit32(line, w)]
                            0 <= w < 32 && bit32(line, w) && (forall|j: int| #[trigger]
                                bit32(rest, j) <==> bit32(line, j) && j != w) && (forall|j: int|
                                0 <= j < w ==> !bit32(line, j));
                        assert(bit32(line, z) && z != w);
                        assert forall|y: int|
                            0 <= y < 9 implies !#[trigger] lone(
                                self.bands@,
                                bi as int,
                                d as int,
                                r as int,
                                y,
                            ) by {
                            if lone(self.bands@, bi as int, d as int, r as int, y) {
                                lemma_lone(m, self.bands@, bi as int, d as int, r as int, y);
                                assert(bit32(m, 9 * r + z) && bit32(m, 9 * r + w));
                            }
                        }
                    }
                }
            }
            proof {
                lemma_singles_kept(*self, q2, *q, bi as int, d as int, r as int);
                assert(q.list() =~= q2.list() + line_single(
                    *self,
                    bi as int,
                    d as int,
                    r as int,
                ));
                assert(q.list() =~= q0.list() + singles_of(
                    *self,
                    bi as int,
                    d as int,
                    r + 1,
                ));
            }
            r = r + 1;
        }
        any
    }

    /// Cuts one word down to the closure of its pattern, and returns it; zero
    /// if the digit has no place in the band.
    fn close_word(&mut self, d: usize, b: usize, t: &Tables) -> (a: u32)
        requires
            old(self).shape(),
            old(self).solved_ok(),
            old(self).clean_but(b as int, d as int),
            t.ok(),
            d < 9,
            b < 3,
        ensures
            a == 0 <==> !supported(old(self).bands[9 * b + d]),
            a == 0 ==> dead(old(self).bands@) && *final(self) == *old(self),
            cells_marked(*old(self), *final(self)),
            digits_marked(*old(self), *final(self)),
            words_due(*old(self), *final(self)),
            digits_due(*old(self), *final(self)),
            a != 0 ==> {
                &&& final(self).ok()
                &&& a == final(self).bands[9 * b + d]
                &&& closure_of(a, old(self).bands[9 * b + d])
                &&& forall|i: int|
                    0 <= i < 27 && i != 9 * b + d ==> #[trigger] final(self).bands[i] == old(
                        self,
                    ).bands[i]
                &&& supported(a)
                &&& within(final(self).bands@, old(self).bands@)
                &&& keeps(old(self).bands@, final(self).bands@)
            },
            same_solved(*old(self), *final(self)),
            final(self).dirty_bd == old(self).dirty_bd,
            a != 0 && final(self).bands@ == old(self).bands@ ==> final(self).dirty_cells
                == old(self).dirty_cells && final(self).tdirty == old(self).tdirty,
    {
        let ghost s0 = *self;
        let a0 = self.bands[9 * b + d];
        let s = t.pattern(a0);
        let s2 = t.closure(s);
        proof {
            lemma_in_some_perm(a0, s);
        }
        if s2 == 0 {
            proof {
                lemma_views_row(s0.bands@, b as int, d as int);
                lemma_no_perm(a0, s0.bands@, b as int, d as int, s);
            }
            return 0;
        }
        if s2 == s {
            proof {
                lemma_closed_same(a0, s);
                lemma_closed_word(a0, a0, s);
                lemma_scanned(s0, *self, b as int, d as int, s, s2);
            }
            return a0;
        }
        let a = a0 & t.cells(s2);
        proof {
            lemma_closed_part(a0, a, s, s2);
            lemma_closed_word(a0, a, s);
            lemma_cells_mark(self.dirty_cells, b as u16);
            lemma_digit_mark(self.tdirty, d as u16);
        }
        self.bands[9 * b + d] = a;
        self.dirty_cells = self.dirty_cells | (1u16 << (b as u16));
        self.tdirty = self.tdirty | (1u16 << (d as u16));
        proof {
            lemma_scanned(s0, *self, b as int, d as int, s, s2);
            assert(self.bands[9 * b + d] != s0.bands[9 * b + d]);
            assert(band_changed(s0, *self, b as int) && digit_changed(s0, *self, d as int));
        }
        a
    }

    /// Closes one word and queues its hidden singles; false if the digit has
    /// no place in the band.
    pub fn scan_band(&mut self, d: usize, b: usize, q: &mut Queue, t: &Tables) -> (r: bool)
        requires
            old(self).shape(),
            old(self).solved_ok(),
            old(self).clean_but(b as int, d as int),
            t.ok(),
            d < 9,
            b < 3,
            old(q).ok(),
            old(q).len + 3 <= QUEUE_LEN,
        ensures
            r <==> supported(old(self).bands[9 * b + d]),
            !r ==> dead(old(self).bands@) && *final(self) == *old(self) && *final(q) == *old(q),
            cells_marked(*old(self), *final(self)),
            digits_marked(*old(self), *final(self)),
            words_due(*old(self), *final(self)),
            digits_due(*old(self), *final(self)),
            r ==> final(q).list() == old(q).list() + singles_of(
                *final(self),
                b as int,
                d as int,
                3,
            ),
            r ==> final(self).ok(),
            r ==> closure_of(final(self).bands[9 * b + d], old(self).bands[9 * b + d]),
            r ==> forall|i: int|
                0 <= i < 27 && i != 9 * b + d ==> #[trigger] final(self).bands[i] == old(
                    self,
                ).bands[i],
            r ==> singles_queued(*final(self), *final(q), b as int, d as int, 3),
            r ==> within(final(self).bands@, old(self).bands@),
            r ==> keeps(old(self).bands@, final(self).bands@),
            same_solved(*old(self), *final(self)),
            final(self).dirty_bd == old(self).dirty_bd,
            r && final(self).bands@ == old(self).bands@ ==> final(self).dirty_cells
                == old(self).dirty_cells && final(self).tdirty == old(self).tdirty,
            r ==> pushed(*old(q), *final(q), *final(self)),
            final(q).len <= old(q).len + 3,
            final(q).ok(),
    {
        let a = self.close_word(d, b, t);
        if a == 0 {
            return false;
        }
        proof {
            lemma_views_row(self.bands@, b as int, d as int);
        }
        let _any = self.push_singles(q, a, b, d, t);
        true
    }
}

/// A word all of whose minirows are closed is its own closure.
proof fn lemma_closed_same(a0: u32, s: u16)
    requires
        a0 <= BAND_ALL,
        is_pattern(s, a0),
        closes(s, s),
    ensures
        forall|p: int| #[trigger]
            bit32(a0, p) <==> bit32(a0, p) && 0 <= p < 27 && closed_at(s, p / 3),
{
    assert forall|p: int| #[trigger] bit32(a0, p) implies 0 <= p < 27 && closed_at(s, p / 3) by {
        lemma_small32(a0, p);
        lemma_bit_occupied(a0, p);
        assert(bit16(s, p / 3));
        reveal(closes);
    }
}

/// A word that lost a minirow.
proof fn lemma_closed_part(a0: u32, a: u32, s: u16, s2: u16)
    requires
        a0 <= BAND_ALL,
        is_pattern(s, a0),
        closes(s2, s),
        forall|p: int| #[trigger] bit32(a, p) <==> bit32(a0, p) && 0 <= p < 27 && bit16(s2, p / 3),
        s2 != s,
    ensures
        forall|p: int| #[trigger]
            bit32(a, p) <==> bit32(a0, p) && 0 <= p < 27 && closed_at(s, p / 3),
        a != a0,
{
    assert forall|p: int| #[trigger] bit32(a, p) <==> bit32(a0, p) && 0 <= p < 27 && closed_at(
        s,
        p / 3,
    ) by {
        assert(bit16(s2, p / 3) <==> closed_at(s, p / 3)) by {
            reveal(closes);
        }
    }
    if a == a0 {
        lemma_close_cells(a0, s, a);
        assert forall|i: int| 0 <= i < 16 implies bit16(s2, i) == bit16(s, i) by {
            assert(bit16(s2, i) <==> closed_at(s, i)) by {
                reveal(closes);
            }
            assert(occupied(a, i) <==> closed_at(s, i));
            assert(bit16(s, i) <==> occupied(a0, i));
        }
        lemma_ext16(s2, s);
    }
}

/// The closure of a word supports the digit.
proof fn lemma_closed_word(a0: u32, a: u32, s: u16)
    requires
        is_pattern(s, a0),
        has_perm(s),
        forall|p: int| #[trigger]
            bit32(a, p) <==> bit32(a0, p) && 0 <= p < 27 && closed_at(s, p / 3),
    ensures
        a <= a0,
        a != 0,
        supported(a),
        closed_word(a),
{
    lemma_close_cells(a0, s, a);
    lemma_closure_closed(a0, s, a);
    lemma_subset32(a, a0);
    let x = lemma_supported_lines(a, 0);
    assert(!bit32(0u32, 9 * 0 + x));
}

/// Marking one of the nine digits.
pub proof fn lemma_digit_mark(m: u16, d: u16)
    requires
        m <= 0x1FF,
        d < 9,
    ensures
        m | (1u16 << d) <= 0x1FF,
{
    lemma_low_masks16();
    lemma_subset16(1u16 << d, 0x1FF);
    lemma_digit_words(m, 1u16 << d);
}

/// What a scan of one word leaves behind.
proof fn lemma_scanned(s0: BState, s: BState, b: int, d: int, pat: u16, occ: u16)
    requires
        s0.shape(),
        s0.solved_ok(),
        s0.clean_but(b, d),
        0 <= b < 3,
        0 <= d < 9,
        is_pattern(pat, s0.bands[9 * b + d]),
        closes(occ, pat),
        same_solved(s0, s),
        s.dirty_bd == s0.dirty_bd,
        s.dirty_cells <= 7,
        s.tdirty <= 0x1FF,
        s.bands[9 * b + d] <= s0.bands[9 * b + d],
        forall|p: int| #[trigger]
            bit32(s.bands[9 * b + d], p) <==> bit32(s0.bands[9 * b + d], p) && 0 <= p < 27
                && closed_at(pat, p / 3),
        forall|i: int| 0 <= i < 27 && i != 9 * b + d ==> #[trigger] s.bands[i] == s0.bands[i],
        closed_word(s.bands[9 * b + d]),
    ensures
        s.ok(),
        within(s.bands@, s0.bands@),
        keeps(s0.bands@, s.bands@),
{
    let (x, y) = (s0.bands@, s.bands@);
    assert(boards_ok(y)) by {
        assert forall|i: int| 0 <= i < 27 implies #[trigger] y[i] <= BAND_ALL by {
            assert(x[i] <= BAND_ALL);
        }
    }
    assert(cut(x, y, b, d, occ)) by {
        assert forall|c: int, e: int| 0 <= c < 81 && 0 <= e < 9 implies (#[trigger] cand(y, c, e)
            <==> cand(x, c, e) && (e == d && in_band(b, c) ==> bit16(occ, band_pos(b, c) / 3))) by {
            let i = 9 * (c / 27) + e;
            if i == 9 * b + d {
                assert(c / 27 == b && e == d);
                assert(bit16(occ, c % 27 / 3) <==> closed_at(pat, c % 27 / 3)) by {
                    reveal(closes);
                }
            }
        }
    }
    lemma_within_cands(y, x);
    lemma_views_row(x, b, d);
    assert forall|g: Seq<u8>| is_grid(g) && #[trigger] admits(x, g) implies admits(y, g) by {
        lemma_views(x[9 * b + d], x, g, b, d);
        lemma_fits_closed(pat, occ, lay(g, b, d));
        lemma_cut(x, y, b, d, occ, g);
    }
    lemma_shrunk(s0, s);
    assert(s.clean_ok()) by {
        assert forall|k: int, e: int|
            0 <= k < 3 && 0 <= e < 9 && !#[trigger] bit32(
                s.dirty_bd,
                3 * e + k,
            ) implies closed_word(s.bands[9 * k + e]) by {
            if k != b || e != d {
                assert(9 * k + e != 9 * b + d);
                assert(closed_word(s0.bands[9 * k + e]));
            }
        }
    }
}

/// Fewer candidates leave the solved cells as they are.
pub proof fn lemma_shrunk(s0: BState, s: BState)
    requires
        s0.solved_ok(),
        same_solved(s0, s),
        boards_ok(s.bands@),
        within(s.bands@, s0.bands@),
    ensures
        s.solved_ok(),
{
    assert forall|c: int| 0 <= c < 81 implies #[trigger] s.open(c) == s0.open(c) by {}
    assert forall|c: int| 0 <= c < 81 && !#[trigger] s.open(c) implies crate::grid::settled(
        crate::boards::cands(s.bands@),
        c,
    ) by {
        assert(!s0.open(c));
        lemma_settled_mono(s.bands@, s0.bands@, c);
    }
    assert forall|c: int, d: int|
        0 <= c < 81 && 0 <= d < 9 && !s.open(c) && #[trigger] cand(
            s.bands@,
            c,
            d,
        ) implies s.marked(c, d) by {
        let i = 9 * (c / 27) + d;
        assert(crate::boards::sub32(s.bands@[i], s0.bands@[i]));
        assert(cand(s0.bands@, c, d));
        assert(s0.marked(c, d));
    }
}

/// A cell without candidates leaves no grid.
pub proof fn lemma_empty_cell(bs: Seq<u32>, b: int, p: int)
    requires
        0 <= b < 3,
        0 <= p < 27,
        digits_at(bs, b, p, 9) == 0,
    ensures
        dead(bs),
{
    assert forall|g: Seq<u8>| is_grid(g) implies !#[trigger] admits(bs, g) by {
        if admits(bs, g) {
            reveal(admits);
            lemma_grid_facts(g);
            let c = 27 * b + p;
            assert(c / 27 == b && c % 27 == p);
            assert(cand(bs, c, g[c] - 1));
            let f = |e: int| bit32(bs[9 * b + e], p);
            assert(f(g[c] - 1));
            lemma_count_some(f, 9, g[c] - 1);
        }
    }
}

/// A cell with one candidate holds it.
pub proof fn lemma_one_digit(bs: Seq<u32>, b: int, p: int, d: int)
    requires
        0 <= b < 3,
        0 <= p < 27,
        0 <= d < 9,
        digits_at(bs, b, p, 9) <= 1,
        bit32(bs[9 * b + d], p),
    ensures
        implied(bs, 27 * b + p, d),
{
    let c = 27 * b + p;
    assert(c / 27 == b && c % 27 == p);
    let f = |e: int| bit32(bs[9 * b + e], p);
    assert forall|g: Seq<u8>| is_grid(g) && #[trigger] admits(bs, g) implies g[c] == d + 1 by {
        reveal(admits);
        lemma_grid_facts(g);
        assert(cand(bs, c, g[c] - 1));
        assert(f(g[c] - 1) && f(d));
        if g[c] - 1 != d {
            lemma_count_lone(f, 9, d, g[c] - 1);
        }
    }
    assert(sole(bs, c, d)) by {
        assert forall|e: int| 0 <= e < 9 && #[trigger] cand(bs, c, e) implies e == d by {
            assert(f(e) && f(d));
            if e != d {
                lemma_count_lone(f, 9, d, e);
            }
        }
    }
    lemma_forced_sole(bs, c, d);
}

/// If cell `p` of band `b` has one candidate, it is queued.
pub open spec fn naked_queued(s: BState, q: Queue, b: int, p: int) -> bool {
    digits_at(s.bands@, b, p, 9) == 1 ==> forall|d: int|
        0 <= d < 9 && bit32(#[trigger] s.bands[9 * b + d], p) ==> q.has(27 * b + p, d)
}

/// What is queued of a cell stays queued.
proof fn lemma_naked_kept(s: BState, q0: Queue, q: Queue, b: int, p: int)
    requires
        naked_queued(s, q0, b, p),
        q0.len <= q.len,
        forall|j: int| 0 <= j < q0.len ==> #[trigger] q.buf[j] == q0.buf[j],
    ensures
        naked_queued(s, q, b, p),
{
    if digits_at(s.bands@, b, p, 9) == 1 {
        assert forall|d: int| 0 <= d < 9 && bit32(#[trigger] s.bands[9 * b + d], p) implies q.has(
            27 * b + p,
            d,
        ) by {
            lemma_has_kept(q0, q, 27 * b + p, d);
        }
    }
}

/// The one candidate of a cell is queued.
proof fn lemma_naked_pushed(s: BState, q: Queue, b: int, p: int, d: int)
    requires
        0 <= d < 9,
        bit32(s.bands[9 * b + d], p),
        q.has(27 * b + p, d),
    ensures
        naked_queued(s, q, b, p),
{
    if digits_at(s.bands@, b, p, 9) == 1 {
        let f = |e: int| bit32(s.bands@[9 * b + e], p);
        assert(f(d));
        assert forall|e: int| 0 <= e < 9 && bit32(#[trigger] s.bands[9 * b + e], p) implies q.has(
            27 * b + p,
            e,
        ) by {
            if e != d {
                lemma_count_lone(f, 9, d, e);
                assert(f(e));
            }
        }
    }
}

impl BState {
    /// Queues the naked singles of a band; false if a cell has no candidate.
    pub fn scan_naked(&self, b: usize, q: &mut Queue) -> (r: bool)
        requires
            self.shape(),
            b < 3,
            old(q).ok(),
            old(q).len + 27 <= QUEUE_LEN,
        ensures
            r <==> forall|p: int|
                #[trigger] bit32(self.unsolved[b as int], p) ==> digits_at(
                    self.bands@,
                    b as int,
                    p,
                    9,
                ) >= 1,
            !r ==> dead(self.bands@) && *final(q) == *old(q),
            r ==> final(q).list() == old(q).list() + naked_singles(
                self.bands@,
                self.unsolved[b as int],
                b as int,
                27,
            ),
            r ==> pushed(*old(q), *final(q), *self),
            r ==> forall|p: int| #[trigger]
                bit32(self.unsolved[b as int], p) ==> naked_queued(*self, *final(q), b as int, p),
            final(q).len <= old(q).len + 27,
            final(q).ok(),
    {
        let ghost q0 = *q;
        let (one, two, _) = tally(&self.bands, b);
        let uns = self.unsolved[b];
        if uns & !one != 0 {
            proof {
                let p = lemma_nonzero32(uns & !one);
                assert(bit32(uns, p) && !bit32(one, p));
                lemma_small32(uns, p);
                lemma_empty_cell(self.bands@, b as int, p);
            }
            return false;
        }
        let mut naked: u32 = one & !two & uns;
        let ghost naked0 = naked;
        proof {
            assert forall|p: int| #[trigger] bit32(uns, p) implies digits_at(
                self.bands@,
                b as int,
                p,
                9,
            ) >= 1 by {
                if !bit32(one, p) {
                    assert(bit32(uns & !one, p));
                    assert(!bit32(0u32, p));
                }
            }
            lemma_subset32(naked, uns);
            lemma_pop_band(naked);
            let f = |i: int| bit32(naked, i);
            lemma_count_mono(f, f, 27);
            assert(q.list() =~= q0.list() + naked_singles(self.bands@, uns, b as int, 0));
        }
        let ghost mut upto: nat = 0;
        while naked != 0
            invariant
                upto <= 27,
                q.list() == q0.list() + naked_singles(self.bands@, uns, b as int, upto),
                forall|p: int| #[trigger] bit32(naked, p) ==> upto <= p,
                forall|p: int|
                    upto <= p && #[trigger] naked_at(self.bands@, uns, b as int, p) ==> bit32(
                        naked,
                        p,
                    ),
                b < 3,
                self.shape(),
                uns == self.unsolved[b as int],
                q0.len + 27 <= QUEUE_LEN,
                pushed(q0, *q, *self),
                q.len + pop32(naked) <= q0.len + 27,
                forall|p: int| #[trigger]
                    bit32(naked, p) ==> bit32(uns, p) && digits_at(self.bands@, b as int, p, 9) == 1,
                forall|p: int| #[trigger]
                    bit32(naked0, p) ==> bit32(naked, p) || naked_queued(*self, *q, b as int, p),
            decreases naked,
        {
            let ghost q2 = *q;
            let i = lowest32(naked);
            let ghost n0 = naked;
            naked = without_lowest32(naked);
            proof {
                let k = choose|k: int| #![trigger bit32(n0, k)] 0 <= k < 32 && bit32(n0, k) && (
                forall|j: int| #[trigger] bit32(naked, j) <==> bit32(n0, j) && j != k) && (
                forall|j: int| 0 <= j < k ==> !bit32(n0, j));
                assert(k == i);
                lemma_small32(uns, i as int);
                lemma_close_cell(n0, naked, i as int);
                lemma_naked_skip(self.bands@, uns, b as int, upto, i as nat);
            }
            let mut d: usize = 0;
            let ghost f = |e: int| bit32(self.bands@[9 * b + e], i as int);
            let ghost w = lemma_count_witness(f, 9);
            proof {
                assert(f(w));
            }
            while d < 9
                invariant_except_break
                    d <= 9,
                    forall|e: int| 0 <= e < d ==> !#[trigger] f(e),
                    *q == q2,
                    pushed(q0, *q, *self),
                    q.len + pop32(naked) + 1 <= q0.len + 27,
                invariant
                    b < 3,
                    i < 27,
                    self.shape(),
                    q0.len + 27 <= QUEUE_LEN,
                    uns == self.unsolved[b as int],
                    bit32(uns, i as int),
                    digits_at(self.bands@, b as int, i as int, 9) == 1,
                    f == |e: int| bit32(self.bands@[9 * b + e], i as int),
                    0 <= w < 9,
                    f(w),
                ensures
                    pushed(q0, *q, *self),
                    q.len + pop32(naked) <= q0.len + 27,
                    q2.len <= q.len,
                    forall|j: int| 0 <= j < q2.len ==> #[trigger] q.buf[j] == q2.buf[j],
                    naked_queued(*self, *q, b as int, i as int),
                    q.list() == q2.list().push((27 * b + i, d as int)),
                    d < 9,
                    f(d as int),
                decreases 9 - d,
            {
                let m = self.bands[9 * b + d];
                proof {
                    assert(bit32(m, i as int) <==> (m >> (i as u32)) & 1 == 1) by {
                        reveal(bit32);
                    }
                    assert(f(d as int) <==> bit32(m, i as int));
                }
                if (m >> (i as u32)) & 1 == 1 {
                    let ghost q1 = *q;
                    q.push(entry(d, b, i));
                    proof {
                        let c = 27 * b + i;
                        assert(c / 27 == b && c % 27 == i);
                        assert(self.open(c));
                        lemma_one_digit(self.bands@, b as int, i as int, d as int);
                        lemma_pushed(q0, q1, *q, *self);
                        assert(entry_cell(q.buf[q1.len as int]) == c);
                        assert(q.has(c, d as int));
                        lemma_naked_pushed(*self, *q, b as int, i as int, d as int);
                        assert(q.list() =~= q1.list().push((c, d as int)));
                    }
                    break;
                }
                d = d + 1;
            }
            proof {
                lemma_naked_next(self.bands@, uns, b as int, i as nat, d as int);
                assert(q.list() =~= q0.list() + naked_singles(
                    self.bands@,
                    uns,
                    b as int,
                    (i + 1) as nat,
                ));
                upto = (i + 1) as nat;
                assert forall|p: int| #[trigger] bit32(naked0, p) implies bit32(naked, p)
                    || naked_queued(*self, *q, b as int, p) by {
                    if !bit32(naked, p) && p != i {
                        assert(!bit32(n0, p));
                        lemma_naked_kept(*self, q2, *q, b as int, p);
                    }
                }
            }
        }
        proof {
            assert forall|p: int| upto <= p < 27 implies !#[trigger] naked_at(
                self.bands@,
                uns,
                b as int,
                p,
            ) by {
                assert(!bit32(0u32, p));
            }
            lemma_naked_skip(self.bands@, uns, b as int, upto, 27);
            assert forall|p: int| #[trigger] bit32(uns, p) implies naked_queued(
                *self,
                *q,
                b as int,
                p,
            ) by {
                if digits_at(self.bands@, b as int, p, 9) == 1 {
                    assert(bit32(naked0, p));
                    assert(!bit32(0u32, p));
                }
            }
        }
        true
    }
}

} // verus!
