//! Inference over all six bands, for when the scans are at rest.

use vstd::prelude::*;
use crate::band::cardinality::{
    apply_cardinality, no_layout, patterns_in, patterns_ok, ruled, sub16,
};
use crate::band::scan::{
    lemma_digit_mark, lemma_has_kept, lemma_shrunk, line_single, line_solved, pushed,
    same_solved, singles_of, singles_queued,
};
use crate::band::state::{
    cells_marked, changes_marked, digit_changed, digits_due, digits_marked, entry_cell, entry_digit,
    lemma_band_words, lemma_cells_mark, lemma_due_trans, words_due, BState, QUEUE_LEN, Queue,
};
use crate::band::tables::Tables;
use crate::bits::{
    bit16, bit32, group_bits16, group_bits32, lemma_ext32, lemma_low_masks32, lemma_narrow,
    lemma_nonzero32, lemma_small32, lemma_subset32, lowest32, without_lowest32,
};
use crate::boards::{
    admits, cand, dead, keeps, lemma_within_admits, lemma_within_cands, lemma_within_trans, within,
};
use crate::grid::is_grid;
use crate::layout::{
    band_cell, band_closure, band_pos, cut, fits_all, has_minirow, implied, in_band, laid, lay,
    layout_of, lemma_band_cell, lemma_band_closure, lemma_band_pos, lemma_cut, lemma_fits_closed,
    lemma_layout, lemma_line_cell, lemma_lone_within, lemma_no_perm, lemma_reduced_mono,
    lemma_same_laid, lemma_through, lemma_views, lemma_views_cut, lemma_views_other,
    lemma_views_row, line_cell, lone, placeable, reduced, sound_occ, through, views,
};
use crate::minirow::{
    closed_word, closes, fits, fits_cells, has_perm, is_pattern, lemma_in_some_perm, occupied,
    perm_box, supported, BAND_ALL,
};

verus! {

broadcast use {group_bits16, group_bits32};

/// Whether the cross-digit rules run. They shrink the search on hard puzzles,
/// but the scan costs more than it saves.
pub const CARDINALITY: bool = false;

/// The 3x3 block of a band's word in stack `st`, transposed: the block's
/// column `c` comes to lie at bits `9 * c ..`.
fn transpose_block(a: u32, st: usize, t: &Tables) -> (r: u32)
    requires
        t.ok(),
        st < 3,
    ensures
        forall|i: int| #[trigger]
            bit32(r, i) <==> 0 <= i < 27 && i % 9 < 3 && bit32(a, 9 * (i % 9) + 3 * st + i / 9),
{
    let w = a >> (3 * st as u32);
    let y = (w & 7) | (((w >> 9) & 7) << 3) | (((w >> 18) & 7) << 6);
    proof {
        lemma_low_masks32();
        assert forall|i: int| #[trigger] bit32(y, i) <==> 0 <= i < 9 && bit32(
            a,
            9 * (i / 3) + 3 * st + i % 3,
        ) by {
            if 0 <= i < 3 {
                assert(bit32(y, i) <==> bit32(w, i));
            } else if 3 <= i < 6 {
                assert(bit32(y, i) <==> bit32(w, 9 + (i - 3)));
            } else if 6 <= i < 9 {
                assert(bit32(y, i) <==> bit32(w, 18 + (i - 6)));
            }
        }
        lemma_subset32(y, 0x1FF);
        lemma_narrow(y);
    }
    let z16 = t.t9[y as usize];
    let z = z16 as u32;
    proof {
        reveal(Tables::ok);
        assert forall|i: int| #[trigger] bit32(z, i) <==> 0 <= i < 9 && bit32(
            a,
            9 * (i % 3) + 3 * st + i / 3,
        ) by {
            lemma_widen(z16, i);
            assert(bit16(z16, i) <==> 0 <= i < 9 && bit16(y as u16, 3 * (i % 3) + i / 3));
            if 0 <= i < 9 {
                let j = 3 * (i % 3) + i / 3;
                assert(j / 3 == i % 3 && j % 3 == i / 3);
                assert(bit32(y, j) <==> bit32(a, 9 * (j / 3) + 3 * st + j % 3));
            }
        }
    }
    let r = (z & 7) | (((z >> 3) & 7) << 9) | (((z >> 6) & 7) << 18);
    proof {
        assert forall|i: int| #[trigger] bit32(r, i) <==> 0 <= i < 27 && i % 9 < 3 && bit32(
            a,
            9 * (i % 9) + 3 * st + i / 9,
        ) by {
            if 0 <= i < 3 {
                assert(bit32(r, i) <==> bit32(z, i));
            } else if 9 <= i < 12 {
                assert(bit32(r, i) <==> bit32(z, 3 + (i - 9)));
            } else if 18 <= i < 21 {
                assert(bit32(r, i) <==> bit32(z, 6 + (i - 18)));
            }
        }
    }
    r
}

/// A 16-bit word keeps its bits when it is widened.
proof fn lemma_widen(m: u16, i: int)
    ensures
        bit32(m as u32, i) <==> bit16(m, i),
{
    reveal(bit16);
    reveal(bit32);
    if 0 <= i < 32 {
        let k = i as u32;
        assert(k < 32 ==> (((m as u32) >> k) & 1 == 1 <==> (k < 16 && (m >> (k as u16)) & 1 == 1)))
            by (bit_vector);
    }
}

/// `occ` is made of minirows in which `m` has cells.
pub open spec fn occ_in(occ: u16, m: u32) -> bool {
    forall|i: int| #[trigger] bit16(occ, i) ==> occupied(m, i)
}

/// Cells cut down to minirows that hold a permutation support the digit.
proof fn lemma_cut_supported(m: u32, n: u32, occ: u16)
    requires
        has_perm(occ),
        occ_in(occ, m),
        forall|p: int| #[trigger]
            bit32(n, p) <==> bit32(m, p) && 0 <= p < 27 && bit16(occ, p / 3),
    ensures
        supported(n),
{
    let k = choose|k: int| #[trigger] fits(occ, k);
    assert forall|i: int| #[trigger] bit16(occ, i) implies occupied(n, i) by {
        assert(occupied(m, i));
        assert((3 * i) / 3 == i && (3 * i + 1) / 3 == i && (3 * i + 2) / 3 == i);
    }
    assert(fits_cells(n, k));
}

/// Assignments stay implied when the boards shrink.
proof fn lemma_pushed_mono(q0: Queue, q: Queue, a: BState, b: BState)
    requires
        pushed(q0, q, a),
        same_solved(a, b),
        b.bands@.len() == 27,
        within(b.bands@, a.bands@),
    ensures
        pushed(q0, q, b),
{
    assert forall|j: int| q0.len <= j < q.len implies b.open(entry_cell(#[trigger] q.buf[j]))
        && implied(b.bands@, entry_cell(q.buf[j]), entry_digit(q.buf[j])) by {
        let (c, d) = (entry_cell(q.buf[j]), entry_digit(q.buf[j]));
        assert(a.open(c));
        assert(implied(a.bands@, c, d));
        assert forall|g: Seq<u8>| is_grid(g) && #[trigger] admits(b.bands@, g) implies g[c] == d
            + 1 by {
            lemma_within_admits(b.bands@, a.bands@, g);
        }
    }
}

impl BState {
    /// The cells of digit `d` in stack `st`, column by column.
    pub fn gather_stack(&self, d: usize, st: usize, t: &Tables) -> (m: u32)
        requires
            t.ok(),
            d < 9,
            st < 3,
        ensures
            views(m, self.bands@, 3 + st, d as int),
    {
        let mut m: u32 = 0;
        let mut b: usize = 0;
        while b < 3
            invariant
                b <= 3,
                t.ok(),
                d < 9,
                st < 3,
                forall|i: int| #[trigger]
                    bit32(m, i) <==> 0 <= i < 27 && (i % 9) / 3 < b && bit32(
                        self.bands[9 * ((i % 9) / 3) + d],
                        9 * ((i % 9) % 3) + 3 * st + i / 9,
                    ),
            decreases 3 - b,
        {
            let z = transpose_block(self.bands[9 * b + d], st, t);
            let ghost m0 = m;
            m = m | (z << (3 * b as u32));
            proof {
                assert forall|i: int| #[trigger] bit32(m, i) <==> 0 <= i < 27 && (i % 9) / 3 < b + 1
                    && bit32(
                    self.bands[9 * ((i % 9) / 3) + d],
                    9 * ((i % 9) % 3) + 3 * st + i / 9,
                ) by {
                    let j = i - 3 * b;
                    assert(bit32(z << (3 * b as u32), i) <==> 3 * b <= i < 32 && bit32(z, j));
                    if 0 <= i < 27 && (i % 9) / 3 == b {
                        assert(j / 9 == i / 9 && j % 9 == (i % 9) % 3);
                    }
                    if 3 * b <= i && bit32(z, j) {
                        assert(0 <= j < 27 && j % 9 < 3);
                        assert(i / 9 == j / 9 && i % 9 == 3 * b + j % 9);
                    }
                }
            }
            b = b + 1;
        }
        proof {
            reveal(views);
            lemma_low_masks32();
            lemma_subset32(m, BAND_ALL);
            assert forall|p: int| 0 <= p < 27 implies (#[trigger] bit32(m, p) <==> cand(
                self.bands@,
                band_cell(3 + st, p),
                d as int,
            )) by {
                let c = band_cell(3 + st, p);
                let r = p % 9;
                assert(c == 9 * r + 3 * st + p / 9);
                assert(c == 27 * (r / 3) + (9 * (r % 3) + 3 * st + p / 9));
                assert(c / 27 == r / 3 && c % 27 == 9 * (r % 3) + 3 * st + p / 9);
            }
        }
        m
    }

    /// Removes one candidate, and marks what changed.
    fn drop_candidate(&mut self, d: usize, b: usize, i: usize)
        requires
            old(self).shape(),
            d < 9,
            b < 3,
            i < 27,
            cand(old(self).bands@, 27 * b + i, d as int),
        ensures
            final(self).shape(),
            same_solved(*old(self), *final(self)),
            words_due(*old(self), *final(self)),
            final(self).tdirty == old(self).tdirty,
            changes_marked(*old(self), *final(self)),
            cells_marked(*old(self), *final(self)),
            forall|k: int|
                0 <= k < 27 && k != 9 * b + d ==> #[trigger] final(self).bands[k] == old(
                    self,
                ).bands[k],
            forall|x: int, e: int|
                0 <= x < 81 && 0 <= e < 9 ==> (#[trigger] cand(final(self).bands@, x, e) <==> cand(
                    old(self).bands@,
                    x,
                    e,
                ) && !(x == 27 * b + i && e == d)),
    {
        let ghost s0 = *self;
        let m = self.bands[9 * b + d];
        let n = m & !(1u32 << (i as u32));
        proof {
            lemma_subset32(n, m);
            lemma_low_masks32();
            lemma_subset32(1u32 << ((d * 3 + b) as u32), BAND_ALL);
            lemma_band_words(self.dirty_bd, 1u32 << ((d * 3 + b) as u32));
            lemma_cells_mark(self.dirty_cells, b as u16);
        }
        self.bands[9 * b + d] = n;
        self.dirty_bd = self.dirty_bd | (1u32 << ((d * 3 + b) as u32));
        self.dirty_cells = self.dirty_cells | (1u16 << (b as u16));
        proof {
            let s = *self;
            assert(words_due(s0, s)) by {
                let c = 27 * b + i;
                assert(c / 27 == b && c % 27 == i);
                assert(bit32(m, i as int) && !bit32(n, i as int));
                assert(s.bands[9 * b + d] != s0.bands[9 * b + d]);
                let j = 3 * d + b;
                assert(j % 3 == b && j / 3 == d);
            }
            assert forall|x: int, e: int| 0 <= x < 81 && 0 <= e < 9 implies (#[trigger] cand(
                s.bands@,
                x,
                e,
            ) <==> cand(s0.bands@, x, e) && !(x == 27 * b + i && e == d)) by {
                assert(x == 27 * (x / 27) + x % 27);
                if 9 * (x / 27) + e == 9 * b + d {
                    assert(x / 27 == b && e == d);
                }
            }
            assert forall|k: int, e: int|
                0 <= k < 3 && 0 <= e < 9 && !#[trigger] bit32(s.dirty_bd, 3 * e + k) implies !bit32(
                s0.dirty_bd,
                3 * e + k,
            ) && s.bands[9 * k + e] == s0.bands[9 * k + e] by {
                if 9 * k + e == 9 * b + d {
                    assert(k == b && e == d);
                }
            }
        }
    }

    /// Cuts digit `d` in band `bi` from `m` down to `nm`, the part of `m`
    /// inside the minirows `occ`.
    fn write_back(&mut self, bi: usize, d: usize, m: u32, nm: u32, Ghost(occ): Ghost<u16>, t: &Tables)
        requires
            old(self).shape(),
            t.ok(),
            bi < 6,
            d < 9,
            views(m, old(self).bands@, bi as int, d as int),
            forall|p: int| #[trigger]
                bit32(nm, p) <==> bit32(m, p) && 0 <= p < 27 && bit16(occ, p / 3),
            nm != m,
        ensures
            final(self).shape(),
            same_solved(*old(self), *final(self)),
            marks_kept(*old(self), *final(self)),
            cut(old(self).bands@, final(self).bands@, bi as int, d as int, occ),
    {
        let ghost s0 = *self;
        proof {
            lemma_digit_mark(self.tdirty, d as u16);
        }
        self.tdirty = self.tdirty | (1u16 << (d as u16));
        let mut gone: u32 = m & !nm;
        let ghost gone0 = gone;
        let ghost due = self.tdirty;
        proof {
            reveal(views);
        }
        while gone != 0
            invariant
                self.shape(),
                t.ok(),
                bi < 6,
                d < 9,
                m <= BAND_ALL,
                same_solved(s0, *self),
                changes_marked(s0, *self),
                cells_marked(s0, *self),
                words_due(s0, *self),
                within(self.bands@, s0.bands@),
                views(m, s0.bands@, bi as int, d as int),
                self.tdirty == due,
                due == s0.tdirty | (1u16 << (d as u16)),
                forall|b: int, e: int|
                    0 <= b < 3 && 0 <= e < 9 && e != d ==> #[trigger] self.bands[9 * b + e]
                        == s0.bands[9 * b + e],
                forall|p: int| #[trigger] bit32(gone, p) ==> bit32(gone0, p),
                forall|p: int| #[trigger] bit32(gone0, p) <==> bit32(m, p) && !bit32(nm, p),
                forall|x: int, e: int|
                    0 <= x < 81 && 0 <= e < 9 ==> (#[trigger] cand(self.bands@, x, e) <==> cand(
                        s0.bands@,
                        x,
                        e,
                    ) && !(e == d && in_band(bi as int, x) && bit32(
                        gone0,
                        band_pos(bi as int, x),
                    ) && !bit32(gone, band_pos(bi as int, x)))),
            decreases gone,
        {
            let it = lowest32(gone);
            let ghost g0 = gone;
            let ghost s1 = *self;
            gone = without_lowest32(gone);
            proof {
                let k = choose|k: int| #![trigger bit32(g0, k)] 0 <= k < 32 && bit32(g0, k) && (
                forall|j: int| #[trigger] bit32(gone, j) <==> bit32(g0, j) && j != k) && (forall|
                    j: int,
                |
                    0 <= j < k ==> !bit32(g0, j));
                assert(k == it);
                assert(bit32(m, it as int));
                lemma_small32(m, it as int);
                lemma_band_cell(bi as int, it as int);
            }
            let (b, i) = if bi < 3 {
                (bi, it)
            } else {
                t.stack_cell(bi - 3, it)
            };
            proof {
                let c = 27 * b + i;
                assert(c == band_cell(bi as int, it as int));
                lemma_band_pos(bi as int, c);
                reveal(views);
                assert(bit32(m, it as int) <==> cand(
                    s0.bands@,
                    band_cell(bi as int, it as int),
                    d as int,
                ));
                assert(band_pos(bi as int, c) == it);
                assert(cand(self.bands@, c, d as int));
            }
            self.drop_candidate(d, b, i);
            proof {
                let c = 27 * b + i;
                assert forall|x: int, e: int| 0 <= x < 81 && 0 <= e < 9 implies (#[trigger] cand(
                    self.bands@,
                    x,
                    e,
                ) <==> cand(s0.bands@, x, e) && !(e == d && in_band(bi as int, x) && bit32(
                    gone0,
                    band_pos(bi as int, x),
                ) && !bit32(gone, band_pos(bi as int, x)))) by {
                    assert(cand(s1.bands@, x, e) <==> cand(s0.bands@, x, e) && !(e == d && in_band(
                        bi as int,
                        x,
                    ) && bit32(gone0, band_pos(bi as int, x)) && !bit32(
                        g0,
                        band_pos(bi as int, x),
                    )));
                    if in_band(bi as int, x) {
                        lemma_band_pos(bi as int, x);
                        if band_pos(bi as int, x) == it {
                            assert(x == c);
                        }
                    }
                }
                lemma_marked_trans(s0, s1, *self);
                lemma_within_cands(self.bands@, s1.bands@);
                lemma_due_trans(s0, s1, *self);
                lemma_within_trans(self.bands@, s1.bands@, s0.bands@);
                assert forall|k: int, e: int| 0 <= k < 3 && 0 <= e < 9 && e != d implies
                    #[trigger] self.bands[9 * k + e] == s0.bands[9 * k + e] by {
                    assert(9 * k + e != 9 * b + d);
                    assert(self.bands[9 * k + e] == s1.bands[9 * k + e]);
                }
            }
        }
        proof {
            assert(digits_marked(s0, *self)) by {
                assert forall|e: int| 0 <= e < 9 && !#[trigger] bit16(
                    self.tdirty,
                    e,
                ) implies !bit16(s0.tdirty, e) && forall|b: int|
                    0 <= b < 3 ==> #[trigger] self.bands[9 * b + e] == s0.bands[9 * b + e] by {
                    assert(e != d);
                }
            }
            assert(digit_changed(s0, *self, d as int)) by {
                assert(gone0 != 0) by {
                    if gone0 == 0 {
                        assert forall|p: int| 0 <= p < 32 implies bit32(m, p) == bit32(nm, p) by {
                            assert(!bit32(gone0, p));
                        }
                        lemma_ext32(m, nm);
                    }
                }
                let p = lemma_nonzero32(gone0);
                assert(bit32(gone0, p));
                lemma_small32(m, p);
                let c = band_cell(bi as int, p);
                lemma_band_cell(bi as int, p);
                assert(bit32(m, p) <==> cand(s0.bands@, c, d as int));
                assert(!bit32(gone, p));
                assert(!cand(self.bands@, c, d as int));
                let k = c / 27;
                assert(self.bands[9 * k + d] != s0.bands[9 * k + d]);
            }
            assert forall|x: int, e: int| 0 <= x < 81 && 0 <= e < 9 implies (#[trigger] cand(
                self.bands@,
                x,
                e,
            ) <==> cand(s0.bands@, x, e) && (e == d && in_band(bi as int, x) ==> bit16(
                occ,
                band_pos(bi as int, x) / 3,
            ))) by {
                if in_band(bi as int, x) && e == d {
                    lemma_band_pos(bi as int, x);
                    let p = band_pos(bi as int, x);
                    assert(bit32(m, p) <==> cand(s0.bands@, band_cell(bi as int, p), d as int));
                    assert(bit32(nm, p) <==> bit32(m, p) && bit16(occ, p / 3));
                    assert(bit32(gone0, p) <==> bit32(m, p) && !bit32(nm, p));
                    assert(!bit32(gone, p));
                }
            }
        }
    }
}

/// All that changed is due for the scan that it concerns, and nothing else is
/// due that was not before.
pub open spec fn marks_kept(s0: BState, s: BState) -> bool {
    &&& changes_marked(s0, s)
    &&& cells_marked(s0, s)
    &&& digits_marked(s0, s)
    &&& words_due(s0, s)
    &&& digits_due(s0, s)
}

proof fn lemma_marked_trans(a: BState, b: BState, c: BState)
    requires
        changes_marked(a, b),
        changes_marked(b, c),
        cells_marked(a, b),
        cells_marked(b, c),
    ensures
        changes_marked(a, c),
        cells_marked(a, c),
{
    assert forall|k: int, e: int|
        0 <= k < 3 && 0 <= e < 9 && !#[trigger] bit32(c.dirty_bd, 3 * e + k) implies !bit32(
        a.dirty_bd,
        3 * e + k,
    ) && c.bands[9 * k + e] == a.bands[9 * k + e] by {
        assert(!bit32(b.dirty_bd, 3 * e + k));
    }
    assert forall|k: int| 0 <= k < 3 && !#[trigger] bit16(c.dirty_cells, k) implies !bit16(
        a.dirty_cells,
        k,
    ) && forall|e: int| 0 <= e < 9 ==> #[trigger] c.bands[9 * k + e] == a.bands[9 * k + e] by {
        assert(!bit16(b.dirty_cells, k));
        assert forall|e: int| 0 <= e < 9 implies #[trigger] c.bands[9 * k + e] == a.bands[9 * k
            + e] by {
            assert(c.bands[9 * k + e] == b.bands[9 * k + e]);
        }
    }
}

proof fn lemma_marks_trans(a: BState, b: BState, c: BState)
    requires
        marks_kept(a, b),
        marks_kept(b, c),
        within(b.bands@, a.bands@),
        within(c.bands@, b.bands@),
    ensures
        marks_kept(a, c),
{
    lemma_marked_trans(a, b, c);
    lemma_due_trans(a, b, c);
    assert forall|e: int| 0 <= e < 9 && !#[trigger] bit16(c.tdirty, e) implies !bit16(a.tdirty, e)
        && forall|k: int| 0 <= k < 3 ==> #[trigger] c.bands[9 * k + e] == a.bands[9 * k + e] by {
        assert(!bit16(b.tdirty, e));
        assert forall|k: int| 0 <= k < 3 implies #[trigger] c.bands[9 * k + e] == a.bands[9 * k
            + e] by {
            assert(c.bands[9 * k + e] == b.bands[9 * k + e]);
        }
    }
}

/// Digit `d` takes part in a pass over the given digits.
pub open spec fn chosen(digits: u16, cardinality: bool, d: int) -> bool {
    cardinality || bit16(digits, d)
}

/// The patterns of the chosen digits below `n` in band `bi` of `bs`.
pub open spec fn patterns_of(
    bs: Seq<u32>,
    bi: int,
    masks: Seq<u32>,
    occ: Seq<u16>,
    digits: u16,
    cardinality: bool,
    n: int,
) -> bool {
    forall|d: int|
        0 <= d < n && chosen(digits, cardinality, d) ==> #[trigger] pattern_of(
            bs,
            bi,
            masks[d],
            occ[d],
            d,
        )
}

/// `m` views digit `d` in band `bi`, and `occ` is a pattern inside `m` with a
/// permutation, fit for every admitted grid.
pub open spec fn pattern_of(bs: Seq<u32>, bi: int, m: u32, occ: u16, d: int) -> bool {
    &&& views(m, bs, bi, d)
    &&& occ <= 0x1FF
    &&& has_perm(occ)
    &&& occ_in(occ, m)
    &&& sound_occ(bs, bi, d, occ)
}

/// The closure of a view is a pattern of it.
proof fn lemma_pattern_of(bs: Seq<u32>, bi: int, m: u32, s: u16, occ: u16, d: int)
    requires
        0 <= bi < 6,
        0 <= d < 9,
        views(m, bs, bi, d),
        is_pattern(s, m),
        closes(occ, s),
        occ <= 0x1FF,
        has_perm(s),
    ensures
        pattern_of(bs, bi, m, occ, d),
{
    crate::band::cardinality::lemma_closure_perm(occ, s);
    assert forall|i: int| #[trigger] bit16(occ, i) implies occupied(m, i) by {
        assert(bit16(s, i));
    }
    assert forall|g: Seq<u8>| is_grid(g) && #[trigger] admits(bs, g) implies fits(
        occ,
        lay(g, bi, d),
    ) by {
        lemma_views(m, bs, g, bi, d);
        lemma_fits_closed(s, occ, lay(g, bi, d));
    }
}

/// The cardinality rules keep the patterns fit for every admitted grid.
proof fn lemma_patterns_cut(bs: Seq<u32>, bi: int, masks: Seq<u32>, a: Seq<u16>, b: Seq<u16>)
    requires
        0 <= bi < 6,
        patterns_of(bs, bi, masks, a, 0, true, 9),
        patterns_ok(b),
        patterns_in(b, a),
        crate::band::cardinality::keeps_layouts(a, b),
    ensures
        patterns_of(bs, bi, masks, b, 0, true, 9),
{
    assert forall|d: int| 0 <= d < 9 implies #[trigger] pattern_of(bs, bi, masks[d], b[d], d) by {
        assert(chosen(0, true, d));
        assert(pattern_of(bs, bi, masks[d], a[d], d));
        assert(sub16(b[d], a[d]));
        assert forall|i: int| #[trigger] bit16(b[d], i) implies occupied(masks[d], i) by {
            assert(bit16(a[d], i));
        }
        assert forall|g: Seq<u8>| is_grid(g) && #[trigger] admits(bs, g) implies fits(
            b[d],
            lay(g, bi, d),
        ) by {
            lemma_layout(g, bi);
            lemma_fits_layout(bs, bi, masks, a, g);
            assert(fits_all(b, layout_of(g, bi)));
            assert(fits(b[d], layout_of(g, bi)(d)));
        }
    }
}

/// The layout of an admitted grid fits the patterns.
proof fn lemma_fits_layout(bs: Seq<u32>, bi: int, masks: Seq<u32>, occ: Seq<u16>, g: Seq<u8>)
    requires
        patterns_of(bs, bi, masks, occ, 0, true, 9),
        is_grid(g),
        admits(bs, g),
    ensures
        fits_all(occ, layout_of(g, bi)),
{
    assert forall|d: int| 0 <= d < 9 implies fits(occ[d], #[trigger] layout_of(g, bi)(d)) by {
        assert(chosen(0, true, d));
        assert(pattern_of(bs, bi, masks[d], occ[d], d));
    }
}

/// The state after one digit's cut.
proof fn lemma_cut_state(s0: BState, s: BState, bi: int, d: int, m: u32, n: u32, occ: u16)
    requires
        s0.ok(),
        s.shape(),
        same_solved(s0, s),
        changes_marked(s0, s),
        0 <= bi < 6,
        0 <= d < 9,
        cut(s0.bands@, s.bands@, bi, d, occ),
        sound_occ(s0.bands@, bi, d, occ),
        views(m, s0.bands@, bi, d),
        forall|p: int| #[trigger]
            bit32(n, p) <==> bit32(m, p) && 0 <= p < 27 && bit16(occ, p / 3),
    ensures
        s.ok(),
        within(s.bands@, s0.bands@),
        keeps(s0.bands@, s.bands@),
        views(n, s.bands@, bi, d),
        n != m ==> s.bands@ != s0.bands@,
{
    lemma_within_cands(s.bands@, s0.bands@);
    lemma_shrunk(s0, s);
    assert forall|g: Seq<u8>| is_grid(g) && #[trigger] admits(s0.bands@, g) implies admits(
        s.bands@,
        g,
    ) by {
        lemma_cut(s0.bands@, s.bands@, bi, d, occ, g);
    }
    lemma_views_cut(m, n, s0.bands@, s.bands@, bi, d, occ);
    assert(s.clean_ok()) by {
        assert forall|b: int, e: int|
            0 <= b < 3 && 0 <= e < 9 && !#[trigger] bit32(
                s.dirty_bd,
                3 * e + b,
            ) implies closed_word(s.bands[9 * b + e]) by {
            assert(!bit32(s0.dirty_bd, 3 * e + b));
        }
    }
    if s.bands@ == s0.bands@ {
        reveal(views);
        assert forall|p: int| 0 <= p < 32 implies bit32(n, p) == bit32(m, p) by {
            if 0 <= p < 27 {
                assert(bit32(m, p) <==> cand(s0.bands@, band_cell(bi, p), d));
                assert(bit32(n, p) <==> cand(s.bands@, band_cell(bi, p), d));
            } else if bit32(m, p) {
                lemma_small32(m, p);
            }
        }
        lemma_ext32(n, m);
    }
}

/// What a pass over one band or more has done to state and queue.
pub open spec fn advanced(s0: BState, q0: Queue, s: BState, q: Queue, changed: bool) -> bool {
    &&& s.ok()
    &&& same_solved(s0, s)
    &&& within(s.bands@, s0.bands@)
    &&& keeps(s0.bands@, s.bands@)
    &&& pushed(q0, q, s)
    &&& marks_kept(s0, s)
    &&& !changed ==> s == s0 && q.len == q0.len
    &&& changed ==> s.bands@ != s0.bands@ || q.len > q0.len
}

/// Passes compose.
proof fn lemma_advanced(
    s0: BState,
    q0: Queue,
    s1: BState,
    q1: Queue,
    c1: bool,
    s: BState,
    q: Queue,
    c: bool,
)
    requires
        s0.bands@.len() == 27,
        advanced(s0, q0, s1, q1, c1),
        advanced(s1, q1, s, q, c),
    ensures
        advanced(s0, q0, s, q, c1 || c),
{
    lemma_within_trans(s.bands@, s1.bands@, s0.bands@);
    lemma_marks_trans(s0, s1, s);
    assert(keeps(s0.bands@, s.bands@)) by {
        assert forall|g: Seq<u8>| is_grid(g) && #[trigger] admits(s0.bands@, g) implies admits(
            s.bands@,
            g,
        ) by {
            assert(admits(s1.bands@, g));
        }
    }
    lemma_pushed_mono(q0, q1, s1, s);
    assert forall|j: int| 0 <= j < q0.len implies #[trigger] q.buf[j] == q0.buf[j] by {
        assert(q1.buf[j] == q0.buf[j]);
    }
    assert forall|j: int| q0.len <= j < q.len implies s.open(entry_cell(#[trigger] q.buf[j]))
        && implied(s.bands@, entry_cell(q.buf[j]), entry_digit(q.buf[j])) by {
        if j < q1.len {
            assert(q.buf[j] == q1.buf[j]);
        }
    }
    if c1 && s.bands@ == s0.bands@ && q.len == q0.len {
        assert(s1.bands@ == s0.bands@) by {
            lemma_between(s0.bands@, s1.bands@, s.bands@);
        }
    }
}

/// Boards that shrank back to themselves did not shrink.
proof fn lemma_between(a: Seq<u32>, b: Seq<u32>, c: Seq<u32>)
    requires
        within(b, a),
        within(c, b),
        a == c,
    ensures
        a == b,
{
    assert forall|i: int| 0 <= i < a.len() implies a[i] == b[i] by {
        assert(crate::boards::sub32(b[i], a[i]));
        assert(crate::boards::sub32(c[i], b[i]));
        let (x, y) = (a[i], b[i]);
        assert forall|p: int| 0 <= p < 32 implies bit32(x, p) == bit32(y, p) by {}
        lemma_ext32(x, y);
    }
    assert(a =~= b);
}

/// A pass over band `bi` took `a` to `b`: each chosen digit was cut down to
/// `occ`, the union `sup` of its permutations after the cross-digit rules, if
/// they are on.
pub open spec fn inferred(
    a: Seq<u32>,
    b: Seq<u32>,
    bi: int,
    digits: u16,
    cardinality: bool,
    sup: Seq<u16>,
    occ: Seq<u16>,
) -> bool {
    &&& forall|d: int|
        0 <= d < 9 && chosen(digits, cardinality, d) ==> band_closure(a, bi, d, #[trigger] sup[d])
    &&& cardinality ==> ruled(sup, occ)
    &&& !cardinality ==> occ == sup
    &&& cut_all(a, b, bi, digits, cardinality, occ, 9)
}

/// `b` is `a` with the chosen digits below `n` cut down to `occ` in band `bi`.
pub open spec fn cut_all(
    a: Seq<u32>,
    b: Seq<u32>,
    bi: int,
    digits: u16,
    cardinality: bool,
    occ: Seq<u16>,
    n: int,
) -> bool {
    forall|x: int, e: int|
        0 <= x < 81 && 0 <= e < 9 ==> (#[trigger] cand(b, x, e) <==> cand(a, x, e) && (in_band(bi, x)
            && e < n && chosen(digits, cardinality, e) ==> bit16(occ[e], band_pos(bi, x) / 3)))
}

/// The hidden singles of the chosen digits below `n` over band `bi`.
pub open spec fn band_singles(s: BState, bi: int, digits: u16, cardinality: bool, n: int) -> Seq<
    (int, int),
>
    decreases n,
{
    if n <= 0 {
        Seq::empty()
    } else {
        band_singles(s, bi, digits, cardinality, n - 1) + if chosen(digits, cardinality, n - 1) {
            singles_of(s, bi, n - 1, 3)
        } else {
            Seq::empty()
        }
    }
}

/// The first band of a pass: without the cross-digit rules only the stacks
/// are visited.
pub open spec fn first_band(cardinality: bool) -> int {
    if cardinality {
        0
    } else {
        3
    }
}

/// One band of a pass: the boards of `c` were taken to those of `s`, and the
/// hidden singles that the band was left with were queued.
pub open spec fn pass_step(
    c: BState,
    lc: Seq<(int, int)>,
    s: BState,
    l: Seq<(int, int)>,
    digits: u16,
    cardinality: bool,
    bi: int,
    sup: Seq<u16>,
    occ: Seq<u16>,
) -> bool {
    &&& inferred(c.bands@, s.bands@, bi, digits, cardinality, sup, occ)
    &&& l == lc + band_singles(s, bi, digits, cardinality, 9)
}

/// A pass over the bands below `n` took the boards of `s0` to those of `s`,
/// band by band, and queued the hidden singles that each band was left with
/// behind `l0`, which gave `l`.
pub open spec fn passed(
    s0: BState,
    l0: Seq<(int, int)>,
    s: BState,
    l: Seq<(int, int)>,
    digits: u16,
    cardinality: bool,
    n: int,
) -> bool
    decreases n,
{
    &&& same_solved(s0, s)
    &&& if n <= first_band(cardinality) || n <= 0 {
        s.bands@ == s0.bands@ && l == l0
    } else {
        exists|c: BState, lc: Seq<(int, int)>, sup: Seq<u16>, occ: Seq<u16>| #[trigger]
            pass_step(c, lc, s, l, digits, cardinality, n - 1, sup, occ) && passed(
                s0,
                l0,
                c,
                lc,
                digits,
                cardinality,
                n - 1,
            )
    }
}

/// `b` is `a` with the given digits cut down to their permutations over each
/// of the stacks below `n`.
pub open spec fn stacks_cut(a: Seq<u32>, b: Seq<u32>, digits: u16, n: int) -> bool {
    forall|x: int, e: int|
        0 <= x < 81 && 0 <= e < 9 ==> (#[trigger] cand(b, x, e) <==> cand(a, x, e) && (bit16(
            digits,
            e,
        ) ==> forall|k: int|
            3 <= k < n && #[trigger] in_band(k, x) ==> laid(a, k, e, band_pos(k, x) / 3)))
}

/// The hidden singles of the given digits over the stacks below `n`.
pub open spec fn stack_singles(s: BState, digits: u16, n: int) -> Seq<(int, int)>
    decreases n,
{
    if n <= 3 {
        Seq::empty()
    } else {
        stack_singles(s, digits, n - 1) + band_singles(s, n - 1, digits, false, 9)
    }
}

/// States that agree on a digit in a band have the same hidden singles there.
proof fn lemma_same_singles(a: BState, b: BState, bi: int, d: int, n: int)
    requires
        0 <= bi < 6,
        n <= 3,
        same_solved(a, b),
        forall|x: int|
            0 <= x < 81 && in_band(bi, x) ==> (#[trigger] cand(a.bands@, x, d) <==> cand(
                b.bands@,
                x,
                d,
            )),
    ensures
        singles_of(a, bi, d, n) == singles_of(b, bi, d, n),
    decreases n,
{
    if n > 0 {
        lemma_same_singles(a, b, bi, d, n - 1);
        lemma_same_laid(a.bands@, b.bands@, bi, d);
        let l = n - 1;
        assert(line_solved(a, bi, l, d) == line_solved(b, bi, l, d));
        if exists|x: int| 0 <= x < 9 && #[trigger] lone(a.bands@, bi, d, l, x) {
            let x = choose|x: int| 0 <= x < 9 && #[trigger] lone(a.bands@, bi, d, l, x);
            assert(lone(b.bands@, bi, d, l, x));
            let y = choose|y: int| 0 <= y < 9 && #[trigger] lone(b.bands@, bi, d, l, y);
            assert(cand(b.bands@, line_cell(bi, l, x), d));
            assert(x == y);
        }
        if exists|x: int| 0 <= x < 9 && #[trigger] lone(b.bands@, bi, d, l, x) {
            let x = choose|x: int| 0 <= x < 9 && #[trigger] lone(b.bands@, bi, d, l, x);
            assert(lone(a.bands@, bi, d, l, x));
        }
        assert(line_single(a, bi, d, l) =~= line_single(b, bi, d, l));
    }
}

/// States that agree on the digits below `n` in a band have the same hidden
/// singles of them there.
proof fn lemma_same_band_singles(
    a: BState,
    b: BState,
    bi: int,
    digits: u16,
    cardinality: bool,
    n: int,
)
    requires
        0 <= bi < 6,
        n <= 9,
        same_solved(a, b),
        forall|x: int, e: int|
            0 <= x < 81 && 0 <= e < n && in_band(bi, x) ==> (#[trigger] cand(a.bands@, x, e)
                <==> cand(b.bands@, x, e)),
    ensures
        band_singles(a, bi, digits, cardinality, n) == band_singles(
            b,
            bi,
            digits,
            cardinality,
            n,
        ),
    decreases n,
{
    if n > 0 {
        lemma_same_band_singles(a, b, bi, digits, cardinality, n - 1);
        lemma_same_singles(a, b, bi, n - 1, 3);
    }
}

/// States that agree on the stacks below `n` have the same hidden singles
/// there.
proof fn lemma_same_stack_singles(a: BState, b: BState, digits: u16, n: int)
    requires
        n <= 6,
        same_solved(a, b),
        forall|k: int, x: int, e: int|
            #![trigger in_band(k, x), cand(a.bands@, x, e)]
            3 <= k < n && 0 <= x < 81 && 0 <= e < 9 && in_band(k, x) ==> (cand(a.bands@, x, e)
                <==> cand(b.bands@, x, e)),
    ensures
        stack_singles(a, digits, n) == stack_singles(b, digits, n),
    decreases n,
{
    if n > 3 {
        lemma_same_stack_singles(a, b, digits, n - 1);
        lemma_same_band_singles(a, b, n - 1, digits, false, 9);
    }
}

/// A digit is settled over a band: it has a permutation, and its hidden
/// singles are queued.
pub open spec fn at_home(s: BState, q: Queue, bi: int, d: int) -> bool {
    placeable(s.bands@, bi, d) && singles_queued(s, q, bi, d, 3)
}

/// Cutting one digit leaves the others settled.
proof fn lemma_others_home(
    s1: BState,
    q1: Queue,
    s: BState,
    q: Queue,
    bi: int,
    d: int,
    occ: u16,
    e: int,
)
    requires
        0 <= bi < 6,
        0 <= e < 9,
        e != d,
        cut(s1.bands@, s.bands@, bi, d, occ),
        same_solved(s1, s),
        at_home(s1, q1, bi, e),
        q1.len <= q.len,
        forall|j: int| 0 <= j < q1.len ==> #[trigger] q.buf[j] == q1.buf[j],
    ensures
        at_home(s, q, bi, e),
{
    assert forall|p: int| 0 <= p < 27 implies cand(s.bands@, #[trigger] band_cell(bi, p), e)
        == cand(s1.bands@, band_cell(bi, p), e) by {
        lemma_band_cell(bi, p);
    }
    let k = choose|k: int| #[trigger] through(s1.bands@, bi, e, k);
    assert(through(s.bands@, bi, e, k)) by {
        assert forall|i: int| #[trigger] has_minirow(s1.bands@, bi, e, i) implies has_minirow(
            s.bands@,
            bi,
            e,
            i,
        ) by {}
        assert(has_minirow(s1.bands@, bi, e, perm_box(k, 0)));
        assert(has_minirow(s1.bands@, bi, e, 3 + perm_box(k, 1)));
        assert(has_minirow(s1.bands@, bi, e, 6 + perm_box(k, 2)));
    }
    assert forall|l: int, x: int|
        0 <= l < 3 && 0 <= x < 9 && !line_solved(s, bi, l, e) && #[trigger] lone(
            s.bands@,
            bi,
            e,
            l,
            x,
        ) implies q.has(line_cell(bi, l, x), e) by {
        assert forall|y: int| 0 <= y < 9 implies #[trigger] cand(s.bands@, line_cell(bi, l, y), e)
            == cand(s1.bands@, line_cell(bi, l, y), e) by {
            lemma_line_cell(bi, l, y);
        }
        assert(lone(s1.bands@, bi, e, l, x)) by {
            assert(cand(s.bands@, line_cell(bi, l, x), e));
            assert forall|y: int|
                0 <= y < 9 && #[trigger] cand(s1.bands@, line_cell(bi, l, y), e) implies y == x by {
                assert(cand(s.bands@, line_cell(bi, l, y), e));
            }
        }
        assert(!line_solved(s1, bi, l, e));
        lemma_has_kept(q1, q, line_cell(bi, l, x), e);
    }
}

/// A digit reduced in a pass over one band.
proof fn lemma_inferred(
    a: Seq<u32>,
    b: Seq<u32>,
    bi: int,
    digits: u16,
    cardinality: bool,
    sup: Seq<u16>,
    occ: Seq<u16>,
    d: int,
)
    requires
        0 <= d < 9,
        inferred(a, b, bi, digits, cardinality, sup, occ),
        chosen(digits, cardinality, d),
    ensures
        reduced(a, b, bi, d),
{
    assert(band_closure(a, bi, d, sup[d]));
    assert forall|x: int| 0 <= x < 81 && in_band(bi, x) && #[trigger] cand(b, x, d) implies laid(
        a,
        bi,
        d,
        band_pos(bi, x) / 3,
    ) by {
        let i = band_pos(bi, x) / 3;
        assert(bit16(occ[d], i));
        if cardinality {
            assert(sub16(occ[d], sup[d]));
        }
        assert(bit16(sup[d], i));
    }
}

/// A hidden single from before a pass was queued in it.
proof fn lemma_old_singles(s0: BState, s: BState, q: Queue, q9: Queue, bi: int, d: int)
    requires
        0 <= bi < 6,
        0 <= d < 9,
        s0.bands@.len() == 27,
        within(s.bands@, s0.bands@),
        same_solved(s0, s),
        at_home(s, q, bi, d),
        q.len <= q9.len,
        forall|j: int| 0 <= j < q.len ==> #[trigger] q9.buf[j] == q.buf[j],
    ensures
        singles_queued(s0, q9, bi, d, 3),
{
    assert forall|l: int, x: int|
        0 <= l < 3 && 0 <= x < 9 && !line_solved(s0, bi, l, d) && #[trigger] lone(
            s0.bands@,
            bi,
            d,
            l,
            x,
        ) implies q9.has(line_cell(bi, l, x), d) by {
        lemma_lone_within(s.bands@, s0.bands@, bi, d, l, x);
        assert(!line_solved(s, bi, l, d));
        lemma_has_kept(q, q9, line_cell(bi, l, x), d);
    }
}

/// Digit `d` was reduced over band `bi`, and the hidden singles it had there
/// are queued.
pub open spec fn visited(s0: BState, s: BState, q: Queue, bi: int, d: int) -> bool {
    reduced(s0.bands@, s.bands@, bi, d) && singles_queued(s0, q, bi, d, 3)
}

/// What is queued stays queued.
proof fn lemma_queue_grown(s: BState, q1: Queue, q: Queue, bi: int, d: int)
    requires
        singles_queued(s, q1, bi, d, 3),
        q1.len <= q.len,
        forall|j: int| 0 <= j < q1.len ==> #[trigger] q.buf[j] == q1.buf[j],
    ensures
        singles_queued(s, q, bi, d, 3),
{
    assert forall|l: int, x: int|
        0 <= l < 3 && 0 <= x < 9 && !line_solved(s, bi, l, d) && #[trigger] lone(
            s.bands@,
            bi,
            d,
            l,
            x,
        ) implies q.has(line_cell(bi, l, x), d) by {
        lemma_has_kept(q1, q, line_cell(bi, l, x), d);
    }
}

impl BState {
    /// Reads the views and the closed patterns of the chosen digits in a
    /// band; `None` if a digit has no place there.
    fn read_band(&self, bi: usize, digits: u16, cardinality: bool, t: &Tables) -> (r: Option<
        ([u32; 9], [u16; 9]),
    >)
        requires
            self.shape(),
            t.ok(),
            bi < 6,
        ensures
            r is None <==> exists|d: int|
                0 <= d < 9 && chosen(digits, cardinality, d) && !#[trigger] placeable(
                    self.bands@,
                    bi as int,
                    d,
                ),
            r is None ==> dead(self.bands@),
            r matches Some(p) ==> forall|d: int|
                0 <= d < 9 && chosen(digits, cardinality, d) ==> band_closure(
                    self.bands@,
                    bi as int,
                    d,
                    #[trigger] p.1@[d],
                ),
            r matches Some(p) ==> patterns_of(
                self.bands@,
                bi as int,
                p.0@,
                p.1@,
                digits,
                cardinality,
                9,
            ),
    {
        let mut masks: [u32; 9] = [0;9];
        let mut occ: [u16; 9] = [0;9];
        let mut d: usize = 0;
        while d < 9
            invariant
                d <= 9,
                self.shape(),
                t.ok(),
                bi < 6,
                patterns_of(self.bands@, bi as int, masks@, occ@, digits, cardinality, d as int),
                forall|e: int|
                    0 <= e < d && chosen(digits, cardinality, e) ==> band_closure(
                        self.bands@,
                        bi as int,
                        e,
                        #[trigger] occ@[e],
                    ),
            decreases 9 - d,
        {
            proof {
                assert(bit16(digits, d as int) <==> (digits >> (d as u16)) & 1 == 1) by {
                    reveal(bit16);
                }
            }
            let ghost (masks0, occ0) = (masks@, occ@);
            if cardinality || (digits >> (d as u16)) & 1 == 1 {
                let m = if bi < 3 {
                    self.bands[9 * bi + d]
                } else {
                    self.gather_stack(d, bi - 3, t)
                };
                proof {
                    if bi < 3 {
                        lemma_views_row(self.bands@, bi as int, d as int);
                    }
                    assert(m <= BAND_ALL) by {
                        reveal(views);
                    }
                }
                let s = t.pattern(m);
                let sup = t.closure(s);
                if sup == 0 {
                    proof {
                        lemma_no_perm(m, self.bands@, bi as int, d as int, s);
                        lemma_in_some_perm(m, s);
                        if placeable(self.bands@, bi as int, d as int) {
                            let k = choose|k: int| #[trigger]
                                through(self.bands@, bi as int, d as int, k);
                            lemma_through(m, self.bands@, bi as int, d as int, k);
                        }
                        assert(chosen(digits, cardinality, d as int));
                    }
                    return None;
                }
                proof {
                    lemma_pattern_of(self.bands@, bi as int, m, s, sup, d as int);
                    lemma_band_closure(m, s, sup, self.bands@, bi as int, d as int);
                }
                masks[d] = m;
                occ[d] = sup;
            }
            proof {
                assert forall|e: int|
                    0 <= e < d + 1 && chosen(digits, cardinality, e) implies #[trigger] pattern_of(
                    self.bands@,
                    bi as int,
                    masks@[e],
                    occ@[e],
                    e,
                ) by {
                    if e < d {
                        assert(pattern_of(self.bands@, bi as int, masks0[e], occ0[e], e));
                    }
                }
            }
            d = d + 1;
        }
        proof {
            assert forall|d: int|
                0 <= d < 9 && chosen(digits, cardinality, d) implies #[trigger] placeable(
                self.bands@,
                bi as int,
                d,
            ) by {
                assert(band_closure(self.bands@, bi as int, d, occ@[d]));
            }
        }
        Some((masks, occ))
    }

    /// Cuts one digit of a band down to its pattern and queues the hidden
    /// singles; says whether anything changed.
    fn settle_digit(
        &mut self,
        q: &mut Queue,
        bi: usize,
        d: usize,
        m: u32,
        occ: u16,
        t: &Tables,
    ) -> (changed: bool)
        requires
            old(self).ok(),
            t.ok(),
            bi < 6,
            d < 9,
            pattern_of(old(self).bands@, bi as int, m, occ, d as int),
            old(q).ok(),
            old(q).len + 3 <= QUEUE_LEN,
        ensures
            advanced(*old(self), *old(q), *final(self), *final(q), changed),
            final(q).len <= old(q).len + 3,
            cut(old(self).bands@, final(self).bands@, bi as int, d as int, occ),
            at_home(*final(self), *final(q), bi as int, d as int),
            final(q).list() == old(q).list() + singles_of(*final(self), bi as int, d as int, 3),
    {
        let ghost s0 = *self;
        let ghost q0 = *q;
        let nm = m & t.cells(occ);
        let mut changed = false;
        proof {
            assert forall|p: int| #[trigger] bit32(nm, p) <==> bit32(m, p) && 0 <= p < 27 && bit16(
                occ,
                p / 3,
            ) by {}
            lemma_cut_supported(m, nm, occ);
        }
        if nm != m {
            changed = true;
            self.write_back(bi, d, m, nm, Ghost(occ), t);
            proof {
                lemma_cut_state(s0, *self, bi as int, d as int, m, nm, occ);
            }
        } else {
            proof {
                lemma_cut_none(s0.bands@, bi as int, d as int, m, occ);
                lemma_cut_state(s0, *self, bi as int, d as int, m, nm, occ);
            }
        }
        if self.push_singles(q, nm, bi, d, t) {
            changed = true;
        }
        proof {
            let k = choose|k: int| #[trigger] fits_cells(nm, k);
            lemma_through(nm, self.bands@, bi as int, d as int, k);
        }
        changed
    }

    /// One pass over one band; `None` on a contradiction.
    fn infer_band(
        &mut self,
        q: &mut Queue,
        bi: usize,
        digits: u16,
        cardinality: bool,
        t: &Tables,
    ) -> (r: Option<bool>)
        requires
            old(self).ok(),
            t.ok(),
            bi < 6,
            old(q).ok(),
            old(q).len + 27 <= QUEUE_LEN,
        ensures
            r is None ==> dead(old(self).bands@) && *final(self) == *old(self) && *final(q)
                == *old(q),
            r is Some ==> final(q).list() == old(q).list() + band_singles(
                *final(self),
                bi as int,
                digits,
                cardinality,
                9,
            ),
            !cardinality ==> (r is None <==> exists|d: int|
                0 <= d < 9 && chosen(digits, cardinality, d) && !#[trigger] placeable(
                    old(self).bands@,
                    bi as int,
                    d,
                )),
            r matches Some(c) ==> advanced(*old(self), *old(q), *final(self), *final(q), c),
            r is Some ==> exists|sup: Seq<u16>, occ: Seq<u16>| #[trigger]
                inferred(
                    old(self).bands@,
                    final(self).bands@,
                    bi as int,
                    digits,
                    cardinality,
                    sup,
                    occ,
                ),
            r is Some ==> forall|d: int|
                0 <= d < 9 && chosen(digits, cardinality, d) ==> #[trigger] at_home(
                    *final(self),
                    *final(q),
                    bi as int,
                    d,
                ),
            final(q).ok(),
            final(q).len <= old(q).len + 27,
    {
        let ghost s0 = *self;
        let ghost q0 = *q;
        let (masks, mut occ) = match self.read_band(bi, digits, cardinality, t) {
            None => {
                return None;
            },
            Some(p) => p,
        };
        let ghost sup = occ@;
        if cardinality {
            let ghost occ0 = occ@;
            proof {
                assert forall|d: int| 0 <= d < 9 implies #[trigger] occ@[d] <= 0x1FF && has_perm(
                    occ@[d],
                ) by {
                    assert(chosen(digits, cardinality, d));
                    assert(pattern_of(s0.bands@, bi as int, masks@[d], occ@[d], d));
                }
                assert(patterns_of(s0.bands@, bi as int, masks@, occ0, 0, true, 9)) by {
                    assert forall|d: int|
                        0 <= d < 9 && chosen(0, true, d) implies #[trigger] pattern_of(
                        s0.bands@,
                        bi as int,
                        masks@[d],
                        occ0[d],
                        d,
                    ) by {
                        assert(chosen(digits, cardinality, d));
                    }
                }
            }
            if !apply_cardinality(&mut occ, t) {
                proof {
                    assert forall|g: Seq<u8>| is_grid(g) implies !#[trigger] admits(
                        s0.bands@,
                        g,
                    ) by {
                        if admits(s0.bands@, g) {
                            lemma_layout(g, bi as int);
                            lemma_fits_layout(s0.bands@, bi as int, masks@, occ0, g);
                            assert(no_layout(occ0));
                        }
                    }
                }
                return None;
            }
            proof {
                lemma_patterns_cut(s0.bands@, bi as int, masks@, occ0, occ@);
                assert forall|d: int|
                    0 <= d < 9 && chosen(digits, cardinality, d) implies #[trigger] pattern_of(
                    s0.bands@,
                    bi as int,
                    masks@[d],
                    occ@[d],
                    d,
                ) by {
                    assert(chosen(0, true, d));
                }
            }
        }
        let mut changed = false;
        let mut d: usize = 0;
        proof {
            assert forall|e: int| 0 <= e < 9 && chosen(digits, cardinality, e) implies views(
                #[trigger] masks[e],
                self.bands@,
                bi as int,
                e,
            ) by {
                assert(pattern_of(s0.bands@, bi as int, masks@[e], occ@[e], e));
            }
        }
        proof {
            assert(q.list() =~= q0.list() + band_singles(
                *self,
                bi as int,
                digits,
                cardinality,
                0,
            ));
        }
        while d < 9
            invariant
                d <= 9,
                t.ok(),
                bi < 6,
                s0.bands@.len() == 27,
                q0.len + 27 <= QUEUE_LEN,
                q.list() == q0.list() + band_singles(
                    *self,
                    bi as int,
                    digits,
                    cardinality,
                    d as int,
                ),
                advanced(s0, q0, *self, *q, changed),
                q.len <= q0.len + 3 * d,
                patterns_of(s0.bands@, bi as int, masks@, occ@, digits, cardinality, 9),
                cut_all(
                    s0.bands@,
                    self.bands@,
                    bi as int,
                    digits,
                    cardinality,
                    occ@,
                    d as int,
                ),
                forall|e: int|
                    0 <= e < d && chosen(digits, cardinality, e) ==> #[trigger] at_home(
                        *self,
                        *q,
                        bi as int,
                        e,
                    ),
                forall|e: int|
                    d <= e < 9 && chosen(digits, cardinality, e) ==> views(
                        #[trigger] masks[e],
                        self.bands@,
                        bi as int,
                        e,
                    ),
            decreases 9 - d,
        {
            proof {
                assert(bit16(digits, d as int) <==> (digits >> (d as u16)) & 1 == 1) by {
                    reveal(bit16);
                }
            }
            if cardinality || (digits >> (d as u16)) & 1 == 1 {
                let ghost (s1, q1, c1) = (*self, *q, changed);
                proof {
                    assert(pattern_of(
                        s0.bands@,
                        bi as int,
                        masks@[d as int],
                        occ@[d as int],
                        d as int,
                    ));
                    lemma_sound_mono(s0.bands@, s1.bands@, bi as int, d as int, occ[d as int]);
                }
                let c = self.settle_digit(q, bi, d, masks[d], occ[d], t);
                proof {
                    lemma_advanced(s0, q0, s1, q1, c1, *self, *q, c);
                    lemma_same_band_singles(
                        s1,
                        *self,
                        bi as int,
                        digits,
                        cardinality,
                        d as int,
                    );
                    assert(q.list() =~= q0.list() + band_singles(
                        *self,
                        bi as int,
                        digits,
                        cardinality,
                        d + 1,
                    ));
                    assert forall|e: int|
                        0 <= e < d + 1 && chosen(digits, cardinality, e) implies #[trigger] at_home(
                        *self,
                        *q,
                        bi as int,
                        e,
                    ) by {
                        if e < d {
                            assert(at_home(s1, q1, bi as int, e));
                            lemma_others_home(
                                s1,
                                q1,
                                *self,
                                *q,
                                bi as int,
                                d as int,
                                occ[d as int],
                                e,
                            );
                        }
                    }
                    assert forall|e: int|
                        d + 1 <= e < 9 && chosen(digits, cardinality, e) implies views(
                        #[trigger] masks[e],
                        self.bands@,
                        bi as int,
                        e,
                    ) by {
                        lemma_views_other(
                            masks[e],
                            s1.bands@,
                            self.bands@,
                            bi as int,
                            d as int,
                            occ[d as int],
                            e,
                        );
                    }
                }
                if c {
                    changed = true;
                }
            } else {
                proof {
                    assert(q.list() =~= q0.list() + band_singles(
                        *self,
                        bi as int,
                        digits,
                        cardinality,
                        d + 1,
                    ));
                }
            }
            d = d + 1;
        }
        proof {
            assert(inferred(
                s0.bands@,
                self.bands@,
                bi as int,
                digits,
                cardinality,
                sup,
                occ@,
            ));
        }
        Some(changed)
    }

    /// One pass over the bands: each chosen digit is cut down to the
    /// permutations it can be laid as, the cross-digit rules apply if they
    /// are on, and hidden singles are queued. Without those rules the bands
    /// of rows have nothing new, so only the stacks are visited, and only for
    /// `digits`. `None` on a contradiction; otherwise whether anything
    /// changed.
    pub fn band_inference(
        &mut self,
        q: &mut Queue,
        digits: u16,
        cardinality: bool,
        t: &Tables,
    ) -> (r: Option<bool>)
        requires
            old(self).ok(),
            t.ok(),
            old(q).ok(),
            old(q).len + 162 <= QUEUE_LEN,
        ensures
            within(final(self).bands@, old(self).bands@),
            same_solved(*old(self), *final(self)),
            r is None ==> dead(old(self).bands@),
            !cardinality ==> (r is None <==> exists|bi: int, d: int|
                3 <= bi < 6 && 0 <= d < 9 && bit16(digits, d) && !#[trigger] placeable(
                    old(self).bands@,
                    bi,
                    d,
                )),
            r matches Some(c) ==> advanced(*old(self), *old(q), *final(self), *final(q), c),
            r is Some && !cardinality ==> stacks_cut(
                old(self).bands@,
                final(self).bands@,
                digits,
                6,
            ) && final(q).list() == old(q).list() + stack_singles(*final(self), digits, 6),
            r is Some ==> passed(
                *old(self),
                old(q).list(),
                *final(self),
                final(q).list(),
                digits,
                cardinality,
                6,
            ),
            r is Some ==> forall|bi: int, d: int|
                (cardinality || 3 <= bi) && 0 <= bi < 6 && 0 <= d < 9 && chosen(
                    digits,
                    cardinality,
                    d,
                ) ==> #[trigger] visited(*old(self), *final(self), *final(q), bi, d),
            final(q).ok(),
            final(q).len <= old(q).len + 162,
    {
        let ghost s0 = *self;
        let ghost q0 = *q;
        let mut changed = false;
        let mut bi: usize = if cardinality {
            0
        } else {
            3
        };
        proof {
            assert(stacks_cut(s0.bands@, self.bands@, digits, bi as int));
            if !cardinality {
                assert(q.list() =~= q0.list() + stack_singles(*self, digits, 3));
            }
        }
        while bi < 6
            invariant
                first_band(cardinality) <= bi <= 6,
                t.ok(),
                s0 == *old(self),
                q0 == *old(q),
                s0.ok(),
                q0.len + 162 <= QUEUE_LEN,
                within(self.bands@, s0.bands@),
                same_solved(s0, *self),
                !cardinality ==> stacks_cut(s0.bands@, self.bands@, digits, bi as int),
                !cardinality ==> q.list() == q0.list() + stack_singles(
                    *self,
                    digits,
                    bi as int,
                ),
                passed(s0, q0.list(), *self, q.list(), digits, cardinality, bi as int),
                advanced(s0, q0, *self, *q, changed),
                q.len <= q0.len + 27 * bi,
                forall|k: int, d: int|
                    (cardinality || 3 <= k) && 0 <= k < bi && 0 <= d < 9 && chosen(
                        digits,
                        cardinality,
                        d,
                    ) ==> #[trigger] visited(s0, *self, *q, k, d),
            decreases 6 - bi,
        {
            let ghost (s1, q1, c1) = (*self, *q, changed);
            proof {
                if !cardinality {
                    lemma_stack_untouched(s0.bands@, s1.bands@, digits, bi as int);
                }
            }
            match self.infer_band(q, bi, digits, cardinality, t) {
                None => {
                    proof {
                        if !cardinality {
                            let d = choose|d: int|
                                0 <= d < 9 && chosen(digits, cardinality, d) && !#[trigger] placeable(
                                    s1.bands@,
                                    bi as int,
                                    d,
                                );
                            assert(!placeable(s0.bands@, bi as int, d));
                        }
                        assert forall|g: Seq<u8>| is_grid(g) implies !#[trigger] admits(
                            s0.bands@,
                            g,
                        ) by {
                            if admits(s0.bands@, g) {
                                assert(admits(s1.bands@, g));
                            }
                        }
                    }
                    return None;
                },
                Some(c) => {
                    proof {
                        lemma_advanced(s0, q0, s1, q1, c1, *self, *q, c);
                        let (sup, occ) = choose|sup: Seq<u16>, occ: Seq<u16>| #[trigger]
                            inferred(
                                s1.bands@,
                                self.bands@,
                                bi as int,
                                digits,
                                cardinality,
                                sup,
                                occ,
                            );
                        assert(passed(
                            s0,
                            q0.list(),
                            *self,
                            q.list(),
                            digits,
                            cardinality,
                            bi + 1,
                        )) by {
                            let n: int = bi + 1;
                            assert(pass_step(
                                s1,
                                q1.list(),
                                *self,
                                q.list(),
                                digits,
                                cardinality,
                                n - 1,
                                sup,
                                occ,
                            ));
                        }
                        if !cardinality {
                            lemma_stack_step(
                                s0.bands@,
                                s1.bands@,
                                self.bands@,
                                digits,
                                bi as int,
                                sup,
                                occ,
                            );
                            assert forall|k: int, x: int, e: int|
                                #![trigger in_band(k, x), cand(s1.bands@, x, e)]
                                3 <= k < bi && 0 <= x < 81 && 0 <= e < 9 && in_band(k, x) implies (
                            cand(s1.bands@, x, e) <==> cand(self.bands@, x, e)) by {
                                lemma_one_stack(k, bi as int, x);
                                assert(cand(self.bands@, x, e) <==> cand(s1.bands@, x, e));
                            }
                            lemma_same_stack_singles(s1, *self, digits, bi as int);
                            assert(q.list() =~= q0.list() + stack_singles(
                                *self,
                                digits,
                                bi + 1,
                            ));
                        }
                        assert forall|k: int, d: int|
                            (cardinality || 3 <= k) && 0 <= k < bi + 1 && 0 <= d < 9 && chosen(
                                digits,
                                cardinality,
                                d,
                            ) implies #[trigger] visited(s0, *self, *q, k, d) by {
                            if k < bi {
                                assert(visited(s0, s1, q1, k, d));
                                lemma_reduced_mono(
                                    s0.bands@,
                                    s0.bands@,
                                    s1.bands@,
                                    self.bands@,
                                    k,
                                    d,
                                );
                                lemma_queue_grown(s0, q1, *q, k, d);
                            } else {
                                lemma_inferred(
                                    s1.bands@,
                                    self.bands@,
                                    k,
                                    digits,
                                    cardinality,
                                    sup,
                                    occ,
                                    d,
                                );
                                lemma_reduced_mono(
                                    s0.bands@,
                                    s1.bands@,
                                    self.bands@,
                                    self.bands@,
                                    k,
                                    d,
                                );
                                assert(at_home(*self, *q, k, d));
                                lemma_old_singles(s0, *self, *q, *q, k, d);
                            }
                        }
                    }
                    if c {
                        changed = true;
                    }
                },
            }
            bi = bi + 1;
        }
        proof {
            if !cardinality {
                assert forall|k: int, d: int| 3 <= k < 6 && 0 <= d < 9 && bit16(
                    digits,
                    d,
                ) implies #[trigger] placeable(s0.bands@, k, d) by {
                    assert(chosen(digits, cardinality, d));
                    assert(visited(s0, *self, *q, k, d));
                }
            }
        }
        Some(changed)
    }
}

/// A cell is in one stack only.
proof fn lemma_one_stack(k: int, n: int, x: int)
    requires
        3 <= k < 6,
        3 <= n < 6,
        k != n,
        0 <= x < 81,
        in_band(k, x),
    ensures
        !in_band(n, x),
{
}

/// The stacks that a pass has not reached are as they were.
proof fn lemma_stack_untouched(a: Seq<u32>, b: Seq<u32>, digits: u16, n: int)
    requires
        3 <= n < 6,
        stacks_cut(a, b, digits, n),
    ensures
        forall|x: int, e: int|
            0 <= x < 81 && 0 <= e < 9 && in_band(n, x) ==> (#[trigger] cand(b, x, e) <==> cand(
                a,
                x,
                e,
            )),
        forall|e: int|
            0 <= e < 9 ==> (#[trigger] placeable(b, n, e) <==> placeable(a, n, e)),
        forall|e: int, i: int|
            0 <= e < 9 ==> (#[trigger] laid(b, n, e, i) <==> laid(a, n, e, i)),
{
    assert forall|x: int, e: int| 0 <= x < 81 && 0 <= e < 9 && in_band(n, x) implies (
    #[trigger] cand(b, x, e) <==> cand(a, x, e)) by {
        assert forall|k: int| 3 <= k < n && #[trigger] in_band(k, x) implies laid(
            a,
            k,
            e,
            band_pos(k, x) / 3,
        ) by {
            lemma_one_stack(k, n, x);
        }
    }
    assert forall|e: int| 0 <= e < 9 implies (#[trigger] placeable(b, n, e) <==> placeable(
        a,
        n,
        e,
    )) by {
        lemma_same_laid(b, a, n, e);
    }
    assert forall|e: int, i: int| 0 <= e < 9 implies (#[trigger] laid(b, n, e, i) <==> laid(
        a,
        n,
        e,
        i,
    )) by {
        lemma_same_laid(b, a, n, e);
    }
}

/// One more stack cut down.
proof fn lemma_stack_step(
    a: Seq<u32>,
    b: Seq<u32>,
    c: Seq<u32>,
    digits: u16,
    n: int,
    sup: Seq<u16>,
    occ: Seq<u16>,
)
    requires
        3 <= n < 6,
        stacks_cut(a, b, digits, n),
        inferred(b, c, n, digits, false, sup, occ),
    ensures
        stacks_cut(a, c, digits, n + 1),
{
    lemma_stack_untouched(a, b, digits, n);
    assert forall|x: int, e: int| 0 <= x < 81 && 0 <= e < 9 implies (#[trigger] cand(c, x, e)
        <==> cand(a, x, e) && (bit16(digits, e) ==> forall|k: int|
        3 <= k < n + 1 && #[trigger] in_band(k, x) ==> laid(a, k, e, band_pos(k, x) / 3))) by {
        assert(cand(b, x, e) <==> cand(a, x, e) && (bit16(digits, e) ==> forall|k: int|
            3 <= k < n && #[trigger] in_band(k, x) ==> laid(a, k, e, band_pos(k, x) / 3)));
        if bit16(digits, e) {
            assert(chosen(digits, false, e));
            assert(band_closure(b, n, e, sup[e]));
            let i = band_pos(n, x) / 3;
            assert(bit16(sup[e], i) <==> laid(b, n, e, i));
            assert(laid(b, n, e, i) <==> laid(a, n, e, i));
            if cand(c, x, e) {
                assert forall|k: int| 3 <= k < n + 1 && #[trigger] in_band(k, x) implies laid(
                    a,
                    k,
                    e,
                    band_pos(k, x) / 3,
                ) by {}
            }
        }
    }
}

/// A pattern that holds all of a view's cells cuts nothing.
proof fn lemma_cut_none(bs: Seq<u32>, bi: int, d: int, m: u32, occ: u16)
    requires
        0 <= bi < 6,
        0 <= d < 9,
        views(m, bs, bi, d),
        forall|p: int| #[trigger] bit32(m, p) ==> 0 <= p < 27 && bit16(occ, p / 3),
    ensures
        cut(bs, bs, bi, d, occ),
{
    assert forall|x: int, e: int| 0 <= x < 81 && 0 <= e < 9 implies (#[trigger] cand(bs, x, e)
        <==> cand(bs, x, e) && (e == d && in_band(bi, x) ==> bit16(occ, band_pos(bi, x) / 3))) by {
        if e == d && in_band(bi, x) {
            lemma_band_pos(bi, x);
            reveal(views);
            let p = band_pos(bi, x);
            assert(bit32(m, p) <==> cand(bs, band_cell(bi, p), d));
        }
    }
}

/// A pattern fit for every grid is fit for those that are left.
proof fn lemma_sound_mono(a: Seq<u32>, b: Seq<u32>, bi: int, d: int, occ: u16)
    requires
        b.len() == 27,
        within(b, a),
        sound_occ(a, bi, d, occ),
    ensures
        sound_occ(b, bi, d, occ),
{
    assert forall|g: Seq<u8>| is_grid(g) && #[trigger] admits(b, g) implies fits(
        occ,
        lay(g, bi, d),
    ) by {
        lemma_within_admits(b, a, g);
    }
}

} // verus!
