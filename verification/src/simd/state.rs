//! Search state of the lane engine: each digit's board in both orientations,
//! the cells still open, the lines each digit is placed in, and what is due
//! for a scan.

use vstd::prelude::*;
use crate::bits::{
    bit32, bit64, count, group_bits32, group_bits64, lemma_count_drop, lemma_low_masks32,
    lemma_nonzero32, lemma_pop_band, lemma_subset32, pop32,
};
use crate::boards::{
    boards_ok, cand, cands, lemma_placed_settled, lemma_settled_mono, lemma_within_cands, placed,
    within,
};
use crate::grid::{peers, settled};
use crate::layout::{band_cell, band_pos, in_band, lemma_band_cell, lemma_band_pos, views};
use crate::minirow::{closed_word, lemma_all_closed, BAND_ALL};
use crate::simd::lanes::{and_lanes, Lanes};
use crate::simd::tables::{lemma_lanes, stack_lane, Tables};

verus! {

broadcast use {group_bits32, group_bits64};

/// Room for pending assignments.
pub const QUEUE_LEN: usize = 256;

/// Pending assignments, each packed as `128 * digit + cell`.
pub struct Queue {
    pub buf: [u16; 256],
    pub len: usize,
}

/// The entry names a digit and a cell.
pub open spec fn entry_ok(e: u16) -> bool {
    e % 128 < 81 && e / 128 < 9
}

/// The cell an entry names.
pub open spec fn entry_cell(e: u16) -> int {
    e as int % 128
}

/// The digit an entry names, counted from 0.
pub open spec fn entry_digit(e: u16) -> int {
    e as int / 128
}

impl Queue {
    pub open spec fn ok(&self) -> bool {
        self.len <= QUEUE_LEN && forall|j: int| 0 <= j < self.len ==> entry_ok(#[trigger] self.buf[j])
    }

    /// The pending assignments in the order they were queued, each as a cell
    /// and a digit.
    pub open spec fn list(&self) -> Seq<(int, int)> {
        Seq::new(self.len as nat, |j: int| (entry_cell(self.buf[j]), entry_digit(self.buf[j])))
    }

    /// The assignment of digit `d` to cell `c` is pending.
    pub open spec fn has(&self, c: int, d: int) -> bool {
        exists|j: int|
            0 <= j < self.len && entry_cell(#[trigger] self.buf[j]) == c && entry_digit(self.buf[j])
                == d
    }

    /// The pending assignments.
    pub open spec fn asks(&self) -> Set<(int, int)> {
        Set::new(|p: (int, int)| self.has(p.0, p.1))
    }

    /// `g` makes every pending assignment.
    pub open spec fn agrees(&self, g: Seq<u8>) -> bool {
        forall|j: int|
            0 <= j < self.len ==> g[entry_cell(#[trigger] self.buf[j])] == entry_digit(self.buf[j])
                + 1
    }

    pub fn new() -> (q: Queue)
        ensures
            q.ok(),
            q.len == 0,
    {
        Queue { buf: [0;256], len: 0 }
    }

    /// Queues an assignment. A full queue drops it.
    pub fn push(&mut self, d: usize, cell: usize)
        requires
            old(self).ok(),
            d < 9,
            cell < 81,
        ensures
            final(self).ok(),
            old(self).len == QUEUE_LEN ==> *final(self) == *old(self),
            old(self).len < QUEUE_LEN ==> {
                &&& final(self).len == old(self).len + 1
                &&& final(self).buf@ == old(self).buf@.update(
                    old(self).len as int,
                    final(self).buf[old(self).len as int],
                )
                &&& entry_cell(final(self).buf[old(self).len as int]) == cell
                &&& entry_digit(final(self).buf[old(self).len as int]) == d
            },
    {
        if self.len < QUEUE_LEN {
            self.buf[self.len] = (d * 128 + cell) as u16;
            self.len = self.len + 1;
        }
    }

    pub fn pop(&mut self) -> (e: Option<(usize, usize)>)
        requires
            old(self).ok(),
        ensures
            final(self).ok(),
            final(self).buf@ == old(self).buf@,
            e is None <==> old(self).len == 0,
            e is None ==> final(self).len == 0,
            e matches Some(x) ==> {
                &&& final(self).len + 1 == old(self).len
                &&& entry_ok(old(self).buf[final(self).len as int])
                &&& x.0 == entry_digit(old(self).buf[final(self).len as int])
                &&& x.1 == entry_cell(old(self).buf[final(self).len as int])
            },
    {
        if self.len == 0 {
            None
        } else {
            self.len = self.len - 1;
            let e = self.buf[self.len] as usize;
            Some((e / 128, e % 128))
        }
    }

    pub fn clear(&mut self)
        ensures
            final(self).ok(),
            final(self).len == 0,
    {
        self.len = 0;
    }
}

/// State of the search.
#[derive(Clone, Copy)]
pub struct State {
    /// Per digit its board in both orientations: lanes 0..3 are the bands of
    /// rows, lanes 3..6 the stacks of columns.
    pub b: [[u32; 8]; 9],
    /// Unsolved cells per band of rows.
    pub unsolved: [u32; 3],
    /// Per digit the nine rows and then the nine columns that hold it.
    pub placed: [u32; 9],
    /// Bit `6 * digit + lane` for each lane that needs a reduction.
    pub dirty: u64,
    /// A scan for naked singles is due.
    pub dirty_cells: bool,
    /// A cardinality pass is due.
    pub tdirty: bool,
    pub n_unsolved: u8,
}

impl State {
    /// The boards, as the horizontal lanes have them.
    pub open spec fn boards(&self) -> Seq<u32> {
        Seq::new(27, |i: int| self.b[i % 9][i / 9])
    }

    /// Cell `c` is not solved yet.
    pub open spec fn open(&self, c: int) -> bool {
        bit32(self.unsolved[c / 27], c % 27)
    }

    /// Digit `d` is recorded as placed in the row and the column of cell `c`.
    pub open spec fn marked(&self, c: int, d: int) -> bool {
        bit32(self.placed[d], c / 9) && bit32(self.placed[d], 9 + c % 9)
    }

    /// Lanes of 27 bits, and the number of open cells.
    pub open spec fn shape(&self) -> bool {
        &&& forall|d: int, l: int|
            0 <= d < 9 && 0 <= l < 8 ==> #[trigger] self.b[d][l] <= BAND_ALL
        &&& forall|b: int| 0 <= b < 3 ==> #[trigger] self.unsolved[b] <= BAND_ALL
        &&& self.n_unsolved == pop32(self.unsolved[0]) + pop32(self.unsolved[1]) + pop32(
            self.unsolved[2],
        )
        &&& forall|i: int| #[trigger] bit64(self.dirty, i) ==> i < 54
    }

    /// Both orientations hold the same candidates.
    pub open spec fn synced(&self) -> bool {
        forall|d: int, l: int|
            0 <= d < 9 && 0 <= l < 6 ==> views(#[trigger] self.b[d][l], self.boards(), l, d)
    }

    /// Solved cells are settled and recorded.
    pub open spec fn solved_ok(&self) -> bool {
        &&& forall|c: int|
            0 <= c < 81 && !#[trigger] self.open(c) ==> settled(cands(self.boards()), c)
        &&& forall|c: int, d: int|
            0 <= c < 81 && 0 <= d < 9 && !self.open(c) && #[trigger] cand(self.boards(), c, d)
                ==> self.marked(c, d)
    }

    /// A lane that needs no reduction is closed.
    pub open spec fn clean_ok(&self) -> bool {
        forall|d: int, l: int|
            0 <= d < 9 && 0 <= l < 6 && !#[trigger] bit64(self.dirty, 6 * d + l) ==> closed_word(
                self.b[d][l],
            )
    }

    pub open spec fn ok(&self) -> bool {
        self.shape() && self.synced() && self.solved_ok() && self.clean_ok()
    }

    /// The boards are words of 27 bits.
    pub proof fn lemma_boards(&self)
        requires
            self.shape(),
        ensures
            boards_ok(self.boards()),
            forall|b: int, d: int|
                0 <= b < 3 && 0 <= d < 9 ==> #[trigger] self.boards()[9 * b + d] == self.b[d][b],
    {
        assert forall|b: int, d: int| 0 <= b < 3 && 0 <= d < 9 implies #[trigger] self.boards()[9
            * b + d] == self.b[d][b] by {
            let i = 9 * b + d;
            assert(i / 9 == b && i % 9 == d);
        }
        assert forall|i: int| 0 <= i < 27 implies #[trigger] self.boards()[i] <= BAND_ALL by {
            assert(self.b[i % 9][i / 9] <= BAND_ALL);
        }
    }

    pub fn new() -> (s: State)
        ensures
            s.ok(),
            s.n_unsolved == 81,
            forall|i: int| 0 <= i < 27 ==> #[trigger] s.boards()[i] == BAND_ALL,
            s.unsolved@ == seq![BAND_ALL, BAND_ALL, BAND_ALL],
            forall|d: int| 0 <= d < 9 ==> #[trigger] s.placed[d] == 0,
            s.dirty == 0,
            s.dirty_cells,
            s.tdirty,
    {
        let full: Lanes = [
            BAND_ALL,
            BAND_ALL,
            BAND_ALL,
            BAND_ALL,
            BAND_ALL,
            BAND_ALL,
            0,
            0,
        ];
        let s = State {
            b: [full;9],
            unsolved: [BAND_ALL;3],
            placed: [0;9],
            dirty: 0,
            dirty_cells: true,
            tdirty: true,
            n_unsolved: 81,
        };
        proof {
            lemma_low_masks32();
            assert forall|d: int, l: int| 0 <= d < 9 && 0 <= l < 6 implies #[trigger] s.b[d][l]
                == BAND_ALL by {
                assert(s.b[d] == full);
            }
            assert forall|d: int, l: int| 0 <= d < 9 && 0 <= l < 8 implies #[trigger] s.b[d][l]
                <= BAND_ALL by {
                assert(s.b[d] == full);
            }
            assert(pop32(BAND_ALL) == 27) by {
                lemma_pop_band(BAND_ALL);
                lemma_count_all(|i: int| bit32(BAND_ALL, i), 27);
            }
            assert(s.shape());
            s.lemma_boards();
            assert forall|c: int| 0 <= c < 81 implies #[trigger] s.open(c) by {}
            assert forall|d: int, l: int| 0 <= d < 9 && 0 <= l < 6 implies views(
                #[trigger] s.b[d][l],
                s.boards(),
                l,
                d,
            ) by {
                reveal(views);
                assert forall|p: int| 0 <= p < 27 implies (#[trigger] bit32(s.b[d][l], p) <==> cand(
                    s.boards(),
                    band_cell(l, p),
                    d,
                )) by {
                    lemma_band_cell(l, p);
                    assert(s.b[d][l] == BAND_ALL);
                    let c = band_cell(l, p);
                    assert(s.boards()[9 * (c / 27) + d] == s.b[d][c / 27]);
                    assert(s.b[d][c / 27] == BAND_ALL);
                }
            }
            lemma_all_closed();
        }
        s
    }
}

/// A set that has everything counts everything.
proof fn lemma_count_all(f: spec_fn(int) -> bool, n: nat)
    requires
        forall|i: int| 0 <= i < n ==> #[trigger] f(i),
    ensures
        count(f, n) == n,
    decreases n,
{
    if n > 0 {
        lemma_count_all(f, (n - 1) as nat);
    }
}

/// Lanes `n` are lanes `o` without cell `c`.
pub open spec fn without_cell(o: Lanes, n: Lanes, c: int) -> bool {
    forall|l: int, p: int|
        0 <= l < 6 ==> (#[trigger] bit32(n[l], p) <==> bit32(o[l], p) && !(0 <= p < 27 && band_cell(
            l,
            p,
        ) == c))
}

/// Lanes `n` are lanes `o` without the peers of cell `c`.
pub open spec fn without_peers(o: Lanes, n: Lanes, c: int) -> bool {
    forall|l: int, p: int|
        0 <= l < 6 ==> (#[trigger] bit32(n[l], p) <==> bit32(o[l], p) && 0 <= p < 27 && !peers(
            c,
            band_cell(l, p),
        ))
}

/// Lanes that changed are due for a reduction.
pub open spec fn changes_marked(s0: State, s: State) -> bool {
    forall|d: int, l: int|
        0 <= d < 9 && 0 <= l < 6 && !#[trigger] bit64(s.dirty, 6 * d + l) ==> !bit64(
            s0.dirty,
            6 * d + l,
        ) && s.b[d][l] == s0.b[d][l]
}

/// Lanes are due only as before, or because they changed.
pub open spec fn lanes_due(s0: State, s: State) -> bool {
    forall|i: int| #[trigger]
        bit64(s.dirty, i) ==> bit64(s0.dirty, i) || (0 <= i < 54 && s.b[i / 6][i % 6] != s0.b[i
            / 6][i % 6])
}

/// Lane `i % 6` of digit `i / 6` becomes due when digit `d` goes to cell `c`:
/// every lane of the digit itself, and the two lanes of the cell for each
/// other digit that was a candidate there.
pub open spec fn due_after(s0: State, c: int, d: int, i: int) -> bool {
    &&& 0 <= i < 54
    &&& i / 6 == d || (cand(s0.boards(), c, i / 6) && (i % 6 == c / 27 || i % 6 == stack_lane(c)))
}

/// Rows and columns recorded for a digit stay recorded.
pub open spec fn records_kept(s0: State, s: State) -> bool {
    forall|e: int, r: int|
        0 <= e < 9 && bit32(s0.placed[e], r) ==> #[trigger] bit32(s.placed[e], r)
}

/// What is recorded was recorded before, or is the row or the column of cell
/// `c` for digit `d`.
pub open spec fn records_from(s0: State, s: State, c: int, d: int) -> bool {
    forall|e: int, r: int|
        0 <= e < 9 && #[trigger] bit32(s.placed[e], r) ==> bit32(s0.placed[e], r) || (e == d && (r
            == c / 9 || r == 9 + c % 9))
}

/// The two states agree on which cells are solved, and as what.
pub open spec fn same_solved(a: State, b: State) -> bool {
    &&& a.unsolved == b.unsolved
    &&& a.placed == b.placed
    &&& a.n_unsolved == b.n_unsolved
}

/// The set of units of one digit has six bits.
pub proof fn lemma_unit_bits(lanes: u64, d: u64, i: int)
    requires
        lanes <= 0x3F,
        d < 9,
    ensures
        bit64(lanes << (6 * d), i) <==> 6 * d <= i < 6 * d + 6 && bit64(lanes, i - 6 * d),
{
    if bit64(lanes, i - 6 * d) {
        crate::simd::tables::lemma_six(lanes, i - 6 * d);
    }
}

/// A word tested for one bit.
pub proof fn lemma_bit_test(m: u32, i: u32, bit: u32)
    requires
        i < 32,
        bit == 1u32 << i,
    ensures
        m & bit != 0 <==> bit32(m, i as int),
{
    if m & bit != 0 {
        let t = lemma_nonzero32(m & bit);
        assert(bit32(m, t) && bit32(bit, t));
    }
    if bit32(m, i as int) {
        assert(bit32(m & bit, i as int));
    }
}

/// Clears one cell from the lanes of one digit.
fn clear_cell(row: &Lanes, cell: usize, t: &Tables) -> (n: Lanes)
    requires
        t.ok(),
        cell < 81,
        forall|l: int| 0 <= l < 8 ==> #[trigger] row[l] <= BAND_ALL,
    ensures
        without_cell(*row, n, cell as int),
        forall|l: int| 0 <= l < 8 ==> #[trigger] n[l] <= BAND_ALL,
        forall|l: int|
            0 <= l < 8 && l != cell as int / 27 && l != stack_lane(cell as int) ==> #[trigger] n[l]
                == row[l],
{
    let (hb, hi) = t.horizontal(cell);
    let (vs, vi) = t.vertical(cell);
    let mut n: Lanes = *row;
    let x = n[hb] & !(1u32 << (hi as u32));
    let y = n[vs] & !(1u32 << (vi as u32));
    proof {
        lemma_subset32(x, n[hb as int]);
        lemma_subset32(y, n[vs as int]);
    }
    n[hb] = x;
    n[vs] = y;
    proof {
        assert forall|l: int, p: int| 0 <= l < 6 implies (#[trigger] bit32(n[l], p) <==> bit32(
            row[l],
            p,
        ) && !(0 <= p < 27 && band_cell(l, p) == cell)) by {
            lemma_lanes(cell as int, l);
            if in_band(l, cell as int) {
                lemma_band_pos(l, cell as int);
            }
            if 0 <= p < 27 {
                lemma_band_cell(l, p);
            }
        }
        assert forall|l: int| 0 <= l < 8 implies #[trigger] n[l] <= BAND_ALL by {
            assert(row[l] <= BAND_ALL);
        }
    }
    n
}

impl State {
    /// What an assignment leaves behind.
    proof fn lemma_assigned(&self, s0: State, c: int, d: int)
        requires
            s0.ok(),
            0 <= c < 81,
            0 <= d < 9,
            s0.open(c),
            self.shape(),
            without_peers(s0.b[d], self.b[d], c),
            forall|e: int|
                0 <= e < 9 && e != d ==> without_cell(s0.b[e], #[trigger] self.b[e], c),
            forall|x: int| 0 <= x < 81 ==> (#[trigger] self.open(x) <==> s0.open(x) && x != c),
            forall|e: int, r: int|
                0 <= e < 9 && bit32(s0.placed[e], r) ==> #[trigger] bit32(self.placed[e], r),
            self.marked(c, d),
            changes_marked(s0, *self),
        ensures
            self.ok(),
            placed(s0.boards(), self.boards(), c, d),
            within(self.boards(), s0.boards()),
    {
        let (x, y) = (s0.boards(), self.boards());
        self.lemma_boards();
        s0.lemma_boards();
        assert forall|a: int, e: int| 0 <= a < 81 && 0 <= e < 9 implies (#[trigger] cand(y, a, e)
            <==> cand(x, a, e) && (a == c ==> e == d) && !(e == d && peers(c, a))) by {
            let (l, p) = (a / 27, a % 27);
            assert(band_cell(l, p) == a) by {
                lemma_lanes(a, l);
                lemma_band_pos(l, a);
            }
            assert(y[9 * l + e] == self.b[e][l] && x[9 * l + e] == s0.b[e][l]);
            if e == d {
                assert(bit32(self.b[d][l], p) <==> bit32(s0.b[d][l], p) && 0 <= p < 27 && !peers(
                    c,
                    band_cell(l, p),
                ));
            } else {
                assert(without_cell(s0.b[e], self.b[e], c));
                assert(bit32(self.b[e][l], p) <==> bit32(s0.b[e][l], p) && !(0 <= p < 27
                    && band_cell(l, p) == c));
            }
        }
        lemma_within_cands(y, x);
        assert(self.synced()) by {
            assert forall|e: int, l: int| 0 <= e < 9 && 0 <= l < 6 implies views(
                #[trigger] self.b[e][l],
                y,
                l,
                e,
            ) by {
                assert(views(s0.b[e][l], x, l, e));
                reveal(views);
                assert forall|p: int| 0 <= p < 27 implies (#[trigger] bit32(self.b[e][l], p)
                    <==> cand(y, band_cell(l, p), e)) by {
                    lemma_band_cell(l, p);
                    assert(bit32(s0.b[e][l], p) <==> cand(x, band_cell(l, p), e));
                    if e == d {
                        assert(bit32(self.b[d][l], p) <==> bit32(s0.b[d][l], p) && 0 <= p < 27
                            && !peers(c, band_cell(l, p)));
                    } else {
                        assert(without_cell(s0.b[e], self.b[e], c));
                        assert(bit32(self.b[e][l], p) <==> bit32(s0.b[e][l], p) && !(0 <= p < 27
                            && band_cell(l, p) == c));
                    }
                }
            }
        }
        assert(self.solved_ok()) by {
            assert forall|a: int| 0 <= a < 81 && !#[trigger] self.open(a) implies settled(
                cands(y),
                a,
            ) by {
                if a == c {
                    lemma_placed_settled(x, y, c, d);
                } else {
                    assert(!s0.open(a));
                    lemma_settled_mono(y, x, a);
                }
            }
            assert forall|a: int, e: int|
                0 <= a < 81 && 0 <= e < 9 && !self.open(a) && #[trigger] cand(
                    y,
                    a,
                    e,
                ) implies self.marked(a, e) by {
                assert(cand(x, a, e));
                if a != c {
                    assert(!s0.open(a));
                    assert(s0.marked(a, e));
                }
            }
        }
        lemma_clean(s0, *self);
    }

    /// Places digit `d` in a cell, clearing what that rules out; false if the
    /// digit is no candidate there.
    pub fn assign(&mut self, d: usize, cell: usize, t: &Tables) -> (r: bool)
        requires
            old(self).ok(),
            t.ok(),
            d < 9,
            cell < 81,
        ensures
            r <==> cand(old(self).boards(), cell as int, d as int),
            !r || !old(self).open(cell as int) ==> *final(self) == *old(self),
            r && old(self).open(cell as int) ==> {
                &&& final(self).ok()
                &&& final(self).n_unsolved + 1 == old(self).n_unsolved
                &&& placed(old(self).boards(), final(self).boards(), cell as int, d as int)
                &&& within(final(self).boards(), old(self).boards())
                &&& forall|x: int|
                    0 <= x < 81 ==> (#[trigger] final(self).open(x) <==> old(self).open(x) && x
                        != cell)
                &&& final(self).marked(cell as int, d as int)
                &&& records_kept(*old(self), *final(self))
                &&& records_from(*old(self), *final(self), cell as int, d as int)
                &&& changes_marked(*old(self), *final(self))
                &&& forall|i: int| #[trigger]
                    bit64(final(self).dirty, i) <==> bit64(old(self).dirty, i) || due_after(
                        *old(self),
                        cell as int,
                        d as int,
                        i,
                    )
                &&& final(self).dirty_cells
                &&& final(self).tdirty
            },
    {
        let ghost s0 = *self;
        let ghost c = cell as int;
        let (hb, hi) = t.horizontal(cell);
        let bit = 1u32 << (hi as u32);
        proof {
            s0.lemma_boards();
            assert(s0.boards()[9 * hb + d] == s0.b[d as int][hb as int]);
            lemma_bit_test(self.b[d as int][hb as int], hi as u32, bit);
            lemma_bit_test(self.unsolved[hb as int], hi as u32, bit);
        }
        if self.b[d][hb] & bit == 0 {
            return false;
        }
        if self.unsolved[hb] & bit == 0 {
            return true;
        }
        let left = self.unsolved[hb] & !bit;
        proof {
            lemma_close_cell(s0.unsolved[hb as int], left, hi as int);
            lemma_subset32(left, s0.unsolved[hb as int]);
        }
        self.unsolved[hb] = left;
        self.n_unsolved = self.n_unsolved - 1;
        proof {
            assert forall|e: int, l: int| 0 <= e < 9 && 0 <= l < 6 && in_band(l, c) implies (
            #[trigger] bit32(self.b[e][l], band_pos(l, c)) <==> bit32(
                self.b[e][c / 27],
                band_pos(c / 27, c),
            )) by {
                lemma_lanes(c, c / 27);
                lemma_band_pos(l, c);
                lemma_band_pos(c / 27, c);
                assert(views(s0.b[e][l], s0.boards(), l, e));
                assert(views(s0.b[e][c / 27], s0.boards(), c / 27, e));
                reveal(views);
            }
        }
        let ghost s1 = *self;
        self.clear_digits(d, cell, t);
        proof {
            assert forall|i: int| #[trigger] bit64(self.dirty, i) <==> bit64(s0.dirty, i)
                || due_after(s0, c, d as int, i) by {
                if 0 <= i < 54 {
                    let e = i / 6;
                    assert(0 <= e < 9);
                    assert(s0.boards()[9 * hb + e] == s0.b[e][hb as int]);
                    assert(s1.b[e] == s0.b[e]);
                }
            }
        }
        let r = cell / 9;
        let x = cell % 9;
        self.placed[d] = self.placed[d] | (1u32 << (r as u32)) | (1u32 << ((9 + x) as u32));
        self.dirty_cells = true;
        self.tdirty = true;
        proof {
            assert forall|y: int| 0 <= y < 81 implies (#[trigger] self.open(y) <==> s0.open(y) && y
                != c) by {
                assert(y == 27 * (y / 27) + y % 27);
            }
            self.lemma_assigned(s0, c, d as int);
        }
        true
    }

    /// Clears what digit `d` in a cell rules out from all lanes.
    fn clear_digits(&mut self, d: usize, cell: usize, t: &Tables)
        requires
            forall|e: int, l: int|
                0 <= e < 9 && 0 <= l < 8 ==> #[trigger] old(self).b[e][l] <= BAND_ALL,
            forall|i: int| #[trigger] bit64(old(self).dirty, i) ==> i < 54,
            t.ok(),
            d < 9,
            cell < 81,
            forall|e: int, l: int|
                0 <= e < 9 && 0 <= l < 6 && in_band(l, cell as int) ==> (#[trigger] bit32(
                    old(self).b[e][l],
                    band_pos(l, cell as int),
                ) <==> bit32(
                    old(self).b[e][cell as int / 27],
                    band_pos(cell as int / 27, cell as int),
                )),
        ensures
            forall|e: int, l: int|
                0 <= e < 9 && 0 <= l < 8 ==> #[trigger] final(self).b[e][l] <= BAND_ALL,
            forall|i: int| #[trigger] bit64(final(self).dirty, i) ==> i < 54,
            same_solved(*old(self), *final(self)),
            without_peers(old(self).b[d as int], final(self).b[d as int], cell as int),
            forall|e: int|
                0 <= e < 9 && e != d ==> without_cell(
                    old(self).b[e],
                    #[trigger] final(self).b[e],
                    cell as int,
                ),
            changes_marked(*old(self), *final(self)),
            forall|i: int| #[trigger]
                bit64(final(self).dirty, i) <==> bit64(old(self).dirty, i) || (0 <= i < 54 && (i / 6
                    == d || (bit32(
                    old(self).b[i / 6][cell as int / 27],
                    band_pos(cell as int / 27, cell as int),
                ) && (i % 6 == cell as int / 27 || i % 6 == stack_lane(cell as int))))),
    {
        let ghost s0 = *self;
        let ghost c = cell as int;
        let (hb, hi) = t.horizontal(cell);
        let (vs, _) = t.vertical(cell);
        let bit = 1u32 << (hi as u32);
        let row = and_lanes(&self.b[d], &t.peer[cell]);
        self.b[d] = row;
        self.dirty = self.dirty | (0x3Fu64 << (6 * d as u64));
        proof {
            assert(without_peers(s0.b[d as int], row, c)) by {
                reveal(Tables::ok);
                assert forall|l: int, p: int| 0 <= l < 6 implies (#[trigger] bit32(row[l], p)
                    <==> bit32(s0.b[d as int][l], p) && 0 <= p < 27 && !peers(
                    c,
                    band_cell(l, p),
                )) by {
                    assert(row[l] == s0.b[d as int][l] & t.peer[c][l]);
                    assert(bit32(t.peer[c][l], p) <==> 0 <= p < 27 && !peers(c, band_cell(l, p)));
                }
            }
            assert forall|l: int| 0 <= l < 8 implies #[trigger] row[l] <= BAND_ALL by {
                assert(row[l] == s0.b[d as int][l] & t.peer[c][l]);
                lemma_subset32(row[l], s0.b[d as int][l]);
                assert(s0.b[d as int][l] <= BAND_ALL);
            }
            assert forall|i: int| #[trigger] bit64(self.dirty, i) <==> bit64(s0.dirty, i) || 6 * d
                <= i < 6 * d + 6 by {
                lemma_unit_bits(0x3F, d as u64, i);
                lemma_all_lanes(i - 6 * d);
            }
        }
        let unit = (1u64 << (hb as u64)) | (1u64 << (vs as u64));
        proof {
            assert(unit <= 0x3F) by {
                lemma_two_lanes(hb as u64, vs as u64);
            }
        }
        let mut e: usize = 0;
        while e < 9
            invariant
                e <= 9,
                d < 9,
                cell < 81,
                c == cell,
                t.ok(),
                hb == cell / 27,
                hb < 3,
                hi == band_pos(hb as int, c),
                hi < 27,
                vs == stack_lane(c),
                3 <= vs < 6,
                bit == 1u32 << (hi as u32),
                unit == (1u64 << (hb as u64)) | (1u64 << (vs as u64)),
                unit <= 0x3F,
                same_solved(s0, *self),
                self.dirty_cells == s0.dirty_cells,
                forall|x: int, l: int|
                    0 <= x < 9 && 0 <= l < 8 ==> #[trigger] self.b[x][l] <= BAND_ALL,
                forall|i: int| #[trigger] bit64(self.dirty, i) ==> i < 54,
                self.b[d as int] == row,
                forall|x: int| e <= x < 9 && x != d ==> #[trigger] self.b[x] == s0.b[x],
                forall|x: int|
                    0 <= x < e && x != d ==> without_cell(s0.b[x], #[trigger] self.b[x], c),
                forall|x: int, l: int|
                    0 <= x < 9 && 0 <= l < 6 && in_band(l, c) ==> (#[trigger] bit32(
                        s0.b[x][l],
                        band_pos(l, c),
                    ) <==> bit32(s0.b[x][c / 27], band_pos(c / 27, c))),
                forall|i: int| bit64(s0.dirty, i) ==> #[trigger] bit64(self.dirty, i),
                forall|l: int| 0 <= l < 6 ==> #[trigger] bit64(self.dirty, 6 * d + l),
                forall|x: int, l: int|
                    0 <= x < e && x != d && 0 <= l < 6 && !#[trigger] bit64(self.dirty, 6 * x + l)
                        ==> self.b[x][l] == s0.b[x][l],
                forall|i: int| #[trigger]
                    bit64(self.dirty, i) <==> bit64(s0.dirty, i) || (0 <= i < 54 && (i / 6 == d || (i
                        / 6 < e && bit32(s0.b[i / 6][c / 27], hi as int) && (i % 6 == hb || i % 6
                        == vs)))),
            decreases 9 - e,
        {
            if e != d {
                let ghost s1 = *self;
                let old_row = self.b[e];
                proof {
                    assert(s0.b[e as int] == old_row);
                    lemma_bit_test(old_row[hb as int], hi as u32, bit);
                    assert forall|l: int| 0 <= l < 8 implies #[trigger] old_row[l] <= BAND_ALL by {
                        assert(self.b[e as int][l] <= BAND_ALL);
                    }
                }
                if old_row[hb] & bit != 0 {
                    let n = clear_cell(&old_row, cell, t);
                    self.b[e] = n;
                    self.dirty = self.dirty | (unit << (6 * e as u64));
                    proof {
                        assert forall|i: int| #[trigger] bit64(self.dirty, i) <==> bit64(
                            s1.dirty,
                            i,
                        ) || i == 6 * e + hb || i == 6 * e + vs by {
                            lemma_unit_bits(unit, e as u64, i);
                        }
                        assert forall|i: int| #[trigger] bit64(self.dirty, i) <==> bit64(
                            s0.dirty,
                            i,
                        ) || (0 <= i < 54 && (i / 6 == d || (i / 6 < e + 1 && bit32(
                            s0.b[i / 6][c / 27],
                            hi as int,
                        ) && (i % 6 == hb || i % 6 == vs)))) by {
                            assert(bit64(s1.dirty, i) <==> bit64(s0.dirty, i) || (0 <= i < 54 && (i
                                / 6 == d || (i / 6 < e && bit32(s0.b[i / 6][c / 27], hi as int) && (
                            i % 6 == hb || i % 6 == vs)))));
                        }
                        assert forall|x: int, l: int|
                            0 <= x < e + 1 && x != d && 0 <= l < 6 && !#[trigger] bit64(
                                self.dirty,
                                6 * x + l,
                            ) implies self.b[x][l] == s0.b[x][l] by {
                            if x == e {
                                assert(l != hb && l != vs);
                                assert(n[l] == old_row[l]);
                            } else {
                                assert(!bit64(s1.dirty, 6 * x + l));
                                assert(self.b[x] == s1.b[x]);
                            }
                        }
                    }
                } else {
                    proof {
                        assert(without_cell(old_row, old_row, c)) by {
                            assert forall|l: int, p: int| 0 <= l < 6 implies (#[trigger] bit32(
                                old_row[l],
                                p,
                            ) <==> bit32(old_row[l], p) && !(0 <= p < 27 && band_cell(l, p)
                                == c)) by {
                                if 0 <= p < 27 && band_cell(l, p) == c {
                                    lemma_band_cell(l, p);
                                    assert(bit32(s0.b[e as int][l], band_pos(l, c)) <==> bit32(
                                        s0.b[e as int][c / 27],
                                        band_pos(c / 27, c),
                                    ));
                                }
                            }
                        }
                    }
                }
                proof {
                    assert forall|x: int| 0 <= x < e + 1 && x != d implies without_cell(
                        s0.b[x],
                        #[trigger] self.b[x],
                        c,
                    ) by {
                        if x < e {
                            assert(self.b[x] == s1.b[x]);
                        }
                    }
                    assert forall|x: int, l: int| 0 <= x < 9 && 0 <= l < 8 implies
                        #[trigger] self.b[x][l] <= BAND_ALL by {
                        if x != e {
                            assert(self.b[x] == s1.b[x]);
                            assert(s1.b[x][l] <= BAND_ALL);
                        }
                    }
                }
            }
            e = e + 1;
        }
        proof {
            assert forall|x: int, l: int|
                0 <= x < 9 && 0 <= l < 6 && !#[trigger] bit64(self.dirty, 6 * x + l) implies !bit64(
                s0.dirty,
                6 * x + l,
            ) && self.b[x][l] == s0.b[x][l] by {}
        }
    }
}

/// All six lanes.
proof fn lemma_all_lanes(i: int)
    ensures
        bit64(0x3Fu64, i) <==> 0 <= i < 6,
{
    reveal(bit64);
    if 0 <= i < 64 {
        let k = i as u64;
        assert(k < 64 ==> ((0x3Fu64 >> k) & 1 == 1 <==> k < 6)) by (bit_vector);
    }
}

/// Two of the six lanes.
proof fn lemma_two_lanes(a: u64, b: u64)
    by (bit_vector)
    requires
        a < 6,
        b < 6,
    ensures
        (1u64 << a) | (1u64 << b) <= 0x3F,
{
}

/// Solving one more cell.
pub proof fn lemma_close_cell(u: u32, n: u32, i: int)
    requires
        0 <= i < 27,
        bit32(u, i),
        forall|p: int| #[trigger] bit32(n, p) <==> bit32(u, p) && p != i,
    ensures
        pop32(n) + 1 == pop32(u),
{
    let f = |p: int| bit32(n, p);
    let g = |p: int| bit32(u, p);
    assert(g(i));
    lemma_count_drop(f, g, 32, i);
}

/// Lanes stay closed or due for a reduction.
pub proof fn lemma_clean(s0: State, s: State)
    requires
        s0.clean_ok(),
        changes_marked(s0, s),
    ensures
        s.clean_ok(),
{
    assert forall|d: int, l: int|
        0 <= d < 9 && 0 <= l < 6 && !#[trigger] bit64(s.dirty, 6 * d + l) implies closed_word(
        s.b[d][l],
    ) by {
        assert(!bit64(s0.dirty, 6 * d + l));
    }
}

} // verus!
