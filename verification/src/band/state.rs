//! Search state of the band engine: candidate boards, the cells still open,
//! the lines each digit is placed in, and what is due for a scan.

use vstd::prelude::*;
use crate::band::tables::{touching, Tables};
use crate::bits::{
    bit16, bit32, group_bits16, group_bits32, lemma_count_drop, lemma_ext32, lemma_low_masks16,
    lemma_low_masks32, lemma_small32, lemma_subset16, lemma_subset32, pop32,
};
use crate::boards::{
    boards_ok, cand, cands, lemma_placed_settled, lemma_settled_mono, lemma_within_cands, placed,
    sub32, within,
};
use crate::grid::{peers, settled};
use crate::minirow::{closed_word, BAND_ALL};

verus! {

broadcast use {group_bits16, group_bits32};

/// Room for pending assignments.
pub const QUEUE_LEN: usize = 512;

/// Pending assignments, each packed as `32 * (3 * digit + band) + position`.
pub struct Queue {
    pub buf: [u16; 512],
    pub len: usize,
}

/// The entry names a digit, a band and a position.
pub open spec fn entry_ok(e: u16) -> bool {
    e % 32 < 27 && e / 32 < 27
}

/// The cell an entry names.
pub open spec fn entry_cell(e: u16) -> int {
    27 * ((e as int / 32) % 3) + e as int % 32
}

/// The digit an entry names, counted from 0.
pub open spec fn entry_digit(e: u16) -> int {
    (e as int / 32) / 3
}

/// Packs an assignment.
pub fn entry(d: usize, b: usize, i: usize) -> (e: u16)
    requires
        d < 9,
        b < 3,
        i < 27,
    ensures
        entry_ok(e),
        entry_cell(e) == 27 * b + i,
        entry_digit(e) == d,
{
    let db = d * 3 + b;
    (db * 32 + i) as u16
}

impl Queue {
    pub open spec fn ok(&self) -> bool {
        self.len <= QUEUE_LEN && forall|j: int| 0 <= j < self.len ==> entry_ok(#[trigger] self.buf[j])
    }

    /// The pending assignments in the order they were queued, each as a cell
    /// and a digit.
    pub open spec fn list(&self) -> Seq<(int, int)> {
        Seq::new(self.len as nat, |j: int| (entry_cell(self.buf[j]), entry_digit(self.buf[j])))
    }

    /// The assignment of digit `d` to cell `c` is pending.
    pub open spec fn has(&self, c: int, d: int) -> bool {
        exists|j: int|
            0 <= j < self.len && entry_cell(#[trigger] self.buf[j]) == c && entry_digit(self.buf[j])
                == d
    }

    /// The pending assignments as pairs of a cell and a digit.
    pub open spec fn asks(&self) -> Set<(int, int)> {
        Set::new(|p: (int, int)| self.has(p.0, p.1))
    }

    /// `g` makes every pending assignment.
    pub open spec fn agrees(&self, g: Seq<u8>) -> bool {
        forall|j: int|
            0 <= j < self.len ==> g[entry_cell(#[trigger] self.buf[j])] == entry_digit(self.buf[j])
                + 1
    }

    pub fn new() -> (q: Queue)
        ensures
            q.ok(),
            q.len == 0,
    {
        Queue { buf: [0;512], len: 0 }
    }

    pub fn push(&mut self, e: u16)
        requires
            old(self).ok(),
            old(self).len < QUEUE_LEN,
            entry_ok(e),
        ensures
            final(self).ok(),
            final(self).len == old(self).len + 1,
            final(self).buf@ == old(self).buf@.update(old(self).len as int, e),
    {
        self.buf[self.len] = e;
        self.len = self.len + 1;
    }

    pub fn pop(&mut self) -> (e: Option<u16>)
        requires
            old(self).ok(),
        ensures
            final(self).ok(),
            final(self).buf@ == old(self).buf@,
            e is None <==> old(self).len == 0,
            e is None ==> final(self).len == 0,
            e matches Some(x) ==> final(self).len + 1 == old(self).len && entry_ok(x) && x
                == old(self).buf[final(self).len as int],
    {
        if self.len == 0 {
            None
        } else {
            self.len = self.len - 1;
            Some(self.buf[self.len])
        }
    }

    pub fn clear(&mut self)
        ensures
            final(self).ok(),
            final(self).len == 0,
    {
        self.len = 0;
    }
}

/// State of the search.
#[derive(Clone, Copy)]
pub struct BState {
    /// Word `9 * band + digit`: the cells of the band where the digit can go.
    pub bands: [u32; 27],
    /// Unsolved cells per band.
    pub unsolved: [u32; 3],
    /// Per digit the rows in which it is placed.
    pub solved_rows: [u16; 9],
    /// Per digit the columns in which it is placed.
    pub solved_cols: [u16; 9],
    /// Bit `3 * digit + band` for each word that needs a scan.
    pub dirty_bd: u32,
    /// Digits whose candidates changed since their last pass over the stacks.
    pub tdirty: u16,
    /// Bands that need a scan for naked singles.
    pub dirty_cells: u16,
    pub n_unsolved: u8,
}

impl BState {
    /// Cell `c` is not solved yet.
    pub open spec fn open(&self, c: int) -> bool {
        bit32(self.unsolved[c / 27], c % 27)
    }

    /// Digit `d` is recorded as placed in the row and the column of cell `c`.
    pub open spec fn marked(&self, c: int, d: int) -> bool {
        bit16(self.solved_rows[d], c / 9) && bit16(self.solved_cols[d], c % 9)
    }

    /// Cell sets of 27 bits, and the number of open cells.
    pub open spec fn shape(&self) -> bool {
        &&& boards_ok(self.bands@)
        &&& forall|b: int| 0 <= b < 3 ==> #[trigger] self.unsolved[b] <= BAND_ALL
        &&& self.n_unsolved == pop32(self.unsolved[0]) + pop32(self.unsolved[1]) + pop32(
            self.unsolved[2],
        )
        &&& self.dirty_bd <= BAND_ALL
        &&& self.dirty_cells <= 7
        &&& self.tdirty <= 0x1FF
    }

    /// Solved cells are settled and recorded.
    pub open spec fn solved_ok(&self) -> bool {
        &&& forall|c: int|
            0 <= c < 81 && !#[trigger] self.open(c) ==> settled(cands(self.bands@), c)
        &&& forall|c: int, d: int|
            0 <= c < 81 && 0 <= d < 9 && !self.open(c) && #[trigger] cand(self.bands@, c, d)
                ==> self.marked(c, d)
    }

    /// A word that needs no scan is closed.
    pub open spec fn clean_ok(&self) -> bool {
        forall|b: int, d: int|
            0 <= b < 3 && 0 <= d < 9 && !#[trigger] bit32(self.dirty_bd, 3 * d + b) ==> closed_word(
                self.bands[9 * b + d],
            )
    }

    pub open spec fn ok(&self) -> bool {
        self.shape() && self.solved_ok() && self.clean_ok()
    }

    pub fn new() -> (s: BState)
        ensures
            s.ok(),
            s.n_unsolved == 81,
            forall|i: int| 0 <= i < 27 ==> #[trigger] s.bands[i] == BAND_ALL,
            s.unsolved@ == seq![BAND_ALL, BAND_ALL, BAND_ALL],
            s.dirty_bd == BAND_ALL,
            s.dirty_cells == 7,
            s.tdirty == 0x1FF,
            forall|d: int| 0 <= d < 9 ==> #[trigger] s.solved_rows[d] == 0,
            forall|d: int| 0 <= d < 9 ==> #[trigger] s.solved_cols[d] == 0,
    {
        let s = BState {
            bands: [BAND_ALL;27],
            unsolved: [BAND_ALL;3],
            solved_rows: [0;9],
            solved_cols: [0;9],
            dirty_bd: BAND_ALL,
            tdirty: 0x1FF,
            dirty_cells: 7,
            n_unsolved: 81,
        };
        proof {
            lemma_low_masks32();
            assert forall|c: int| 0 <= c < 81 implies #[trigger] s.open(c) by {}
            let f = |i: int| bit32(BAND_ALL, i);
            assert(pop32(BAND_ALL) == 27) by {
                crate::bits::lemma_pop_band(BAND_ALL);
                lemma_count_all(f, 27);
            }
        }
        s
    }
}

/// Words that changed are due for a scan.
pub open spec fn changes_marked(s0: BState, s: BState) -> bool {
    forall|b: int, e: int|
        0 <= b < 3 && 0 <= e < 9 && !#[trigger] bit32(s.dirty_bd, 3 * e + b) ==> !bit32(
            s0.dirty_bd,
            3 * e + b,
        ) && s.bands[9 * b + e] == s0.bands[9 * b + e]
}

/// Bands of which a word changed are due for a scan for naked singles.
pub open spec fn cells_marked(s0: BState, s: BState) -> bool {
    forall|b: int|
        0 <= b < 3 && !#[trigger] bit16(s.dirty_cells, b) ==> !bit16(s0.dirty_cells, b) && forall|
            e: int,
        |
            0 <= e < 9 ==> #[trigger] s.bands[9 * b + e] == s0.bands[9 * b + e]
}

/// Digits of which a word changed are due for a pass over the stacks.
pub open spec fn digits_marked(s0: BState, s: BState) -> bool {
    forall|e: int|
        0 <= e < 9 && !#[trigger] bit16(s.tdirty, e) ==> !bit16(s0.tdirty, e) && forall|b: int|
            0 <= b < 3 ==> #[trigger] s.bands[9 * b + e] == s0.bands[9 * b + e]
}

/// A word of band `b` changed.
pub open spec fn band_changed(s0: BState, s: BState, b: int) -> bool {
    exists|e: int| 0 <= e < 9 && #[trigger] s.bands[9 * b + e] != s0.bands[9 * b + e]
}

/// A word of digit `e` changed.
pub open spec fn digit_changed(s0: BState, s: BState, e: int) -> bool {
    exists|b: int| 0 <= b < 3 && #[trigger] s.bands[9 * b + e] != s0.bands[9 * b + e]
}

/// Words and bands are due only as before, or because they changed.
pub open spec fn words_due(s0: BState, s: BState) -> bool {
    &&& forall|i: int| #[trigger]
        bit32(s.dirty_bd, i) ==> bit32(s0.dirty_bd, i) || (0 <= i < 27 && s.bands[9 * (i % 3) + i
            / 3] != s0.bands[9 * (i % 3) + i / 3])
    &&& forall|b: int| #[trigger]
        bit16(s.dirty_cells, b) ==> bit16(s0.dirty_cells, b) || (0 <= b < 3 && band_changed(
            s0,
            s,
            b,
        ))
}

/// Digits are due only as before, or because they changed.
pub open spec fn digits_due(s0: BState, s: BState) -> bool {
    forall|e: int| #[trigger]
        bit16(s.tdirty, e) ==> bit16(s0.tdirty, e) || (0 <= e < 9 && digit_changed(s0, s, e))
}

/// A word that changed has not changed back as candidates shrink.
proof fn lemma_still_changed(a: Seq<u32>, b: Seq<u32>, c: Seq<u32>, i: int)
    requires
        within(b, a),
        within(c, b),
        0 <= i < a.len(),
        a[i] != b[i] || b[i] != c[i],
    ensures
        a[i] != c[i],
{
    assert(sub32(b[i], a[i]) && sub32(c[i], b[i]));
    if a[i] == c[i] {
        assert forall|p: int| 0 <= p < 32 implies bit32(a[i], p) == bit32(b[i], p) by {}
        lemma_ext32(a[i], b[i]);
    }
}

/// Steps that mark only what changed compose.
pub proof fn lemma_due_trans(a: BState, b: BState, c: BState)
    requires
        within(b.bands@, a.bands@),
        within(c.bands@, b.bands@),
        words_due(a, b),
        words_due(b, c),
    ensures
        words_due(a, c),
        digits_due(a, b) && digits_due(b, c) ==> digits_due(a, c),
{
    assert forall|i: int| 0 <= i < 27 && (#[trigger] a.bands[i] != b.bands[i] || b.bands[i]
        != c.bands[i]) implies c.bands[i] != a.bands[i] by {
        lemma_still_changed(a.bands@, b.bands@, c.bands@, i);
    }
    assert forall|i: int| #[trigger] bit32(c.dirty_bd, i) implies bit32(a.dirty_bd, i) || (0 <= i
        < 27 && c.bands[9 * (i % 3) + i / 3] != a.bands[9 * (i % 3) + i / 3]) by {
        if !bit32(b.dirty_bd, i) {
            let k = 9 * (i % 3) + i / 3;
            assert(a.bands[k] != b.bands[k] || b.bands[k] != c.bands[k]);
        } else if !bit32(a.dirty_bd, i) {
            let k = 9 * (i % 3) + i / 3;
            assert(a.bands[k] != b.bands[k]);
        }
    }
    assert forall|k: int| 0 <= k < 3 && (#[trigger] band_changed(a, b, k) || band_changed(
        b,
        c,
        k,
    )) implies band_changed(a, c, k) by {
        let e = if band_changed(a, b, k) {
            choose|e: int| 0 <= e < 9 && #[trigger] b.bands[9 * k + e] != a.bands[9 * k + e]
        } else {
            choose|e: int| 0 <= e < 9 && #[trigger] c.bands[9 * k + e] != b.bands[9 * k + e]
        };
        assert(a.bands[9 * k + e] != b.bands[9 * k + e] || b.bands[9 * k + e] != c.bands[9 * k
            + e]);
        assert(c.bands[9 * k + e] != a.bands[9 * k + e]);
    }
    assert forall|e: int| 0 <= e < 9 && (#[trigger] digit_changed(a, b, e) || digit_changed(
        b,
        c,
        e,
    )) implies digit_changed(a, c, e) by {
        let k = if digit_changed(a, b, e) {
            choose|k: int| 0 <= k < 3 && #[trigger] b.bands[9 * k + e] != a.bands[9 * k + e]
        } else {
            choose|k: int| 0 <= k < 3 && #[trigger] c.bands[9 * k + e] != b.bands[9 * k + e]
        };
        assert(a.bands[9 * k + e] != b.bands[9 * k + e] || b.bands[9 * k + e] != c.bands[9 * k
            + e]);
        assert(c.bands[9 * k + e] != a.bands[9 * k + e]);
    }
    assert forall|k: int| #[trigger] bit16(c.dirty_cells, k) implies bit16(a.dirty_cells, k) || (0
        <= k < 3 && band_changed(a, c, k)) by {
        if !bit16(b.dirty_cells, k) {
            assert(band_changed(a, b, k) || band_changed(b, c, k));
        }
    }
    if digits_due(a, b) && digits_due(b, c) {
        assert forall|e: int| #[trigger] bit16(c.tdirty, e) implies bit16(a.tdirty, e) || (0 <= e
            < 9 && digit_changed(a, c, e)) by {
            if !bit16(b.tdirty, e) {
                assert(digit_changed(a, b, e) || digit_changed(b, c, e));
            }
        }
    }
}

/// What the assignment of digit `d` to cell `c` makes due: in its own band the
/// words of the digits that were candidates there, the digit's words that
/// changed in the other bands, those bands, and the digits that were
/// candidates.
pub open spec fn assign_marks(s0: BState, s: BState, c: int, d: int) -> bool {
    &&& forall|i: int| #[trigger]
        bit32(s.dirty_bd, i) <==> bit32(s0.dirty_bd, i) || (0 <= i < 27 && (if i % 3 == c / 27 {
            cand(s0.bands@, c, i / 3)
        } else {
            i / 3 == d && s.bands[9 * (i % 3) + d] != s0.bands[9 * (i % 3) + d]
        }))
    &&& forall|b: int| #[trigger]
        bit16(s.dirty_cells, b) <==> bit16(s0.dirty_cells, b) || b == c / 27 || (0 <= b < 3
            && s.bands[9 * b + d] != s0.bands[9 * b + d])
    &&& forall|e: int| #[trigger]
        bit16(s.tdirty, e) <==> bit16(s0.tdirty, e) || (0 <= e < 9 && cand(s0.bands@, c, e))
}

/// Rows and columns recorded for a digit stay recorded.
pub open spec fn records_kept(s0: BState, s: BState) -> bool {
    &&& forall|e: int, r: int|
        0 <= e < 9 && bit16(s0.solved_rows[e], r) ==> #[trigger] bit16(s.solved_rows[e], r)
    &&& forall|e: int, r: int|
        0 <= e < 9 && bit16(s0.solved_cols[e], r) ==> #[trigger] bit16(s.solved_cols[e], r)
}

/// Nothing is recorded anew but digit `d` for the row and column of cell `c`.
pub open spec fn records_from(s0: BState, s: BState, c: int, d: int) -> bool {
    &&& forall|e: int, r: int|
        0 <= e < 9 && #[trigger] bit16(s.solved_rows[e], r) ==> bit16(s0.solved_rows[e], r) || (e
            == d && r == c / 9)
    &&& forall|e: int, r: int|
        0 <= e < 9 && #[trigger] bit16(s.solved_cols[e], r) ==> bit16(s0.solved_cols[e], r) || (e
            == d && r == c % 9)
}

/// A set that has everything counts everything.
proof fn lemma_count_all(f: spec_fn(int) -> bool, n: nat)
    requires
        forall|i: int| 0 <= i < n ==> #[trigger] f(i),
    ensures
        crate::bits::count(f, n) == n,
    decreases n,
{
    if n > 0 {
        lemma_count_all(f, (n - 1) as nat);
    }
}

/// Clears cell `i` from all nine words of band `b`, and returns the digits
/// that had it.
fn clear_cell_in_band(bands: &mut [u32; 27], b: usize, i: usize) -> (dm: u16)
    requires
        b < 3,
        i < 27,
        boards_ok(old(bands)@),
    ensures
        dm <= 0x1FF,
        boards_ok(final(bands)@),
        forall|e: int|
            #[trigger] bit16(dm, e) <==> 0 <= e < 9 && bit32(old(bands)[9 * b + e], i as int),
        forall|e: int, p: int|
            0 <= e < 9 ==> (#[trigger] bit32(final(bands)[9 * b + e], p) <==> bit32(
                old(bands)[9 * b + e],
                p,
            ) && p != i),
        forall|k: int| 0 <= k < 27 && k / 9 != b ==> #[trigger] final(bands)[k] == old(bands)[k],
{
    let ghost bands0 = bands@;
    let bit = 1u32 << (i as u32);
    let mut dm: u16 = 0;
    let mut e: usize = 0;
    while e < 9
        invariant
            e <= 9,
            b < 3,
            i < 27,
            bit == 1u32 << (i as u32),
            boards_ok(bands0),
            boards_ok(bands@),
            forall|x: int|
                #[trigger] bit16(dm, x) <==> 0 <= x < e && bit32(bands0[9 * b + x], i as int),
            forall|x: int, p: int|
                0 <= x < e ==> (#[trigger] bit32(bands[9 * b + x], p) <==> bit32(
                    bands0[9 * b + x],
                    p,
                ) && p != i),
            forall|k: int|
                0 <= k < 27 && !(9 * b <= k < 9 * b + e) ==> #[trigger] bands[k] == bands0[k],
        decreases 9 - e,
    {
        let m = bands[9 * b + e];
        let ghost dm0 = dm;
        let ghost before = bands@;
        if m & bit != 0 {
            dm = dm | (1u16 << (e as u16));
        }
        proof {
            if m & bit != 0 {
                let t = crate::bits::lemma_nonzero32(m & bit);
                assert(bit32(m, t) && bit32(bit, t));
            }
            if bit32(m, i as int) {
                assert(bit32(m & bit, i as int));
            }
            lemma_subset32(m & !bit, m);
        }
        bands[9 * b + e] = m & !bit;
        proof {
            assert forall|x: int, p: int| 0 <= x < e + 1 implies (#[trigger] bit32(
                bands[9 * b + x],
                p,
            ) <==> bit32(bands0[9 * b + x], p) && p != i) by {
                if x < e {
                    assert(bands[9 * b + x] == before[9 * b + x]);
                    assert(bit32(before[9 * b + x], p) <==> bit32(bands0[9 * b + x], p) && p != i);
                }
            }
        }
        e = e + 1;
    }
    proof {
        lemma_low_masks16();
        lemma_subset16(dm, 0x1FF);
        assert forall|k: int| 0 <= k < 27 && k / 9 != b implies #[trigger] bands[k] == bands0[k] by {}
    }
    dm
}

/// Two cells are peers if they touch inside a band or share a column.
proof fn lemma_peer_cases(c: int, x: int)
    requires
        0 <= c < 81,
        0 <= x < 81,
    ensures
        c / 27 == x / 27 ==> (peers(c, x) <==> x != c && touching(x % 27, c % 27)),
        c / 27 != x / 27 ==> (peers(c, x) <==> c % 9 == x % 9),
        (c % 27) % 9 == c % 9,
        (x % 27) % 9 == x % 9,
{
    assert(c == 27 * (c / 27) + c % 27 && x == 27 * (x / 27) + x % 27);
    let (p, q) = (c % 27, x % 27);
    assert(c / 9 == 3 * (c / 27) + p / 9 && x / 9 == 3 * (x / 27) + q / 9);
    assert(c % 9 == p % 9 && x % 9 == q % 9);
}

/// Solving one more cell.
pub proof fn lemma_close_cell(u: u32, n: u32, i: int)
    requires
        0 <= i < 27,
        bit32(u, i),
        forall|p: int| #[trigger] bit32(n, p) <==> bit32(u, p) && p != i,
    ensures
        pop32(n) + 1 == pop32(u),
{
    let f = |p: int| bit32(n, p);
    let g = |p: int| bit32(u, p);
    assert(g(i));
    lemma_count_drop(f, g, 32, i);
}

/// The rest of the state after an assignment.
proof fn lemma_assigned(s0: BState, s: BState, c: int, d: int)
    requires
        s0.ok(),
        0 <= c < 81,
        0 <= d < 9,
        s0.open(c),
        boards_ok(s.bands@),
        placed(s0.bands@, s.bands@, c, d),
        s.shape(),
        forall|x: int| 0 <= x < 81 ==> (#[trigger] s.open(x) <==> s0.open(x) && x != c),
        forall|e: int, r: int|
            0 <= e < 9 && bit16(s0.solved_rows[e], r) ==> #[trigger] bit16(s.solved_rows[e], r),
        forall|e: int, r: int|
            0 <= e < 9 && bit16(s0.solved_cols[e], r) ==> #[trigger] bit16(s.solved_cols[e], r),
        s.marked(c, d),
        forall|b: int, e: int|
            0 <= b < 3 && 0 <= e < 9 && !#[trigger] bit32(s.dirty_bd, 3 * e + b) ==> !bit32(
                s0.dirty_bd,
                3 * e + b,
            ) && s.bands[9 * b + e] == s0.bands[9 * b + e],
    ensures
        s.ok(),
        within(s.bands@, s0.bands@),
{
    lemma_within_cands(s.bands@, s0.bands@);
    assert(s.solved_ok()) by {
        assert forall|x: int| 0 <= x < 81 && !#[trigger] s.open(x) implies settled(
            cands(s.bands@),
            x,
        ) by {
            if x == c {
                lemma_placed_settled(s0.bands@, s.bands@, c, d);
            } else {
                assert(!s0.open(x));
                lemma_settled_mono(s.bands@, s0.bands@, x);
            }
        }
        assert forall|x: int, e: int|
            0 <= x < 81 && 0 <= e < 9 && !s.open(x) && #[trigger] cand(
                s.bands@,
                x,
                e,
            ) implies s.marked(x, e) by {
            assert(cand(s0.bands@, x, e));
            if x != c {
                assert(!s0.open(x));
                assert(s0.marked(x, e));
            }
        }
    }
    assert(s.clean_ok()) by {
        assert forall|b: int, e: int|
            0 <= b < 3 && 0 <= e < 9 && !#[trigger] bit32(
                s.dirty_bd,
                3 * e + b,
            ) implies closed_word(s.bands[9 * b + e]) by {
            assert(!bit32(s0.dirty_bd, 3 * e + b));
        }
    }
}

impl BState {
    /// Places digit `d` at position `i` of band `b`, clearing what that rules
    /// out; false if the digit is no candidate there.
    pub fn assign(&mut self, d: usize, b: usize, i: usize, t: &Tables) -> (r: bool)
        requires
            old(self).ok(),
            t.ok(),
            d < 9,
            b < 3,
            i < 27,
        ensures
            r <==> cand(old(self).bands@, 27 * b + i, d as int),
            !r || !old(self).open(27 * b + i) ==> *final(self) == *old(self),
            r && old(self).open(27 * b + i) ==> {
                &&& final(self).ok()
                &&& final(self).n_unsolved + 1 == old(self).n_unsolved
                &&& placed(old(self).bands@, final(self).bands@, 27 * b + i, d as int)
                &&& within(final(self).bands@, old(self).bands@)
                &&& forall|x: int|
                    0 <= x < 81 ==> (#[trigger] final(self).open(x) <==> old(self).open(x) && x
                        != 27 * b + i)
                &&& final(self).marked(27 * b + i, d as int)
                &&& records_kept(*old(self), *final(self))
                &&& records_from(*old(self), *final(self), 27 * b + i, d as int)
                &&& changes_marked(*old(self), *final(self))
                &&& cells_marked(*old(self), *final(self))
                &&& digits_marked(*old(self), *final(self))
                &&& assign_marks(*old(self), *final(self), 27 * b + i, d as int)
            },
    {
        let ghost s0 = *self;
        let ghost c = 27 * b + i;
        let bit = 1u32 << (i as u32);
        let od = self.bands[9 * b + d];
        proof {
            lemma_low_masks32();
            lemma_low_masks16();
            assert(c / 27 == b && c % 27 == i);
            lemma_bit_test(od, i as u32, bit);
            lemma_bit_test(self.unsolved[b as int], i as u32, bit);
        }
        if od & bit == 0 {
            return false;
        }
        if self.unsolved[b] & bit == 0 {
            return true;
        }
        let x = i % 9;
        let r = i / 9;
        let dm = clear_cell_in_band(&mut self.bands, b, i);
        let ghost s1 = *self;
        proof {
            reveal(Tables::ok);
            assert forall|p: int| #[trigger] bit32(od & t.elim[i as int], p) implies bit32(
                BAND_ALL,
                p,
            ) by {}
            lemma_subset32(od & t.elim[i as int], BAND_ALL);
        }
        self.bands[9 * b + d] = od & t.elim[i];
        let ghost s2 = *self;
        let mut bd_mark: u32 = t.spread[dm as usize] << (b as u32);
        let col3 = t.col3[x];
        let ghost mark0 = bd_mark;
        proof {
            assert forall|b2: int, e: int| 0 <= b2 < 3 && 0 <= e < 9 implies (#[trigger] bit32(
                bd_mark,
                3 * e + b2,
            ) <==> b2 == b && bit16(dm, e)) by {
                assert(3 * e + b2 >= b ==> ((3 * e + b2 - b) % 3 == 0 <==> b2 == b));
                if b2 == b {
                    assert((3 * e + b2 - b) / 3 == e);
                }
            }
            assert forall|p: int| 0 <= p < 32 && bit32(bd_mark, p) implies bit32(BAND_ALL, p) by {}
            lemma_subset32(bd_mark, BAND_ALL);
            assert forall|j: int| #[trigger] bit32(mark0, j) <==> 0 <= j < 27 && j % 3 == b
                && bit16(dm, j / 3) by {
                if bit32(mark0, j) {
                    lemma_small32(mark0, j);
                }
                if 0 <= j < 27 {
                    let (e, k) = (j / 3, j % 3);
                    assert(j == 3 * e + k);
                    assert(bit32(bd_mark, 3 * e + k) <==> k == b && bit16(dm, e));
                }
            }
        }
        let mut b2: usize = 0;
        while b2 < 3
            invariant
                b2 <= 3,
                b < 3,
                d < 9,
                i < 27,
                x == i % 9,
                t.ok(),
                forall|p: int| #[trigger] bit32(col3, p) <==> 0 <= p < 27 && p % 9 == x,
                boards_ok(self.bands@),
                boards_ok(s2.bands@),
                self.unsolved == s2.unsolved,
                self.solved_rows == s2.solved_rows,
                self.solved_cols == s2.solved_cols,
                self.dirty_bd == s2.dirty_bd,
                self.tdirty == s2.tdirty,
                self.n_unsolved == s2.n_unsolved,
                self.dirty_cells <= 7,
                bd_mark <= BAND_ALL,
                forall|p: int| #[trigger] bit32(BAND_ALL, p) <==> 0 <= p < 27,
                forall|k: int| #[trigger] bit16(7u16, k) <==> 0 <= k < 3,
                forall|k: int|
                    0 <= k < 27 && (k % 9 != d || k / 9 >= b2 || k / 9 == b)
                        ==> #[trigger] self.bands[k] == s2.bands[k],
                forall|k: int, p: int|
                    0 <= k < b2 && k != b ==> (#[trigger] bit32(self.bands[9 * k + d], p)
                        <==> bit32(s2.bands[9 * k + d], p) && !(0 <= p < 27 && p % 9 == x)),
                forall|k: int, e: int|
                    0 <= k < 3 && 0 <= e < 9 && bit32(mark0, 3 * e + k) ==> #[trigger] bit32(
                        bd_mark,
                        3 * e + k,
                    ),
                forall|k: int|
                    0 <= k < b2 && k != b && !#[trigger] bit32(bd_mark, 3 * d + k)
                        ==> self.bands[9 * k + d] == s2.bands[9 * k + d],
                forall|k: int| bit16(s2.dirty_cells, k) ==> #[trigger] bit16(self.dirty_cells, k),
                forall|k: int|
                    0 <= k < b2 && k != b && !#[trigger] bit16(self.dirty_cells, k)
                        ==> self.bands[9 * k + d] == s2.bands[9 * k + d],
                forall|j: int| #[trigger]
                    bit32(bd_mark, j) ==> bit32(mark0, j) || (0 <= j < 27 && j / 3 == d && j % 3
                        != b && self.bands[9 * (j % 3) + d] != s2.bands[9 * (j % 3) + d]),
                forall|k: int| #[trigger]
                    bit16(self.dirty_cells, k) ==> bit16(s2.dirty_cells, k) || (0 <= k < 3 && k
                        != b && self.bands[9 * k + d] != s2.bands[9 * k + d]),
            decreases 3 - b2,
        {
            if b2 != b {
                let o = self.bands[9 * b2 + d];
                let n = o & !col3;
                let ghost before = *self;
                let ghost mark = bd_mark;
                if n != o {
                    proof {
                        lemma_subset32(n, o);
                    }
                    self.bands[9 * b2 + d] = n;
                    let one_bd = 1u32 << ((d * 3 + b2) as u32);
                    proof {
                        lemma_subset32(one_bd, BAND_ALL);
                        lemma_band_words(bd_mark, one_bd);
                    }
                    bd_mark = bd_mark | one_bd;
                    let one = 1u16 << (b2 as u16);
                    let cells = self.dirty_cells | one;
                    proof {
                        lemma_cells_mark(self.dirty_cells, b2 as u16);
                    }
                    self.dirty_cells = cells;
                }
                proof {
                    assert forall|j: int| #[trigger] bit32(bd_mark, j) implies bit32(mark0, j) || (0
                        <= j < 27 && j / 3 == d && j % 3 != b && self.bands[9 * (j % 3) + d]
                        != s2.bands[9 * (j % 3) + d]) by {
                        let k = j % 3;
                        if bit32(mark, j) && !bit32(mark0, j) {
                            if k != b2 {
                                assert(self.bands[9 * k + d] == before.bands[9 * k + d]);
                            }
                        } else if !bit32(mark, j) {
                            assert(j == 3 * d + b2);
                            assert(k == b2 && j / 3 == d);
                        }
                    }
                    assert forall|k: int| #[trigger] bit16(self.dirty_cells, k) implies bit16(
                        s2.dirty_cells,
                        k,
                    ) || (0 <= k < 3 && k != b && self.bands[9 * k + d] != s2.bands[9 * k + d]) by {
                        if bit16(before.dirty_cells, k) && !bit16(s2.dirty_cells, k) {
                            if k != b2 {
                                assert(self.bands[9 * k + d] == before.bands[9 * k + d]);
                            }
                        }
                    }
                    assert forall|k: int, p: int| 0 <= k < b2 + 1 && k != b implies (
                    #[trigger] bit32(self.bands[9 * k + d], p) <==> bit32(
                        s2.bands[9 * k + d],
                        p,
                    ) && !(0 <= p < 27 && p % 9 == x)) by {
                        if k < b2 {
                            assert(self.bands[9 * k + d] == before.bands[9 * k + d]);
                            assert(bit32(before.bands[9 * k + d], p) <==> bit32(
                                s2.bands[9 * k + d],
                                p,
                            ) && !(0 <= p < 27 && p % 9 == x));
                        } else {
                            assert(self.bands[9 * k + d] == n);
                        }
                    }
                    assert forall|k: int|
                        0 <= k < b2 + 1 && k != b && !#[trigger] bit32(
                            bd_mark,
                            3 * d + k,
                        ) implies self.bands[9 * k + d] == s2.bands[9 * k + d] by {
                        if k < b2 {
                            assert(!bit32(mark, 3 * d + k));
                            assert(self.bands[9 * k + d] == before.bands[9 * k + d]);
                        }
                    }
                    assert forall|k: int|
                        0 <= k < b2 + 1 && k != b && !#[trigger] bit16(
                            self.dirty_cells,
                            k,
                        ) implies self.bands[9 * k + d] == s2.bands[9 * k + d] by {
                        if k < b2 {
                            assert(!bit16(before.dirty_cells, k));
                            assert(self.bands[9 * k + d] == before.bands[9 * k + d]);
                        }
                    }
                }
            }
            b2 = b2 + 1;
        }
        self.dirty_bd = self.dirty_bd | bd_mark;
        self.tdirty = self.tdirty | dm;
        let ghost marked_cells = self.dirty_cells;
        proof {
            lemma_cells_mark(self.dirty_cells, b as u16);
        }
        self.dirty_cells = self.dirty_cells | (1u16 << (b as u16));
        let left = self.unsolved[b] & !bit;
        proof {
            lemma_close_cell(s0.unsolved[b as int], left, i as int);
            lemma_subset32(left, s0.unsolved[b as int]);
        }
        self.unsolved[b] = left;
        self.n_unsolved = self.n_unsolved - 1;
        self.solved_rows[d] = self.solved_rows[d] | (1u16 << ((b * 3 + r) as u16));
        self.solved_cols[d] = self.solved_cols[d] | (1u16 << (x as u16));
        proof {
            let s = *self;
            assert(placed(s0.bands@, s.bands@, c, d as int)) by {
                assert forall|y: int, e: int| 0 <= y < 81 && 0 <= e < 9 implies (#[trigger] cand(
                    s.bands@,
                    y,
                    e,
                ) <==> cand(s0.bands@, y, e) && (y == c ==> e == d) && !(e == d && peers(
                    c,
                    y,
                ))) by {
                    lemma_peer_cases(c, y);
                    let (k, p) = (y / 27, y % 27);
                    assert(y == 27 * k + p);
                    assert((9 * k + e) / 9 == k && (9 * k + e) % 9 == e);
                    if k == b {
                        assert(s.bands[9 * k + e] == s2.bands[9 * k + e]);
                        assert(bit32(s1.bands[9 * b + e], p) <==> bit32(s0.bands[9 * b + e], p) && p
                            != i);
                        if e == d {
                            assert(s2.bands[9 * k + e] == od & t.elim[i as int]);
                        } else {
                            assert(s2.bands[9 * k + e] == s1.bands[9 * k + e]);
                        }
                    } else {
                        assert(s2.bands[9 * k + e] == s1.bands[9 * k + e]);
                        assert(s1.bands[9 * k + e] == s0.bands[9 * k + e]);
                        if e == d {
                            assert(bit32(s.bands[9 * k + d], p) <==> bit32(s2.bands[9 * k + d], p)
                                && !(0 <= p < 27 && p % 9 == x));
                        } else {
                            assert(s.bands[9 * k + e] == s2.bands[9 * k + e]);
                        }
                    }
                }
            }
            assert forall|y: int| 0 <= y < 81 implies (#[trigger] s.open(y) <==> s0.open(y) && y
                != c) by {
                assert(y == 27 * (y / 27) + y % 27);
            }
            assert(s.marked(c, d as int)) by {
                assert(c / 9 == 3 * b + r && c % 9 == x);
            }
            assert forall|k: int, e: int|
                0 <= k < 3 && 0 <= e < 9 && !#[trigger] bit32(s.dirty_bd, 3 * e + k) implies !bit32(
                s0.dirty_bd,
                3 * e + k,
            ) && s.bands[9 * k + e] == s0.bands[9 * k + e] by {
                assert(!bit32(bd_mark, 3 * e + k));
                assert(!bit32(mark0, 3 * e + k));
                assert((9 * k + e) / 9 == k && (9 * k + e) % 9 == e);
                if k == b {
                    assert(!bit16(dm, e));
                    assert(bit16(dm, d as int));
                    let (w, w0) = (s.bands[9 * k + e], s0.bands[9 * k + e]);
                    assert forall|p: int| 0 <= p < 32 implies bit32(w, p) == bit32(w0, p) by {
                        assert(s.bands[9 * k + e] == s2.bands[9 * k + e]);
                        assert(s2.bands[9 * k + e] == s1.bands[9 * k + e]);
                        assert(bit32(s1.bands[9 * b + e], p) <==> bit32(s0.bands[9 * b + e], p) && p
                            != i);
                    }
                    lemma_ext32(w, w0);
                } else {
                    assert(s2.bands[9 * k + e] == s1.bands[9 * k + e]);
                    assert(s1.bands[9 * k + e] == s0.bands[9 * k + e]);
                    assert(s.bands[9 * k + e] == s2.bands[9 * k + e]);
                }
            }
            assert(cells_marked(s0, s)) by {
                assert forall|k: int| 0 <= k < 3 && !#[trigger] bit16(s.dirty_cells, k) implies !bit16(
                    s0.dirty_cells,
                    k,
                ) && forall|e: int|
                    0 <= e < 9 ==> #[trigger] s.bands[9 * k + e] == s0.bands[9 * k + e] by {
                    assert(k != b);
                    assert(!bit16(marked_cells, k));
                    assert forall|e: int| 0 <= e < 9 implies #[trigger] s.bands[9 * k + e]
                        == s0.bands[9 * k + e] by {
                        assert((9 * k + e) / 9 == k && (9 * k + e) % 9 == e);
                        assert(s2.bands[9 * k + e] == s1.bands[9 * k + e]);
                        assert(s1.bands[9 * k + e] == s0.bands[9 * k + e]);
                    }
                }
            }
            assert(digits_marked(s0, s)) by {
                assert forall|e: int| 0 <= e < 9 && !#[trigger] bit16(s.tdirty, e) implies !bit16(
                    s0.tdirty,
                    e,
                ) && forall|k: int|
                    0 <= k < 3 ==> #[trigger] s.bands[9 * k + e] == s0.bands[9 * k + e] by {
                    assert(!bit16(dm, e));
                    assert(bit16(dm, d as int));
                    assert forall|k: int| 0 <= k < 3 implies #[trigger] s.bands[9 * k + e]
                        == s0.bands[9 * k + e] by {
                        assert((9 * k + e) / 9 == k && (9 * k + e) % 9 == e);
                        assert(s.bands[9 * k + e] == s2.bands[9 * k + e]);
                        assert(s2.bands[9 * k + e] == s1.bands[9 * k + e]);
                        if k == b {
                            let (w, w0) = (s.bands[9 * k + e], s0.bands[9 * k + e]);
                            assert forall|p: int| 0 <= p < 32 implies bit32(w, p) == bit32(w0, p) by {
                                assert(bit32(s1.bands[9 * b + e], p) <==> bit32(
                                    s0.bands[9 * b + e],
                                    p,
                                ) && p != i);
                            }
                            lemma_ext32(w, w0);
                        } else {
                            assert(s1.bands[9 * k + e] == s0.bands[9 * k + e]);
                        }
                    }
                }
            }
            lemma_band_words(s0.dirty_bd, bd_mark);
            lemma_digit_words(s0.tdirty, dm);
            assert forall|k: int| 0 <= k < 3 && k != b implies #[trigger] s2.bands[9 * k + d]
                == s0.bands[9 * k + d] by {
                assert((9 * k + d) / 9 == k && (9 * k + d) % 9 == d);
                assert(s2.bands[9 * k + d] == s1.bands[9 * k + d]);
            }
            assert(assign_marks(s0, s, c, d as int)) by {
                assert forall|j: int| #[trigger] bit32(s.dirty_bd, j) <==> bit32(s0.dirty_bd, j) || (
                0 <= j < 27 && (if j % 3 == c / 27 {
                    cand(s0.bands@, c, j / 3)
                } else {
                    j / 3 == d && s.bands[9 * (j % 3) + d] != s0.bands[9 * (j % 3) + d]
                })) by {
                    let (e, k) = (j / 3, j % 3);
                    assert(bit32(mark0, j) <==> 0 <= j < 27 && k == b && bit16(dm, e));
                    if 0 <= j < 27 {
                        assert(j == 3 * e + k);
                        if k == b {
                            assert(bit16(dm, e) <==> bit32(s0.bands[9 * b + e], i as int));
                            assert(cand(s0.bands@, c, e) <==> bit16(dm, e));
                            if bit32(mark0, 3 * e + k) {
                                assert(bit32(bd_mark, 3 * e + k));
                            }
                        } else if e == d {
                            assert(s2.bands[9 * k + d] == s0.bands[9 * k + d]);
                            if s.bands[9 * k + d] != s0.bands[9 * k + d] {
                                assert(bit32(bd_mark, 3 * d + k));
                            }
                        }
                    }
                }
                assert forall|e: int| #[trigger] bit16(s.tdirty, e) <==> bit16(s0.tdirty, e) || (0
                    <= e < 9 && cand(s0.bands@, c, e)) by {
                    assert(bit16(dm, e) <==> 0 <= e < 9 && bit32(s0.bands[9 * b + e], i as int));
                }
                assert forall|k: int| #[trigger] bit16(s.dirty_cells, k) <==> bit16(
                    s0.dirty_cells,
                    k,
                ) || k == c / 27 || (0 <= k < 3 && s.bands[9 * k + d] != s0.bands[9 * k + d]) by {
                    assert(bit16(s.dirty_cells, k) <==> bit16(marked_cells, k) || k == b);
                    if 0 <= k < 3 && k != b {
                        assert(s2.bands[9 * k + d] == s0.bands[9 * k + d]);
                    }
                }
            }
            lemma_assigned(s0, s, c, d as int);
        }
        true
    }
}

/// Digit sets stay digit sets.
pub proof fn lemma_digit_words(a: u16, b: u16)
    requires
        a <= 0x1FF,
        b <= 0x1FF,
    ensures
        a | b <= 0x1FF,
{
    lemma_low_masks16();
    assert forall|i: int| 0 <= i < 16 && bit16(a | b, i) implies bit16(0x1FFu16, i) by {
        if bit16(a, i) {
            crate::bits::lemma_small9(a, i);
        } else {
            crate::bits::lemma_small9(b, i);
        }
    }
    lemma_subset16(a | b, 0x1FF);
}

/// Words of 27 bits stay words of 27 bits.
pub proof fn lemma_band_words(a: u32, b: u32)
    requires
        a <= BAND_ALL,
        b <= BAND_ALL,
    ensures
        a | b <= BAND_ALL,
{
    lemma_low_masks32();
    assert forall|i: int| 0 <= i < 32 && bit32(a | b, i) implies bit32(BAND_ALL, i) by {
        if bit32(a, i) {
            lemma_small32(a, i);
        } else {
            lemma_small32(b, i);
        }
    }
    lemma_subset32(a | b, BAND_ALL);
}

/// A word tested for one bit.
proof fn lemma_bit_test(m: u32, i: u32, bit: u32)
    requires
        i < 32,
        bit == 1u32 << i,
    ensures
        m & bit != 0 <==> bit32(m, i as int),
{
    if m & bit != 0 {
        let t = crate::bits::lemma_nonzero32(m & bit);
        assert(bit32(m, t) && bit32(bit, t));
    }
    if bit32(m, i as int) {
        assert(bit32(m & bit, i as int));
    }
}

/// Marking one of the three bands.
pub proof fn lemma_cells_mark(m: u16, b: u16)
    requires
        m <= 7,
        b < 3,
    ensures
        m | (1u16 << b) <= 7,
{
    lemma_low_masks16();
    assert forall|i: int| 0 <= i < 16 && bit16(m | (1u16 << b), i) implies bit16(7u16, i) by {
        if bit16(m, i) {
            lemma_small3(m, i);
        }
    }
    lemma_subset16(m | (1u16 << b), 7);
}

/// A 3-bit set has no band from 3 up.
pub proof fn lemma_small3(m: u16, i: int)
    requires
        m <= 7,
        bit16(m, i),
    ensures
        0 <= i < 3,
{
    reveal(bit16);
    let k = i as u16;
    assert(m <= 7u16 && k < 16 && (m >> k) & 1 == 1 ==> k < 3) by (bit_vector);
}

} // verus!
