//! The search state of the baseline engine: candidates, the cells waiting to
//! be assigned, and what is due for a scan.

use vstd::prelude::*;
use crate::baseline::cells::{
    admits, cells_ok, dead, is_single, keeps, lemma_clash, lemma_dead_back, lemma_multi_update,
    lemma_narrower_trans, lemma_only_digit, lemma_update_admits, lemma_update_narrower, multi,
    narrower, only, single, sub_cell,
};
use crate::baseline::rest::{
    lemma_only_narrower, lemma_refuted_back, lemma_refuted_clash, lemma_spare_peer, refuted, spares,
};
use crate::baseline::tables::{in_unit, int_box, lemma_peer_slot, on_line, peer_slot, Tables};
use crate::bits::{
    bit128, bit16, bit32, bit64, count, group_bits128, group_bits16, group_bits32, group_bits64,
    lemma_ext16, lemma_low_masks128, lemma_low_masks32, lemma_low_masks64, lemma_nonzero16,
    lemma_small9,
};
use crate::grid::{
    box_of, col_of, is_grid, lemma_grid_facts, lemma_unit_cells, lemma_units_of, peers, row_of,
    unit_cell,
};

verus! {

broadcast use {group_bits16, group_bits32, group_bits64, group_bits128};

/// Every digit.
pub const ALL: u16 = 0x1FF;

/// Cells that wait to be assigned.
pub struct Queue {
    pub buf: [u8; 512],
    pub len: usize,
}

impl Queue {
    pub open spec fn ok(&self) -> bool {
        self.len <= 512
    }

    /// Cell `c` is waiting.
    pub open spec fn has(&self, c: int) -> bool {
        exists|i: int| 0 <= i < self.len && #[trigger] self.buf[i] == c
    }

    pub fn new() -> (q: Queue)
        ensures
            q.ok(),
            q.len == 0,
    {
        Queue { buf: [0;512], len: 0 }
    }

    pub fn push(&mut self, c: u8)
        requires
            old(self).len < 512,
        ensures
            final(self).len == old(self).len + 1,
            final(self).buf[old(self).len as int] == c,
            forall|i: int| 0 <= i < old(self).len ==> #[trigger] final(self).buf[i] == old(self).buf[i],
            final(self).has(c as int),
            forall|x: int| #[trigger] old(self).has(x) ==> final(self).has(x),
    {
        let ghost q0 = *self;
        self.buf[self.len] = c;
        self.len = self.len + 1;
        proof {
            assert(self.buf[q0.len as int] == c);
            assert forall|x: int| #[trigger] q0.has(x) implies self.has(x) by {
                let i = choose|i: int| 0 <= i < q0.len && #[trigger] q0.buf[i] == x;
                assert(self.buf[i] == x);
            }
        }
    }

    pub fn pop(&mut self) -> (r: Option<u8>)
        requires
            old(self).ok(),
        ensures
            final(self).buf == old(self).buf,
            r is None <==> old(self).len == 0,
            r is None ==> final(self).len == 0,
            r matches Some(c) ==> final(self).len == old(self).len - 1 && c == old(
                self,
            ).buf[old(self).len - 1],
    {
        if self.len == 0 {
            None
        } else {
            self.len = self.len - 1;
            Some(self.buf[self.len])
        }
    }

    pub fn clear(&mut self)
        ensures
            final(self).len == 0,
            final(self).buf == old(self).buf,
    {
        self.len = 0;
    }
}

/// The state of a search node.
#[derive(Clone, Copy)]
pub struct State {
    /// Candidate digits per cell. Solved cells keep exactly their digit.
    pub cand: [u16; 81],
    /// Digits already placed in each unit.
    pub unit_solved: [u16; 27],
    /// Set of unsolved cells.
    pub unsolved: u128,
    pub n_unsolved: u32,
    /// Units whose candidates changed since their last scan.
    pub dirty: u32,
    /// Intersections changed since their last scan.
    pub int_dirty: u64,
}

/// Cell `c` is solved with digit `d`: it holds nothing else, its units know,
/// and its peers have lost the digit.
pub open spec fn solved_as(s: State, c: int, d: int) -> bool {
    &&& 0 <= d < 9
    &&& only(s.cand[c], d)
    &&& forall|u: int| 0 <= u < 27 && #[trigger] in_unit(u, c) ==> bit16(s.unit_solved[u], d)
    &&& forall|x: int| 0 <= x < 81 && #[trigger] peers(c, x) ==> !bit16(s.cand[x], d)
}

pub open spec fn solved(s: State, c: int) -> bool {
    exists|d: int| #[trigger] solved_as(s, c, d)
}

/// Some solved cell of unit `u` holds digit `d`.
pub open spec fn holds(s: State, u: int, d: int) -> bool {
    exists|c: int| 0 <= c < 81 && #[trigger] in_unit(u, c) && !s.open(c) && only(s.cand[c], d)
}

/// What the units know as placed is placed.
pub open spec fn units_true(s: State) -> bool {
    forall|u: int, d: int| 0 <= u < 27 && #[trigger] bit16(s.unit_solved[u], d) ==> holds(s, u, d)
}

/// Cell `c` is one of the three of intersection `k`.
pub open spec fn meets(k: int, c: int) -> bool {
    box_of(c) == int_box(k) && on_line(k, c)
}

/// The three cells of intersection `k` are the same.
pub open spec fn same_crossing(a: Seq<u16>, b: Seq<u16>, k: int) -> bool {
    forall|c: int| 0 <= c < 81 && #[trigger] meets(k, c) ==> a[c] == b[c]
}

/// An unsolved cell with one candidate has its intersections marked.
pub open spec fn singles_marked(s: State) -> bool {
    forall|c: int, k: int|
        0 <= k < 54 && #[trigger] meets(k, c) && s.open(c) && single(s.cand[c]) ==> bit64(
            s.int_dirty,
            k,
        )
}

/// From `s0` to `s`, exactly the intersections with a changed cell are marked
/// anew, and placed digits stay placed.
#[verifier::opaque]
pub open spec fn marked_on(s0: State, s: State) -> bool {
    &&& forall|c: int, k: int|
        0 <= c < 81 && 0 <= k < 54 && #[trigger] meets(k, c) && s.cand[c] != s0.cand[c] ==> bit64(
            s.int_dirty,
            k,
        )
    &&& forall|k: int| #[trigger] bit64(s0.int_dirty, k) ==> bit64(s.int_dirty, k)
    &&& forall|k: int| #[trigger]
        bit64(s.int_dirty, k) ==> bit64(s0.int_dirty, k) || !same_crossing(s0.cand@, s.cand@, k)
    &&& forall|u: int|
        0 <= u < 27 ==> sub_cell(#[trigger] s0.unit_solved[u], s.unit_solved[u])
}

pub proof fn lemma_marked_on(s0: State, s1: State, s2: State)
    requires
        marked_on(s0, s1),
        marked_on(s1, s2),
        narrower(s1.cand@, s0.cand@),
        narrower(s2.cand@, s1.cand@),
    ensures
        marked_on(s0, s2),
{
    reveal(marked_on);
    assert forall|c: int| 0 <= c < 81 && #[trigger] s2.cand@[c] == s0.cand@[c] implies s1.cand@[c]
        == s0.cand@[c] by {
        assert(sub_cell(s1.cand@[c], s0.cand@[c]) && sub_cell(s2.cand@[c], s1.cand@[c]));
        lemma_ext16(s1.cand@[c], s0.cand@[c]);
    }
    assert forall|c: int, k: int|
        0 <= c < 81 && 0 <= k < 54 && #[trigger] meets(k, c) && s2.cand[c]
            != s0.cand[c] implies bit64(s2.int_dirty, k) by {
        if s1.cand[c] != s0.cand[c] {
            assert(bit64(s1.int_dirty, k));
        }
    }
    assert forall|k: int| #[trigger] bit64(s2.int_dirty, k) implies bit64(s0.int_dirty, k)
        || !same_crossing(s0.cand@, s2.cand@, k) by {
        if same_crossing(s0.cand@, s2.cand@, k) {
            assert forall|c: int| 0 <= c < 81 && #[trigger] meets(k, c) implies s0.cand@[c]
                == s1.cand@[c] && s1.cand@[c] == s2.cand@[c] by {
                assert(s2.cand@[c] == s0.cand@[c]);
            }
            assert(same_crossing(s0.cand@, s1.cand@, k));
            assert(same_crossing(s1.cand@, s2.cand@, k));
            assert(bit64(s1.int_dirty, k));
        }
    }
    assert forall|u: int| 0 <= u < 27 implies sub_cell(
        #[trigger] s0.unit_solved[u],
        s2.unit_solved[u],
    ) by {
        assert(sub_cell(s0.unit_solved[u], s1.unit_solved[u]));
        assert(sub_cell(s1.unit_solved[u], s2.unit_solved[u]));
    }
}

/// Intersections of cells with one candidate stay marked.
pub proof fn lemma_singles_marked(s0: State, s: State)
    requires
        singles_marked(s0),
        marked_on(s0, s),
        forall|c: int| #[trigger] s.open(c) ==> 0 <= c < 81 && s0.open(c),
    ensures
        singles_marked(s),
{
    reveal(marked_on);
    assert forall|c: int, k: int|
        0 <= k < 54 && #[trigger] meets(k, c) && s.open(c) && single(s.cand[c]) implies bit64(
        s.int_dirty,
        k,
    ) by {
        if s.cand[c] == s0.cand[c] {
            assert(bit64(s0.int_dirty, k));
        }
    }
}

/// Nothing but marks changed.
pub proof fn lemma_unmarked(s0: State, s: State)
    requires
        s.cand == s0.cand,
        s.unit_solved == s0.unit_solved,
        s.int_dirty == s0.int_dirty,
    ensures
        marked_on(s0, s),
{
    reveal(marked_on);
}

/// What is placed stays placed as candidates shrink.
pub proof fn lemma_units_true(s0: State, s: State)
    requires
        units_true(s0),
        cells_ok(s.cand@),
        narrower(s.cand@, s0.cand@),
        s.unit_solved == s0.unit_solved,
        s.unsolved == s0.unsolved,
    ensures
        units_true(s),
{
    assert forall|u: int, d: int| 0 <= u < 27 && #[trigger] bit16(
        s.unit_solved[u],
        d,
    ) implies holds(s, u, d) by {
        assert(holds(s0, u, d));
        let c = choose|c: int|
            0 <= c < 81 && #[trigger] in_unit(u, c) && !s0.open(c) && only(s0.cand[c], d);
        lemma_only_narrower(s0.cand@, s.cand@, c, d);
        assert(!s.open(c));
    }
}

/// Digit `d` needs no hidden-single step in unit `u`: it is placed, or it has
/// two places left, or its place has no other candidate.
pub open spec fn placed_or_open(s: State, u: int, d: int) -> bool {
    ||| bit16(s.unit_solved[u], d)
    ||| exists|i: int|
        0 <= i < 9 && bit16(s.cand[#[trigger] unit_cell(u, i)], d) && single(
            s.cand[unit_cell(u, i)],
        )
    ||| exists|i: int, j: int|
        0 <= i < j < 9 && bit16(s.cand[#[trigger] unit_cell(u, i)], d) && bit16(
            s.cand[#[trigger] unit_cell(u, j)],
            d,
        )
}

/// Unit `u` has a place for every digit and no hidden single to draw on.
pub open spec fn unit_clean(s: State, u: int) -> bool {
    forall|d: int| 0 <= d < 9 ==> #[trigger] placed_or_open(s, u, d)
}

/// Every unit outside of `dirty` is clean.
pub open spec fn clean(s: State, dirty: u32) -> bool {
    forall|u: int| 0 <= u < 27 && !#[trigger] bit32(dirty, u) ==> unit_clean(s, u)
}

impl State {
    /// Cell `c` is unsolved.
    pub open spec fn open(&self, c: int) -> bool {
        bit128(self.unsolved, c)
    }

    /// Candidates and masks in range, the unsolved cells counted.
    pub open spec fn shape(&self) -> bool {
        &&& cells_ok(self.cand@)
        &&& forall|c: int| #[trigger] self.open(c) ==> 0 <= c < 81
        &&& self.n_unsolved == count(|c: int| self.open(c), 81)
        &&& forall|u: int| #[trigger] bit32(self.dirty, u) ==> 0 <= u < 27
        &&& forall|k: int| #[trigger] bit64(self.int_dirty, k) ==> 0 <= k < 54
    }

    /// In shape, with the solved cells solved.
    pub open spec fn ok(&self) -> bool {
        &&& self.shape()
        &&& forall|c: int| 0 <= c < 81 && !#[trigger] self.open(c) ==> solved(*self, c)
        &&& units_true(*self)
        &&& singles_marked(*self)
    }

    /// The queue holds cells with one candidate, and every unsolved cell with
    /// one candidate, but for `c`, is in the queue.
    pub open spec fn queued_but(&self, q: Queue, c: int) -> bool {
        &&& q.ok()
        &&& forall|i: int|
            0 <= i < q.len ==> #[trigger] q.buf[i] < 81 && single(self.cand[q.buf[i] as int])
        &&& forall|x: int|
            0 <= x < 81 && x != c && #[trigger] self.open(x) && single(self.cand[x]) ==> q.has(x)
    }

    /// The queue holds exactly what it should.
    pub open spec fn queued(&self, q: Queue) -> bool {
        self.queued_but(q, -1)
    }

    /// Some cell in the queue is unsolved.
    pub open spec fn pending(&self, q: Queue) -> bool {
        exists|c: int| #[trigger] self.open(c) && q.has(c)
    }

    /// No naked and no hidden single is left.
    pub open spec fn singles_done(&self) -> bool {
        &&& forall|c: int| #[trigger] self.open(c) ==> !single(self.cand[c])
        &&& forall|u: int| 0 <= u < 27 ==> #[trigger] unit_clean(*self, u)
    }

    /// A state in which nothing is known.
    pub fn new() -> (s: State)
        ensures
            s.ok(),
            s.n_unsolved == 81,
            forall|c: int| 0 <= c < 81 ==> #[trigger] s.cand[c] == ALL,
            forall|c: int| #[trigger] s.open(c) <==> 0 <= c < 81,
            forall|u: int| #[trigger] bit32(s.dirty, u) <==> 0 <= u < 27,
            forall|k: int| #[trigger] bit64(s.int_dirty, k) <==> 0 <= k < 54,
    {
        let s = State {
            cand: [ALL;81],
            unit_solved: [0;27],
            unsolved: 0x1_FFFF_FFFF_FFFF_FFFF_FFFF,
            n_unsolved: 81,
            dirty: 0x7FF_FFFF,
            int_dirty: 0x3F_FFFF_FFFF_FFFF,
        };
        proof {
            lemma_low_masks128();
            lemma_low_masks32();
            lemma_low_masks64();
            let f = |c: int| s.open(c);
            lemma_all_members(f, 81);
        }
        s
    }

    pub fn is_unsolved(&self, c: usize) -> (r: bool)
        requires
            c < 81,
        ensures
            r <==> self.open(c as int),
    {
        proof {
            reveal(bit128);
        }
        (self.unsolved >> (c as u128)) & 1 == 1
    }

    /// Gives a cell with several candidates fewer of them.
    pub fn narrow(&mut self, p: usize, nm: u16, q: &mut Queue, t: &Tables)
        requires
            t.ok(),
            p < 81,
            old(self).shape(),
            old(q).len < 512,
            nm != 0,
            sub_cell(nm, old(self).cand[p as int]),
            nm != old(self).cand[p as int],
            !single(old(self).cand[p as int]),
        ensures
            final(self).shape(),
            final(self).cand@ == old(self).cand@.update(p as int, nm),
            final(self).unsolved == old(self).unsolved,
            final(self).n_unsolved == old(self).n_unsolved,
            final(self).unit_solved == old(self).unit_solved,
            forall|u: int| #[trigger]
                bit32(final(self).dirty, u) <==> bit32(old(self).dirty, u) || (0 <= u < 27
                    && in_unit(u, p as int)),
            narrower(final(self).cand@, old(self).cand@),
            final(q).len + multi(final(self).cand@) <= old(q).len + multi(old(self).cand@),
            !single(nm) ==> *final(q) == *old(q),
            single(nm) ==> final(q).len == old(q).len + 1 && final(q).buf[old(q).len as int] == p,
            forall|i: int|
                0 <= i < old(q).len ==> #[trigger] final(q).buf[i] == old(q).buf[i],
            forall|c: int| #[trigger]
                old(self).queued_but(*old(q), c) ==> final(self).queued_but(*final(q), c),
            forall|d: u32|
                clean(*old(self), old(self).dirty | d) ==> #[trigger] clean(
                    *final(self),
                    final(self).dirty | d,
                ),
            forall|x: int| #[trigger] old(q).has(x) ==> final(q).has(x),
            marked_on(*old(self), *final(self)),
    {
        let ghost s0 = *self;
        let ghost q0 = *q;
        let ghost pp = p as int;
        self.cand[p] = nm;
        self.dirty = self.dirty | t.cell_unit_mask[p];
        self.int_dirty = self.int_dirty | t.cell_int_mask[p];
        if is_single(nm) {
            q.push(p as u8);
        }
        proof {
            let s1 = *self;
            let q1 = *q;
            reveal(Tables::ok);
            lemma_update_narrower(s0.cand@, pp, nm);
            lemma_multi_update(s0.cand@, pp, nm);
            assert(s1.cand@ =~= s0.cand@.update(pp, nm));
            assert(marked_on(s0, s1)) by {
                reveal(marked_on);
                assert forall|c: int, k: int|
                    0 <= c < 81 && 0 <= k < 54 && #[trigger] meets(k, c) && s1.cand[c]
                        != s0.cand[c] implies bit64(s1.int_dirty, k) by {
                    assert(c == pp);
                    assert(bit64(t.cell_int_mask[pp], k));
                }
                assert forall|k: int| #[trigger] bit64(s1.int_dirty, k) implies bit64(
                    s0.int_dirty,
                    k,
                ) || !same_crossing(s0.cand@, s1.cand@, k) by {
                    if !bit64(s0.int_dirty, k) {
                        assert(bit64(t.cell_int_mask[pp], k));
                        assert(meets(k, pp));
                        assert(s1.cand@[pp] != s0.cand@[pp]);
                    }
                }
            }
            assert(cells_ok(s1.cand@)) by {
                crate::bits::lemma_subset16(nm, s0.cand[pp]);
                assert forall|c: int| 0 <= c < 81 implies #[trigger] s1.cand@[c] != 0
                    && s1.cand@[c] <= 0x1FF by {
                    assert(s0.cand@[c] <= 0x1FF);
                }
            }
            assert forall|c: int| s1.open(c) == s0.open(c) by {}
            lemma_same_open(s0, s1);
            assert forall|c: int| #[trigger] s0.queued_but(q0, c) implies s1.queued_but(q1, c) by {
                assert forall|i: int| 0 <= i < q1.len implies #[trigger] q1.buf[i] < 81 && single(
                    s1.cand[q1.buf[i] as int],
                ) by {
                    if i < q0.len {
                        assert(q1.buf[i] == q0.buf[i]);
                        assert(q0.buf[i] < 81 && single(s0.cand[q0.buf[i] as int]));
                        if q0.buf[i] == pp {
                            assert(!single(s0.cand[pp]));
                        }
                    }
                }
                assert forall|x: int| 0 <= x < 81 && x != c && #[trigger] s1.open(x) && single(
                    s1.cand[x],
                ) implies q1.has(x) by {
                    if x != pp {
                        assert(s0.open(x) && single(s0.cand[x]));
                        assert(q0.has(x));
                    }
                }
            }
            assert forall|d: u32| clean(s0, s0.dirty | d) implies #[trigger] clean(
                s1,
                s1.dirty | d,
            ) by {
                assert forall|u: int| 0 <= u < 27 && !#[trigger] bit32(
                    s1.dirty | d,
                    u,
                ) implies unit_clean(s1, u) by {
                    assert(!bit32(s1.dirty, u) && !bit32(d, u));
                    assert(!bit32(s0.dirty | d, u));
                    assert(!in_unit(u, pp));
                    lemma_clean_elsewhere(s0, s1, u, pp);
                }
            }
        }
    }
}

/// Every index below `n` is a member.
proof fn lemma_all_members(f: spec_fn(int) -> bool, n: nat)
    requires
        forall|i: int| 0 <= i < n ==> #[trigger] f(i),
    ensures
        count(f, n) == n,
    decreases n,
{
    if n > 0 {
        lemma_all_members(f, (n - 1) as nat);
        assert(f(n - 1));
    }
}

/// The same unsolved cells count the same.
pub proof fn lemma_same_open(a: State, b: State)
    requires
        a.unsolved == b.unsolved,
    ensures
        count(|c: int| a.open(c), 81) == count(|c: int| b.open(c), 81),
{
    let f = |c: int| a.open(c);
    let h = |c: int| b.open(c);
    crate::bits::lemma_count_mono(f, h, 81);
    crate::bits::lemma_count_mono(h, f, 81);
}

/// Cell `i` of unit `u` belongs to `u`.
pub proof fn lemma_unit_member(u: int, i: int)
    requires
        0 <= u < 27,
        0 <= i < 9,
    ensures
        0 <= unit_cell(u, i) < 81,
        in_unit(u, unit_cell(u, i)),
{
    lemma_unit_cells(u, i, if i == 0 {
        1
    } else {
        0
    });
    if u < 9 {
        crate::grid::lemma_cell_coords(u, i);
    } else if u < 18 {
        crate::grid::lemma_cell_coords(i, u - 9);
    } else {
        let b = u - 18;
        let (r, x) = ((b / 3) * 3 + i / 3, (b % 3) * 3 + i % 3);
        crate::grid::lemma_cell_coords(r, x);
        assert(r / 3 == b / 3 && x / 3 == b % 3);
    }
}

/// A change at a cell outside of a unit leaves the unit clean.
pub proof fn lemma_clean_elsewhere(s0: State, s1: State, u: int, p: int)
    requires
        0 <= u < 27,
        unit_clean(s0, u),
        !in_unit(u, p),
        forall|x: int| 0 <= x < 81 && x != p ==> #[trigger] s1.cand[x] == s0.cand[x],
        sub_cell(s0.unit_solved[u], s1.unit_solved[u]),
    ensures
        unit_clean(s1, u),
{
    assert forall|i: int| 0 <= i < 9 implies s1.cand[#[trigger] unit_cell(u, i)]
        == s0.cand[unit_cell(u, i)] by {
        lemma_unit_member(u, i);
    }
    assert forall|d: int| 0 <= d < 9 implies #[trigger] placed_or_open(s1, u, d) by {
        assert(placed_or_open(s0, u, d));
        if bit16(s0.unit_solved[u], d) {
        } else if exists|i: int|
            0 <= i < 9 && bit16(s0.cand[#[trigger] unit_cell(u, i)], d) && single(
                s0.cand[unit_cell(u, i)],
            ) {
            let i = choose|i: int|
                0 <= i < 9 && bit16(s0.cand[#[trigger] unit_cell(u, i)], d) && single(
                    s0.cand[unit_cell(u, i)],
                );
            assert(bit16(s1.cand[unit_cell(u, i)], d) && single(s1.cand[unit_cell(u, i)]));
        } else {
            let (i, j) = choose|i: int, j: int|
                0 <= i < j < 9 && bit16(s0.cand[#[trigger] unit_cell(u, i)], d) && bit16(
                    s0.cand[#[trigger] unit_cell(u, j)],
                    d,
                );
            assert(bit16(s1.cand[unit_cell(u, i)], d) && bit16(s1.cand[unit_cell(u, j)], d));
        }
    }
}

/// A solved cell stays solved as candidates shrink.
pub proof fn lemma_solved_narrower(s0: State, s1: State, c: int)
    requires
        0 <= c < 81,
        cells_ok(s1.cand@),
        solved(s0, c),
        narrower(s1.cand@, s0.cand@),
        forall|u: int| 0 <= u < 27 ==> sub_cell(#[trigger] s0.unit_solved[u], s1.unit_solved[u]),
    ensures
        solved(s1, c),
{
    let d = choose|d: int| #[trigger] solved_as(s0, c, d);
    assert(sub_cell(s1.cand@[c], s0.cand@[c]));
    assert(s1.cand@[c] != 0);
    let e = lemma_nonzero16(s1.cand@[c]);
    assert(only(s1.cand[c], d));
    assert forall|u: int| 0 <= u < 27 && #[trigger] in_unit(u, c) implies bit16(
        s1.unit_solved[u],
        d,
    ) by {
        assert(sub_cell(s0.unit_solved[u], s1.unit_solved[u]));
    }
    assert forall|x: int| 0 <= x < 81 && #[trigger] peers(c, x) implies !bit16(s1.cand[x], d) by {
        assert(sub_cell(s1.cand@[x], s0.cand@[x]));
    }
    assert(solved_as(s1, c, d));
}

/// Some cell of unit `u` differs.
pub open spec fn unit_differs(a: Seq<u16>, b: Seq<u16>, u: int) -> bool {
    exists|x: int| 0 <= x < 81 && #[trigger] in_unit(u, x) && a[x] != b[x]
}

/// Cell `x` has one candidate in `b`, but several in `a`.
pub open spec fn turned_single(a: Seq<u16>, b: Seq<u16>, x: int) -> bool {
    0 <= x < 81 && !single(a[x]) && single(b[x])
}

/// Cell `x` is waiting, queued at position `n` or later.
pub open spec fn queued_since(q: Queue, n: int, x: int) -> bool {
    exists|i: int| n <= i < q.len && #[trigger] q.buf[i] == x
}

/// Behind what was queued before stand the cells that have turned single, in
/// increasing order.
pub open spec fn singles_appended(q0: Queue, q: Queue, a: Seq<u16>, b: Seq<u16>) -> bool {
    &&& q0.len <= q.len
    &&& forall|i: int| 0 <= i < q0.len ==> #[trigger] q.buf[i] == q0.buf[i]
    &&& forall|i: int| q0.len <= i < q.len ==> turned_single(a, b, #[trigger] q.buf[i] as int)
    &&& forall|i: int, j: int| q0.len <= i < j < q.len ==> #[trigger] q.buf[i] < #[trigger] q.buf[j]
    &&& forall|x: int| #[trigger] turned_single(a, b, x) ==> queued_since(q, q0.len as int, x)
}

/// Cell `x` is among the first `n` of a row of peers.
pub open spec fn among(row: [u8; 20], n: int, x: int) -> bool {
    exists|k: int| 0 <= k < n && #[trigger] row[k] == x
}

/// One more cell was narrowed, and queued if it turned single.
proof fn lemma_one_more(q0: Queue, q1: Queue, q: Queue, a: Seq<u16>, b: Seq<u16>, p: int, nm: u16)
    requires
        b.len() == 81,
        0 <= p < 81,
        !single(b[p]),
        b[p] == a[p],
        q1.len < 512,
        singles_appended(q0, q1, a, b),
        forall|i: int| q0.len <= i < q1.len ==> #[trigger] q1.buf[i] < p,
        !single(nm) ==> q == q1,
        single(nm) ==> q.len == q1.len + 1 && q.buf[q1.len as int] == p,
        forall|i: int| 0 <= i < q1.len ==> #[trigger] q.buf[i] == q1.buf[i],
    ensures
        singles_appended(q0, q, a, b.update(p, nm)),
        forall|i: int| q0.len <= i < q.len ==> #[trigger] q.buf[i] <= p,
{
    let n = b.update(p, nm);
    assert forall|i: int| q0.len <= i < q.len implies turned_single(
        a,
        n,
        #[trigger] q.buf[i] as int,
    ) && q.buf[i] <= p by {
        if i < q1.len {
            assert(q.buf[i] == q1.buf[i]);
            assert(turned_single(a, b, q1.buf[i] as int));
        }
    }
    assert forall|i: int, j: int| q0.len <= i < j < q.len implies #[trigger] q.buf[i]
        < #[trigger] q.buf[j] by {
        assert(q.buf[i] == q1.buf[i]);
        if j < q1.len {
            assert(q.buf[j] == q1.buf[j]);
        }
    }
    assert forall|x: int| #[trigger] turned_single(a, n, x) implies queued_since(
        q,
        q0.len as int,
        x,
    ) by {
        if x == p {
            assert(q.buf[q1.len as int] == x);
        } else {
            assert(turned_single(a, b, x));
            let i = choose|i: int| q0.len <= i < q1.len && #[trigger] q1.buf[i] == x;
            assert(q.buf[i] == x);
        }
    }
}

impl State {
    /// Commits a cell to its only candidate and eliminates it from the peers;
    /// false if a peer has only that candidate too.
    #[verifier::rlimit(60)]
    pub fn assign(&mut self, c: usize, q: &mut Queue, t: &Tables) -> (r: bool)
        requires
            t.ok(),
            c < 81,
            old(self).ok(),
            old(self).open(c as int),
            single(old(self).cand[c as int]),
            old(self).queued_but(*old(q), c as int),
            clean(*old(self), old(self).dirty),
            old(q).len + multi(old(self).cand@) <= 500,
        ensures
            r <==> forall|x: int|
                0 <= x < 81 && peers(c as int, x) ==> #[trigger] old(self).cand[x] != old(
                    self,
                ).cand[c as int],
            !r ==> dead(old(self).cand@) && refuted(old(self).cand@),
            r ==> {
                &&& forall|x: int|
                    0 <= x < 81 ==> (#[trigger] final(self).open(x) <==> old(self).open(x) && x
                        != c)
                &&& forall|x: int, e: int|
                    0 <= x < 81 ==> (#[trigger] bit16(final(self).cand[x], e) <==> bit16(
                        old(self).cand[x],
                        e,
                    ) && !(peers(c as int, x) && bit16(old(self).cand[c as int], e)))
                &&& forall|u: int, e: int|
                    0 <= u < 27 ==> (#[trigger] bit16(final(self).unit_solved[u], e) <==> bit16(
                        old(self).unit_solved[u],
                        e,
                    ) || (in_unit(u, c as int) && bit16(old(self).cand[c as int], e)))
                &&& forall|u: int| #[trigger]
                    bit32(final(self).dirty, u) <==> bit32(old(self).dirty, u) || (0 <= u < 27
                        && unit_differs(old(self).cand@, final(self).cand@, u))
                &&& singles_appended(*old(q), *final(q), old(self).cand@, final(self).cand@)
                &&& final(self).ok()
                &&& final(self).n_unsolved == old(self).n_unsolved - 1
                &&& final(self).queued(*final(q))
                &&& clean(*final(self), final(self).dirty)
                &&& narrower(final(self).cand@, old(self).cand@)
                &&& keeps(old(self).cand@, final(self).cand@)
                &&& spares(old(self).cand@, final(self).cand@)
                &&& final(q).len + multi(final(self).cand@) <= old(q).len + multi(old(self).cand@)
                &&& marked_on(*old(self), *final(self))
            },
    {
        let ghost s0 = *self;
        let ghost q0 = *q;
        let ghost cc = c as int;
        let bit = self.cand[c];
        let ghost d = choose|d: int| #[trigger] only(s0.cand[cc], d);
        proof {
            assert(bit16(bit, d));
            assert(s0.cand@[cc] <= 0x1FF);
            lemma_small9(bit, d);
        }
        self.unsolved = self.unsolved & !(1u128 << (c as u128));
        let ghost mid = *self;
        proof {
            let f = |x: int| s0.open(x);
            let h = |x: int| mid.open(x);
            assert forall|x: int| #[trigger] mid.open(x) <==> s0.open(x) && x != cc by {}
            crate::bits::lemma_count_drop(h, f, 81, cc);
        }
        self.n_unsolved = self.n_unsolved - 1;
        let u0 = t.cell_units[c][0];
        let u1 = t.cell_units[c][1];
        let u2 = t.cell_units[c][2];
        proof {
            reveal(Tables::ok);
            lemma_units_of(cc);
            assert(t.cell_units[cc]@[0] == row_of(cc) && t.cell_units[cc]@[1] == 9 + col_of(cc)
                && t.cell_units[cc]@[2] == 18 + box_of(cc));
            assert(u0 == row_of(cc) && u1 == 9 + col_of(cc) && u2 == 18 + box_of(cc));
        }
        self.unit_solved[u0 as usize] = self.unit_solved[u0 as usize] | bit;
        self.unit_solved[u1 as usize] = self.unit_solved[u1 as usize] | bit;
        self.unit_solved[u2 as usize] = self.unit_solved[u2 as usize] | bit;
        let ghost s1 = *self;
        proof {
            assert forall|u: int| 0 <= u < 27 implies sub_cell(
                #[trigger] s0.unit_solved[u],
                s1.unit_solved[u],
            ) by {}
            assert forall|u: int| 0 <= u < 27 && #[trigger] in_unit(u, cc) implies bit16(
                s1.unit_solved[u],
                d,
            ) by {
                assert(u == u0 || u == u1 || u == u2);
            }
            assert forall|u: int, e: int| 0 <= u < 27 && #[trigger] bit16(
                s1.unit_solved[u],
                e,
            ) implies bit16(s0.unit_solved[u], e) || (in_unit(u, cc) && e == d) by {
                if !bit16(s0.unit_solved[u], e) {
                    assert(u == u0 || u == u1 || u == u2);
                    assert(bit16(bit, e));
                    assert(in_unit(u, cc));
                }
            }
            assert(marked_on(s0, s1)) by {
                reveal(marked_on);
            }
            assert(s1.shape()) by {
                lemma_same_open(mid, s1);
                assert forall|x: int| #[trigger] s1.open(x) implies 0 <= x < 81 by {
                    assert(mid.open(x));
                    assert(s0.open(x));
                }
            }
            assert(s1.queued_but(*q, cc)) by {
                assert forall|x: int| 0 <= x < 81 && x != cc && #[trigger] s1.open(x) && single(
                    s1.cand[x],
                ) implies q.has(x) by {
                    assert(s0.open(x));
                }
            }
            assert(clean(s1, s1.dirty)) by {
                assert forall|u: int| 0 <= u < 27 && !#[trigger] bit32(
                    s1.dirty,
                    u,
                ) implies unit_clean(s1, u) by {
                    assert(unit_clean(s0, u));
                    lemma_clean_grown(s0, s1, u);
                }
            }
            assert(s1.dirty | 0 == s1.dirty) by {
                crate::bits::lemma_ext32(s1.dirty | 0, s1.dirty);
            }
            assert forall|x: int| !among(t.peers[cc], 0, x) by {}
            assert(singles_appended(q0, *q, s0.cand@, s1.cand@));
            assert forall|x: int| 0 <= x < 81 && x != cc && !#[trigger] s1.open(x) implies solved(
                s1,
                x,
            ) by {
                assert(!s0.open(x));
                lemma_solved_narrower(s0, s1, x);
            }
        }
        let mut j: usize = 0;
        while j < 20
            invariant
                j <= 20,
                t.ok(),
                c < 81,
                cc == c,
                s0 == *old(self),
                q0 == *old(q),
                bit == s0.cand[cc],
                only(bit, d),
                0 <= d < 9,
                s0.cand == s1.cand,
                self.shape(),
                self.unsolved == s1.unsolved,
                self.n_unsolved == s1.n_unsolved,
                self.unit_solved == s1.unit_solved,
                self.cand[cc] == bit,
                !self.open(cc),
                narrower(self.cand@, s0.cand@),
                keeps(s0.cand@, self.cand@),
                spares(s0.cand@, self.cand@),
                self.queued_but(*q, cc),
                clean(*self, self.dirty | 0),
                q.len + multi(self.cand@) <= q0.len + multi(s0.cand@),
                q0.len + multi(s0.cand@) <= 500,
                forall|x: int|
                    0 <= x < 81 && x != cc && !#[trigger] self.open(x) ==> solved(*self, x),
                forall|k: int| 0 <= k < j ==> !bit16(self.cand[#[trigger] t.peers[cc][k] as int], d),
                marked_on(s0, *self),
                forall|x: int, e: int|
                    0 <= x < 81 ==> (#[trigger] bit16(self.cand[x], e) <==> bit16(s0.cand[x], e)
                        && !(e == d && among(t.peers[cc], j as int, x))),
                forall|u: int| #[trigger]
                    bit32(self.dirty, u) <==> bit32(s0.dirty, u) || (0 <= u < 27 && unit_differs(
                        s0.cand@,
                        self.cand@,
                        u,
                    )),
                singles_appended(q0, *q, s0.cand@, self.cand@),
                forall|i: int, k: int|
                    q0.len <= i < q.len && j <= k < 20 ==> #[trigger] q.buf[i]
                        < #[trigger] t.peers[cc][k],
                forall|k: int|
                    0 <= k < j ==> s0.cand[#[trigger] t.peers[cc][k] as int] != s0.cand[cc],
            decreases 20 - j,
        {
            let p = t.peers[c][j] as usize;
            proof {
                reveal(Tables::ok);
                assert(t.peers[cc][j as int] < 81 && peers(cc, t.peers[cc][j as int] as int));
            }
            let ghost pp = p as int;
            let ghost s2 = *self;
            let ghost q2 = *q;
            let m = self.cand[p];
            proof {
                assert forall|x: int| #[trigger] among(t.peers[cc], j + 1, x) <==> among(
                    t.peers[cc],
                    j as int,
                    x,
                ) || x == pp by {
                    if among(t.peers[cc], j as int, x) {
                        let k = choose|k: int| 0 <= k < j && #[trigger] t.peers[cc][k] == x;
                        assert(t.peers[cc][k] == x);
                    }
                }
                assert(!among(t.peers[cc], j as int, pp)) by {
                    if among(t.peers[cc], j as int, pp) {
                        let k = choose|k: int| 0 <= k < j && #[trigger] t.peers[cc][k] == pp;
                        assert(t.peers[cc][k] < t.peers[cc][j as int]);
                    }
                }
                assert(m == s0.cand[pp]) by {
                    assert forall|e: int| 0 <= e < 16 implies bit16(m, e) == bit16(
                        s0.cand[pp],
                        e,
                    ) by {
                        assert(bit16(self.cand[pp], e) <==> bit16(s0.cand[pp], e));
                    }
                    lemma_ext16(m, s0.cand[pp]);
                }
            }
            if m & bit != 0 {
                proof {
                    let e = lemma_nonzero16(m & bit);
                    assert(bit16(m, e) && bit16(bit, e));
                    assert(bit16(m, d));
                    assert(peers(pp, cc));
                }
                let nm = m & !bit;
                if !self.is_unsolved(p) {
                    proof {
                        assert(!self.open(pp));
                        let e = choose|e: int| #[trigger] solved_as(*self, pp, e);
                        assert(bit16(self.cand[pp], d) <==> d == e);
                        lemma_same_only(m, bit, d);
                        lemma_clash(self.cand@, cc, pp, d);
                        lemma_dead_back(s0.cand@, self.cand@);
                        lemma_refuted_clash(self.cand@, cc, pp, d);
                        lemma_refuted_back(s0.cand@, self.cand@);
                    }
                    return false;
                }
                if nm == 0 {
                    proof {
                        assert(only(m, d)) by {
                            assert forall|e: int| #[trigger] bit16(m, e) <==> e == d by {
                                if bit16(m, e) && e != d {
                                    assert(bit16(nm, e));
                                    assert(!bit16(0u16, e));
                                }
                            }
                        }
                        lemma_same_only(m, bit, d);
                        lemma_clash(self.cand@, cc, pp, d);
                        lemma_dead_back(s0.cand@, self.cand@);
                        lemma_refuted_clash(self.cand@, cc, pp, d);
                        lemma_refuted_back(s0.cand@, self.cand@);
                    }
                    return false;
                }
                proof {
                    assert(!single(m)) by {
                        if single(m) {
                            let e = choose|e: int| #[trigger] only(m, e);
                            let x = lemma_nonzero16(nm);
                            assert(bit16(m, x) && !bit16(bit, x));
                            assert(bit16(m, d) <==> d == e);
                            assert(bit16(m, x) <==> x == e);
                        }
                    }
                }
                proof {
                    assert(bit16(m, d) && !bit16(nm, d));
                }
                self.narrow(p, nm, q, t);
                proof {
                    let s3 = *self;
                    lemma_narrower_trans(s3.cand@, s2.cand@, s0.cand@);
                    lemma_marked_on(s0, s2, s3);
                    lemma_spare_peer(s2.cand@, cc, d, pp, nm);
                    lemma_one_more(q0, q2, *q, s0.cand@, s2.cand@, pp, nm);
                    assert forall|i: int, k: int|
                        q0.len <= i < q.len && j + 1 <= k < 20 implies #[trigger] q.buf[i]
                        < #[trigger] t.peers[cc][k] by {
                        reveal(Tables::ok);
                        assert(t.peers[cc][j as int] < t.peers[cc][k]);
                    }
                    assert forall|x: int, e: int| 0 <= x < 81 implies (#[trigger] bit16(
                        s3.cand[x],
                        e,
                    ) <==> bit16(s0.cand[x], e) && !(e == d && among(
                        t.peers[cc],
                        j + 1,
                        x,
                    ))) by {
                        assert(bit16(s2.cand[x], e) <==> bit16(s0.cand[x], e) && !(e == d && among(
                            t.peers[cc],
                            j as int,
                            x,
                        )));
                        assert(s3.cand@[x] == (if x == pp {
                            nm
                        } else {
                            s2.cand@[x]
                        }));
                    }
                    assert forall|u: int| #[trigger] bit32(s3.dirty, u) <==> bit32(s0.dirty, u) || (
                    0 <= u < 27 && unit_differs(s0.cand@, s3.cand@, u)) by {
                        assert(nm != s0.cand@[pp]);
                        if 0 <= u < 27 {
                            if in_unit(u, pp) {
                                assert(s0.cand@[pp] != s3.cand@[pp]);
                            }
                            if unit_differs(s0.cand@, s2.cand@, u) {
                                let x = choose|x: int|
                                    0 <= x < 81 && #[trigger] in_unit(u, x) && s0.cand@[x]
                                        != s2.cand@[x];
                                assert(s0.cand@[x] != s3.cand@[x]);
                            }
                            if unit_differs(s0.cand@, s3.cand@, u) && !in_unit(u, pp) {
                                let x = choose|x: int|
                                    0 <= x < 81 && #[trigger] in_unit(u, x) && s0.cand@[x]
                                        != s3.cand@[x];
                                assert(s0.cand@[x] != s2.cand@[x]);
                            }
                        }
                    }
                    assert forall|g: Seq<u8>| is_grid(g) && #[trigger] admits(
                        s0.cand@,
                        g,
                    ) implies admits(s3.cand@, g) by {
                        assert(admits(s2.cand@, g));
                        lemma_grid_facts(g);
                        lemma_only_digit(s2.cand@, g, cc, d);
                        assert(bit16(m, g[pp] - 1)) by {
                            reveal(admits);
                        }
                        assert(g[pp] != g[cc]);
                        lemma_update_admits(s2.cand@, pp, nm, g);
                    }
                    assert forall|x: int| 0 <= x < 81 && x != cc && !#[trigger] s3.open(
                        x,
                    ) implies solved(s3, x) by {
                        assert(!s2.open(x));
                        lemma_solved_narrower(s2, s3, x);
                    }
                    assert forall|k: int| 0 <= k < j + 1 implies !bit16(
                        s3.cand[#[trigger] t.peers[cc][k] as int],
                        d,
                    ) by {
                        let x = t.peers[cc][k] as int;
                        reveal(Tables::ok);
                        if x == pp {
                            assert(bit16(bit, d));
                        } else {
                            assert(k < j);
                            assert(!bit16(s2.cand[t.peers[cc][k] as int], d));
                            assert(s3.cand[x] == s2.cand[x]);
                        }
                    }
                }
            } else {
                proof {
                    if bit16(m, d) {
                        assert(bit16(m & bit, d));
                        assert(!bit16(0u16, d));
                    }
                    assert(s0.cand[pp] != s0.cand[cc]);
                }
            }
            j = j + 1;
        }
        proof {
            let s4 = *self;
            assert(s4.dirty | 0 == s4.dirty) by {
                crate::bits::lemma_ext32(s4.dirty | 0, s4.dirty);
            }
            assert(solved_as(s4, cc, d)) by {
                assert forall|x: int| 0 <= x < 81 && #[trigger] peers(cc, x) implies !bit16(
                    s4.cand[x],
                    d,
                ) by {
                    reveal(Tables::ok);
                    lemma_peer_slot(cc, x);
                    assert(t.peers[cc][peer_slot(cc, x)] == x);
                }
            }
            assert forall|x: int| 0 <= x < 81 implies (among(t.peers[cc], 20, x)
                <==> #[trigger] peers(cc, x)) by {
                reveal(Tables::ok);
                if peers(cc, x) {
                    lemma_peer_slot(cc, x);
                    assert(t.peers[cc][peer_slot(cc, x)] == x);
                    assert(s0.cand[x] != s0.cand[cc]);
                }
                if among(t.peers[cc], 20, x) {
                    let k = choose|k: int| 0 <= k < 20 && #[trigger] t.peers[cc][k] == x;
                    assert(peers(cc, t.peers[cc][k] as int));
                }
            }
            assert forall|x: int| 0 <= x < 81 && peers(cc, x) implies #[trigger] s0.cand[x]
                != s0.cand[cc] by {
                reveal(Tables::ok);
                lemma_peer_slot(cc, x);
                assert(t.peers[cc][peer_slot(cc, x)] == x);
            }
            assert forall|x: int| 0 <= x < 81 implies (#[trigger] s4.open(x) <==> s0.open(x) && x
                != cc) by {
                assert(s4.unsolved == mid.unsolved);
                assert(mid.open(x) <==> s0.open(x) && x != cc);
            }
            assert(s4.ok()) by {
                assert forall|x: int| 0 <= x < 81 && !#[trigger] s4.open(x) implies solved(
                    s4,
                    x,
                ) by {
                    if x == cc {
                        assert(solved_as(s4, cc, d));
                    }
                }
                assert forall|x: int| #[trigger] s4.open(x) implies 0 <= x < 81 && s0.open(x) by {
                    assert(s4.unsolved == mid.unsolved);
                    assert(mid.open(x));
                }
                lemma_singles_marked(s0, s4);
                assert forall|u: int, e: int| 0 <= u < 27 && #[trigger] bit16(
                    s4.unit_solved[u],
                    e,
                ) implies holds(s4, u, e) by {
                    assert(bit16(s1.unit_solved[u], e));
                    if bit16(s0.unit_solved[u], e) {
                        assert(holds(s0, u, e));
                        let x = choose|x: int|
                            0 <= x < 81 && #[trigger] in_unit(u, x) && !s0.open(x) && only(
                                s0.cand[x],
                                e,
                            );
                        lemma_only_narrower(s0.cand@, s4.cand@, x, e);
                        assert(!s4.open(x)) by {
                            assert(s4.unsolved == mid.unsolved);
                            assert(mid.open(x) <==> s0.open(x) && x != cc);
                        }
                    } else {
                        assert(in_unit(u, cc) && !s4.open(cc) && only(s4.cand[cc], e));
                    }
                }
            }
            assert(s4.queued(*q)) by {
                assert forall|x: int| 0 <= x < 81 && x != -1 && #[trigger] s4.open(x) && single(
                    s4.cand[x],
                ) implies q.has(x) by {
                    assert(x != cc);
                }
            }
        }
        true
    }
}

/// Two words that hold the same digit alone are equal.
proof fn lemma_same_only(a: u16, b: u16, d: int)
    requires
        only(a, d),
        only(b, d),
    ensures
        a == b,
{
    assert forall|e: int| 0 <= e < 16 implies bit16(a, e) == bit16(b, e) by {}
    lemma_ext16(a, b);
}

/// Units that learn of placed digits stay clean.
proof fn lemma_clean_grown(s0: State, s1: State, u: int)
    requires
        0 <= u < 27,
        unit_clean(s0, u),
        s1.cand == s0.cand,
        sub_cell(s0.unit_solved[u], s1.unit_solved[u]),
    ensures
        unit_clean(s1, u),
{
    assert forall|d: int| 0 <= d < 9 implies #[trigger] placed_or_open(s1, u, d) by {
        assert(placed_or_open(s0, u, d));
        if bit16(s0.unit_solved[u], d) {
            assert(bit16(s1.unit_solved[u], d));
        }
    }
}

} // verus!
