//! Propagation of the baseline engine: singles to the fixpoint, then locked
//! candidates, until neither moves.

use vstd::prelude::*;
use crate::baseline::cells::{
    admits, cells_ok, dead, keeps, lemma_cells_leaf, lemma_dead_back, lemma_multi_narrower,
    lemma_narrower_total, lemma_narrower_trans, lemma_no_place, lemma_only_digit,
    lemma_update_admits, lemma_update_narrower, multi, narrower, only, single, sub_cell,
    cell_solutions,
};
use crate::baseline::pass::{
    among, claiming, dropped, lemma_dropped_none, lemma_passed_none, lemma_passed_over,
    lemma_struck, lemma_struck_both, lemma_struck_empty, lemma_visit, masks_of, passed, pointing,
    struck, unplaced, visit,
};
use crate::baseline::rest::{
    in_box_rest, in_crossing, in_line_rest, lemma_refuted_back, lemma_refuted_place,
    lemma_spare_hidden, placed_in, refuted, rests, seated, spares,
};
use crate::baseline::settle::{all_single, crossed, lemma_closes_not, lemma_closes_to, settled};
use crate::baseline::state::{
    clean, holds, lemma_clean_elsewhere, lemma_marked_on, lemma_same_open, lemma_solved_narrower,
    lemma_unit_member, lemma_units_true, lemma_unmarked, marked_on, meets, placed_or_open,
    same_crossing, singles_marked, lemma_singles_marked, solved, solved_as, unit_clean, Queue,
    State, ALL,
};
use crate::baseline::tables::{
    box_rest_cell, in_unit, int_box, int_cell, int_line, lemma_box_rest, lemma_box_rest_covers,
    lemma_line_rest, lemma_line_rest_covers, line_rest_cell, on_line, Intersections, Tables,
};
use crate::bits::{
    bit16, bit32, bit64, count, count_ones16, group_bits128, group_bits16, group_bits32,
    group_bits64, lemma_count_witness, lemma_count_zero, lemma_ext16, lemma_ext32, lemma_ext64,
    lemma_low_masks16, lemma_nonzero16, lemma_pop9, lemma_small9, lowest16, lowest32, lowest64,
    pop16, total16, without_lowest32, without_lowest64,
};
use crate::grid::{box_of, is_grid, lemma_grid_facts, lemma_unit_has, peers, unit_cell};

verus! {

broadcast use {group_bits16, group_bits32, group_bits64, group_bits128};

/// Some of the first `n` cells of unit `u` can hold `d`.
spec fn seen(s: State, u: int, d: int, n: int) -> bool {
    exists|i: int| 0 <= i < n && bit16(s.cand[#[trigger] unit_cell(u, i)], d)
}

/// Two of the first `n` cells of unit `u` can hold `d`.
spec fn seen_twice(s: State, u: int, d: int, n: int) -> bool {
    exists|i: int, j: int|
        0 <= i < j < n && bit16(s.cand[#[trigger] unit_cell(u, i)], d) && bit16(
            s.cand[#[trigger] unit_cell(u, j)],
            d,
        )
}

proof fn lemma_seen_step(s: State, u: int, d: int, n: int)
    requires
        0 <= n,
    ensures
        seen(s, u, d, n + 1) <==> seen(s, u, d, n) || bit16(s.cand[unit_cell(u, n)], d),
        seen_twice(s, u, d, n + 1) <==> seen_twice(s, u, d, n) || (seen(s, u, d, n) && bit16(
            s.cand[unit_cell(u, n)],
            d,
        )),
{
    if seen(s, u, d, n + 1) {
        let i = choose|i: int| 0 <= i < n + 1 && bit16(s.cand[#[trigger] unit_cell(u, i)], d);
        if i < n {
            assert(bit16(s.cand[unit_cell(u, i)], d));
        }
    }
    if seen(s, u, d, n) {
        let i = choose|i: int| 0 <= i < n && bit16(s.cand[#[trigger] unit_cell(u, i)], d);
        assert(bit16(s.cand[unit_cell(u, i)], d));
        if bit16(s.cand[unit_cell(u, n)], d) {
            assert(0 <= i < n < n + 1);
            assert(seen_twice(s, u, d, n + 1));
        }
    }
    if bit16(s.cand[unit_cell(u, n)], d) {
        assert(seen(s, u, d, n + 1));
    }
    if seen_twice(s, u, d, n + 1) {
        let (i, j) = choose|i: int, j: int|
            0 <= i < j < n + 1 && bit16(s.cand[#[trigger] unit_cell(u, i)], d) && bit16(
                s.cand[#[trigger] unit_cell(u, j)],
                d,
            );
        if j < n {
            assert(seen_twice(s, u, d, n));
        } else {
            assert(seen(s, u, d, n));
        }
    }
    if seen_twice(s, u, d, n) {
        let (i, j) = choose|i: int, j: int|
            0 <= i < j < n && bit16(s.cand[#[trigger] unit_cell(u, i)], d) && bit16(
                s.cand[#[trigger] unit_cell(u, j)],
                d,
            );
        assert(bit16(s.cand[unit_cell(u, i)], d) && bit16(s.cand[unit_cell(u, j)], d));
    }
}

impl State {
    /// Assigns the cells in the queue, and those that follow, until it is
    /// empty.
    fn drain(&mut self, q: &mut Queue, t: &Tables) -> (r: bool)
        requires
            t.ok(),
            old(self).ok(),
            old(self).queued(*old(q)),
            clean(*old(self), old(self).dirty),
            old(q).len + multi(old(self).cand@) <= 500,
        ensures
            final(q).len == 0,
            !r ==> dead(old(self).cand@) && refuted(old(self).cand@),
            r ==> {
                &&& final(self).ok()
                &&& final(self).queued(*final(q))
                &&& clean(*final(self), final(self).dirty)
                &&& narrower(final(self).cand@, old(self).cand@)
                &&& keeps(old(self).cand@, final(self).cand@)
                &&& spares(old(self).cand@, final(self).cand@)
                &&& final(self).n_unsolved <= old(self).n_unsolved
                &&& old(self).pending(*old(q)) ==> final(self).n_unsolved < old(self).n_unsolved
                &&& !old(self).pending(*old(q)) ==> *final(self) == *old(self)
                &&& marked_on(*old(self), *final(self))
            },
    {
        let ghost s0 = *self;
        let ghost q0 = *q;
        proof {
            lemma_unmarked(s0, s0);
        }
        loop
            invariant
                t.ok(),
                s0 == *old(self),
                q0 == *old(q),
                self.ok(),
                self.queued(*q),
                clean(*self, self.dirty),
                narrower(self.cand@, s0.cand@),
                keeps(s0.cand@, self.cand@),
                spares(s0.cand@, self.cand@),
                q.len + multi(self.cand@) <= 500,
                self.n_unsolved <= s0.n_unsolved,
                s0.pending(q0) ==> self.n_unsolved < s0.n_unsolved || self.pending(*q),
                !s0.pending(q0) ==> *self == s0 && !self.pending(*q),
                marked_on(s0, *self),
            decreases self.n_unsolved, q.len,
        {
            let ghost q1 = *q;
            let ghost s1 = *self;
            match q.pop() {
                None => {
                    proof {
                        assert(!self.pending(*q)) by {
                            assert forall|c: int| !(#[trigger] self.open(c) && q.has(c)) by {}
                        }
                    }
                    return true;
                },
                Some(c) => {
                    let ghost cc = c as int;
                    proof {
                        assert(q1.buf[q1.len - 1] == c);
                        assert(c < 81 && single(self.cand[cc]));
                        assert forall|x: int| x != cc && #[trigger] q1.has(x) implies q.has(x) by {
                            let i = choose|i: int| 0 <= i < q1.len && #[trigger] q1.buf[i] == x;
                            assert(q.buf[i] == x);
                        }
                        assert forall|x: int| #[trigger] q.has(x) implies q1.has(x) by {
                            let i = choose|i: int| 0 <= i < q.len && #[trigger] q.buf[i] == x;
                            assert(q1.buf[i] == x);
                        }
                        assert(self.queued_but(*q, cc)) by {
                            assert forall|i: int| 0 <= i < q.len implies #[trigger] q.buf[i] < 81
                                && single(self.cand[q.buf[i] as int]) by {
                                assert(q1.buf[i] < 81 && single(self.cand[q1.buf[i] as int]));
                            }
                        }
                    }
                    if self.is_unsolved(c as usize) {
                        proof {
                            assert(q1.has(cc)) by {
                                assert(q1.buf[q1.len - 1] == cc);
                            }
                            assert(s1.pending(q1)) by {
                                assert(s1.open(cc) && q1.has(cc));
                            }
                        }
                        if !self.assign(c as usize, q, t) {
                            proof {
                                lemma_dead_back(s0.cand@, s1.cand@);
                                lemma_refuted_back(s0.cand@, s1.cand@);
                            }
                            q.clear();
                            return false;
                        }
                        proof {
                            lemma_narrower_trans(self.cand@, s1.cand@, s0.cand@);
                            lemma_marked_on(s0, s1, *self);
                        }
                    } else {
                        proof {
                            assert(self.queued(*q)) by {
                                assert forall|x: int|
                                    0 <= x < 81 && x != -1 && #[trigger] self.open(x) && single(
                                        self.cand[x],
                                    ) implies q.has(x) by {
                                    assert(x != cc);
                                    assert(q1.has(x));
                                }
                            }
                            if s1.pending(q1) {
                                let x = choose|x: int| #[trigger] s1.open(x) && q1.has(x);
                                assert(x != cc);
                                assert(self.open(x) && q.has(x));
                            }
                        }
                    }
                },
            }
        }
    }

    /// Makes `d` the only candidate of a cell that can hold it, and queues the
    /// cell.
    pub fn place(&mut self, ci: usize, d: usize, q: &mut Queue, t: &Tables)
        requires
            t.ok(),
            ci < 81,
            d < 9,
            old(self).ok(),
            old(self).queued(*old(q)),
            old(self).open(ci as int),
            bit16(old(self).cand[ci as int], d as int),
            old(q).len < 512,
        ensures
            final(self).ok(),
            final(self).queued(*final(q)),
            final(self).cand@ == old(self).cand@.update(ci as int, 1u16 << (d as u16)),
            narrower(final(self).cand@, old(self).cand@),
            final(self).unsolved == old(self).unsolved,
            final(self).n_unsolved == old(self).n_unsolved,
            final(self).unit_solved == old(self).unit_solved,
            final(q).len == old(q).len + 1,
            final(self).pending(*final(q)),
            forall|u: int| #[trigger]
                bit32(final(self).dirty, u) <==> bit32(old(self).dirty, u) || (0 <= u < 27
                    && in_unit(u, ci as int)),
            forall|x: u32|
                clean(*old(self), old(self).dirty | x) ==> #[trigger] clean(
                    *final(self),
                    final(self).dirty | x,
                ),
            marked_on(*old(self), *final(self)),
    {
        let ghost s0 = *self;
        let ghost q0 = *q;
        let ghost c = ci as int;
        let bit = 1u16 << (d as u16);
        self.cand[ci] = bit;
        self.dirty = self.dirty | t.cell_unit_mask[ci];
        self.int_dirty = self.int_dirty | t.cell_int_mask[ci];
        q.push(ci as u8);
        proof {
            let s1 = *self;
            let q1 = *q;
            reveal(Tables::ok);
            assert(only(bit, d as int));
            assert(single(bit));
            assert(bit16(bit, d as int));
            lemma_update_narrower(s0.cand@, c, bit);
            assert(s1.cand@ =~= s0.cand@.update(c, bit));
            assert forall|k: int| 0 <= k < 54 && #[trigger] meets(k, c) implies bit64(
                s1.int_dirty,
                k,
            ) by {
                assert(bit64(t.cell_int_mask[c], k));
            }
            assert(marked_on(s0, s1)) by {
                reveal(marked_on);
                assert forall|k: int| #[trigger] bit64(s1.int_dirty, k) implies bit64(
                    s0.int_dirty,
                    k,
                ) || !same_crossing(s0.cand@, s1.cand@, k) by {
                    if !bit64(s0.int_dirty, k) {
                        assert(bit64(t.cell_int_mask[c], k));
                        assert(meets(k, c));
                        if s1.cand@[c] == s0.cand@[c] {
                            assert(s0.open(c) && single(s0.cand[c]));
                        }
                    }
                }
            }
            assert(cells_ok(s1.cand@)) by {
                assert(bit != 0) by {
                    assert(!bit16(0u16, d as int));
                }
                assert(sub_cell(bit, s0.cand@[c]));
                crate::bits::lemma_subset16(bit, s0.cand@[c]);
                assert forall|x: int| 0 <= x < 81 implies #[trigger] s1.cand@[x] != 0
                    && s1.cand@[x] <= 0x1FF by {
                    assert(s0.cand@[x] != 0 && s0.cand@[x] <= 0x1FF);
                }
            }
            lemma_same_open(s0, s1);
            assert forall|x: int| s1.open(x) == s0.open(x) by {}
            assert forall|x: int| 0 <= x < 81 && !#[trigger] s1.open(x) implies solved(s1, x) by {
                assert(!s0.open(x));
                lemma_solved_narrower(s0, s1, x);
            }
            lemma_units_true(s0, s1);
            lemma_singles_marked(s0, s1);
            assert(s1.queued(q1)) by {
                assert forall|i: int| 0 <= i < q1.len implies #[trigger] q1.buf[i] < 81 && single(
                    s1.cand[q1.buf[i] as int],
                ) by {
                    if i < q0.len {
                        assert(q1.buf[i] == q0.buf[i]);
                        assert(q0.buf[i] < 81 && single(s0.cand[q0.buf[i] as int]));
                    }
                }
                assert forall|x: int| 0 <= x < 81 && x != -1 && #[trigger] s1.open(x) && single(
                    s1.cand[x],
                ) implies q1.has(x) by {
                    if x != c {
                        assert(s0.open(x) && single(s0.cand[x]));
                        assert(q0.has(x));
                    }
                }
            }
            assert(s1.open(c) && q1.has(c));
            assert forall|x: u32| clean(s0, s0.dirty | x) implies #[trigger] clean(
                s1,
                s1.dirty | x,
            ) by {
                assert forall|u: int| 0 <= u < 27 && !#[trigger] bit32(
                    s1.dirty | x,
                    u,
                ) implies unit_clean(s1, u) by {
                    assert(!bit32(s1.dirty, u) && !bit32(x, u));
                    assert(!bit32(s0.dirty | x, u));
                    assert(!in_unit(u, c));
                    lemma_clean_elsewhere(s0, s1, u, c);
                }
            }
        }
    }

    /// Digits that some cell, and that several cells, of a unit can hold.
    fn tally_unit(&self, u: usize, t: &Tables) -> (r: (u16, u16))
        requires
            t.ok(),
            u < 27,
            cells_ok(self.cand@),
        ensures
            forall|d: int| #[trigger] bit16(r.0, d) <==> seen(*self, u as int, d, 9),
            forall|d: int| #[trigger] bit16(r.1, d) <==> seen_twice(*self, u as int, d, 9),
    {
        let mut once: u16 = 0;
        let mut more: u16 = 0;
        let mut i: usize = 0;
        while i < 9
            invariant
                i <= 9,
                t.ok(),
                u < 27,
                cells_ok(self.cand@),
                forall|d: int| #[trigger] bit16(once, d) <==> seen(*self, u as int, d, i as int),
                forall|d: int| #[trigger] bit16(more, d) <==> seen_twice(*self, u as int, d, i as int),
            decreases 9 - i,
        {
            let ghost (o0, m0) = (once, more);
            proof {
                reveal(Tables::ok);
                lemma_unit_member(u as int, i as int);
                assert(t.units[u as int][i as int] == unit_cell(u as int, i as int));
            }
            let m = self.cand[t.units[u][i] as usize];
            more = more | (once & m);
            once = once | m;
            proof {
                assert forall|d: int| #[trigger] bit16(once, d) <==> seen(
                    *self,
                    u as int,
                    d,
                    i + 1,
                ) by {
                    lemma_seen_step(*self, u as int, d, i as int);
                    assert(bit16(o0, d) <==> seen(*self, u as int, d, i as int));
                }
                assert forall|d: int| #[trigger] bit16(more, d) <==> seen_twice(
                    *self,
                    u as int,
                    d,
                    i + 1,
                ) by {
                    lemma_seen_step(*self, u as int, d, i as int);
                    assert(bit16(o0, d) <==> seen(*self, u as int, d, i as int));
                    assert(bit16(m0, d) <==> seen_twice(*self, u as int, d, i as int));
                }
            }
            i = i + 1;
        }
        (once, more)
    }

    /// Finds the first cell of a unit that can hold a digit.
    fn find_place(&self, u: usize, d: usize, t: &Tables) -> (r: Option<usize>)
        requires
            t.ok(),
            u < 27,
            d < 9,
        ensures
            r is None ==> forall|i: int|
                0 <= i < 9 ==> !bit16(self.cand[#[trigger] unit_cell(u as int, i)], d as int),
            r matches Some(c) ==> c < 81 && bit16(self.cand[c as int], d as int) && exists|i: int|
                0 <= i < 9 && #[trigger] unit_cell(u as int, i) == c,
    {
        let bit = 1u16 << (d as u16);
        let mut i: usize = 0;
        while i < 9
            invariant
                i <= 9,
                t.ok(),
                u < 27,
                d < 9,
                bit == 1u16 << (d as u16),
                forall|j: int|
                    0 <= j < i ==> !bit16(self.cand[#[trigger] unit_cell(u as int, j)], d as int),
            decreases 9 - i,
        {
            proof {
                reveal(Tables::ok);
                lemma_unit_member(u as int, i as int);
                assert(t.units[u as int][i as int] == unit_cell(u as int, i as int));
            }
            let c = t.units[u][i] as usize;
            let m = self.cand[c];
            if m & bit != 0 {
                proof {
                    let e = lemma_nonzero16(m & bit);
                    assert(bit16(m, d as int));
                    assert(unit_cell(u as int, i as int) == c);
                }
                return Some(c);
            }
            proof {
                if bit16(m, d as int) {
                    assert(bit16(m & bit, d as int));
                    assert(!bit16(0u16, d as int));
                }
            }
            i = i + 1;
        }
        None
    }

    /// Draws on the hidden singles of a unit. `rest` is what else is still to
    /// be scanned.
    #[verifier::rlimit(40)]
    fn scan_unit(&mut self, u: usize, rest: u32, q: &mut Queue, t: &Tables) -> (r: bool)
        requires
            t.ok(),
            u < 27,
            old(self).ok(),
            old(self).queued(*old(q)),
            old(q).len <= 400,
            clean(*old(self), old(self).dirty | (rest | (1u32 << (u as u32)))),
        ensures
            !r ==> dead(old(self).cand@) && refuted(old(self).cand@),
            r ==> {
                &&& final(self).ok()
                &&& final(self).queued(*final(q))
                &&& clean(*final(self), final(self).dirty | rest)
                &&& narrower(final(self).cand@, old(self).cand@)
                &&& keeps(old(self).cand@, final(self).cand@)
                &&& spares(old(self).cand@, final(self).cand@)
                &&& final(self).n_unsolved == old(self).n_unsolved
                &&& final(q).len <= old(q).len + 9
                &&& (*final(self) == *old(self) && *final(q) == *old(q)) || final(self).pending(
                    *final(q),
                )
                &&& marked_on(*old(self), *final(self))
            },
    {
        let ghost s0 = *self;
        let ghost q0 = *q;
        let ghost uu = u as int;
        let ghost both = rest | (1u32 << (u as u32));
        // `once`: digits placeable somewhere; `more`: in two cells or more.
        let (once, more) = self.tally_unit(u, t);
        if once != ALL {
            proof {
                lemma_low_masks16();
                if forall|d: int| 0 <= d < 9 ==> #[trigger] bit16(once, d) {
                    assert forall|d: int| 0 <= d < 16 implies bit16(once, d) == bit16(ALL, d) by {
                        if d >= 9 && bit16(once, d) {
                            assert(seen(s0, uu, d, 9));
                            let i = choose|i: int|
                                0 <= i < 9 && bit16(s0.cand[#[trigger] unit_cell(uu, i)], d);
                            lemma_unit_member(uu, i);
                            assert(s0.cand@[unit_cell(uu, i)] <= 0x1FF);
                            lemma_small9(s0.cand[unit_cell(uu, i)], d);
                        }
                    }
                    lemma_ext16(once, ALL);
                }
                let d = choose|d: int| 0 <= d < 9 && !#[trigger] bit16(once, d);
                assert(!seen(s0, uu, d, 9));
                lemma_no_place(s0.cand@, uu, d);
                lemma_refuted_place(s0.cand@, uu, d);
            }
            return false;
        }
        let uniq = once & !more & !self.unit_solved[u];
        let mut d: usize = 0;
        proof {
            lemma_unmarked(s0, s0);
        }
        while d < 9
            invariant
                d <= 9,
                t.ok(),
                u < 27,
                uu == u,
                s0 == *old(self),
                q0 == *old(q),
                both == rest | (1u32 << (u as u32)),
                cells_ok(s0.cand@),
                q0.len <= 400,
                self.ok(),
                self.queued(*q),
                clean(*self, self.dirty | both),
                narrower(self.cand@, s0.cand@),
                keeps(s0.cand@, self.cand@),
                spares(s0.cand@, self.cand@),
                self.unit_solved == s0.unit_solved,
                self.n_unsolved == s0.n_unsolved,
                q.len <= q0.len + d,
                (*self == s0 && *q == q0 && forall|e: int| 0 <= e < d ==> !#[trigger] bit16(uniq, e))
                    || (self.pending(*q) && bit32(self.dirty, uu)),
                forall|e: int| #[trigger]
                    bit16(uniq, e) <==> bit16(once, e) && !bit16(more, e) && !bit16(
                        s0.unit_solved[uu],
                        e,
                    ),
                forall|e: int| #[trigger] bit16(more, e) <==> seen_twice(s0, uu, e, 9),
                marked_on(s0, *self),
            decreases 9 - d,
        {
            if (uniq >> (d as u16)) & 1 == 1 {
                proof {
                    assert(bit16(uniq, d as int)) by {
                        reveal(bit16);
                    }
                }
                let ghost s1 = *self;
                match self.find_place(u, d, t) {
                    None => {
                        // Two hidden singles collided in one cell.
                        proof {
                            lemma_no_place(self.cand@, uu, d as int);
                            lemma_dead_back(s0.cand@, self.cand@);
                            lemma_refuted_place(self.cand@, uu, d as int);
                            lemma_refuted_back(s0.cand@, self.cand@);
                        }
                        return false;
                    },
                    Some(ci) => {
                        let ghost c = ci as int;
                        let ghost i0 = choose|i: int| 0 <= i < 9 && #[trigger] unit_cell(uu, i) == c;
                        proof {
                            lemma_unit_member(uu, i0);
                            assert(in_unit(uu, c));
                            if !self.open(c) {
                                let e = choose|e: int| #[trigger] solved_as(*self, c, e);
                                assert(bit16(self.cand[c], d as int) <==> d == e);
                                assert(bit16(self.unit_solved[uu], e));
                            }
                        }
                        self.place(ci, d, q, t);
                        proof {
                            let s2 = *self;
                            lemma_narrower_trans(s2.cand@, s1.cand@, s0.cand@);
                            lemma_marked_on(s0, s1, s2);
                            assert(bit16(s0.cand[unit_cell(uu, i0)], d as int)) by {
                                assert(sub_cell(s1.cand@[c], s0.cand@[c]));
                            }
                            assert forall|i: int| 0 <= i < 9 && i != i0 implies !bit16(
                                s0.cand@[#[trigger] unit_cell(uu, i)],
                                d as int,
                            ) by {
                                if bit16(s0.cand[unit_cell(uu, i)], d as int) {
                                    assert(seen_twice(s0, uu, d as int, 9)) by {
                                        if i < i0 {
                                            assert(0 <= i < i0 < 9);
                                        } else {
                                            assert(0 <= i0 < i < 9);
                                        }
                                    }
                                }
                            }
                            lemma_spare_hidden(s0.cand@, s1.cand@, uu, i0, d as int);
                            assert forall|g: Seq<u8>| is_grid(g) && #[trigger] admits(
                                s0.cand@,
                                g,
                            ) implies admits(s2.cand@, g) by {
                                assert(admits(s1.cand@, g));
                                let i = lemma_unit_has(g, uu, d + 1);
                                let x = unit_cell(uu, i);
                                lemma_unit_member(uu, i);
                                assert(bit16(s1.cand[x], d as int)) by {
                                    reveal(admits);
                                    assert(bit16(s1.cand@[x], g[x] - 1));
                                }
                                assert(sub_cell(s1.cand@[x], s0.cand@[x]));
                                assert(sub_cell(s1.cand@[c], s0.cand@[c]));
                                assert(bit16(s0.cand[unit_cell(uu, i)], d as int));
                                assert(bit16(s0.cand[unit_cell(uu, i0)], d as int));
                                if i != i0 {
                                    assert(seen_twice(s0, uu, d as int, 9)) by {
                                        if i < i0 {
                                            assert(0 <= i < i0 < 9);
                                        } else {
                                            assert(0 <= i0 < i < 9);
                                        }
                                    }
                                }
                                assert(x == c);
                                lemma_update_admits(s1.cand@, c, 1u16 << (d as u16), g);
                            }
                            assert(bit32(s2.dirty, uu));
                        }
                    },
                }
            } else {
                proof {
                    assert(!bit16(uniq, d as int)) by {
                        reveal(bit16);
                    }
                }
            }
            d = d + 1;
        }
        proof {
            let s3 = *self;
            assert(clean(s3, s3.dirty | rest)) by {
                assert forall|x: int| 0 <= x < 27 && !#[trigger] bit32(
                    s3.dirty | rest,
                    x,
                ) implies unit_clean(s3, x) by {
                    assert(!bit32(s3.dirty, x) && !bit32(rest, x));
                    if x != uu {
                        assert(!bit32(s3.dirty | both, x));
                    } else {
                        assert(s3 == s0);
                        lemma_low_masks16();
                        assert forall|e: int| 0 <= e < 9 implies #[trigger] placed_or_open(
                            s0,
                            uu,
                            e,
                        ) by {
                            assert(bit16(once, e));
                            assert(!bit16(uniq, e));
                            if !bit16(s0.unit_solved[uu], e) {
                                assert(bit16(more, e));
                                assert(seen_twice(s0, uu, e, 9));
                            }
                        }
                    }
                }
            }
        }
        true
    }

    /// Runs naked and hidden singles to the fixpoint. Leaves the queue empty.
    pub fn propagate(&mut self, q: &mut Queue, t: &Tables) -> (r: bool)
        requires
            t.ok(),
            old(self).ok(),
            old(self).queued(*old(q)),
            clean(*old(self), old(self).dirty),
            old(q).len + multi(old(self).cand@) <= 500,
        ensures
            final(q).len == 0,
            !r ==> dead(old(self).cand@) && refuted(old(self).cand@),
            r ==> {
                &&& final(self).ok()
                &&& final(self).singles_done()
                &&& final(self).dirty == 0
                &&& narrower(final(self).cand@, old(self).cand@)
                &&& keeps(old(self).cand@, final(self).cand@)
                &&& rests(final(self).cand@)
                &&& spares(old(self).cand@, final(self).cand@)
                &&& final(self).n_unsolved <= old(self).n_unsolved
                &&& old(self).pending(*old(q)) ==> final(self).n_unsolved < old(self).n_unsolved
                &&& marked_on(*old(self), *final(self))
            },
    {
        let ghost s0 = *self;
        let ghost q0 = *q;
        proof {
            lemma_unmarked(s0, s0);
        }
        loop
            invariant
                t.ok(),
                s0 == *old(self),
                q0 == *old(q),
                self.ok(),
                self.queued(*q),
                clean(*self, self.dirty),
                q.len + multi(self.cand@) <= 500,
                narrower(self.cand@, s0.cand@),
                keeps(s0.cand@, self.cand@),
                spares(s0.cand@, self.cand@),
                self.n_unsolved <= s0.n_unsolved,
                s0.pending(q0) ==> self.n_unsolved < s0.n_unsolved || self.pending(*q),
                marked_on(s0, *self),
            decreases
                    self.n_unsolved - (if self.pending(*q) {
                        1int
                    } else {
                        0
                    }),
                    (if self.pending(*q) || self.dirty != 0 {
                        1int
                    } else {
                        0
                    }),
        {
            let ghost s1 = *self;
            let ghost q1 = *q;
            proof {
                if s1.pending(q1) {
                    let c = choose|c: int| #[trigger] s1.open(c) && q1.has(c);
                    crate::bits::lemma_count_some(|x: int| s1.open(x), 81, c);
                }
            }
            if !self.drain(q, t) {
                proof {
                    lemma_dead_back(s0.cand@, s1.cand@);
                    lemma_refuted_back(s0.cand@, s1.cand@);
                }
                return false;
            }
            let ghost s2 = *self;
            proof {
                lemma_narrower_trans(s2.cand@, s1.cand@, s0.cand@);
                lemma_marked_on(s0, s1, s2);
                assert(!s2.pending(*q)) by {
                    assert forall|c: int| !(#[trigger] s2.open(c) && q.has(c)) by {}
                }
            }
            if self.dirty == 0 {
                proof {
                    assert(s2.singles_done()) by {
                        assert forall|c: int| #[trigger] s2.open(c) implies !single(s2.cand[c]) by {
                            if single(s2.cand[c]) {
                                assert(q.has(c));
                            }
                        }
                        assert forall|u: int| 0 <= u < 27 implies #[trigger] unit_clean(s2, u) by {
                            assert(!bit32(0u32, u));
                        }
                    }
                    lemma_singles_drawn(s2);
                }
                return true;
            }
            let mut dirty: u32 = self.dirty;
            self.dirty = 0;
            let ghost n0 = count(|x: int| bit32(dirty, x), 27);
            proof {
                lemma_undirtied(s2, *self);
                lemma_unmarked(s2, *self);
                assert(self.dirty | dirty == dirty) by {
                    lemma_ext32(self.dirty | dirty, dirty);
                }
                crate::bits::lemma_count_mono(
                    |x: int| bit32(dirty, x),
                    |x: int| bit32(dirty, x),
                    27,
                );
                lemma_multi_narrower(self.cand@, s2.cand@);
            }
            while dirty != 0
                invariant
                    t.ok(),
                    s2.ok(),
                    self.ok(),
                    self.queued(*q),
                    clean(*self, self.dirty | dirty),
                    narrower(self.cand@, s2.cand@),
                    keeps(s2.cand@, self.cand@),
                    spares(s2.cand@, self.cand@),
                    spares(s0.cand@, s2.cand@),
                    self.n_unsolved == s2.n_unsolved,
                    self.pending(*q) || (self.dirty == 0 && q.len == 0),
                    forall|x: int| #[trigger] bit32(dirty, x) ==> 0 <= x < 27,
                    q.len + 9 * count(|x: int| bit32(dirty, x), 27) <= 243,
                    keeps(s0.cand@, s2.cand@),
                    s0 == *old(self),
                    marked_on(s2, *self),
                decreases dirty,
            {
                let ghost s3 = *self;
                let ghost d0 = dirty;
                let u = lowest32(dirty);
                dirty = without_lowest32(dirty);
                proof {
                    let v = choose|v: int|
                        #![trigger bit32(d0, v)]
                        bit32(d0, v) && (forall|j: int| 0 <= j < v ==> !bit32(d0, j)) && (
                        forall|i: int| bit32(dirty, i) <==> bit32(d0, i) && i != v);
                    assert(v == u) by {
                        if v < u {
                            assert(!bit32(d0, v));
                        }
                        if u < v {
                            assert(!bit32(d0, u as int));
                        }
                    }
                    let f = |x: int| bit32(d0, x);
                    let h = |x: int| bit32(dirty, x);
                    crate::bits::lemma_count_drop(h, f, 27, u as int);
                    assert(s3.dirty | (dirty | (1u32 << (u as u32))) == s3.dirty | d0) by {
                        assert(dirty | (1u32 << (u as u32)) == d0) by {
                            lemma_ext32(dirty | (1u32 << (u as u32)), d0);
                        }
                    }
                }
                if !self.scan_unit(u, dirty, q, t) {
                    q.clear();
                    proof {
                        lemma_dead_back(s2.cand@, s3.cand@);
                        lemma_dead_back(s0.cand@, s2.cand@);
                        lemma_refuted_back(s2.cand@, s3.cand@);
                        lemma_refuted_back(s0.cand@, s2.cand@);
                    }
                    return false;
                }
                proof {
                    lemma_narrower_trans(self.cand@, s3.cand@, s2.cand@);
                    lemma_marked_on(s2, s3, *self);
                }
            }
            proof {
                assert(self.dirty | 0 == self.dirty) by {
                    lemma_ext32(self.dirty | 0, self.dirty);
                }
                lemma_narrower_trans(self.cand@, s2.cand@, s0.cand@);
                lemma_marked_on(s0, s2, *self);
                lemma_multi_narrower(self.cand@, s0.cand@);
                if self.pending(*q) {
                    let s4 = *self;
                    let c = choose|c: int| #[trigger] s4.open(c) && q.has(c);
                    crate::bits::lemma_count_some(|x: int| s4.open(x), 81, c);
                } else {
                    assert(s1.pending(q1) || s1.dirty != 0);
                }
            }
        }
    }
}

/// At the fixpoint there is nothing to draw from singles.
proof fn lemma_singles_drawn(s: State)
    requires
        s.ok(),
        s.singles_done(),
    ensures
        rests(s.cand@),
{
    let next = s.cand@;
    reveal(rests);
    assert forall|x: int, d: int, y: int|
        0 <= x < 81 && 0 <= y < 81 && #[trigger] only(next[x], d) && #[trigger] peers(
            x,
            y,
        ) implies !bit16(next[y], d) by {
        if s.open(x) {
            assert(single(s.cand[x]));
        }
        let e = choose|e: int| #[trigger] solved_as(s, x, e);
        assert(bit16(next[x], e) && bit16(next[x], d));
    }
    assert forall|u: int, d: int| 0 <= u < 27 && 0 <= d < 9 implies #[trigger] seated(next, u, d) by {
        assert(unit_clean(s, u));
        assert(placed_or_open(s, u, d));
        if bit16(s.unit_solved[u], d) {
            assert(holds(s, u, d));
            let x = choose|x: int|
                0 <= x < 81 && #[trigger] in_unit(u, x) && !s.open(x) && only(s.cand[x], d);
            assert(only(next[x], d));
        } else if exists|i: int|
            0 <= i < 9 && bit16(s.cand[#[trigger] unit_cell(u, i)], d) && single(
                s.cand[unit_cell(u, i)],
            ) {
            let i = choose|i: int|
                0 <= i < 9 && bit16(s.cand[#[trigger] unit_cell(u, i)], d) && single(
                    s.cand[unit_cell(u, i)],
                );
            lemma_unit_member(u, i);
            let x = unit_cell(u, i);
            let e = choose|e: int| #[trigger] only(s.cand[x], e);
            assert(bit16(s.cand[x], d) <==> d == e);
            assert(in_unit(u, x) && only(next[x], d));
        } else {
            let (i, j) = choose|i: int, j: int|
                0 <= i < j < 9 && bit16(s.cand[#[trigger] unit_cell(u, i)], d) && bit16(
                    s.cand[#[trigger] unit_cell(u, j)],
                    d,
                );
            assert(bit16(next[unit_cell(u, i)], d) && bit16(next[unit_cell(u, j)], d));
        }
    }
}

/// Clearing the marks leaves everything else as it is.
proof fn lemma_undirtied(s0: State, s1: State)
    requires
        s0.ok(),
        s1.cand == s0.cand,
        s1.unit_solved == s0.unit_solved,
        s1.unsolved == s0.unsolved,
        s1.n_unsolved == s0.n_unsolved,
        s1.dirty == 0 || s1.dirty == s0.dirty,
        s1.int_dirty == s0.int_dirty || (s1.int_dirty == 0 && forall|c: int| #[trigger]
            s0.open(c) ==> !single(s0.cand[c])),
    ensures
        s1.ok(),
        forall|q: Queue| #[trigger] s0.queued(q) ==> s1.queued(q),
        forall|d: u32| #[trigger] clean(s0, d) ==> clean(s1, d),
{
    lemma_same_open(s0, s1);
    assert forall|x: int| s1.open(x) == s0.open(x) by {}
    assert(narrower(s1.cand@, s0.cand@));
    assert forall|x: int| 0 <= x < 81 && !#[trigger] s1.open(x) implies solved(s1, x) by {
        assert(!s0.open(x));
        lemma_solved_narrower(s0, s1, x);
    }
    lemma_units_true(s0, s1);
    assert(singles_marked(s1)) by {
        assert forall|c: int, k: int|
            0 <= k < 54 && #[trigger] meets(k, c) && s1.open(c) && single(
                s1.cand[c],
            ) implies bit64(s1.int_dirty, k) by {
            assert(s0.open(c));
        }
    }
    assert forall|q: Queue| #[trigger] s0.queued(q) implies s1.queued(q) by {
        assert forall|x: int| 0 <= x < 81 && x != -1 && #[trigger] s1.open(x) && single(
            s1.cand[x],
        ) implies q.has(x) by {
            assert(s0.open(x));
        }
    }
    assert forall|d: u32| #[trigger] clean(s0, d) implies clean(s1, d) by {
        assert forall|u: int| 0 <= u < 27 && !#[trigger] bit32(d, u) implies unit_clean(s1, u) by {
            assert(unit_clean(s0, u));
            assert forall|e: int| 0 <= e < 9 implies #[trigger] placed_or_open(s1, u, e) by {
                assert(placed_or_open(s0, u, e));
            }
        }
    }
}

// ---------------------------------------------------------------------------
// Locked candidates
// ---------------------------------------------------------------------------

/// No grid that the candidates admit has a digit of `bits` at cell `c`.
spec fn elim_true(cand: Seq<u16>, c: int, bits: u16) -> bool {
    forall|g: Seq<u8>| is_grid(g) && #[trigger] admits(cand, g) ==> !bit16(bits, g[c] - 1)
}

proof fn lemma_elim_true(a: Seq<u16>, b: Seq<u16>, c: int, bits: u16)
    requires
        a.len() == 81,
        narrower(a, b),
        elim_true(b, c, bits),
    ensures
        elim_true(a, c, bits),
{
    assert forall|g: Seq<u8>| is_grid(g) && #[trigger] admits(a, g) implies !bit16(
        bits,
        g[c] - 1,
    ) by {
        crate::baseline::cells::lemma_narrower_admits(a, b, g);
    }
}

/// A digit that the rest of the box cannot hold stands in the intersection,
/// so not in the rest of the line.
proof fn lemma_pointing(cand: Seq<u16>, k: int, bits: u16, x: int)
    requires
        0 <= k < 54,
        cells_ok(cand),
        0 <= x < 81,
        on_line(k, x),
        box_of(x) != int_box(k),
        forall|j: int, d: int|
            0 <= j < 6 && #[trigger] bit16(cand[box_rest_cell(k, j)], d) ==> !bit16(bits, d),
    ensures
        elim_true(cand, x, bits),
{
    assert forall|g: Seq<u8>| is_grid(g) && #[trigger] admits(cand, g) implies !bit16(
        bits,
        g[x] - 1,
    ) by {
        lemma_grid_facts(g);
        let d = g[x] - 1;
        let i = lemma_unit_has(g, 18 + int_box(k), d + 1);
        let y = unit_cell(18 + int_box(k), i);
        lemma_unit_member(18 + int_box(k), i);
        assert(bit16(cand[y], d)) by {
            reveal(admits);
            assert(bit16(cand[y], g[y] - 1));
        }
        if on_line(k, y) {
            assert(peers(x, y));
        } else {
            let j = lemma_box_rest_covers(k, y);
            assert(bit16(cand[box_rest_cell(k, j)], d));
        }
    }
}

/// A digit that the rest of the line cannot hold stands in the intersection,
/// so not in the rest of the box.
proof fn lemma_claiming(cand: Seq<u16>, k: int, bits: u16, x: int)
    requires
        0 <= k < 54,
        cells_ok(cand),
        0 <= x < 81,
        !on_line(k, x),
        box_of(x) == int_box(k),
        forall|j: int, d: int|
            0 <= j < 6 && #[trigger] bit16(cand[line_rest_cell(k, j)], d) ==> !bit16(bits, d),
    ensures
        elim_true(cand, x, bits),
{
    assert forall|g: Seq<u8>| is_grid(g) && #[trigger] admits(cand, g) implies !bit16(
        bits,
        g[x] - 1,
    ) by {
        lemma_grid_facts(g);
        let d = g[x] - 1;
        let u = int_line(k);
        assert(0 <= u < 18);
        let i = lemma_unit_has(g, u, d + 1);
        let y = unit_cell(u, i);
        lemma_unit_member(u, i);
        assert(on_line(k, y));
        assert(bit16(cand[y], d)) by {
            reveal(admits);
            assert(bit16(cand[y], g[y] - 1));
        }
        if box_of(y) == int_box(k) {
            assert(peers(x, y));
        } else {
            let j = lemma_line_rest_covers(k, y);
            assert(bit16(cand[line_rest_cell(k, j)], d));
        }
    }
}

/// Everything that a step of the locked-candidates scan keeps.
spec fn scanning(s0: State, s: State, q: Queue) -> bool {
    &&& s.ok()
    &&& s.queued(q)
    &&& clean(s, s.dirty)
    &&& narrower(s.cand@, s0.cand@)
    &&& keeps(s0.cand@, s.cand@)
    &&& s.n_unsolved == s0.n_unsolved
    &&& s.unsolved == s0.unsolved
    &&& s.unit_solved == s0.unit_solved
    &&& q.len + multi(s.cand@) <= 81
    &&& marked_on(s0, s)
}

/// Candidates may have gone, but no cell was assigned.
pub open spec fn only_thinned(s0: State, s: State) -> bool {
    &&& narrower(s.cand@, s0.cand@)
    &&& s.n_unsolved == s0.n_unsolved
    &&& s.unsolved == s0.unsolved
    &&& s.unit_solved == s0.unit_solved
}

/// Cell `j` of `cells` has no digits but `bits`.
spec fn lost(cand: Seq<u16>, cells: Seq<u8>, j: int, bits: u16) -> bool {
    forall|d: int| #[trigger] bit16(cand[cells[j] as int], d) ==> bit16(bits, d)
}

/// The marked intersections.
pub open spec fn marks(s: State) -> Set<int> {
    Set::new(|k: int| 0 <= k < 54 && bit64(s.int_dirty, k))
}

/// The state without marks on intersections.
pub open spec fn unmarked(s: State) -> State {
    State { int_dirty: 0, ..s }
}

/// A digit of an intersection is a candidate of one of its three cells.
proof fn lemma_crossing(s: State, t: Tables, k: int, d: int)
    requires
        t.ok(),
        0 <= k < 54,
        in_crossing(s.cand@, k, d),
    ensures
        bit16(s.cand[t.ints.cells[k][0] as int], d) || bit16(s.cand[t.ints.cells[k][1] as int], d)
            || bit16(s.cand[t.ints.cells[k][2] as int], d),
{
    reveal(Tables::ok);
    let n = choose|n: int| 0 <= n < 3 && bit16(s.cand@[#[trigger] int_cell(k, n)], d);
    assert(t.ints.cells[k][n] == int_cell(k, n));
}

/// The unions over the rests miss only digits without a place there.
proof fn lemma_rest_seen(s: State, t: Tables, k: int, boxrest: u16, linerest: u16, d: int)
    requires
        t.ok(),
        0 <= k < 54,
        bit16(boxrest, d) ==> exists|j: int|
            0 <= j < 6 && bit16(s.cand[#[trigger] t.ints.box_rest[k][j] as int], d),
        bit16(linerest, d) ==> exists|j: int|
            0 <= j < 6 && bit16(s.cand[#[trigger] t.ints.line_rest[k][j] as int], d),
    ensures
        bit16(boxrest, d) ==> in_box_rest(s.cand@, k, d),
        bit16(linerest, d) ==> in_line_rest(s.cand@, k, d),
{
    reveal(Tables::ok);
    lemma_table_cells(t.ints, k);
    if bit16(boxrest, d) {
        let j = choose|j: int|
            0 <= j < 6 && bit16(s.cand[#[trigger] t.ints.box_rest[k][j] as int], d);
        assert(bit16(s.cand@[box_rest_cell(k, j)], d));
    }
    if bit16(linerest, d) {
        let j = choose|j: int|
            0 <= j < 6 && bit16(s.cand[#[trigger] t.ints.line_rest[k][j] as int], d);
        assert(bit16(s.cand@[line_rest_cell(k, j)], d));
    }
}

/// The units know exactly the digits that have a cell of their own.
spec fn known_placed(s: State) -> bool {
    forall|u: int, d: int|
        0 <= u < 27 ==> (#[trigger] bit16(s.unit_solved[u], d) <==> placed_in(s.cand@, u, d))
}

/// With no single left to assign, the units know what is placed.
proof fn lemma_placed(s: State)
    requires
        s.ok(),
        forall|c: int| #[trigger] s.open(c) ==> !single(s.cand[c]),
    ensures
        known_placed(s),
{
    assert forall|u: int, d: int| 0 <= u < 27 implies (#[trigger] bit16(s.unit_solved[u], d)
        <==> placed_in(s.cand@, u, d)) by {
        if bit16(s.unit_solved[u], d) {
            assert(holds(s, u, d));
            let c = choose|c: int|
                0 <= c < 81 && #[trigger] in_unit(u, c) && !s.open(c) && only(s.cand[c], d);
            assert(only(s.cand@[c], d));
        }
        if placed_in(s.cand@, u, d) {
            let c = choose|c: int| 0 <= c < 81 && #[trigger] in_unit(u, c) && only(s.cand@[c], d);
            if s.open(c) {
                assert(single(s.cand[c]));
            }
            let e = choose|e: int| #[trigger] solved_as(s, c, e);
            assert(bit16(s.cand[c], e) && bit16(s.cand[c], d));
            assert(e == d);
        }
    }
}

/// The digits of an intersection that a visit looks at.
spec fn looked_at(s0: State, s: State, k: int, inter: u16) -> bool {
    forall|d: int| #[trigger]
        bit16(inter, d) <==> in_crossing(s.cand@, k, d) && !bit16(
            s0.unit_solved[18 + int_box(k)],
            d,
        ) && !bit16(s0.unit_solved[int_line(k)], d)
}

proof fn lemma_looked_at(s0: State, s: State, t: Tables, k: int, inter: u16, known: u16)
    requires
        t.ok(),
        0 <= k < 54,
        known == s0.unit_solved[18 + int_box(k)] | s0.unit_solved[int_line(k)],
        inter == (s.cand[t.ints.cells[k][0] as int] | s.cand[t.ints.cells[k][1] as int]
            | s.cand[t.ints.cells[k][2] as int]) & !known,
    ensures
        looked_at(s0, s, k, inter),
{
    reveal(Tables::ok);
    assert forall|d: int| #[trigger] bit16(inter, d) <==> in_crossing(s.cand@, k, d) && !bit16(
        s0.unit_solved[18 + int_box(k)],
        d,
    ) && !bit16(s0.unit_solved[int_line(k)], d) by {
        if in_crossing(s.cand@, k, d) {
            lemma_crossing(s, t, k, d);
            assert(0 <= d < 16);
        }
        if bit16(inter, d) {
            let n = if bit16(s.cand[t.ints.cells[k][0] as int], d) {
                0int
            } else if bit16(s.cand[t.ints.cells[k][1] as int], d) {
                1
            } else {
                2
            };
            assert(t.ints.cells[k][n] == int_cell(k, n));
            assert(bit16(s.cand@[int_cell(k, n)], d));
        }
    }
}

/// The masks of a visit are the digits that point and that claim.
proof fn lemma_masks(
    s0: State,
    s: State,
    t: Tables,
    k: int,
    inter: u16,
    boxrest: u16,
    linerest: u16,
)
    requires
        t.ok(),
        0 <= k < 54,
        known_placed(s0),
        looked_at(s0, s, k, inter),
        forall|j: int, d: int|
            0 <= j < 6 && #[trigger] bit16(s.cand[t.ints.box_rest[k][j] as int], d) ==> bit16(
                boxrest,
                d,
            ),
        forall|d: int| #[trigger]
            bit16(boxrest, d) ==> exists|j: int|
                0 <= j < 6 && bit16(s.cand[#[trigger] t.ints.box_rest[k][j] as int], d),
        forall|j: int, d: int|
            0 <= j < 6 && #[trigger] bit16(s.cand[t.ints.line_rest[k][j] as int], d) ==> bit16(
                linerest,
                d,
            ),
        forall|d: int| #[trigger]
            bit16(linerest, d) ==> exists|j: int|
                0 <= j < 6 && bit16(s.cand[#[trigger] t.ints.line_rest[k][j] as int], d),
    ensures
        masks_of(s.cand@, s0.cand@, k, inter & !boxrest, inter & !linerest),
{
    reveal(Tables::ok);
    lemma_table_cells(t.ints, k);
    assert(0 <= int_line(k) < 18 && 0 <= int_box(k) < 9);
    let (p, c) = (inter & !boxrest, inter & !linerest);
    assert forall|d: int| (#[trigger] bit16(p, d) <==> pointing(s.cand@, s0.cand@, k, d)) && (
    bit16(c, d) <==> claiming(s.cand@, s0.cand@, k, d)) by {
        assert(bit16(s0.unit_solved[18 + int_box(k)], d) <==> placed_in(
            s0.cand@,
            18 + int_box(k),
            d,
        ));
        assert(bit16(s0.unit_solved[int_line(k)], d) <==> placed_in(s0.cand@, int_line(k), d));
        lemma_rest_seen(s, t, k, boxrest, linerest, d);
        if in_box_rest(s.cand@, k, d) {
            let j = choose|j: int| 0 <= j < 6 && bit16(s.cand@[#[trigger] box_rest_cell(k, j)], d);
            assert(bit16(s.cand[t.ints.box_rest[k][j] as int], d));
        }
        if in_line_rest(s.cand@, k, d) {
            let j = choose|j: int| 0 <= j < 6 && bit16(s.cand@[#[trigger] line_rest_cell(k, j)], d);
            assert(bit16(s.cand[t.ints.line_rest[k][j] as int], d));
        }
        if bit16(inter, d) {
            assert(0 <= d < 16);
        }
    }
    assert forall|d: int| #[trigger] bit16(c, d) <==> claiming(s.cand@, s0.cand@, k, d) by {
        assert(bit16(p, d) <==> pointing(s.cand@, s0.cand@, k, d));
    }
}

/// Where nothing is looked at, nothing points or claims.
proof fn lemma_no_masks(s0: State, s: State, t: Tables, k: int, inter: u16)
    requires
        t.ok(),
        0 <= k < 54,
        known_placed(s0),
        looked_at(s0, s, k, inter),
        inter == 0,
    ensures
        masks_of(s.cand@, s0.cand@, k, 0, 0),
{
    assert(0 <= int_line(k) < 18 && 0 <= int_box(k) < 9);
    assert forall|d: int| !(in_crossing(s.cand@, k, d) && #[trigger] unplaced(s0.cand@, k, d)) by {
        assert(!bit16(inter, d));
        assert(bit16(s0.unit_solved[18 + int_box(k)], d) <==> placed_in(
            s0.cand@,
            18 + int_box(k),
            d,
        ));
        assert(bit16(s0.unit_solved[int_line(k)], d) <==> placed_in(s0.cand@, int_line(k), d));
    }
    assert forall|d: int| #[trigger] bit16(0u16, d) <==> pointing(s.cand@, s0.cand@, k, d) by {
        assert(!(in_crossing(s.cand@, k, d) && unplaced(s0.cand@, k, d)));
    }
    assert forall|d: int| #[trigger] bit16(0u16, d) <==> claiming(s.cand@, s0.cand@, k, d) by {
        assert(!(in_crossing(s.cand@, k, d) && unplaced(s0.cand@, k, d)));
    }
}

/// Striking nothing changes nothing.
proof fn lemma_struck_nothing(a: Seq<u16>, k: int)
    requires
        a.len() == 81,
    ensures
        struck(a, k, 0, 0) == a,
{
    let b = struck(a, k, 0, 0);
    assert forall|x: int| 0 <= x < 81 implies b[x] == a[x] by {
        assert forall|d: int| 0 <= d < 16 implies bit16(b[x], d) == bit16(a[x], d) by {
            assert(!bit16(0u16, d));
        }
        lemma_ext16(b[x], a[x]);
    }
    assert(b =~= a);
}

/// The marks of a step are the old ones and those of changed cells.
pub proof fn lemma_marks_grown(s0: State, s: State)
    requires
        marked_on(s0, s),
    ensures
        marks(s) == marks(s0).union(crossed(s0.cand@, s.cand@)),
{
    reveal(marked_on);
    assert forall|k: int| marks(s).contains(k) <==> marks(s0).union(
        crossed(s0.cand@, s.cand@),
    ).contains(k) by {
        if 0 <= k < 54 {
            if bit64(s0.int_dirty, k) {
                assert(bit64(s.int_dirty, k));
            }
            if !same_crossing(s0.cand@, s.cand@, k) {
                let c = choose|c: int|
                    0 <= c < 81 && #[trigger] meets(k, c) && s0.cand@[c] != s.cand@[c];
                assert(s.cand[c] != s0.cand[c]);
            }
        }
    }
    assert(marks(s) =~= marks(s0).union(crossed(s0.cand@, s.cand@)));
}

/// No cell is open exactly if every cell has one candidate.
pub proof fn lemma_all_single(s: State)
    requires
        s.ok(),
        s.singles_done(),
    ensures
        s.n_unsolved == 0 <==> all_single(s.cand@),
{
    let f = |c: int| s.open(c);
    if s.n_unsolved == 0 {
        assert forall|c: int| 0 <= c < 81 implies single(#[trigger] s.cand@[c]) by {
            lemma_count_zero(f, 81, c);
            let d = choose|d: int| #[trigger] solved_as(s, c, d);
            assert(only(s.cand[c], d));
        }
    } else {
        let c = lemma_count_witness(f, 81);
        assert(s.open(c));
        assert(!single(s.cand@[c]));
    }
}

/// No intersection is marked exactly if there is no mark.
proof fn lemma_no_marks(s: State)
    requires
        forall|k: int| #[trigger] bit64(s.int_dirty, k) ==> 0 <= k < 54,
    ensures
        s.int_dirty == 0 <==> marks(s) == Set::<int>::empty(),
{
    if s.int_dirty == 0 {
        assert forall|k: int| !marks(s).contains(k) by {
            assert(!bit64(0u64, k));
        }
        assert(marks(s) =~= Set::<int>::empty());
    } else if marks(s) == Set::<int>::empty() {
        assert forall|k: int| 0 <= k < 64 implies bit64(s.int_dirty, k) == bit64(0u64, k) by {
            assert(!bit64(0u64, k));
            assert(!marks(s).contains(k));
        }
        lemma_ext64(s.int_dirty, 0);
    }
}

impl State {
    /// Removes digits from a cell's candidates.
    fn elim(&mut self, c: usize, bits: u16, q: &mut Queue, t: &Tables) -> (r: bool)
        requires
            t.ok(),
            c < 81,
            old(self).ok(),
            old(self).queued(*old(q)),
            clean(*old(self), old(self).dirty),
            old(q).len + multi(old(self).cand@) <= 81,
            elim_true(old(self).cand@, c as int, bits),
        ensures
            !r ==> dead(old(self).cand@) && *final(self) == *old(self) && *final(q) == *old(q),
            !r <==> forall|d: int| #[trigger]
                bit16(old(self).cand[c as int], d) ==> bit16(bits, d),
            r ==> {
                &&& scanning(*old(self), *final(self), *final(q))
                &&& forall|x: int|
                    0 <= x < 81 && x != c ==> #[trigger] final(self).cand[x] == old(self).cand[x]
                &&& forall|d: int| #[trigger]
                    bit16(final(self).cand[c as int], d) <==> bit16(old(self).cand[c as int], d)
                        && !bit16(bits, d)
                &&& old(self).cand[c as int] & bits == 0 ==> *final(self) == *old(self) && *final(q)
                    == *old(q)
            },
    {
        let ghost s0 = *self;
        let ghost q0 = *q;
        let ghost cc = c as int;
        let m = self.cand[c];
        proof {
            assert(s0.cand@[cc] != 0);
            let e = lemma_nonzero16(m);
            assert(bit16(s0.cand[cc], e));
        }
        if m & bits == 0 {
            proof {
                assert forall|d: int| #[trigger] bit16(m, d) implies !bit16(bits, d) by {
                    if bit16(bits, d) {
                        assert(bit16(m & bits, d));
                        assert(!bit16(0u16, d));
                    }
                }
            }
            proof {
                lemma_unmarked(s0, s0);
            }
            return true;
        }
        proof {
            let e = lemma_nonzero16(m & bits);
            assert(bit16(m, e) && bit16(bits, e));
        }
        if !self.is_unsolved(c) {
            // A solved cell holds an eliminated digit.
            proof {
                let e = lemma_nonzero16(m & bits);
                let d = choose|d: int| #[trigger] solved_as(s0, cc, d);
                assert(bit16(s0.cand[cc], e) <==> e == d);
                assert forall|f: int| #[trigger] bit16(s0.cand[cc], f) implies bit16(bits, f) by {
                    assert(f == d);
                }
                assert forall|g: Seq<u8>| is_grid(g) implies !#[trigger] admits(s0.cand@, g) by {
                    if admits(s0.cand@, g) {
                        lemma_only_digit(s0.cand@, g, cc, d);
                    }
                }
            }
            return false;
        }
        let nm = m & !bits;
        if nm == 0 {
            proof {
                assert forall|f: int| #[trigger] bit16(s0.cand[cc], f) implies bit16(bits, f) by {
                    if !bit16(bits, f) {
                        assert(bit16(nm, f));
                        assert(!bit16(0u16, f));
                    }
                }
                assert forall|g: Seq<u8>| is_grid(g) implies !#[trigger] admits(s0.cand@, g) by {
                    if admits(s0.cand@, g) {
                        lemma_grid_facts(g);
                        reveal(admits);
                        assert(bit16(s0.cand@[cc], g[cc] - 1));
                        assert(bit16(nm, g[cc] - 1));
                        assert(!bit16(0u16, g[cc] - 1));
                    }
                }
            }
            return false;
        }
        proof {
            assert(!single(m)) by {
                if single(m) {
                    let d = choose|d: int| #[trigger] only(m, d);
                    let e = lemma_nonzero16(m & bits);
                    let f = lemma_nonzero16(nm);
                    assert(bit16(m, e) <==> e == d);
                    assert(bit16(m, f) <==> f == d);
                }
            }
            assert(s0.dirty | 0 == s0.dirty) by {
                lemma_ext32(s0.dirty | 0, s0.dirty);
            }
        }
        proof {
            let e = lemma_nonzero16(m & bits);
            assert(bit16(m, e) && !bit16(nm, e));
        }
        self.narrow(c, nm, q, t);
        proof {
            let s1 = *self;
            let f = lemma_nonzero16(nm);
            assert(bit16(s0.cand[cc], f) && !bit16(bits, f));
            assert(s1.dirty | 0 == s1.dirty) by {
                lemma_ext32(s1.dirty | 0, s1.dirty);
            }
            assert(clean(s1, s1.dirty | 0));
            assert(s0.queued_but(q0, -1));
            assert(s1.queued_but(*q, -1));
            assert forall|x: int| s1.open(x) == s0.open(x) by {}
            assert forall|x: int| 0 <= x < 81 && !#[trigger] s1.open(x) implies solved(s1, x) by {
                assert(!s0.open(x));
                lemma_solved_narrower(s0, s1, x);
            }
            lemma_units_true(s0, s1);
            lemma_singles_marked(s0, s1);
            assert forall|g: Seq<u8>| is_grid(g) && #[trigger] admits(s0.cand@, g) implies admits(
                s1.cand@,
                g,
            ) by {
                assert(bit16(m, g[cc] - 1)) by {
                    lemma_grid_facts(g);
                    reveal(admits);
                    assert(bit16(s0.cand@[cc], g[cc] - 1));
                }
                lemma_update_admits(s0.cand@, cc, nm, g);
            }
        }
        true
    }

    /// The union of the candidates of six cells.
    fn union6(&self, cells: &[u8; 6]) -> (r: u16)
        requires
            forall|j: int| 0 <= j < 6 ==> #[trigger] cells[j] < 81,
        ensures
            forall|j: int, d: int|
                0 <= j < 6 && #[trigger] bit16(self.cand[cells[j] as int], d) ==> bit16(r, d),
            forall|d: int| #[trigger]
                bit16(r, d) ==> exists|j: int|
                    0 <= j < 6 && bit16(self.cand[#[trigger] cells[j] as int], d),
    {
        let mut r: u16 = 0;
        let mut j: usize = 0;
        while j < 6
            invariant
                j <= 6,
                forall|i: int| 0 <= i < 6 ==> #[trigger] cells[i] < 81,
                forall|i: int, d: int|
                    0 <= i < j && #[trigger] bit16(self.cand[cells[i] as int], d) ==> bit16(r, d),
                forall|d: int| #[trigger]
                    bit16(r, d) ==> exists|i: int|
                        0 <= i < j && bit16(self.cand[#[trigger] cells[i] as int], d),
            decreases 6 - j,
        {
            let ghost r0 = r;
            r = r | self.cand[cells[j] as usize];
            proof {
                assert forall|d: int| #[trigger] bit16(r, d) implies exists|i: int|
                    0 <= i < j + 1 && bit16(self.cand[#[trigger] cells[i] as int], d) by {
                    if bit16(r0, d) {
                        let i = choose|i: int|
                            0 <= i < j && bit16(self.cand[#[trigger] cells[i] as int], d);
                        assert(bit16(self.cand[cells[i] as int], d));
                    } else {
                        assert(bit16(self.cand[cells[j as int] as int], d));
                    }
                }
            }
            j = j + 1;
        }
        r
    }

    /// Removes digits from six cells, one of which has one of them.
    fn elim6(&mut self, cells: &[u8; 6], bits: u16, q: &mut Queue, t: &Tables) -> (r: bool)
        requires
            t.ok(),
            old(self).ok(),
            old(self).queued(*old(q)),
            clean(*old(self), old(self).dirty),
            old(q).len + multi(old(self).cand@) <= 81,
            forall|j: int|
                0 <= j < 6 ==> #[trigger] cells[j] < 81 && elim_true(
                    old(self).cand@,
                    cells[j] as int,
                    bits,
                ),
        ensures
            only_thinned(*old(self), *final(self)),
            !r ==> dead(old(self).cand@),
            !r ==> exists|j: int| 0 <= j < 6 && #[trigger] lost(old(self).cand@, cells@, j, bits),
            r ==> {
                &&& dropped(old(self).cand@, final(self).cand@, cells@, 6, bits)
                &&& scanning(*old(self), *final(self), *final(q))
                &&& (exists|j: int|
                    0 <= j < 6 && old(self).cand[#[trigger] cells[j] as int] & bits != 0) ==> total16(
                    final(self).cand@,
                ) < total16(old(self).cand@)
                &&& forall|j: int, d: int|
                    0 <= j < 6 && #[trigger] bit16(final(self).cand[cells[j] as int], d) ==> !bit16(
                        bits,
                        d,
                    )
                &&& forall|x: int|
                    0 <= x < 81 && (forall|j: int| 0 <= j < 6 ==> #[trigger] cells[j] != x) ==> (
                    #[trigger] final(self).cand[x]) == old(self).cand[x]
            },
    {
        let ghost s0 = *self;
        let mut j: usize = 0;
        proof {
            lemma_unmarked(s0, s0);
        }
        while j < 6
            invariant
                j <= 6,
                t.ok(),
                s0 == *old(self),
                cells_ok(s0.cand@),
                scanning(s0, *self, *q),
                dropped(s0.cand@, self.cand@, cells@, j as int, bits),
                forall|i: int|
                    0 <= i < 6 ==> #[trigger] cells[i] < 81 && elim_true(
                        s0.cand@,
                        cells[i] as int,
                        bits,
                    ),
                forall|i: int, d: int|
                    0 <= i < j && #[trigger] bit16(self.cand[cells[i] as int], d) ==> !bit16(bits, d),
                forall|x: int|
                    0 <= x < 81 && (forall|i: int| 0 <= i < 6 ==> #[trigger] cells[i] != x) ==> (
                    #[trigger] self.cand[x]) == s0.cand[x],
            decreases 6 - j,
        {
            let ghost s1 = *self;
            let c = cells[j] as usize;
            proof {
                assert(cells[j as int] < 81);
                lemma_elim_true(s1.cand@, s0.cand@, c as int, bits);
            }
            if !self.elim(c, bits, q, t) {
                proof {
                    lemma_dead_back(s0.cand@, s1.cand@);
                    assert(lost(s0.cand@, cells@, j as int, bits)) by {
                        let e = lemma_nonzero16(s1.cand@[c as int]);
                        assert(bit16(s1.cand[c as int], e) && bit16(bits, e));
                        assert(!among(cells@, j as int, c as int));
                        assert forall|d: int| #[trigger] bit16(
                            s0.cand@[cells@[j as int] as int],
                            d,
                        ) implies bit16(bits, d) by {
                            assert(bit16(s1.cand@[c as int], d));
                            assert(bit16(s1.cand[c as int], d));
                        }
                    }
                }
                return false;
            }
            proof {
                lemma_narrower_trans(self.cand@, s1.cand@, s0.cand@);
                lemma_marked_on(s0, s1, *self);
                assert forall|x: int, d: int| 0 <= x < 81 implies (#[trigger] bit16(
                    self.cand@[x],
                    d,
                ) <==> bit16(s0.cand@[x], d) && !(bit16(bits, d) && among(cells@, j + 1, x))) by {
                    if x == c {
                        assert(cells@[j as int] == x);
                        assert(among(cells@, j + 1, x));
                        assert(bit16(self.cand[c as int], d) <==> bit16(s1.cand[c as int], d)
                            && !bit16(bits, d));
                        assert(bit16(s1.cand@[x], d) ==> bit16(s0.cand@[x], d));
                        if bit16(s0.cand@[x], d) && !bit16(bits, d) {
                            assert(bit16(s1.cand@[x], d));
                        }
                    } else {
                        assert(self.cand[x] == s1.cand[x]);
                        assert(among(cells@, j + 1, x) <==> among(cells@, j as int, x)) by {
                            if among(cells@, j + 1, x) {
                                let i = choose|i: int| 0 <= i < j + 1 && #[trigger] cells@[i] == x;
                                assert(i != j);
                                assert(cells@[i] == x);
                            }
                            if among(cells@, j as int, x) {
                                let i = choose|i: int| 0 <= i < j && #[trigger] cells@[i] == x;
                                assert(cells@[i] == x);
                            }
                        }
                        assert(bit16(s1.cand@[x], d) <==> bit16(s0.cand@[x], d) && !(bit16(bits, d)
                            && among(cells@, j as int, x)));
                    }
                }
                assert forall|i: int, d: int| 0 <= i < j + 1 && #[trigger] bit16(
                    self.cand[cells[i] as int],
                    d,
                ) implies !bit16(bits, d) by {
                    if cells[i] != c {
                        assert(self.cand[cells[i] as int] == s1.cand[cells[i] as int]);
                        assert(bit16(s1.cand[cells[i] as int], d));
                    }
                }
            }
            j = j + 1;
        }
        proof {
            let s1 = *self;
            if exists|i: int| 0 <= i < 6 && s0.cand[#[trigger] cells[i] as int] & bits != 0 {
                let i = choose|i: int| 0 <= i < 6 && s0.cand[#[trigger] cells[i] as int] & bits != 0;
                let x = cells[i] as int;
                let e = lemma_nonzero16(s0.cand[x] & bits);
                assert(bit16(s0.cand[x], e) && bit16(bits, e));
                assert(!bit16(s1.cand[cells[i] as int], e));
                assert(s1.cand@[x] != s0.cand@[x]);
                lemma_narrower_total(s1.cand@, s0.cand@);
            }
        }
        true
    }

    /// Locked candidates (pointing and claiming) over the marked
    /// intersections. Returns `None` on contradiction, else whether anything
    /// changed.
    #[verifier::rlimit(60)]
    fn locked_candidates(&mut self, q: &mut Queue, t: &Tables) -> (r: Option<bool>)
        requires
            t.ok(),
            old(self).ok(),
            old(self).queued(*old(q)),
            clean(*old(self), old(self).dirty),
            old(q).len == 0,
        ensures
            only_thinned(*old(self), *final(self)),
            r is None ==> dead(old(self).cand@),
            r is None <==> passed(old(self).cand@, marks(*old(self)), 54) is None,
            r is Some ==> passed(old(self).cand@, marks(*old(self)), 54) == Some(
                final(self).cand@,
            ),
            r matches Some(changed) ==> {
                &&& scanning(unmarked(*old(self)), *final(self), *final(q))
                &&& changed ==> total16(final(self).cand@) < total16(old(self).cand@)
                &&& !changed ==> final(self).cand == old(self).cand && final(self).dirty
                    == old(self).dirty && final(self).int_dirty == 0 && final(q).len == 0
            },
    {
        let ghost s0 = *self;
        let ghost z0 = unmarked(s0);
        let ghost ms = marks(s0);
        let ghost mut n: nat = 0;
        let mut changed: bool = false;
        let mut pend: u64 = self.int_dirty;
        self.int_dirty = 0;
        proof {
            assert forall|c: int| #[trigger] s0.open(c) implies !single(s0.cand[c]) by {
                if single(s0.cand[c]) {
                    assert(q.has(c));
                }
            }
            lemma_placed(s0);
            lemma_undirtied(s0, *self);
            lemma_unmarked(*self, *self);
            assert(*self == z0);
            lemma_multi_narrower(self.cand@, self.cand@);
            assert(narrower(self.cand@, s0.cand@));
        }
        while pend != 0
            invariant
                t.ok(),
                s0 == *old(self),
                s0.ok(),
                z0 == unmarked(s0),
                scanning(z0, *self, *q),
                changed ==> total16(self.cand@) < total16(s0.cand@),
                !changed ==> self.cand == s0.cand && self.dirty == s0.dirty && self.int_dirty == 0
                    && q.len == 0,
                forall|k: int| #[trigger] bit64(pend, k) ==> 0 <= k < 54,
                ms == marks(s0),
                n <= 54,
                forall|k: int| #[trigger] bit64(pend, k) <==> bit64(s0.int_dirty, k) && n <= k,
                passed(s0.cand@, ms, n) == Some(self.cand@),
                known_placed(s0),
            decreases pend,
        {
            let ghost s1 = *self;
            let ghost p0 = pend;
            let k = lowest64(pend);
            pend = without_lowest64(pend);
            let ghost kk = k as int;
            proof {
                assert(bit64(p0, kk));
                let x = choose|x: int|
                    #![trigger bit64(p0, x)]
                    bit64(p0, x) && (forall|j: int| 0 <= j < x ==> !bit64(p0, j)) && (forall|i: int|
                        bit64(pend, i) <==> bit64(p0, i) && i != x);
                assert(x == kk) by {
                    if x < kk {
                        assert(!bit64(p0, x));
                    }
                    if kk < x {
                        assert(!bit64(p0, kk));
                    }
                }
                assert forall|x: int| #[trigger] bit64(pend, x) implies 0 <= x < 54 by {
                    assert(bit64(p0, x));
                }
                reveal(Tables::ok);
                lemma_table_cells(t.ints, kk);
                assert(0 <= int_line(kk) < 18 && 0 <= int_box(kk) < 9);
                assert forall|x: int| n <= x < kk implies !#[trigger] ms.contains(x) by {
                    assert(!bit64(p0, x));
                }
                lemma_passed_over(s0.cand@, ms, n, kk as nat);
                assert(ms.contains(kk));
                n = (kk + 1) as nat;
                assert(passed(s0.cand@, ms, n) == {
                    let next = visit(s1.cand@, s0.cand@, kk);
                    if cells_ok(next) {
                        Some(next)
                    } else {
                        None
                    }
                });
            }
            let bu = t.ints.units[k][0] as usize;
            let lu = t.ints.units[k][1] as usize;
            let solved_digits = self.unit_solved[bu] | self.unit_solved[lu];
            let inter = (self.cand[t.ints.cells[k][0] as usize]
                | self.cand[t.ints.cells[k][1] as usize] | self.cand[t.ints.cells[k][2] as usize])
                & !solved_digits;
            proof {
                assert(looked_at(s0, s1, kk, inter)) by {
                    lemma_looked_at(s0, s1, *t, kk, inter, solved_digits);
                }
            }
            if inter != 0 {
                let boxrest = self.union6(&t.ints.box_rest[k]);
                let linerest = self.union6(&t.ints.line_rest[k]);
                let pointing = inter & !boxrest;
                let claiming = inter & !linerest;
                proof {
                    assert forall|j: int| 0 <= j < 6 implies elim_true(
                        s1.cand@,
                        #[trigger] t.ints.line_rest[kk][j] as int,
                        pointing,
                    ) by {
                        lemma_line_rest(kk, j);
                        assert forall|i: int, d: int| 0 <= i < 6 && #[trigger] bit16(
                            s1.cand@[box_rest_cell(kk, i)],
                            d,
                        ) implies !bit16(pointing, d) by {
                            assert(bit16(s1.cand[t.ints.box_rest[kk][i] as int], d));
                        }
                        lemma_pointing(s1.cand@, kk, pointing, t.ints.line_rest[kk][j] as int);
                    }
                    assert forall|j: int| 0 <= j < 6 implies elim_true(
                        s1.cand@,
                        #[trigger] t.ints.box_rest[kk][j] as int,
                        claiming,
                    ) by {
                        lemma_box_rest(kk, j);
                        assert forall|i: int, d: int| 0 <= i < 6 && #[trigger] bit16(
                            s1.cand@[line_rest_cell(kk, i)],
                            d,
                        ) implies !bit16(claiming, d) by {
                            assert(bit16(s1.cand[t.ints.line_rest[kk][i] as int], d));
                        }
                        lemma_claiming(s1.cand@, kk, claiming, t.ints.box_rest[kk][j] as int);
                    }
                }
                proof {
                    lemma_masks(s0, s1, *t, kk, inter, boxrest, linerest);
                    lemma_visit(s1.cand@, s0.cand@, kk, pointing, claiming);
                }
                // Pointing: a digit confined to this intersection within the
                // box cannot appear elsewhere in the line.
                if pointing & linerest != 0 {
                    if !self.elim6(&t.ints.line_rest[k], pointing, q, t) {
                        proof {
                            lemma_dead_back(s0.cand@, s1.cand@);
                            lemma_narrower_trans(self.cand@, s1.cand@, s0.cand@);
                            let j = choose|j: int|
                                0 <= j < 6 && #[trigger] lost(
                                    s1.cand@,
                                    t.ints.line_rest[kk]@,
                                    j,
                                    pointing,
                                );
                            assert(t.ints.line_rest[kk][j] == line_rest_cell(kk, j));
                            lemma_struck_empty(s1.cand@, kk, pointing, claiming, j, true);
                            lemma_passed_none(s0.cand@, ms, n, 54);
                        }
                        return None;
                    }
                    proof {
                        let e = lemma_nonzero16(pointing & linerest);
                        let j = choose|j: int|
                            0 <= j < 6 && bit16(
                                s1.cand[#[trigger] t.ints.line_rest[kk][j] as int],
                                e,
                            );
                        let x = t.ints.line_rest[kk][j] as int;
                        assert(bit16(s1.cand[x] & pointing, e));
                        assert(!bit16(0u16, e));
                        assert(s1.cand[t.ints.line_rest[kk][j] as int] & pointing != 0);
                        lemma_narrower_trans(self.cand@, s1.cand@, s0.cand@);
                        lemma_marked_on(z0, s1, *self);
                        lemma_narrower_total(s1.cand@, s0.cand@);
                    }
                    changed = true;
                }
                // Claiming: a digit confined to this intersection within the
                // line cannot appear elsewhere in the box.
                let ghost s2 = *self;
                proof {
                    if pointing & linerest == 0 {
                        lemma_dropped_none(s1.cand@, t.ints.line_rest[kk]@, linerest, pointing);
                    }
                    lemma_struck(
                        s1.cand@,
                        s2.cand@,
                        t.ints.line_rest[kk]@,
                        kk,
                        pointing,
                        true,
                    );
                    lemma_struck_both(s1.cand@, kk, pointing, claiming);
                }
                if claiming & boxrest != 0 {
                    proof {
                        assert forall|j: int| 0 <= j < 6 implies elim_true(
                            s2.cand@,
                            #[trigger] t.ints.box_rest[kk][j] as int,
                            claiming,
                        ) && s2.cand[t.ints.box_rest[kk][j] as int]
                            == s1.cand[t.ints.box_rest[kk][j] as int] by {
                            lemma_elim_true(
                                s2.cand@,
                                s1.cand@,
                                t.ints.box_rest[kk][j] as int,
                                claiming,
                            );
                            let x = t.ints.box_rest[kk][j] as int;
                            lemma_box_rest(kk, j);
                            assert forall|i: int| 0 <= i < 6 implies #[trigger] t.ints.line_rest[kk][i]
                                != x by {
                                lemma_line_rest(kk, i);
                            }
                        }
                    }
                    if !self.elim6(&t.ints.box_rest[k], claiming, q, t) {
                        proof {
                            lemma_dead_back(s0.cand@, s2.cand@);
                            lemma_narrower_trans(self.cand@, s2.cand@, s0.cand@);
                            let j = choose|j: int|
                                0 <= j < 6 && #[trigger] lost(
                                    s2.cand@,
                                    t.ints.box_rest[kk]@,
                                    j,
                                    claiming,
                                );
                            assert(t.ints.box_rest[kk][j] == box_rest_cell(kk, j));
                            assert(s2.cand[t.ints.box_rest[kk][j] as int]
                                == s1.cand[t.ints.box_rest[kk][j] as int]);
                            lemma_struck_empty(s1.cand@, kk, pointing, claiming, j, false);
                            lemma_passed_none(s0.cand@, ms, n, 54);
                        }
                        return None;
                    }
                    proof {
                        let e = lemma_nonzero16(claiming & boxrest);
                        let j = choose|j: int|
                            0 <= j < 6 && bit16(
                                s1.cand[#[trigger] t.ints.box_rest[kk][j] as int],
                                e,
                            );
                        let x = t.ints.box_rest[kk][j] as int;
                        assert(s2.cand[t.ints.box_rest[kk][j] as int] == s1.cand[x]);
                        assert(bit16(s2.cand[x] & claiming, e));
                        assert(!bit16(0u16, e));
                        assert(s2.cand[t.ints.box_rest[kk][j] as int] & claiming != 0);
                        lemma_narrower_trans(self.cand@, s2.cand@, s0.cand@);
                        lemma_marked_on(z0, s2, *self);
                        lemma_narrower_total(s2.cand@, s0.cand@);
                    }
                    changed = true;
                }
                proof {
                    lemma_narrower_trans(self.cand@, s2.cand@, s1.cand@);
                    if claiming & boxrest == 0 {
                        assert forall|j: int, d: int| 0 <= j < 6 && #[trigger] bit16(
                            s2.cand@[t.ints.box_rest[kk]@[j] as int],
                            d,
                        ) implies bit16(boxrest, d) by {
                            assert(t.ints.box_rest[kk][j] < 81);
                            assert(sub_cell(
                                s2.cand@[t.ints.box_rest[kk][j] as int],
                                s1.cand@[t.ints.box_rest[kk][j] as int],
                            ));
                            assert(bit16(s1.cand[t.ints.box_rest[kk][j] as int], d));
                        }
                        lemma_dropped_none(s2.cand@, t.ints.box_rest[kk]@, boxrest, claiming);
                    }
                    lemma_struck(
                        s2.cand@,
                        self.cand@,
                        t.ints.box_rest[kk]@,
                        kk,
                        claiming,
                        false,
                    );
                    assert(self.cand@ == struck(s1.cand@, kk, pointing, claiming));
                }
            } else {
                proof {
                    lemma_no_masks(s0, s1, *t, kk, inter);
                    lemma_visit(s1.cand@, s0.cand@, kk, 0, 0);
                    lemma_struck_nothing(s1.cand@, kk);
                }
            }
            proof {
                assert(passed(s0.cand@, ms, n) == Some(self.cand@));
                assert forall|x: int| #[trigger] bit64(pend, x) <==> bit64(s0.int_dirty, x) && n
                    <= x by {
                    assert(bit64(pend, x) <==> bit64(p0, x) && x != kk);
                    if bit64(p0, x) && x < kk {
                        assert(0 <= x);
                    }
                }
            }
        }
        proof {
            assert forall|x: int| n <= x < 54 implies !#[trigger] ms.contains(x) by {
                assert(!bit64(0u64, x));
            }
            lemma_passed_over(s0.cand@, ms, n, 54);
        }
        Some(changed)
    }

    /// Full propagation: singles to the fixpoint, then locked candidates,
    /// until neither moves. Leaves the queue empty.
    pub fn propagate_all(&mut self, q: &mut Queue, t: &Tables) -> (r: bool)
        requires
            t.ok(),
            old(self).ok(),
            old(self).queued(*old(q)),
            clean(*old(self), old(self).dirty),
            old(q).len + multi(old(self).cand@) <= 500,
        ensures
            final(q).len == 0,
            !r ==> dead(old(self).cand@),
            r ==> {
                &&& final(self).ok()
                &&& final(self).singles_done()
                &&& final(self).dirty == 0
                &&& final(self).n_unsolved == 0 || final(self).int_dirty == 0
                &&& narrower(final(self).cand@, old(self).cand@)
                &&& keeps(old(self).cand@, final(self).cand@)
                &&& final(self).n_unsolved <= old(self).n_unsolved
                &&& old(self).pending(*old(q)) ==> final(self).n_unsolved < old(self).n_unsolved
            },
            !r <==> settled(old(self).cand@, marks(*old(self))) is None,
            r ==> settled(old(self).cand@, marks(*old(self))) == Some(
                (final(self).cand@, marks(*final(self))),
            ),
    {
        let ghost s0 = *self;
        let ghost q0 = *q;
        let ghost mut first: bool = true;
        loop
            invariant
                t.ok(),
                s0 == *old(self),
                q0 == *old(q),
                self.ok(),
                self.queued(*q),
                clean(*self, self.dirty),
                q.len + multi(self.cand@) <= 500,
                narrower(self.cand@, s0.cand@),
                keeps(s0.cand@, self.cand@),
                self.n_unsolved <= s0.n_unsolved,
                first ==> *self == s0 && *q == q0,
                !first && s0.pending(q0) ==> self.n_unsolved < s0.n_unsolved,
                settled(s0.cand@, marks(s0)) == settled(self.cand@, marks(*self)),
            decreases total16(self.cand@),
        {
            let ghost s1 = *self;
            if !self.propagate(q, t) {
                proof {
                    lemma_dead_back(s0.cand@, s1.cand@);
                    lemma_closes_not(s1.cand@);
                }
                return false;
            }
            let ghost s2 = *self;
            proof {
                first = false;
                lemma_narrower_trans(s2.cand@, s1.cand@, s0.cand@);
                lemma_narrower_total(s2.cand@, s1.cand@);
                lemma_closes_to(s1.cand@, s2.cand@);
                lemma_marks_grown(s1, s2);
                lemma_all_single(s2);
                lemma_no_marks(s2);
            }
            if self.n_unsolved == 0 || self.int_dirty == 0 {
                return true;
            }
            proof {
                lemma_rested_queue(s2, *q);
            }
            match self.locked_candidates(q, t) {
                None => {
                    q.clear();
                    proof {
                        lemma_dead_back(s0.cand@, s2.cand@);
                    }
                    return false;
                },
                Some(changed) => {
                    proof {
                        lemma_narrower_trans(self.cand@, s2.cand@, s0.cand@);
                        let s3 = *self;
                        lemma_marks_grown(unmarked(s2), s3);
                        lemma_no_marks(unmarked(s2));
                        lemma_no_marks(s3);
                        assert(marks(s3) =~= crossed(s2.cand@, s3.cand@));
                    }
                    if !changed {
                        proof {
                            let s3 = *self;
                            assert(s3.singles_done()) by {
                                assert forall|c: int| #[trigger] s3.open(c) implies !single(
                                    s3.cand[c],
                                ) by {
                                    assert(s2.open(c));
                                }
                                assert forall|u: int| 0 <= u < 27 implies #[trigger] unit_clean(
                                    s3,
                                    u,
                                ) by {
                                    assert(!bit32(0u32, u));
                                }
                            }
                        }
                        return true;
                    }
                },
            }
        }
    }

    /// The unsolved cell with the fewest candidates, or the first with two.
    pub fn best_cell(&self) -> (best: usize)
        requires
            self.shape(),
            self.n_unsolved > 0,
        ensures
            best < 81,
            self.open(best as int),
            forall|c: int|
                c < best && #[trigger] self.open(c) ==> pop16(self.cand[best as int]) < pop16(
                    self.cand[c],
                ),
            pop16(self.cand[best as int]) == 2 || forall|c: int| #[trigger]
                self.open(c) ==> pop16(self.cand[best as int]) <= pop16(self.cand[c]),
    {
        let mut best: usize = 0;
        let mut best_n: u32 = 10;
        let mut c: usize = 0;
        while c < 81
            invariant
                c <= 81,
                self.shape(),
                best_n == 10 ==> forall|x: int| 0 <= x < c ==> !#[trigger] self.open(x),
                best_n < 10 ==> best < 81 && self.open(best as int) && best_n == pop16(
                    self.cand[best as int],
                ),
                best_n <= 10,
                forall|x: int|
                    0 <= x < c && #[trigger] self.open(x) ==> best_n <= pop16(self.cand[x]),
                best_n < 10 ==> forall|x: int|
                    0 <= x < best && #[trigger] self.open(x) ==> best_n < pop16(self.cand[x]),
            decreases 81 - c,
        {
            if self.is_unsolved(c) {
                let n = count_ones16(self.cand[c]);
                proof {
                    assert(self.cand@[c as int] <= 0x1FF);
                    lemma_pop9(self.cand[c as int]);
                }
                if n < best_n {
                    best_n = n;
                    best = c;
                    if n == 2 {
                        return best;
                    }
                }
            }
            c = c + 1;
        }
        proof {
            if best_n == 10 {
                let f = |x: int| self.open(x);
                let x = crate::bits::lemma_count_witness(f, 81);
                assert(self.open(x));
            }
        }
        best
    }

    /// The grid of a fully solved state is its only one.
    pub proof fn lemma_leaf(&self) -> (g: Seq<u8>)
        requires
            self.ok(),
            self.n_unsolved == 0,
        ensures
            is_grid(g),
            forall|c: int| 0 <= c < 81 ==> only(self.cand@[c], #[trigger] g[c] - 1),
            cell_solutions(self.cand@).contains(g),
            cell_solutions(self.cand@).len() == 1,
    {
        let f = |x: int| self.open(x);
        assert forall|c: int| 0 <= c < 81 implies solved(*self, c) && single(
            #[trigger] self.cand@[c],
        ) by {
            crate::bits::lemma_count_zero(f, 81, c);
            assert(!self.open(c));
            let d = choose|d: int| #[trigger] solved_as(*self, c, d);
            assert(only(self.cand@[c], d));
        }
        assert forall|a: int, b: int, d: int|
            0 <= a < 81 && 0 <= b < 81 && peers(a, b) && only(#[trigger] self.cand@[a], d) implies !(
        #[trigger] bit16(self.cand@[b], d)) by {
            assert(single(self.cand@[a]));
            assert(solved(*self, a));
            let e = choose|e: int| #[trigger] solved_as(*self, a, e);
            assert(bit16(self.cand@[a], d));
            assert(d == e);
        }
        lemma_cells_leaf(self.cand@)
    }

    /// Writes out the grid of a fully solved state.
    pub fn write_grid(&self, out: &mut [u8; 81])
        requires
            cells_ok(self.cand@),
        ensures
            forall|g: Seq<u8>|
                #[trigger] is_grid(g) && (forall|c: int|
                    0 <= c < 81 ==> only(self.cand@[c], #[trigger] g[c] - 1)) ==> final(out)@ == g,
    {
        let mut c: usize = 0;
        while c < 81
            invariant
                c <= 81,
                cells_ok(self.cand@),
                forall|x: int, d: int|
                    0 <= x < c && #[trigger] only(self.cand@[x], d) ==> out[x] == d + 1,
            decreases 81 - c,
        {
            let m = self.cand[c];
            proof {
                assert(self.cand@[c as int] != 0 && self.cand@[c as int] <= 0x1FF);
            }
            let d = lowest16(m);
            proof {
                lemma_small9(m, d as int);
            }
            out[c] = d as u8 + 1;
            proof {
                assert forall|e: int| #[trigger] only(self.cand@[c as int], e) implies d == e by {
                    assert(bit16(m, d as int));
                }
            }
            c = c + 1;
        }
        proof {
            assert forall|g: Seq<u8>|
                #[trigger] is_grid(g) && (forall|c: int|
                    0 <= c < 81 ==> only(self.cand@[c], #[trigger] g[c] - 1)) implies out@ == g by {
                lemma_grid_facts(g);
                assert forall|x: int| 0 <= x < 81 implies out@[x] == g[x] by {
                    assert(only(self.cand@[x], g[x] - 1));
                }
                assert(out@ =~= g);
            }
        }
    }
}

/// With no naked single left an empty queue holds all that it should.
pub proof fn lemma_rested_queue(s: State, q: Queue)
    requires
        s.ok(),
        s.singles_done(),
        q.len == 0,
    ensures
        s.queued(q),
        clean(s, s.dirty),
{
    assert forall|u: int| 0 <= u < 27 && !#[trigger] bit32(s.dirty, u) implies unit_clean(s, u) by {}
}

/// The rests of an intersection are cells.
proof fn lemma_table_cells(t: Intersections, k: int)
    requires
        t.ok(),
        0 <= k < 54,
    ensures
        forall|j: int|
            0 <= j < 6 ==> #[trigger] t.box_rest[k][j] < 81 && t.box_rest[k][j] == box_rest_cell(
                k,
                j,
            ),
        forall|j: int|
            0 <= j < 6 ==> #[trigger] t.line_rest[k][j] < 81 && t.line_rest[k][j] == line_rest_cell(
                k,
                j,
            ),
        forall|n: int| 0 <= n < 3 ==> #[trigger] t.cells[k][n] < 81,
        t.units[k][0] == 18 + int_box(k),
        t.units[k][1] == int_line(k),
{
    assert forall|j: int| 0 <= j < 6 implies #[trigger] t.box_rest[k][j] < 81 && t.box_rest[k][j]
        == box_rest_cell(k, j) by {
        lemma_box_rest(k, j);
    }
    assert forall|j: int| 0 <= j < 6 implies #[trigger] t.line_rest[k][j] < 81 && t.line_rest[k][j]
        == line_rest_cell(k, j) by {
        lemma_line_rest(k, j);
    }
    assert forall|n: int| 0 <= n < 3 implies #[trigger] t.cells[k][n] < 81 by {
        assert(t.cells[k][n] == int_cell(k, n));
    }
}

} // verus!
