//! Depth-first search over the boards of the board engine.

use vstd::prelude::*;
use crate::bits::{
    bit32, count, group_bits32, lemma_count_at_most_two, lemma_count_second, lemma_count_witness,
    lemma_nonzero32, lemma_small32, lowest32, total32,
};
use crate::boards::{
    admits, board_solutions, boards_ok, cand, digits_at, encodes, lemma_dead, lemma_same_solutions,
    lemma_within_admits, lemma_within_total, sub32, within,
};
use crate::grid::{capped, grids, is_grid, lemma_grid_facts, lemma_none, lemma_split};
use crate::jcz::closure::{lemma_placed_grid, lemma_placed_only, none_stable, undecided};
use crate::jcz::course::{
    branched, bumped, closes_to, decided, descended, first_open, guess_at, has_pair,
    lemma_branched_bare, lemma_closed_boards, lemma_guess_once, lemma_placed_at, removed_at,
    solved_from, Course, UNBOUNDED,
};
use crate::jcz::propagate::{
    good, lemma_place_shrinks, open_cell, pairs_fresh, placed_word, State,
};
use crate::jcz::tables::Tables;

verus! {

broadcast use group_bits32;

/// The running totals of a search.
pub struct Solver {
    pub limit: u64,
    pub count: u64,
    /// Boards of the first counted solution.
    pub solution: [u32; 27],
    pub guesses: u32,
    pub budget: u32,
    pub aborted: bool,
}

/// `bs` spells out a member of `s`.
pub open spec fn spells(bs: Seq<u32>, s: Set<Seq<u8>>) -> bool {
    boards_ok(bs) && exists|g: Seq<u8>| is_grid(g) && #[trigger] s.contains(g) && encodes(bs, g)
}

/// Between `a` and `b` the search went through `n` solutions, all in `s`,
/// unless the guess budget ran out. With a limit of zero it went no further
/// than its first way down.
pub open spec fn counted(a: Solver, b: Solver, n: int, s: Set<Seq<u8>>) -> bool {
    &&& b.limit == a.limit
    &&& b.budget == a.budget
    &&& a.guesses <= b.guesses
    &&& b.aborted ==> b.budget != UNBOUNDED && b.guesses >= b.budget
    &&& !b.aborted && a.limit > 0 ==> b.count == capped(a.count + n, a.limit as int)
    &&& a.count > 0 ==> b.count > 0 && b.solution == a.solution
    &&& a.count == 0 && b.count > 0 ==> spells(b.solution@, s)
}

proof fn lemma_counted_chain(a: Solver, b: Solver, c: Solver, n: int, m: int, s: Set<Seq<u8>>)
    requires
        counted(a, b, n, s),
        counted(b, c, m, s),
        !b.aborted,
        b.count < b.limit || b.limit == 0,
    ensures
        counted(a, c, n + m, s),
{
}

proof fn lemma_counted_sub(a: Solver, b: Solver, n: int, s: Set<Seq<u8>>, t: Set<Seq<u8>>)
    requires
        counted(a, b, n, s),
        s.subset_of(t),
    ensures
        counted(a, b, n, t),
{
    if a.count == 0 && b.count > 0 {
        let g = choose|g: Seq<u8>|
            is_grid(g) && #[trigger] s.contains(g) && encodes(b.solution@, g);
        assert(t.contains(g));
    }
}

/// Once the limit is reached or the search is called off, what is left
/// uncounted does not matter.
proof fn lemma_counted_stop(a: Solver, b: Solver, n: int, m: int, s: Set<Seq<u8>>)
    requires
        counted(a, b, n, s),
        b.aborted || b.count >= b.limit,
        n <= m,
    ensures
        counted(a, b, m, s),
{
}

/// Placing digit `d` at a cell and removing it there split the solutions.
proof fn lemma_branch(bs: Seq<u32>, b: int, d: int, p: int, w: u32, r: u32)
    requires
        boards_ok(bs),
        0 <= b < 3,
        0 <= d < 9,
        0 <= p < 27,
        placed_word(bs[9 * b + d], p, w),
        r == bs[9 * b + d] & !(1u32 << (p as u32)),
    ensures
        board_solutions(bs).len() == board_solutions(bs.update(9 * b + d, w)).len()
            + board_solutions(bs.update(9 * b + d, r)).len(),
        board_solutions(bs.update(9 * b + d, w)).subset_of(board_solutions(bs)),
        board_solutions(bs.update(9 * b + d, r)).subset_of(board_solutions(bs)),
{
    let i = 9 * b + d;
    let c = 27 * b + p;
    let x = bs.update(i, w);
    let y = bs.update(i, r);
    assert(c / 27 == b && c % 27 == p);
    assert(within(y, bs)) by {
        assert forall|j: int| 0 <= j < 27 implies sub32(#[trigger] y[j], bs[j]) by {}
    }
    assert forall|g: Seq<u8>| #[trigger]
        board_solutions(bs).contains(g) <==> board_solutions(x).contains(g) || board_solutions(
            y,
        ).contains(g) by {
        if is_grid(g) {
            lemma_grid_facts(g);
            if admits(bs, g) {
                if g[c] == d + 1 {
                    lemma_placed_grid(bs, g, b, d, p, w);
                } else {
                    assert(admits(y, g)) by {
                        reveal(admits);
                        assert forall|e: int| 0 <= e < 81 implies cand(y, e, #[trigger] g[e] - 1) by {
                            assert(cand(bs, e, g[e] - 1));
                            if 9 * (e / 27) + (g[e] - 1) == i {
                                assert(e != c);
                                assert(e % 27 != p);
                            }
                        }
                    }
                }
            }
            if admits(x, g) {
                lemma_placed_only(bs, g, b, d, p, w);
            }
            if admits(y, g) {
                lemma_within_admits(y, bs, g);
            }
        }
    }
    assert forall|g: Seq<u8>|
        !(#[trigger] board_solutions(x).contains(g) && board_solutions(y).contains(g)) by {
        if is_grid(g) && admits(x, g) && admits(y, g) {
            lemma_placed_only(bs, g, b, d, p, w);
            lemma_grid_facts(g);
            reveal(admits);
            assert(cand(y, c, g[c] - 1));
        }
    }
    assert(board_solutions(bs).subset_of(grids()));
    lemma_split(board_solutions(bs), board_solutions(x), board_solutions(y));
}

/// Boards without a candidate at some cell admit nothing.
proof fn lemma_bare_cell(bs: Seq<u32>, b: int, p: int)
    requires
        0 <= b < 3,
        0 <= p < 27,
        forall|e: int| 0 <= e < 9 ==> !bit32(#[trigger] bs[9 * b + e], p),
    ensures
        board_solutions(bs).len() == 0,
{
    assert forall|g: Seq<u8>| !#[trigger] board_solutions(bs).contains(g) by {
        if is_grid(g) && admits(bs, g) {
            lemma_grid_facts(g);
            reveal(admits);
            let c = 27 * b + p;
            assert(c / 27 == b && c % 27 == p);
            assert(cand(bs, c, g[c] - 1));
            assert(!bit32(bs[9 * b + (g[c] - 1)], p));
        }
    }
    lemma_none(board_solutions(bs));
}

/// Removing a candidate that is there makes the boards smaller.
proof fn lemma_removed_total(bs: Seq<u32>, i: int, p: int, r: u32)
    requires
        boards_ok(bs),
        0 <= i < 27,
        0 <= p < 27,
        bit32(bs[i], p),
        r == bs[i] & !(1u32 << (p as u32)),
    ensures
        total32(bs.update(i, r)) < total32(bs),
{
    let n = bs.update(i, r);
    assert(!bit32(r, p));
    assert(within(n, bs)) by {
        assert forall|j: int| 0 <= j < 27 implies sub32(#[trigger] n[j], bs[j]) by {}
    }
    lemma_within_total(n, bs);
    assert(n[i] != bs[i]);
}

/// The course of a search from boards that take a guess.
pub open spec fn guessed(v: Seq<u32>, c: Course, limit: int, budget: int) -> Course {
    let (b, p) = choose|b: int, p: int| #[trigger] guess_at(v, b, p);
    branched(v, v, b, p, 0, c, limit, budget)
}

/// A guess is at the cell to guess at.
proof fn lemma_guessed(v: Seq<u32>, b: int, p: int, c: Course, limit: int, budget: int)
    requires
        guess_at(v, b, p),
    ensures
        guessed(v, c, limit, budget) == branched(v, v, b, p, 0, c, limit, budget),
{
    let (b2, p2) = choose|b2: int, p2: int| #[trigger] guess_at(v, b2, p2);
    assert(guess_at(v, b2, p2));
    lemma_guess_once(v, b, p, b2, p2);
}

impl Solver {
    /// Where the search stands.
    pub open spec fn course(&self) -> Course {
        Course {
            count: self.count as int,
            guesses: self.guesses as int,
            aborted: self.aborted,
            first: self.solution@,
        }
    }

    /// The search is still on. With a limit of zero it is until the first way
    /// down has ended.
    pub open spec fn live(&self) -> bool {
        (self.count < self.limit || (self.limit == 0 && self.count == 0)) && !self.aborted
    }

    /// Reached a stable state: count it if solved, otherwise branch.
    pub fn descend(&mut self, state: &mut State, t: &Tables)
        requires
            t.ok(),
            old(self).live(),
            old(state).rested(),
            !old(state).all_fixed() ==> forall|b: int|
                0 <= b < 3 ==> #[trigger] pairs_fresh(old(state).poss@, old(state).pairs@, b),
        ensures
            counted(
                *old(self),
                *final(self),
                board_solutions(old(state).poss@).len() as int,
                board_solutions(old(state).poss@),
            ),
            final(self).course() == descended(
                old(state).poss@,
                old(self).course(),
                old(self).limit as int,
                old(self).budget as int,
            ),
        decreases total32(old(state).poss@), 2nat,
    {
        let ghost v = state.poss@;
        let ghost c0 = self.course();
        proof {
            state.lemma_rested();
            assert(decided(v) <==> state.all_fixed()) by {
                if state.all_fixed() {
                    assert forall|b: int, p: int|
                        0 <= b < 3 && 0 <= p < 27 implies !#[trigger] undecided(v, b, p) by {
                        let c = 27 * b + p;
                        assert(c / 27 == b && c % 27 == p);
                        assert(!open_cell(state.unsolved@, c));
                        assert(!bit32(state.unsolved[b], p));
                    }
                } else {
                    let c = choose|c: int|
                        0 <= c < 81 && #[trigger] open_cell(state.unsolved@, c);
                    assert(bit32(state.unsolved[c / 27], c % 27));
                    assert(undecided(v, c / 27, c % 27));
                }
            }
        }
        if state.is_solved() {
            proof {
                let g = state.lemma_fixed();
                assert(board_solutions(state.poss@).contains(g));
            }
            if self.count == 0 {
                self.solution = state.poss;
            }
            self.count = self.count + 1;
            return;
        }
        if self.guesses >= self.budget && self.budget != UNBOUNDED {
            self.aborted = true;
            return;
        }
        if self.guesses < UNBOUNDED {
            self.guesses = self.guesses + 1;
        }
        proof {
            assert(self.course() == (Course { guesses: bumped(c0.guesses), ..c0 }));
        }
        if !self.guess_pair(state, t) {
            self.guess_cell(state, t);
        }
    }

    /// Runs `state` to its fixpoint and descends.
    pub fn solve_from(&mut self, state: &mut State, t: &Tables)
        requires
            t.ok(),
            old(self).live(),
            old(state).ok(),
            old(state).tracked_by(old(state).dirty),
        ensures
            counted(
                *old(self),
                *final(self),
                board_solutions(old(state).poss@).len() as int,
                board_solutions(old(state).poss@),
            ),
            final(self).course() == solved_from(
                old(state).poss@,
                old(self).course(),
                old(self).limit as int,
                old(self).budget as int,
            ),
        decreases total32(old(state).poss@), 3nat,
    {
        let ghost a0 = state.poss@;
        match state.full_update(t) {
            Err(_) => {
                proof {
                    lemma_dead(a0);
                    assert(none_stable(a0));
                    assert forall|v: Seq<u32>| !#[trigger] closes_to(v, a0) by {
                        if closes_to(v, a0) {
                            assert(within(v, a0));
                        }
                    }
                }
            },
            Ok(_) => {
                proof {
                    lemma_same_solutions(a0, state.poss@);
                    lemma_within_total(state.poss@, a0);
                    lemma_closed_boards(state.poss@, a0);
                }
                self.descend(state, t);
            },
        }
    }

    /// Branches on the first cell with two candidates, if there is one.
    /// Returns false, with nothing done, exactly when there is none.
    fn guess_pair(&mut self, state: &mut State, t: &Tables) -> (done: bool)
        requires
            t.ok(),
            old(self).live(),
            old(state).rested(),
            forall|b: int|
                0 <= b < 3 ==> #[trigger] pairs_fresh(old(state).poss@, old(state).pairs@, b),
        ensures
            done <==> has_pair(old(state).poss@),
            !done ==> *final(self) == *old(self) && *final(state) == *old(state),
            done ==> counted(
                *old(self),
                *final(self),
                board_solutions(old(state).poss@).len() as int,
                board_solutions(old(state).poss@),
            ),
            done ==> final(self).course() == guessed(
                old(state).poss@,
                old(self).course(),
                old(self).limit as int,
                old(self).budget as int,
            ),
        decreases total32(old(state).poss@), 1nat,
    {
        let mut band: usize = 0;
        while band < 3
            invariant
                band <= 3,
                *self == *old(self),
                *state == *old(state),
                t.ok(),
                self.live(),
                state.rested(),
                forall|b: int|
                    0 <= b < 3 ==> #[trigger] pairs_fresh(state.poss@, state.pairs@, b),
                forall|b: int| 0 <= b < band ==> #[trigger] state.pairs[b] == 0,
            decreases 3 - band,
        {
            if state.pairs[band] != 0 {
                let pos = lowest32(state.pairs[band]);
                proof {
                    assert(pairs_fresh(state.poss@, state.pairs@, band as int));
                    assert(digits_at(state.poss@, band as int, pos as int, 9) == 2);
                    assert(guess_at(state.poss@, band as int, pos as int)) by {
                        assert forall|b2: int, p2: int|
                            0 <= b2 < 3 && 0 <= p2 < 27 && #[trigger] digits_at(
                                state.poss@,
                                b2,
                                p2,
                                9,
                            ) == 2 implies band < b2 || (band == b2 && pos <= p2) by {
                            assert(pairs_fresh(state.poss@, state.pairs@, b2));
                            assert(bit32(state.pairs@[b2], p2));
                            if b2 < band {
                                assert(state.pairs[b2] == 0);
                                assert(!bit32(0u32, p2));
                            }
                        }
                    }
                    lemma_guessed(
                        state.poss@,
                        band as int,
                        pos as int,
                        self.course(),
                        self.limit as int,
                        self.budget as int,
                    );
                }
                self.branch_pair(state, band, pos, t);
                return true;
            }
            band = band + 1;
        }
        proof {
            assert forall|b: int, p: int| 0 <= b < 3 && 0 <= p < 27 implies #[trigger] digits_at(
                state.poss@,
                b,
                p,
                9,
            ) != 2 by {
                assert(pairs_fresh(state.poss@, state.pairs@, b));
                assert(state.pairs[b] == 0);
                assert(!bit32(0u32, p));
                assert(!bit32(state.pairs@[b], p));
            }
        }
        false
    }

    /// Branches on a cell with exactly two candidates.
    fn branch_pair(&mut self, state: &mut State, band: usize, pos: usize, t: &Tables)
        requires
            t.ok(),
            old(self).live(),
            old(state).rested(),
            band < 3,
            pos < 27,
            digits_at(old(state).poss@, band as int, pos as int, 9) == 2,
        ensures
            counted(
                *old(self),
                *final(self),
                board_solutions(old(state).poss@).len() as int,
                board_solutions(old(state).poss@),
            ),
            final(self).course() == branched(
                old(state).poss@,
                old(state).poss@,
                band as int,
                pos as int,
                0,
                old(self).course(),
                old(self).limit as int,
                old(self).budget as int,
            ),
        decreases total32(old(state).poss@), 0nat,
    {
        let ghost st0 = *state;
        let ghost a0 = state.poss@;
        let ghost me0 = *self;
        let ghost s0 = board_solutions(a0);
        let ghost b = band as int;
        let ghost p = pos as int;
        let ghost f = |e: int| bit32(a0[9 * b + e], p);
        let bit = 1u32 << (pos as u32);
        let ghost x = lemma_count_witness(f, 9);
        let ghost y = lemma_count_second(f, 9, x);
        proof {
            assert(f(x) && f(y));
            state.lemma_rested();
            assert(undecided(a0, b, p)) by {
                if x < y {
                    assert(bit32(a0[9 * b + x], p) && bit32(a0[9 * b + y], p));
                } else {
                    assert(bit32(a0[9 * b + y], p) && bit32(a0[9 * b + x], p));
                }
            }
            assert(bit32(state.unsolved[b], p));
        }
        let mut first: bool = true;
        let ghost mut d1: int = 0;
        let mut d: usize = 0;
        while d < 9
            invariant
                d <= 9,
                t.ok(),
                self.live(),
                st0 == *old(state),
                me0 == *old(self),
                st0.rested(),
                a0 == st0.poss@,
                s0 == board_solutions(a0),
                b == band,
                p == pos,
                band < 3,
                pos < 27,
                bit == 1u32 << (pos as u32),
                bit32(st0.unsolved[b], p),
                f == |e: int| bit32(a0[9 * b + e], p),
                count(f, 9) == 2,
                0 <= x < 9,
                0 <= y < 9,
                x != y,
                f(x),
                f(y),
                self.limit == me0.limit,
                self.budget == me0.budget,
                branched(
                    a0,
                    a0,
                    b,
                    p,
                    0,
                    me0.course(),
                    me0.limit as int,
                    me0.budget as int,
                ) == branched(
                    a0,
                    state.poss@,
                    b,
                    p,
                    d as int,
                    self.course(),
                    me0.limit as int,
                    me0.budget as int,
                ),
                first ==> *state == st0 && *self == me0 && forall|e: int|
                    0 <= e < d ==> !bit32(#[trigger] a0[9 * b + e], p),
                !first ==> {
                    &&& 0 <= d1 < d
                    &&& bit32(a0[9 * b + d1], p)
                    &&& forall|e: int|
                        0 <= e < d && e != d1 ==> !bit32(#[trigger] a0[9 * b + e], p)
                    &&& state.ok()
                    &&& state.tracked_by(state.dirty)
                    &&& state.poss@ == a0.update(9 * b + d1, a0[9 * b + d1] & !bit)
                    &&& board_solutions(state.poss@).subset_of(s0)
                    &&& counted(me0, *self, s0.len() - board_solutions(state.poss@).len(), s0)
                    &&& total32(state.poss@) < total32(a0)
                },
            decreases 9 - d,
        {
            if state.poss[band * 9 + d] & bit != 0 {
                proof {
                    let m = state.poss[band * 9 + d];
                    let k = lemma_nonzero32(m & bit);
                    assert(k == p);
                    assert(bit32(m, p));
                }
                if first {
                    let mut copy = *state;
                    copy.place(band, d, pos, t);
                    let ghost w = choose|w: u32| #[trigger]
                        placed_word(a0[9 * b + d], p, w) && copy.poss@ == a0.update(9 * b + d, w);
                    let ghost r = a0[9 * b + d] & !bit;
                    proof {
                        assert(!bit32(0u32, 9 * b + d));
                        assert(good(a0, st0.unsolved@, 9 * b + d));
                        lemma_place_shrinks(a0, st0.unsolved@, b, d as int, p, w);
                        lemma_branch(a0, b, d as int, p, w, r);
                        lemma_removed_total(a0, 9 * b + d, p, r);
                        lemma_placed_at(a0, b, d as int, p, w);
                    }
                    let ghost s1 = board_solutions(copy.poss@);
                    self.solve_from(&mut copy, t);
                    proof {
                        lemma_counted_sub(me0, *self, s1.len() as int, s1, s0);
                    }
                    if self.count >= self.limit || self.aborted {
                        proof {
                            lemma_counted_stop(me0, *self, s1.len() as int, s0.len() as int, s0);
                        }
                        return;
                    }
                    first = false;
                    proof {
                        d1 = d as int;
                    }
                    state.remove(band, d, bit);
                } else {
                    let ghost a1 = state.poss@;
                    let ghost me1 = *self;
                    state.place(band, d, pos, t);
                    let ghost w = choose|w: u32| #[trigger]
                        placed_word(a1[9 * b + d], p, w) && state.poss@ == a1.update(9 * b + d, w);
                    let ghost r = a1[9 * b + d] & !bit;
                    proof {
                        lemma_placed_at(a1, b, d as int, p, w);
                        lemma_within_total(state.poss@, a1);
                        lemma_branch(a1, b, d as int, p, w, r);
                        let z = a1.update(9 * b + d, r);
                        assert forall|e: int| 0 <= e < 9 implies !bit32(
                            #[trigger] z[9 * b + e],
                            p,
                        ) by {
                            if e != d && e != d1 {
                                assert(z[9 * b + e] == a0[9 * b + e]);
                                assert(f(d as int) && f(d1));
                                lemma_count_at_most_two(f, 9, d as int, d1, e);
                                assert(!f(e));
                            }
                        }
                        lemma_bare_cell(z, b, p);
                        assert(removed_at(a1, b, d as int, p) == z);
                    }
                    let ghost s2 = board_solutions(state.poss@);
                    self.solve_from(state, t);
                    proof {
                        lemma_counted_sub(me1, *self, s2.len() as int, s2, s0);
                        lemma_counted_chain(
                            me0,
                            me1,
                            *self,
                            s0.len() - board_solutions(a1).len(),
                            s2.len() as int,
                            s0,
                        );
                        lemma_branched_bare(
                            a0,
                            removed_at(a1, b, d as int, p),
                            b,
                            p,
                            d + 1,
                            self.course(),
                            me0.limit as int,
                            me0.budget as int,
                        );
                    }
                    return;
                }
            } else {
                proof {
                    let m = state.poss[band * 9 + d];
                    if bit32(m, p) {
                        assert(bit32(m & bit, p));
                    }
                }
            }
            d = d + 1;
        }
        proof {
            assert(bit32(a0[9 * b + x], p) && bit32(a0[9 * b + y], p));
        }
    }

    /// No cell with two candidates: takes the first open cell of each band and
    /// branches on the one with the fewest candidates.
    fn guess_cell(&mut self, state: &mut State, t: &Tables)
        requires
            t.ok(),
            old(self).live(),
            old(state).rested(),
            !old(state).all_fixed(),
            !has_pair(old(state).poss@),
        ensures
            counted(
                *old(self),
                *final(self),
                board_solutions(old(state).poss@).len() as int,
                board_solutions(old(state).poss@),
            ),
            final(self).course() == guessed(
                old(state).poss@,
                old(self).course(),
                old(self).limit as int,
                old(self).budget as int,
            ),
        decreases total32(old(state).poss@), 1nat,
    {
        let ghost v = state.poss@;
        proof {
            state.lemma_rested();
        }
        let mut best: usize = 3;
        let mut best_n: u32 = 10;
        let mut best_pos: usize = 0;
        let mut band: usize = 0;
        while band < 3
            invariant
                band <= 3,
                state.ok(),
                best <= 3,
                best < 3 ==> best_pos < 27 && bit32(state.unsolved[best as int], best_pos as int),
                best == 3 ==> best_n == 10 && forall|b: int|
                    0 <= b < band ==> #[trigger] state.unsolved[b] == 0,
                v == state.poss@,
                best == 3 ==> forall|b: int, p: int| b < band ==> !#[trigger] first_open(v, b, p),
                forall|b: int, p: int|
                    0 <= b < 3 ==> (#[trigger] bit32(state.unsolved[b], p) <==> 0 <= p < 27
                        && undecided(v, b, p)),
                best < 3 ==> {
                    &&& best < band
                    &&& first_open(v, best as int, best_pos as int)
                    &&& best_n == digits_at(v, best as int, best_pos as int, 9)
                    &&& forall|b: int, p: int|
                        b < band && #[trigger] first_open(v, b, p) ==> best_n <= digits_at(
                            v,
                            b,
                            p,
                            9,
                        ) && (b < best ==> best_n < digits_at(v, b, p, 9))
                },
            decreases 3 - band,
        {
            let unsolved = state.unsolved[band];
            if unsolved != 0 {
                let pos = lowest32(unsolved);
                proof {
                    lemma_small32(unsolved, pos as int);
                    assert(first_open(v, band as int, pos as int)) by {
                        assert(bit32(state.unsolved[band as int], pos as int));
                        assert forall|q: int| 0 <= q < pos implies !#[trigger] undecided(
                            v,
                            band as int,
                            q,
                        ) by {
                            assert(!bit32(state.unsolved[band as int], q));
                        }
                    }
                    assert forall|p: int| #[trigger] first_open(v, band as int, p) implies p
                        == pos by {
                        if p < pos {
                            assert(!undecided(v, band as int, p));
                        }
                        if pos < p {
                            assert(!undecided(v, band as int, pos as int));
                        }
                    }
                }
                let n = state.candidates_at(band, pos);
                if n < best_n {
                    best_n = n;
                    best = band;
                    best_pos = pos;
                }
            } else {
                proof {
                    assert forall|p: int| !#[trigger] first_open(v, band as int, p) by {
                        if first_open(v, band as int, p) {
                            assert(bit32(state.unsolved[band as int], p));
                            assert(!bit32(0u32, p));
                        }
                    }
                }
            }
            band = band + 1;
        }
        if best == 3 {
            proof {
                let c = choose|c: int| 0 <= c < 81 && #[trigger] open_cell(state.unsolved@, c);
                assert(state.unsolved[c / 27] == 0);
                assert(!bit32(0u32, c % 27));
            }
            return;
        }
        proof {
            assert(guess_at(v, best as int, best_pos as int));
            lemma_guessed(
                v,
                best as int,
                best_pos as int,
                self.course(),
                self.limit as int,
                self.budget as int,
            );
        }
        self.branch_cell(state, best, best_pos, t);
    }

    /// Branches on every candidate of an open cell.
    fn branch_cell(&mut self, state: &mut State, band: usize, pos: usize, t: &Tables)
        requires
            t.ok(),
            old(self).live(),
            old(state).rested(),
            band < 3,
            pos < 27,
            bit32(old(state).unsolved[band as int], pos as int),
        ensures
            counted(
                *old(self),
                *final(self),
                board_solutions(old(state).poss@).len() as int,
                board_solutions(old(state).poss@),
            ),
            final(self).course() == branched(
                old(state).poss@,
                old(state).poss@,
                band as int,
                pos as int,
                0,
                old(self).course(),
                old(self).limit as int,
                old(self).budget as int,
            ),
        decreases total32(old(state).poss@), 0nat,
    {
        let ghost st0 = *state;
        let ghost a0 = state.poss@;
        let ghost me0 = *self;
        let ghost s0 = board_solutions(a0);
        let ghost b = band as int;
        let ghost p = pos as int;
        let bit = 1u32 << (pos as u32);
        let mut d: usize = 0;
        while d < 9
            invariant
                d <= 9,
                t.ok(),
                self.live(),
                st0 == *old(state),
                me0 == *old(self),
                st0.rested(),
                a0 == st0.poss@,
                s0 == board_solutions(a0),
                b == band,
                p == pos,
                band < 3,
                pos < 27,
                bit == 1u32 << (pos as u32),
                bit32(st0.unsolved[b], p),
                state.ok(),
                state.tracked_by(state.dirty),
                forall|e: int|
                    0 <= e < 9 ==> #[trigger] state.poss@[9 * b + e] == (if e < d {
                        a0[9 * b + e] & !bit
                    } else {
                        a0[9 * b + e]
                    }),
                within(state.poss@, a0),
                board_solutions(state.poss@).subset_of(s0),
                board_solutions(state.poss@).len() <= s0.len(),
                counted(me0, *self, s0.len() - board_solutions(state.poss@).len(), s0),
                branched(
                    a0,
                    a0,
                    b,
                    p,
                    0,
                    me0.course(),
                    me0.limit as int,
                    me0.budget as int,
                ) == branched(
                    a0,
                    state.poss@,
                    b,
                    p,
                    d as int,
                    self.course(),
                    me0.limit as int,
                    me0.budget as int,
                ),
            decreases 9 - d,
        {
            let ghost a1 = state.poss@;
            let ghost me1 = *self;
            let ghost s1 = board_solutions(a1);
            proof {
                assert(a1[9 * b + d] == a0[9 * b + d]);
            }
            if state.poss[band * 9 + d] & bit != 0 {
                proof {
                    let m = state.poss[band * 9 + d];
                    let k = lemma_nonzero32(m & bit);
                    assert(k == p);
                    assert(bit32(m, p));
                }
                let mut copy = *state;
                copy.place(band, d, pos, t);
                let ghost w = choose|w: u32| #[trigger]
                    placed_word(a1[9 * b + d], p, w) && copy.poss@ == a1.update(9 * b + d, w);
                let ghost r = a1[9 * b + d] & !bit;
                proof {
                    assert(!bit32(0u32, 9 * b + d));
                    assert(good(a0, st0.unsolved@, 9 * b + d));
                    lemma_place_shrinks(a0, st0.unsolved@, b, d as int, p, w);
                    lemma_branch(a1, b, d as int, p, w, r);
                    crate::boards::lemma_within_trans(copy.poss@, a1, a0);
                    lemma_within_total(copy.poss@, a0);
                    assert(copy.poss@[9 * b + d] != a0[9 * b + d]);
                    lemma_placed_at(a1, b, d as int, p, w);
                }
                let ghost s2 = board_solutions(copy.poss@);
                self.solve_from(&mut copy, t);
                proof {
                    assert(s2.subset_of(s0));
                    lemma_counted_sub(me1, *self, s2.len() as int, s2, s0);
                    lemma_counted_chain(
                        me0,
                        me1,
                        *self,
                        s0.len() - s1.len(),
                        s2.len() as int,
                        s0,
                    );
                }
                if self.count >= self.limit || self.aborted {
                    proof {
                        lemma_counted_stop(
                            me0,
                            *self,
                            s0.len() - s1.len() + s2.len(),
                            s0.len() as int,
                            s0,
                        );
                    }
                    return;
                }
                state.remove(band, d, bit);
                proof {
                    crate::boards::lemma_within_trans(state.poss@, a1, a0);
                }
            } else {
                proof {
                    let m = a0[9 * b + d];
                    assert forall|q: int| bit32(m & !bit, q) == bit32(m, q) by {
                        if q == p && bit32(m, p) {
                            assert(bit32(m & bit, p));
                        }
                    }
                    crate::bits::lemma_ext32(m & !bit, m);
                }
            }
            d = d + 1;
        }
        proof {
            assert forall|e: int| 0 <= e < 9 implies !bit32(#[trigger] state.poss@[9 * b + e], p) by {
                assert(state.poss@[9 * b + e] == a0[9 * b + e] & !bit);
            }
            lemma_bare_cell(state.poss@, b, p);
        }
    }
}

impl State {
    /// How many digits the cell can still hold.
    fn candidates_at(&self, band: usize, pos: usize) -> (n: u32)
        requires
            band < 3,
            pos < 27,
        ensures
            n == digits_at(self.poss@, band as int, pos as int, 9),
            n <= 9,
    {
        let bit = 1u32 << (pos as u32);
        let mut n: u32 = 0;
        let mut d: usize = 0;
        while d < 9
            invariant
                d <= 9,
                band < 3,
                pos < 27,
                bit == 1u32 << (pos as u32),
                n == digits_at(self.poss@, band as int, pos as int, d as nat),
                n <= d,
            decreases 9 - d,
        {
            let m = self.poss[band * 9 + d];
            if m & bit != 0 {
                proof {
                    let k = lemma_nonzero32(m & bit);
                    assert(bit32(m, pos as int));
                }
                n = n + 1;
            } else {
                proof {
                    if bit32(m, pos as int) {
                        assert(bit32(m & bit, pos as int));
                    }
                }
            }
            d = d + 1;
        }
        n
    }
}

} // verus!
