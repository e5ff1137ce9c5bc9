//! Depth-first search of the baseline engine.

use vstd::prelude::*;
use crate::baseline::cells::{
    admits, cell_solutions, cells_ok, lemma_dead_cells, lemma_only_digit, lemma_multi_narrower,
    lemma_narrower_admits, lemma_same_cells, lemma_update_admits, lemma_update_narrower, only,
    single, sub_cell,
};
use crate::baseline::first::{
    first_leaf, first_leaf_from, given, lemma_fewest, lemma_first_fewest, lemma_guess_less,
    lemma_leaf_over, lemma_spelled,
};
use crate::baseline::propagate::{
    lemma_all_single, lemma_marks_grown, lemma_rested_queue, marks,
};
use crate::baseline::settle::every_mark;
use crate::baseline::state::{
    clean, holds, lemma_same_open, marked_on, solved, unit_clean, Queue, State, ALL,
};
use crate::baseline::tables::{in_unit, Tables};
use crate::bits::{
    bit16, bit32, bit64, group_bits128, group_bits16, group_bits32, group_bits64, lemma_low_masks16,
    lemma_nonzero16, lemma_small9, lowest16, without_lowest16,
};
use crate::grid::{
    capped, grids, is_grid, is_solution, lemma_grid_facts, lemma_none, lemma_split, solutions,
};

verus! {

broadcast use {group_bits16, group_bits32, group_bits64, group_bits128};

/// The grids of `s` whose digit at cell `c` is in `mask`.
pub open spec fn with_digits(s: Set<Seq<u8>>, c: int, mask: u16) -> Set<Seq<u8>> {
    Set::new(|g: Seq<u8>| s.contains(g) && bit16(mask, g[c] - 1))
}

/// Splitting off one digit of a mask splits the grids.
pub proof fn lemma_split_digit(s: Set<Seq<u8>>, c: int, mask: u16, d: int, rest: u16)
    requires
        s.subset_of(grids()),
        bit16(mask, d),
        forall|e: int| #[trigger] bit16(rest, e) <==> bit16(mask, e) && e != d,
    ensures
        with_digits(s, c, mask).len() == with_digits(s, c, 1u16 << (d as u16)).len() + with_digits(
            s,
            c,
            rest,
        ).len(),
{
    let one = 1u16 << (d as u16);
    let (a, x, y) = (with_digits(s, c, mask), with_digits(s, c, one), with_digits(s, c, rest));
    assert forall|g: Seq<u8>| #[trigger] a.contains(g) <==> x.contains(g) || y.contains(g) by {
        assert(bit16(one, g[c] - 1) <==> g[c] - 1 == d);
    }
    assert forall|g: Seq<u8>| !(#[trigger] x.contains(g) && y.contains(g)) by {
        assert(bit16(one, g[c] - 1) <==> g[c] - 1 == d);
    }
    assert(a.subset_of(grids())) by {
        assert forall|g: Seq<u8>| a.contains(g) implies grids().contains(g) by {
            assert(s.contains(g));
        }
    }
    lemma_split(a, x, y);
}

/// Restricting one cell to a digit leaves the grids with that digit.
pub proof fn lemma_restricted(cand: Seq<u16>, c: int, d: int)
    requires
        cells_ok(cand),
        0 <= c < 81,
        bit16(cand[c], d),
    ensures
        cell_solutions(cand.update(c, 1u16 << (d as u16))) == with_digits(
            cell_solutions(cand),
            c,
            1u16 << (d as u16),
        ),
{
    let one = 1u16 << (d as u16);
    let b = cand.update(c, one);
    assert(sub_cell(one, cand[c]));
    lemma_update_narrower(cand, c, one);
    assert(only(one, d));
    assert forall|g: Seq<u8>| cell_solutions(b).contains(g) == with_digits(
        cell_solutions(cand),
        c,
        one,
    ).contains(g) by {
        if is_grid(g) && admits(b, g) {
            lemma_narrower_admits(b, cand, g);
            lemma_only_digit(b, g, c, d);
        }
        if is_grid(g) && admits(cand, g) && bit16(one, g[c] - 1) {
            lemma_update_admits(cand, c, one, g);
        }
    }
    assert(cell_solutions(b) =~= with_digits(cell_solutions(cand), c, one));
}

impl State {
    /// Guesses a digit for an unsolved cell.
    pub fn guess(&self, c: usize, d: usize, q: &mut Queue, t: &Tables) -> (s2: State)
        requires
            t.ok(),
            self.ok(),
            self.singles_done(),
            old(q).len == 0,
            c < 81,
            d < 9,
            self.open(c as int),
            bit16(self.cand[c as int], d as int),
        ensures
            s2.ok(),
            s2.queued(*final(q)),
            clean(s2, s2.dirty),
            s2.pending(*final(q)),
            final(q).len == 1,
            s2.n_unsolved == self.n_unsolved,
            s2.cand@ == self.cand@.update(c as int, 1u16 << (d as u16)),
            marked_on(*self, s2),
            cell_solutions(s2.cand@) == with_digits(
                cell_solutions(self.cand@),
                c as int,
                1u16 << (d as u16),
            ),
    {
        let mut s2 = *self;
        proof {
            lemma_rested_queue(s2, *q);
            assert(s2.dirty | 0 == s2.dirty) by {
                crate::bits::lemma_ext32(s2.dirty | 0, s2.dirty);
            }
            assert(clean(s2, s2.dirty | 0));
            lemma_restricted(self.cand@, c as int, d as int);
        }
        s2.place(c, d, q, t);
        proof {
            assert(clean(s2, s2.dirty | 0));
            assert(s2.dirty | 0 == s2.dirty) by {
                crate::bits::lemma_ext32(s2.dirty | 0, s2.dirty);
            }
        }
        s2
    }
}

/// Counts the grids of a state that is at rest, up to `limit`, and writes out
/// the first.
pub fn search(
    st: &State,
    q: &mut Queue,
    t: &Tables,
    limit: u64,
    count: &mut u64,
    out: &mut [u8; 81],
)
    requires
        t.ok(),
        st.ok(),
        st.singles_done(),
        old(q).len == 0,
        *old(count) < limit,
    ensures
        final(q).len == 0,
        *final(count) == capped(*old(count) + cell_solutions(st.cand@).len(), limit as int),
        *old(count) == 0 && *final(count) > 0 ==> cell_solutions(st.cand@).contains(final(out)@),
        *old(count) > 0 ==> final(out)@ == old(out)@,
        *old(count) == 0 && *final(count) > 0 ==> first_leaf(st.cand@, marks(*st)) == Some(
            final(out)@,
        ),
        *old(count) == 0 && *final(count) == 0 ==> first_leaf(st.cand@, marks(*st)) is None,
    decreases st.n_unsolved,
{
    let ghost count0 = *count;
    let ghost out0 = out@;
    if st.n_unsolved == 0 {
        let ghost g = st.lemma_leaf();
        if *count == 0 {
            st.write_grid(out);
            proof {
                assert(is_grid(g));
                assert(out@ == g);
                lemma_grid_facts(g);
                assert forall|x: int| 0 <= x < 81 implies 1 <= #[trigger] g[x] <= 9 && only(
                    st.cand@[x],
                    g[x] - 1,
                ) by {}
                lemma_spelled(st.cand@, g);
            }
        }
        *count = *count + 1;
        return;
    }
    let c = st.best_cell();
    let mut mask: u16 = st.cand[c];
    let ghost cc = c as int;
    let ghost s = cell_solutions(st.cand@);
    proof {
        assert(with_digits(s, cc, mask) =~= s) by {
            assert forall|g: Seq<u8>| s.contains(g) implies bit16(mask, g[cc] - 1) by {
                reveal(admits);
                assert(bit16(st.cand@[cc], g[cc] - 1));
            }
        }
        assert(s.subset_of(grids()));
        assert(st.cand@[cc] <= 0x1FF);
        lemma_first_fewest(*st, cc);
        lemma_fewest(st.cand@, cc);
        lemma_all_single(*st);
        assert forall|i: int| #[trigger] bit16(mask, i) implies 0 <= i by {}
    }
    let ghost mut tried: nat = 0;
    while mask != 0
        invariant
            tried <= 9,
            forall|i: int| #[trigger] bit16(mask, i) <==> bit16(st.cand[cc], i) && tried <= i,
            count0 == 0 && *count > 0 ==> first_leaf(st.cand@, marks(*st)) == Some(out@),
            count0 == 0 && *count == 0 ==> first_leaf(st.cand@, marks(*st)) == first_leaf_from(
                st.cand@,
                marks(*st),
                cc,
                tried,
            ),
            t.ok(),
            st.ok(),
            st.singles_done(),
            q.len == 0,
            c < 81,
            cc == c,
            st.open(cc),
            st.cand@[cc] <= 0x1FF,
            s == cell_solutions(st.cand@),
            s.subset_of(grids()),
            sub_cell(mask, st.cand[cc]),
            count0 == *old(count),
            out0 == old(out)@,
            *count < limit,
            *count + with_digits(s, cc, mask).len() == count0 + s.len(),
            *count >= count0,
            count0 == 0 && *count > 0 ==> s.contains(out@),
            count0 > 0 ==> out@ == out0,
        decreases mask,
    {
        let ghost m0 = mask;
        let ghost n1 = *count;
        let d = lowest16(mask);
        mask = without_lowest16(mask);
        proof {
            let x = choose|x: int|
                #![trigger bit16(m0, x)]
                bit16(m0, x) && (forall|j: int| 0 <= j < x ==> !bit16(m0, j)) && (forall|i: int|
                    bit16(mask, i) <==> bit16(m0, i) && i != x);
            assert(x == d) by {
                if x < d {
                    assert(!bit16(m0, x));
                }
                if d < x {
                    assert(!bit16(m0, d as int));
                }
            }
            lemma_split_digit(s, cc, m0, d as int, mask);
            assert(bit16(st.cand[cc], d as int));
            lemma_small9(st.cand[cc], d as int);
            assert forall|i: int| tried <= i < d implies !#[trigger] bit16(st.cand@[cc], i) by {
                assert(!bit16(m0, i));
            }
            lemma_leaf_over(st.cand@, marks(*st), cc, tried, d as nat);
            tried = (d + 1) as nat;
        }
        let mut s2 = st.guess(c, d, q, t);
        let ghost s2_0 = s2;
        let ghost part = with_digits(s, cc, 1u16 << (d as u16));
        proof {
            lemma_multi_narrower(s2.cand@, s2.cand@);
            lemma_marks_grown(*st, s2);
        }
        if s2.propagate_all(q, t) {
            proof {
                lemma_same_cells(s2_0.cand@, s2.cand@);
                assert(cell_solutions(s2.cand@) == part);
                lemma_guess_less(st.cand@, cc, d as int, s2.cand@);
            }
            search(&s2, q, t, limit, count, out);
            proof {
                if count0 == 0 && n1 == 0 && *count > 0 {
                    assert(part.contains(out@));
                }
            }
            if *count >= limit {
                return;
            }
        } else {
            proof {
                lemma_dead_cells(s2_0.cand@);
            }
        }
    }
    proof {
        assert forall|g: Seq<u8>| !(#[trigger] with_digits(s, cc, 0).contains(g)) by {}
        lemma_none(with_digits(s, cc, 0));
        assert forall|i: int| tried <= i < 9 implies !#[trigger] bit16(st.cand@[cc], i) by {
            assert(!bit16(0u16, i));
        }
        lemma_leaf_over(st.cand@, marks(*st), cc, tried, 9);
    }
}

/// Enters the clues. Returns false if one of them is no digit.
pub fn load(st: &mut State, q: &mut Queue, clues: &[u8; 81]) -> (r: bool)
    requires
        forall|c: int| 0 <= c < 81 ==> #[trigger] clues[c] <= 16,
        old(st).ok(),
        old(q).len == 0,
        old(q).ok(),
        forall|c: int| 0 <= c < 81 ==> #[trigger] old(st).cand[c] == ALL,
        forall|c: int| #[trigger] old(st).open(c) <==> 0 <= c < 81,
        forall|u: int| #[trigger] bit32(old(st).dirty, u) <==> 0 <= u < 27,
        forall|k: int| #[trigger] bit64(old(st).int_dirty, k) <==> 0 <= k < 54,
    ensures
        !r ==> solutions(clues@) == Set::<Seq<u8>>::empty(),
        !r <==> exists|c: int| 0 <= c < 81 && #[trigger] clues@[c] > 9,
        r ==> {
            &&& final(st).cand@ == given(clues@)
            &&& marks(*final(st)) == every_mark()
            &&& final(st).ok()
            &&& final(st).queued(*final(q))
            &&& clean(*final(st), final(st).dirty)
            &&& final(q).len <= 81
            &&& cell_solutions(final(st).cand@) == solutions(clues@)
        },
{
    let ghost s0 = *st;
    let mut c: usize = 0;
    proof {
        lemma_low_masks16();
        assert forall|x: int| 0 <= x < 81 implies !single(#[trigger] s0.cand[x]) by {
            if single(s0.cand[x]) {
                let d = choose|d: int| #[trigger] only(s0.cand[x], d);
                assert(bit16(ALL, 0) && bit16(ALL, 1));
            }
        }
    }
    while c < 81
        invariant
            c <= 81,
            forall|x: int| 0 <= x < 81 ==> #[trigger] clues[x] <= 16,
            s0.ok(),
            forall|x: int| #[trigger] s0.open(x) <==> 0 <= x < 81,
            forall|u: int| #[trigger] bit32(s0.dirty, u) <==> 0 <= u < 27,
            forall|k: int| #[trigger] bit64(s0.int_dirty, k) <==> 0 <= k < 54,
            st.unsolved == s0.unsolved,
            st.n_unsolved == s0.n_unsolved,
            st.dirty == s0.dirty,
            st.int_dirty == s0.int_dirty,
            st.unit_solved == s0.unit_solved,
            q.len <= c,
            forall|d: int| #[trigger] bit16(ALL, d) <==> 0 <= d < 9,
            forall|x: int| c <= x < 81 ==> #[trigger] st.cand[x] == ALL,
            forall|x: int|
                0 <= x < c && #[trigger] clues[x] == 0 ==> st.cand[x] == ALL,
            forall|x: int| 0 <= x < c ==> #[trigger] st.cand@[x] == given(clues@)[x],
            forall|x: int| 0 <= x < c ==> #[trigger] clues@[x] <= 9,
            forall|x: int|
                0 <= x < c && #[trigger] clues[x] != 0 ==> clues[x] <= 9 && only(
                    st.cand[x],
                    clues[x] - 1,
                ) && q.has(x),
            forall|i: int| 0 <= i < q.len ==> #[trigger] q.buf[i] < c && clues[q.buf[i] as int] != 0,
        decreases 81 - c,
    {
        let d = clues[c];
        let ghost cc = c as int;
        let ghost q0 = *q;
        let ghost st0 = *st;
        if d != 0 {
            let bit = 1u16 << ((d - 1) as u16);
            if st.cand[c] & bit == 0 {
                proof {
                    assert(d > 9) by {
                        if d <= 9 {
                            assert(bit16(ALL & bit, d - 1));
                            assert(!bit16(0u16, d - 1));
                        }
                    }
                    assert forall|g: Seq<u8>| !solutions(clues@).contains(g) by {
                        if is_solution(g, clues@) {
                            lemma_grid_facts(g);
                            assert(g[cc] == clues@[cc]);
                        }
                    }
                    assert(solutions(clues@) =~= Set::<Seq<u8>>::empty());
                }
                return false;
            }
            proof {
                let e = lemma_nonzero16(ALL & bit);
                assert(bit16(ALL, e) && bit16(bit, e));
                assert(e == d - 1);
                assert(only(bit, d - 1));
            }
            st.cand[c] = bit;
            q.push(c as u8);
            proof {
                assert forall|x: int| 0 <= x < c + 1 && #[trigger] clues[x] != 0 implies clues[x]
                    <= 9 && only(st.cand[x], clues[x] - 1) && q.has(x) by {
                    if x < c {
                        assert(q0.has(x));
                    }
                }
                assert forall|i: int| 0 <= i < q.len implies #[trigger] q.buf[i] < c + 1
                    && clues[q.buf[i] as int] != 0 by {
                    if i < q0.len {
                        assert(q.buf[i] == q0.buf[i]);
                    }
                }
            }
        }
        c = c + 1;
    }
    proof {
        lemma_loaded(s0, *st, *q, clues@);
        assert(st.cand@ =~= given(clues@));
        assert(marks(*st) =~= every_mark());
    }
    true
}

/// Cells with their clues, or with all digits where there is none, admit
/// exactly the solutions.
proof fn lemma_loaded(s0: State, s: State, q: Queue, clues: Seq<u8>)
    requires
        clues.len() == 81,
        s0.ok(),
        forall|x: int| #[trigger] s0.open(x) <==> 0 <= x < 81,
        forall|u: int| #[trigger] bit32(s0.dirty, u) <==> 0 <= u < 27,
        forall|k: int| #[trigger] bit64(s0.int_dirty, k) <==> 0 <= k < 54,
        s.unsolved == s0.unsolved,
        s.n_unsolved == s0.n_unsolved,
        s.dirty == s0.dirty,
        s.int_dirty == s0.int_dirty,
        s.unit_solved == s0.unit_solved,
        q.len <= 81,
        forall|d: int| #[trigger] bit16(ALL, d) <==> 0 <= d < 9,
        forall|x: int| 0 <= x < 81 && #[trigger] clues[x] == 0 ==> s.cand[x] == ALL,
        forall|x: int|
            0 <= x < 81 && #[trigger] clues[x] != 0 ==> clues[x] <= 9 && only(
                s.cand[x],
                clues[x] - 1,
            ) && q.has(x),
        forall|i: int| 0 <= i < q.len ==> #[trigger] q.buf[i] < 81 && clues[q.buf[i] as int] != 0,
    ensures
        s.ok(),
        s.queued(q),
        clean(s, s.dirty),
        cell_solutions(s.cand@) == solutions(clues),
{
    assert(cells_ok(s.cand@)) by {
        assert forall|x: int| 0 <= x < 81 implies #[trigger] s.cand@[x] != 0 && s.cand@[x] <= 0x1FF by {
            if clues[x] != 0 {
                let d = clues[x] - 1;
                assert(only(s.cand[x], d));
                assert(bit16(s.cand[x], d));
                assert(!bit16(0u16, d));
                assert(sub_cell(s.cand[x], ALL));
                crate::bits::lemma_subset16(s.cand[x], ALL);
            }
        }
    }
    lemma_same_open(s0, s);
    assert forall|x: int| s.open(x) == s0.open(x) by {}
    assert(s.shape());
    assert(s.ok()) by {
        assert forall|x: int| 0 <= x < 81 && !#[trigger] s.open(x) implies solved(s, x) by {
            assert(s0.open(x));
        }
        assert forall|u: int, d: int| 0 <= u < 27 implies !#[trigger] bit16(
            s.unit_solved[u],
            d,
        ) by {
            if bit16(s0.unit_solved[u], d) {
                assert(holds(s0, u, d));
                let c = choose|c: int|
                    0 <= c < 81 && #[trigger] in_unit(u, c) && !s0.open(c) && only(s0.cand[c], d);
                assert(s0.open(c));
            }
        }
    }
    assert(s.queued(q)) by {
        assert forall|i: int| 0 <= i < q.len implies #[trigger] q.buf[i] < 81 && single(
            s.cand[q.buf[i] as int],
        ) by {
            let x = q.buf[i] as int;
            assert(clues[x] != 0);
            assert(only(s.cand[x], clues[x] - 1));
        }
        assert forall|x: int| 0 <= x < 81 && x != -1 && #[trigger] s.open(x) && single(
            s.cand[x],
        ) implies q.has(x) by {
            if clues[x] == 0 {
                let d = choose|d: int| #[trigger] only(s.cand[x], d);
                assert(bit16(ALL, 0) && bit16(ALL, 1));
            }
        }
    }
    assert(clean(s, s.dirty)) by {
        assert forall|u: int| 0 <= u < 27 && !#[trigger] bit32(s.dirty, u) implies unit_clean(
            s,
            u,
        ) by {
            assert(bit32(s0.dirty, u));
        }
    }
    assert forall|g: Seq<u8>| cell_solutions(s.cand@).contains(g) == solutions(clues).contains(g) by {
        if is_grid(g) {
            lemma_grid_facts(g);
            if admits(s.cand@, g) {
                assert forall|c: int| 0 <= c < 81 && #[trigger] clues[c] != 0 implies g[c]
                    == clues[c] by {
                    lemma_only_digit(s.cand@, g, c, clues[c] - 1);
                }
            }
            if is_solution(g, clues) {
                assert(admits(s.cand@, g)) by {
                    reveal(admits);
                    assert forall|c: int| 0 <= c < 81 implies bit16(s.cand@[c], #[trigger] g[c] - 1) by {
                        if clues[c] != 0 {
                            assert(g[c] == clues[c]);
                            assert(only(s.cand[c], clues[c] - 1));
                        } else {
                            assert(s.cand[c] == ALL);
                        }
                    }
                }
            }
        }
    }
    assert(cell_solutions(s.cand@) =~= solutions(clues));
}

} // verus!
