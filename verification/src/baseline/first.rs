//! Which grid a search of the baseline engine finds first.

use vstd::prelude::*;
use crate::baseline::cells::{lemma_narrower_total, lemma_update_narrower, narrower, only, single};
use crate::baseline::settle::{all_single, crossed, every_mark, settled};
use crate::baseline::state::{solved_as, State, ALL};
use crate::bits::{
    bit16, group_bits16, lemma_count_lone, lemma_nonzero16, lemma_pop9, lemma_small9, pop16,
    total16,
};

verus! {

broadcast use group_bits16;

/// Cell `c` has the fewest candidates of those with several, and is the first
/// such cell.
pub open spec fn first_fewest(cand: Seq<u16>, c: int) -> bool {
    &&& 0 <= c < 81
    &&& !single(cand[c])
    &&& forall|x: int|
        0 <= x < 81 && !single(#[trigger] cand[x]) ==> pop16(cand[c]) <= pop16(cand[x]) && (x < c
            ==> pop16(cand[c]) < pop16(cand[x]))
}

/// The grid of cells with one candidate each.
pub open spec fn spelled(cand: Seq<u16>) -> Seq<u8> {
    Seq::new(81, |c: int| ((choose|d: int| #[trigger] only(cand[c], d)) + 1) as u8)
}

/// The first grid that a search finds within the candidates: the first cell
/// with the fewest of several candidates is branched on, its digits in
/// increasing order.
pub open spec fn first_leaf(cand: Seq<u16>, marks: Set<int>) -> Option<Seq<u8>>
    decreases total16(cand), 11nat,
{
    if all_single(cand) {
        Some(spelled(cand))
    } else {
        first_leaf_from(cand, marks, choose|c: int| first_fewest(cand, c), 0)
    }
}

/// The first grid found with a digit from `d` on in cell `c`.
pub open spec fn first_leaf_from(cand: Seq<u16>, marks: Set<int>, c: int, d: nat) -> Option<Seq<u8>>
    decreases total16(cand), (10 - d) as nat,
{
    if d >= 9 {
        None
    } else if !bit16(cand[c], d as int) {
        first_leaf_from(cand, marks, c, d + 1)
    } else {
        let start = cand.update(c, 1u16 << (d as u16));
        match settled(start, marks.union(crossed(cand, start))) {
            None => first_leaf_from(cand, marks, c, d + 1),
            Some(left) => if total16(left.0) < total16(cand) {
                let found = first_leaf(left.0, left.1);
                if found is Some {
                    found
                } else {
                    first_leaf_from(cand, marks, c, d + 1)
                }
            } else {
                None
            },
        }
    }
}

/// The candidates of a puzzle: its clues, and all digits where there is none.
pub open spec fn given(clues: Seq<u8>) -> Seq<u16> {
    Seq::new(
        81,
        |c: int|
            if clues[c] == 0 {
                ALL
            } else {
                1u16 << ((clues[c] - 1) as u16)
            },
    )
}

/// The first solution that the engine finds.
pub open spec fn first_found(clues: Seq<u8>) -> Option<Seq<u8>> {
    if exists|c: int| 0 <= c < 81 && #[trigger] clues[c] > 9 {
        None
    } else {
        match settled(given(clues), every_mark()) {
            None => None,
            Some(left) => first_leaf(left.0, left.1),
        }
    }
}

/// Digits that a cell lacks are passed over.
pub proof fn lemma_leaf_over(cand: Seq<u16>, marks: Set<int>, c: int, a: nat, b: nat)
    requires
        a <= b <= 9,
        forall|d: int| a <= d < b ==> !#[trigger] bit16(cand[c], d),
    ensures
        first_leaf_from(cand, marks, c, a) == first_leaf_from(cand, marks, c, b),
    decreases b - a,
{
    if a < b {
        assert(!bit16(cand[c], a as int));
        lemma_leaf_over(cand, marks, c, a + 1, b);
    }
}

/// The cell to branch on is unique.
pub proof fn lemma_fewest(cand: Seq<u16>, c: int)
    requires
        first_fewest(cand, c),
    ensures
        c == choose|c: int| first_fewest(cand, c),
{
    let e = choose|c: int| first_fewest(cand, c);
    assert(first_fewest(cand, e));
    assert(!single(cand[c]) && !single(cand[e]));
}

/// A grid that fits cells with one candidate each is the one they spell.
pub proof fn lemma_spelled(cand: Seq<u16>, g: Seq<u8>)
    requires
        g.len() == 81,
        forall|c: int| 0 <= c < 81 ==> 1 <= #[trigger] g[c] <= 9 && only(cand[c], g[c] - 1),
    ensures
        all_single(cand),
        spelled(cand) == g,
{
    assert forall|c: int| 0 <= c < 81 implies single(#[trigger] cand[c]) && spelled(cand)[c]
        == g[c] by {
        assert(1 <= g[c] <= 9 && only(cand[c], g[c] - 1));
        let d = choose|d: int| #[trigger] only(cand[c], d);
        assert(bit16(cand[c], d) && bit16(cand[c], g[c] - 1));
        assert(d == g[c] - 1);
    }
    assert(spelled(cand) =~= g);
}

/// Entering a candidate of a cell with several leaves fewer.
pub proof fn lemma_guess_less(cand: Seq<u16>, c: int, d: int, next: Seq<u16>)
    requires
        cand.len() == 81,
        0 <= c < 81,
        0 <= d < 9,
        bit16(cand[c], d),
        !single(cand[c]),
        narrower(next, cand.update(c, 1u16 << (d as u16))),
    ensures
        total16(next) < total16(cand),
{
    let start = cand.update(c, 1u16 << (d as u16));
    assert(only(1u16 << (d as u16), d));
    lemma_update_narrower(cand, c, 1u16 << (d as u16));
    lemma_narrower_total(start, cand);
    lemma_narrower_total(next, start);
    assert(start[c] != cand[c]);
}

/// At rest the cell to branch on is the first with the fewest candidates.
pub proof fn lemma_first_fewest(st: State, c: int)
    requires
        st.ok(),
        st.singles_done(),
        0 <= c < 81,
        st.open(c),
        forall|x: int| x < c && #[trigger] st.open(x) ==> pop16(st.cand[c]) < pop16(st.cand[x]),
        pop16(st.cand[c]) == 2 || forall|x: int| #[trigger]
            st.open(x) ==> pop16(st.cand[c]) <= pop16(st.cand[x]),
    ensures
        first_fewest(st.cand@, c),
{
    assert forall|x: int| 0 <= x < 81 && !single(#[trigger] st.cand@[x]) implies pop16(st.cand@[c])
        <= pop16(st.cand@[x]) && (x < c ==> pop16(st.cand@[c]) < pop16(st.cand@[x])) by {
        if !st.open(x) {
            let d = choose|d: int| #[trigger] solved_as(st, x, d);
            assert(only(st.cand[x], d));
        }
        assert(st.open(x));
        lemma_several(st.cand@[x]);
    }
}

/// A cell with a candidate, but not one alone, has two or more.
proof fn lemma_several(m: u16)
    requires
        m != 0,
        m <= 0x1FF,
        !single(m),
    ensures
        pop16(m) >= 2,
{
    let f = |i: int| bit16(m, i);
    lemma_pop9(m);
    let a = lemma_nonzero16(m);
    lemma_small9(m, a);
    if pop16(m) < 2 {
        assert(only(m, a)) by {
            assert forall|e: int| #[trigger] bit16(m, e) <==> e == a by {
                if bit16(m, e) && e != a {
                    lemma_small9(m, e);
                    lemma_count_lone(f, 9, a, e);
                }
            }
        }
    }
}

} // verus!
