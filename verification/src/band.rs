//! Band engine: one 27-bit word of candidates per digit and band of rows.
//!
//! A word shrinks to a 9-bit pattern of occupied minirows, three lines by
//! three boxes. A digit takes one minirow per line and per box, so a table
//! gives the exact reduction of a pattern: the union of the permutations it
//! holds. Scans over the words, over the cells and, when those are at rest,
//! over the stacks of columns feed a queue of forced assignments.

use vstd::prelude::*;
use crate::band::fixpoint::build_complex;
use crate::band::search::{due_marked, load, model, records_true, search};
use crate::band::state::{BState, Queue};
use crate::band::tables::Tables;
use crate::bits::{
    bit16, bit32, group_bits16, lemma_ext16, lemma_low_masks16, lemma_low_masks32, lemma_nonzero16,
};
use crate::boards::{board_solutions, lemma_full_boards};
use crate::grid::{
    capped, clues_ok, is_grid, is_solution, lemma_none, solution_count, solutions,
};
use crate::minirow::{build_closed, build_forced, closed_at, fits, forced_at, in_perm};
use crate::rest::{first_found, full_boards, lemma_closed_part, lemma_no_part};

pub mod cardinality;
pub mod fixpoint;
pub mod infer;
pub mod scan;
pub mod search;
pub mod state;
pub mod tables;

verus! {

broadcast use group_bits16;

/// Compares the support table with the closure by elimination, entry by
/// entry, and the forced minirows with the supported ones: they always agree.
pub fn check_support_tables() -> (agree: bool)
    ensures
        agree,
{
    let support = build_closed();
    let forced = build_forced();
    let complex = build_complex();
    let mut v: usize = 0;
    while v < 512
        invariant
            v <= 512,
            forall|s: int, i: int|
                0 <= s < 512 ==> (#[trigger] bit16(support[s], i) <==> closed_at(s as u16, i)),
            forall|s: int, i: int|
                0 <= s < 512 ==> (#[trigger] bit16(complex[s], i) <==> closed_at(s as u16, i)),
            forall|s: int, i: int|
                0 <= s < 512 ==> (#[trigger] bit16(forced[s], i) <==> forced_at(s as u16, i)),
        decreases 512 - v,
    {
        proof {
            lemma_ext16(support[v as int], complex[v as int]);
            assert forall|i: int| #[trigger] forced_at(v as u16, i) implies closed_at(
                v as u16,
                i,
            ) by {
                let k = choose|k: int| #[trigger] fits(v as u16, k);
                assert(in_perm(k, i));
            }
            let out = forced[v as int] & !support[v as int];
            if out != 0 {
                let i = lemma_nonzero16(out);
                assert(bit16(forced[v as int], i));
            }
        }
        if support[v] != complex[v] {
            return false;
        }
        if forced[v] & !support[v] != 0 {
            return false;
        }
        v = v + 1;
    }
    true
}

/// The first solution that the engine finds: its propagation leaves the largest
/// part at rest, without counting minirows.
pub open spec fn band_first(clues: Seq<u8>) -> Option<Seq<u8>> {
    first_found(clues, false)
}

/// Counts solutions up to `limit`, and gives the first one.
fn run(clues: &[u8; 81], limit: u64) -> (r: (u64, [u8; 81]))
    requires
        clues_ok(clues@),
    ensures
        r.0 == capped(solution_count(clues@) as int, limit as int),
        r.0 > 0 ==> is_solution(r.1@, clues@),
        r.0 > 0 ==> band_first(clues@) == Some(r.1@),
        limit > 0 && r.0 == 0 ==> band_first(clues@) is None,
{
    let mut out: [u8; 81] = [0;81];
    if limit == 0 {
        return (0, out);
    }
    let t = Tables::new();
    let mut st = BState::new();
    let mut q = Queue::new();
    load(&mut q, clues);
    let ghost (s0, q0) = (st, q);
    proof {
        assert forall|g: Seq<u8>| #[trigger] model(s0, q0, g) <==> is_solution(g, clues@) by {
            if is_grid(g) {
                lemma_full_boards(s0.bands@, g);
                assert(q0.agrees(g) <==> is_solution(g, clues@));
            }
        }
    }
    proof {
        lemma_low_masks16();
        lemma_low_masks32();
        assert(due_marked(s0, q0)) by {
            assert forall|b: int, d: int| 0 <= b < 3 && 0 <= d < 9 implies #[trigger] bit32(
                s0.dirty_bd,
                3 * d + b,
            ) by {}
        }
    }
    proof {
        assert(s0.bands@ =~= full_boards());
        assert(records_true(s0)) by {
            assert forall|d: int, r: int| 0 <= d < 9 implies !#[trigger] bit16(
                s0.solved_rows[d],
                r,
            ) && !bit16(s0.solved_cols[d], r) by {
                assert(!bit16(0u16, r));
            }
            assert forall|d: int, r: int| 0 <= d < 9 implies !#[trigger] bit16(
                s0.solved_cols[d],
                r,
            ) by {
                assert(!bit16(0u16, r));
            }
        }
    }
    if !st.propagate(&mut q, &t) {
        proof {
            lemma_no_part(s0.bands@, q0.asks(), false);
            assert forall|g: Seq<u8>| !#[trigger] solutions(clues@).contains(g) by {
                assert(!model(s0, q0, g));
            }
            lemma_none(solutions(clues@));
        }
        return (0, out);
    }
    proof {
        lemma_closed_part(s0.bands@, q0.asks(), false, st.bands@);
        assert(board_solutions(st.bands@) =~= solutions(clues@)) by {
            assert forall|g: Seq<u8>| board_solutions(st.bands@).contains(g) == solutions(
                clues@,
            ).contains(g) by {
                assert(model(s0, q0, g) <==> model(st, q, g));
            }
        }
    }
    let mut count: u64 = 0;
    search(&st, &mut q, &t, limit, &mut count, &mut out);
    (count, out)
}

/// Solves to the first solution.
pub fn solve_grid(clues: &[u8; 81]) -> (r: Option<[u8; 81]>)
    requires
        clues_ok(clues@),
    ensures
        r is Some <==> solution_count(clues@) > 0,
        r matches Some(g) ==> is_solution(g@, clues@) && band_first(clues@) == Some(g@),
        r is None ==> band_first(clues@) is None,
{
    let (n, out) = run(clues, 1);
    if n > 0 {
        Some(out)
    } else {
        None
    }
}

/// Counts solutions up to `limit`.
pub fn count_solutions(clues: &[u8; 81], limit: u64) -> (n: u64)
    requires
        clues_ok(clues@),
    ensures
        n == capped(solution_count(clues@) as int, limit as int),
{
    let (n, _) = run(clues, limit);
    n
}

} // verus!
