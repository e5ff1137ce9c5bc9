//! Lane engine: each digit's board in both orientations at once.
//!
//! A digit has one register of eight lanes: lanes 0..3 hold its candidates in
//! the three bands of rows, lanes 3..6 the same candidates in the three
//! stacks of columns, and two lanes are padding. An assignment clears a fixed
//! set of peers in both orientations with one masking of the register; a
//! reduction found in one lane is mirrored into the other orientation. On top
//! of the closure of single lanes the engine uses that each minirow of a lane
//! holds exactly three digits.

use vstd::prelude::*;
use crate::bits::{bit32, group_bits32};
use crate::boards::{board_solutions, lemma_full_boards};
use crate::grid::{
    capped, clues_ok, is_grid, is_solution, lemma_none, solution_count, solutions,
};
use crate::rest::{first_found, full_boards, lemma_closed_part, lemma_no_part};
use crate::simd::search::{lemma_first_due, load, model, records_true, search};
use crate::simd::state::{Queue, State};
use crate::simd::tables::Tables;

pub mod infer;
pub mod lanes;
pub mod scan;
pub mod search;
pub mod state;
pub mod tables;

verus! {

broadcast use group_bits32;

/// The first solution that the engine finds: its propagation leaves the largest
/// part at rest, minirows counted.
pub open spec fn simd_first(clues: Seq<u8>) -> Option<Seq<u8>> {
    first_found(clues, true)
}

/// Counts solutions up to `limit`, and gives the first one.
fn run(clues: &[u8; 81], limit: u64) -> (r: (u64, [u8; 81]))
    requires
        clues_ok(clues@),
    ensures
        r.0 == capped(solution_count(clues@) as int, limit as int),
        r.0 > 0 ==> is_solution(r.1@, clues@),
        r.0 > 0 ==> simd_first(clues@) == Some(r.1@),
        limit > 0 && r.0 == 0 ==> simd_first(clues@) is None,
{
    let mut out: [u8; 81] = [0;81];
    if limit == 0 {
        return (0, out);
    }
    let t = Tables::new();
    let mut st = State::new();
    let mut q = Queue::new();
    load(&mut q, clues);
    let ghost (s0, q0) = (st, q);
    proof {
        assert forall|g: Seq<u8>| #[trigger] model(s0, q0, g) <==> is_solution(g, clues@) by {
            if is_grid(g) {
                lemma_full_boards(s0.boards(), g);
                assert(q0.agrees(g) <==> is_solution(g, clues@));
            }
        }
    }
    proof {
        lemma_first_due(s0, q0);
        assert(s0.boards() =~= full_boards());
        assert(records_true(s0)) by {
            assert forall|d: int, r: int| 0 <= d < 9 implies !#[trigger] bit32(
                s0.placed[d],
                r,
            ) by {
                assert(!bit32(0u32, r));
            }
        }
    }
    if !st.propagate(&mut q, &t) {
        proof {
            assert forall|g: Seq<u8>| !#[trigger] solutions(clues@).contains(g) by {
                assert(!model(s0, q0, g));
            }
            lemma_none(solutions(clues@));
            lemma_no_part(s0.boards(), q0.asks(), true);
        }
        return (0, out);
    }
    proof {
        lemma_closed_part(s0.boards(), q0.asks(), true, st.boards());
        assert(board_solutions(st.boards()) =~= solutions(clues@)) by {
            assert forall|g: Seq<u8>| board_solutions(st.boards()).contains(g) == solutions(
                clues@,
            ).contains(g) by {
                assert(model(s0, q0, g) <==> model(st, q, g));
            }
        }
    }
    let mut count: u64 = 0;
    search(&st, &mut q, &t, limit, &mut count, &mut out);
    (count, out)
}

/// Solves to the first solution.
pub fn solve_grid(clues: &[u8; 81]) -> (r: Option<[u8; 81]>)
    requires
        clues_ok(clues@),
    ensures
        r is Some <==> solution_count(clues@) > 0,
        r matches Some(g) ==> is_solution(g@, clues@) && simd_first(clues@) == Some(g@),
        r is None ==> simd_first(clues@) is None,
{
    let (n, out) = run(clues, 1);
    if n > 0 {
        Some(out)
    } else {
        None
    }
}

/// Counts solutions up to `limit`.
pub fn count_solutions(clues: &[u8; 81], limit: u64) -> (n: u64)
    requires
        clues_ok(clues@),
    ensures
        n == capped(solution_count(clues@) as int, limit as int),
{
    let (n, _) = run(clues, limit);
    n
}

} // verus!
