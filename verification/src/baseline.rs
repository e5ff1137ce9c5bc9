//! Baseline engine: candidate masks per cell, scans per unit. Plain enough to
//! be the yardstick of the others.

use vstd::prelude::*;
use crate::baseline::cells::{lemma_dead_cells, lemma_multi_narrower, lemma_same_cells};
use crate::baseline::first::first_found;
use crate::baseline::search::{load, search};
use crate::baseline::state::{Queue, State};
use crate::baseline::tables::Tables;
use crate::grid::{capped, is_solution, lemma_none, solution_count, solutions};

pub mod cells;
pub mod first;
pub mod pass;
pub mod propagate;
pub mod rest;
pub mod search;
pub mod settle;
pub mod state;
pub mod tables;

verus! {

/// Counts solutions up to `limit`, and gives the first one.
fn run(clues: &[u8; 81], limit: u64) -> (r: (u64, [u8; 81]))
    requires
        forall|c: int| 0 <= c < 81 ==> #[trigger] clues[c] <= 16,
    ensures
        r.0 == capped(solution_count(clues@) as int, limit as int),
        r.0 > 0 ==> is_solution(r.1@, clues@),
        r.0 > 0 ==> first_found(clues@) == Some(r.1@),
        limit > 0 && r.0 == 0 ==> first_found(clues@) is None,
{
    let mut out: [u8; 81] = [0;81];
    if limit == 0 {
        return (0, out);
    }
    let t = Tables::new();
    let mut st = State::new();
    let mut q = Queue::new();
    if !load(&mut st, &mut q, clues) {
        proof {
            lemma_none(solutions(clues@));
        }
        return (0, out);
    }
    let ghost s1 = st;
    proof {
        lemma_multi_narrower(st.cand@, st.cand@);
    }
    if !st.propagate_all(&mut q, &t) {
        proof {
            lemma_dead_cells(s1.cand@);
        }
        return (0, out);
    }
    proof {
        lemma_same_cells(s1.cand@, st.cand@);
    }
    let mut count: u64 = 0;
    search(&st, &mut q, &t, limit, &mut count, &mut out);
    (count, out)
}

/// Solves to the first solution. A clue above 9 is no digit and has no
/// solution.
pub fn solve_grid(clues: &[u8; 81]) -> (r: Option<[u8; 81]>)
    requires
        forall|c: int| 0 <= c < 81 ==> #[trigger] clues[c] <= 16,
    ensures
        r is Some <==> solution_count(clues@) > 0,
        r matches Some(g) ==> is_solution(g@, clues@) && first_found(clues@) == Some(g@),
        r is None ==> first_found(clues@) is None,
{
    let (n, out) = run(clues, 1);
    if n > 0 {
        Some(out)
    } else {
        None
    }
}

/// Counts solutions up to `limit`.
pub fn count_solutions(clues: &[u8; 81], limit: u64) -> (n: u64)
    requires
        forall|c: int| 0 <= c < 81 ==> #[trigger] clues[c] <= 16,
    ensures
        n == capped(solution_count(clues@) as int, limit as int),
{
    let (n, _) = run(clues, limit);
    n
}

} // verus!
