//! Triad engine: boxes with triad margins and bands of configurations that
//! exchange eliminations, strong on hard puzzles. It is the default engine of
//! the library.
//!
//! State per box: a 4x4 matrix of 9-bit candidate sets. The 3x3 corner holds
//! the cells; the right column holds negative horizontal triads (the digit is
//! not in that row of the box), the bottom row negative vertical triads. In
//! every row and column of the matrix exactly one literal of a digit is true,
//! a cell keeps at least one candidate, and a negative triad at least six.
//!
//! State per band: for each digit the configurations that remain, that is the
//! ways to spread its three triads over the band's three boxes.

use vstd::prelude::*;
use crate::bits::group_bits16;
use crate::grid::{capped, clues_ok, is_grid, is_solution, lemma_none, solution_count, solutions};
use crate::triad::boxes::TState;
use crate::triad::init::{extract_solution, init_and_propagate};
use crate::triad::leaf::spells;
use crate::triad::order::lemma_node_grid;
use crate::triad::search::{spells_one, Solver};
use crate::triad::start::{run_to, triad_first};

pub mod bands;
pub mod boxes;
pub mod course;
pub mod init;
pub mod leaf;
pub mod messages;
pub mod model;
pub mod order;
pub mod search;
pub mod start;

verus! {

broadcast use group_bits16;

/// Counts solutions up to `limit`; if the limit is reached, the last solution
/// counted comes with the count.
pub fn run(clues: &[u8; 81], limit: u64) -> (r: (u64, Option<[u8; 81]>))
    requires
        clues_ok(clues@),
    ensures
        r.0 == capped(solution_count(clues@) as int, limit as int),
        r.1 is Some <==> limit > 0 && r.0 == limit,
        r.1 matches Some(g) ==> is_solution(g@, clues@),
        r.1 matches Some(g) ==> run_to(clues@, limit as int) == (r.0 as int, Some(g@)),
        limit > 0 && r.1 is None ==> run_to(clues@, limit as int) == (r.0 as int, None::<Seq<u8>>),
{
    if limit == 0 {
        return (0, None);
    }
    let mut state = TState::new();
    if !init_and_propagate(&mut state, clues) {
        proof {
            lemma_none(solutions(clues@));
        }
        return (0, None);
    }
    let mut solver = Solver { limit, num_solutions: 0, solution: state };
    let ghost me0 = solver;
    solver.count_solutions(&mut state);
    if solver.num_solutions < limit {
        return (solver.num_solutions, None);
    }
    let mut out: [u8; 81] = [0;81];
    proof {
        assert(spells_one(solver.solution, solutions(clues@)));
        let g = choose|g: Seq<u8>| #[trigger]
            solutions(clues@).contains(g) && spells(solver.solution, g);
        assert(is_grid(g) && spells(solver.solution, g));
    }
    extract_solution(&solver.solution, &mut out);
    proof {
        let g = choose|g: Seq<u8>| #[trigger]
            solutions(clues@).contains(g) && spells(solver.solution, g);
        assert(out@ == g);
        lemma_node_grid(solver.solution, g);
    }
    (solver.num_solutions, Some(out))
}

/// Solves to the first solution.
pub fn solve_grid(clues: &[u8; 81]) -> (r: Option<[u8; 81]>)
    requires
        clues_ok(clues@),
    ensures
        r is Some <==> solution_count(clues@) > 0,
        r matches Some(g) ==> is_solution(g@, clues@) && triad_first(clues@) == Some(g@),
        r is None ==> triad_first(clues@) is None,
{
    let (_, sol) = run(clues, 1);
    sol
}

/// Counts solutions up to `limit`.
pub fn count_solutions(clues: &[u8; 81], limit: u64) -> (n: u64)
    requires
        clues_ok(clues@),
    ensures
        n == capped(solution_count(clues@) as int, limit as int),
{
    let (n, _) = run(clues, limit);
    n
}

} // verus!
