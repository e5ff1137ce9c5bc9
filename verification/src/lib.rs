//! fastdoku: a complete sudoku solver.
//!
//! It solves any 9x9 puzzle, counts solutions up to a limit, so that a limit
//! of two checks uniqueness, and generates minimal puzzles. Five engines do
//! the same job in different ways:
//!
//! - `triad`: boxes with triad margins and bands of configurations, the
//!   strongest inference, fastest on hard puzzles;
//! - `jcz`: bands by digit with locked candidates by table lookup, the
//!   cheapest per easy deduction;
//! - `band`: bands by digit with a queue of assignments and a pass over the
//!   stacks;
//! - `simd`: each digit's board in both orientations, lane by lane;
//! - `baseline`: candidate masks per cell and scans per unit, the plainest.
//!
//! Each engine is proved to find a solution exactly if there is one and to
//! count exactly the solutions that `grid` defines, so they agree with each
//! other on every puzzle. Which of several solutions an engine returns is stated
//! too, and so `route` says what a puzzle or a batch gives under each engine.
//! Search state is small and copied per guess,
//! propagation runs to a fixpoint before every branch, and one search both
//! solves and counts.

use vstd::prelude::*;
use crate::baseline::first::first_found;
use crate::boards::encodes;
use crate::grid::{capped, clues_ok, is_solution, solution_count};
use crate::jcz::full_run;
use crate::triad::start::triad_first;

pub mod band;
pub mod baseline;
pub mod bits;
pub mod boards;
pub mod branch;
pub mod clue_scan;
pub mod generate;
pub mod grid;
pub mod jcz;
pub mod laws;
pub mod layout;
pub mod minirow;
pub mod rest;
pub mod rng;
pub mod route;
pub mod simd;
pub mod text;
pub mod triad;
pub mod tvec;
pub mod validate;

pub use crate::baseline::state::ALL;
pub use crate::generate::{generate_puzzle, random_solved_grid};
pub use crate::rng::Rng;
pub use crate::route::{HYBRID_GUESS_BUDGET, HYBRID_MAX_UNSOLVED};
pub use crate::text::{grid_to_line, parse_line};
pub use crate::validate::is_valid_solution;

verus! {

/// The triad engine is part of the library.
pub const HAS_TRIAD: bool = true;

/// Solves a puzzle given as 81 digits (0 is a blank). Returns the first
/// solution found, or `None` if the puzzle has no solution. This is the triad
/// engine.
pub fn solve_grid(clues: &[u8; 81]) -> (r: Option<[u8; 81]>)
    requires
        clues_ok(clues@),
    ensures
        r is Some <==> solution_count(clues@) > 0,
        r matches Some(g) ==> is_solution(g@, clues@) && triad_first(clues@) == Some(g@),
        r is None ==> triad_first(clues@) is None,
{
    triad::solve_grid(clues)
}

/// Counts solutions up to `limit` (use a limit of 2 for a uniqueness check).
pub fn count_solutions(clues: &[u8; 81], limit: u64) -> (n: u64)
    requires
        clues_ok(clues@),
    ensures
        n == capped(solution_count(clues@) as int, limit as int),
{
    triad::count_solutions(clues, limit)
}

/// Solves a puzzle with the `jcz` engine.
pub fn jcz_solve_grid(clues: &[u8; 81]) -> (r: Option<[u8; 81]>)
    requires
        clues_ok(clues@),
    ensures
        r is Some <==> solution_count(clues@) > 0,
        r matches Some(g) ==> is_solution(g@, clues@),
        r matches Some(g) ==> encodes(full_run(clues@, 1).first, g@),
{
    jcz::solve_grid(clues)
}

/// Counts solutions up to `limit` with the `jcz` engine.
pub fn jcz_count_solutions(clues: &[u8; 81], limit: u64) -> (n: u64)
    requires
        clues_ok(clues@),
    ensures
        n == capped(solution_count(clues@) as int, limit as int),
{
    jcz::count_solutions(clues, limit)
}

/// Solves a puzzle with the triad engine.
pub fn triad_solve_grid(clues: &[u8; 81]) -> (r: Option<[u8; 81]>)
    requires
        clues_ok(clues@),
    ensures
        r is Some <==> solution_count(clues@) > 0,
        r matches Some(g) ==> is_solution(g@, clues@) && triad_first(clues@) == Some(g@),
        r is None ==> triad_first(clues@) is None,
{
    triad::solve_grid(clues)
}

/// Counts solutions up to `limit` with the triad engine.
pub fn triad_count_solutions(clues: &[u8; 81], limit: u64) -> (n: u64)
    requires
        clues_ok(clues@),
    ensures
        n == capped(solution_count(clues@) as int, limit as int),
{
    triad::count_solutions(clues, limit)
}

/// Solves a puzzle with the baseline engine. A clue above 9 is no digit, so
/// there is no solution.
pub fn baseline_solve_grid(clues: &[u8; 81]) -> (r: Option<[u8; 81]>)
    requires
        forall|c: int| 0 <= c < 81 ==> #[trigger] clues[c] <= 16,
    ensures
        r is Some <==> solution_count(clues@) > 0,
        r matches Some(g) ==> is_solution(g@, clues@),
        r matches Some(g) ==> first_found(clues@) == Some(g@),
{
    baseline::solve_grid(clues)
}

/// Counts solutions up to `limit` with the baseline engine.
pub fn baseline_count_solutions(clues: &[u8; 81], limit: u64) -> (n: u64)
    requires
        forall|c: int| 0 <= c < 81 ==> #[trigger] clues[c] <= 16,
    ensures
        n == capped(solution_count(clues@) as int, limit as int),
{
    baseline::count_solutions(clues, limit)
}

} // verus!
