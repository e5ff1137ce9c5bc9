//! Board engine: bitboard propagation with lookup tables, fast on easy and
//! medium puzzles.
//!
//! Nine digits times three bands give 27 boards of 27 bits. An update closes
//! a board over the placements that fit it, clears the columns that it
//! claims from the two other bands, and fixes the cells that it pins. Naked
//! singles follow, and a depth-first search takes over where neither rule
//! moves. A difficulty threshold and a guess budget let a caller hand
//! hard puzzles to another engine.

use vstd::prelude::*;
use crate::bits::{bit32, count, count_ones32, lemma_count_mono, lemma_ext32, lemma_pop_band, pop32};
use crate::boards::{boards_ok, cand, encodes, lemma_dead, lemma_same_solutions, within};
use crate::grid::{capped, clues_ok, is_grid, is_solution, lemma_none, solution_count, solutions};
use crate::jcz::closure::{is_closure, lemma_in_band, none_stable, open_count, stable, undecided};
use crate::jcz::course::{
    decided, descended, guess_at, lemma_guess_once, lemma_same_first, lemma_trail,
    lemma_trail_reach, lemma_within_both, trail, Course,
};
use crate::jcz::found::{
    few_tell, lemma_found, lemma_lowest, lemma_start_admits, lowest_step, lowest_way, tells_apart,
};
use crate::jcz::init::{clue_allows, conflict_free, starts};
use crate::jcz::propagate::{open_cell, State};
use crate::jcz::search::{spells, Solver};
use crate::jcz::sound::lemma_decided_grid;
use crate::jcz::tables::Tables;
use crate::minirow::BAND_ALL;
use crate::rest::lemma_spelled;

pub mod closure;
pub mod course;
pub mod found;
pub mod init;
pub mod largest;
pub mod propagate;
pub mod search;
pub mod sound;
pub mod tables;

pub use crate::jcz::course::UNBOUNDED;

verus! {

broadcast use crate::bits::group_bits32;

/// Outcome of a bounded run.
pub enum Outcome {
    /// Solutions found (up to the limit), with the first one if any.
    Done(u64, Option<[u8; 81]>),
    /// The difficulty gate or guess budget tripped; the caller should hand
    /// the puzzle to a stronger engine.
    Deferred,
}

/// The clues do not conflict, the propagation finds no contradiction in
/// them, and it leaves `n` cells with two candidates or more.
pub open spec fn left_open(clues: Seq<u8>, n: nat) -> bool {
    conflict_free(clues, 81) && exists|bs: Seq<u32>, v: Seq<u32>|
        starts(bs, clues) && #[trigger] is_closure(v, bs) && open_count(v) == n
}

/// Boards with the same candidates are the same boards.
proof fn lemma_same_boards(a: Seq<u32>, b: Seq<u32>)
    requires
        boards_ok(a),
        boards_ok(b),
        forall|c: int, d: int|
            0 <= c < 81 && 0 <= d < 9 ==> (#[trigger] cand(a, c, d) <==> cand(b, c, d)),
    ensures
        a == b,
{
    assert forall|i: int| 0 <= i < 27 implies a[i] == b[i] by {
        assert forall|p: int| 0 <= p < 32 implies bit32(a[i], p) == bit32(b[i], p) by {
            if p < 27 {
                let c = 27 * (i / 9) + p;
                assert(c / 27 == i / 9 && c % 27 == p);
                assert(9 * (i / 9) + i % 9 == i);
                assert(cand(a, c, i % 9) <==> cand(b, c, i % 9));
            } else {
                if bit32(a[i], p) {
                    lemma_in_band(a[i], p);
                }
                if bit32(b[i], p) {
                    lemma_in_band(b[i], p);
                }
            }
        }
        lemma_ext32(a[i], b[i]);
    }
    assert(a =~= b);
}

/// `v` is what the propagation makes of clues that do not conflict.
pub open spec fn starting(v: Seq<u32>, clues: Seq<u8>) -> bool {
    conflict_free(clues, 81) && exists|bs: Seq<u32>|
        starts(bs, clues) && #[trigger] is_closure(v, bs)
}

/// A search before its first step.
pub open spec fn fresh_course() -> Course {
    Course { count: 0, guesses: 0, aborted: false, first: Seq::new(27, |i: int| 0u32) }
}

/// The course of a run from boards `v`. With a limit of zero nothing counts,
/// but a guess of the first way down that the budget does not allow still calls
/// the run off.
pub open spec fn course_from(v: Seq<u32>, limit: int, budget: int) -> Course {
    let c = descended(v, fresh_course(), limit, budget);
    Course { count: capped(c.count, limit), ..c }
}

/// The course of a run that is not deferred; `None` if it is, because the
/// propagation leaves more cells open than `max_unsolved`, or because the
/// guesses go over the budget.
pub open spec fn run_of(clues: Seq<u8>, limit: int, max_unsolved: int, budget: int) -> Option<
    Course,
> {
    if exists|v: Seq<u32>| #[trigger] starting(v, clues) {
        let v = choose|v: Seq<u32>| #[trigger] starting(v, clues);
        let c = course_from(v, limit, budget);
        if open_count(v) > max_unsolved || c.aborted {
            None
        } else {
            Some(c)
        }
    } else {
        Some(fresh_course())
    }
}

/// What the propagation makes of the clues is determined by them.
pub proof fn lemma_starting_once(clues: Seq<u8>, v: Seq<u32>, v2: Seq<u32>)
    requires
        starting(v, clues),
        starting(v2, clues),
    ensures
        v == v2,
{
    let bs = choose|bs: Seq<u32>| starts(bs, clues) && #[trigger] is_closure(v, bs);
    let bs2 = choose|bs2: Seq<u32>| starts(bs2, clues) && #[trigger] is_closure(v2, bs2);
    assert forall|c: int, d: int| 0 <= c < 81 && 0 <= d < 9 implies (#[trigger] cand(bs, c, d)
        <==> cand(bs2, c, d)) by {
        assert(cand(bs, c, d) <==> clue_allows(clues, c, d));
        assert(cand(bs2, c, d) <==> clue_allows(clues, c, d));
    }
    lemma_same_boards(bs, bs2);
    assert(within(v, v2) && within(v2, v));
    assert(v.len() == 27 && v2.len() == 27) by {
        reveal(stable);
    }
    lemma_within_both(v, v2);
}

/// How a run ends is known from what the propagation makes of the clues.
pub proof fn lemma_run_of(clues: Seq<u8>, v: Seq<u32>)
    requires
        starting(v, clues),
    ensures
        forall|n: nat| #[trigger] left_open(clues, n) <==> n == open_count(v),
        forall|limit: int, gate: int, budget: int| #[trigger]
            run_of(clues, limit, gate, budget) == (if open_count(v) > gate || course_from(
                v,
                limit,
                budget,
            ).aborted {
                None
            } else {
                Some(course_from(v, limit, budget))
            }),
{
    let u = choose|u: Seq<u32>| #[trigger] starting(u, clues);
    lemma_starting_once(clues, u, v);
    assert forall|n: nat| #[trigger] left_open(clues, n) <==> n == open_count(v) by {
        if left_open(clues, n) {
            let (bs2, v2) = choose|bs2: Seq<u32>, v2: Seq<u32>|
                starts(bs2, clues) && #[trigger] is_closure(v2, bs2) && open_count(v2) == n;
            assert(starting(v2, clues));
            lemma_starting_once(clues, v2, v);
        }
        if n == open_count(v) {
            let bs = choose|bs: Seq<u32>| starts(bs, clues) && #[trigger] is_closure(v, bs);
            assert(starts(bs, clues) && is_closure(v, bs));
        }
    }
}

/// The open cells of a band are the undecided ones, so they count the same.
proof fn lemma_open_band(u: u32, bs: Seq<u32>, b: int)
    requires
        u <= BAND_ALL,
        forall|p: int| #[trigger] bit32(u, p) <==> 0 <= p < 27 && undecided(bs, b, p),
    ensures
        pop32(u) == count(|p: int| undecided(bs, b, p), 27),
        pop32(u) <= 27,
{
    lemma_pop_band(u);
    let f = |p: int| bit32(u, p);
    let g = |p: int| undecided(bs, b, p);
    assert forall|p: int| 0 <= p < 27 && f(p) implies #[trigger] g(p) by {}
    assert forall|p: int| 0 <= p < 27 && g(p) implies #[trigger] f(p) by {}
    lemma_count_mono(f, g, 27);
    lemma_count_mono(g, f, 27);
}

/// What the boards that a search branches on say of a run: past the difficulty
/// gate it is deferred exactly if there are more of them than the budget, and
/// otherwise it spends one guess on each. A branch has nine ways at most, so
/// `budget` of them reach no more than `8 * budget + 1` solutions.
pub proof fn lemma_budget(clues: Seq<u8>, v: Seq<u32>, limit: int, gate: int, budget: int)
    requires
        starting(v, clues),
        limit >= 0,
        0 <= budget < UNBOUNDED,
    ensures
        run_of(clues, limit, gate, budget) is None <==> open_count(v) > gate || trail(
            v,
            0,
            limit,
        ).0.len() > budget,
        run_of(clues, limit, gate, budget) matches Some(c) ==> c.guesses == trail(v, 0, limit).0.len()
            && c.guesses <= budget && c.count <= 8 * c.guesses + 1,
{
    lemma_run_of(clues, v);
    lemma_trail(v, fresh_course(), limit, budget);
    lemma_trail_reach(v, 0, limit);
}

/// A run that is not deferred: the digits of the first solution at as many cells
/// as there are guesses in the budget tell it from all other solutions.
pub proof fn lemma_guesses_tell(
    clues: Seq<u8>,
    v: Seq<u32>,
    limit: int,
    gate: int,
    budget: int,
) -> (r: (Seq<u8>, Set<int>))
    requires
        starting(v, clues),
        limit >= 1,
        0 <= budget < UNBOUNDED,
    ensures
        run_of(clues, limit, gate, budget) matches Some(c) ==> c.count > 0 ==> {
            &&& is_solution(r.0, clues)
            &&& encodes(c.first, r.0)
            &&& r.1.finite()
            &&& r.1.len() <= budget
            &&& forall|e: int| #[trigger] r.1.contains(e) ==> 0 <= e < 81
            &&& tells_apart(clues, r.0, r.1)
        },
{
    let bs = choose|bs: Seq<u32>| starts(bs, clues) && #[trigger] is_closure(v, bs);
    lemma_run_of(clues, v);
    lemma_same_first(v, fresh_course(), limit, budget);
    let (g, cells) = lemma_found(v, fresh_course(), budget);
    if let Some(c) = run_of(clues, limit, gate, budget) {
        if c.count > 0 {
            lemma_start_admits(clues, bs, v, g);
            assert forall|h: Seq<u8>| #[trigger]
                is_solution(h, clues) && (forall|c: int| #[trigger]
                    cells.contains(c) ==> h[c] == g[c]) implies h == g by {
                lemma_start_admits(clues, bs, v, h);
            }
        }
    }
    (g, cells)
}

/// The first solution of a run that is not deferred is the one to which it comes
/// down by the lowest digits.
pub proof fn lemma_run_lowest(
    clues: Seq<u8>,
    v: Seq<u32>,
    limit: int,
    gate: int,
    budget: int,
) -> (r: (Seq<u8>, nat))
    requires
        starting(v, clues),
        limit >= 1,
    ensures
        run_of(clues, limit, gate, budget) matches Some(c) ==> c.count > 0 ==> {
            &&& is_solution(r.0, clues)
            &&& encodes(c.first, r.0)
            &&& lowest_way(v, r.0, r.1)
            &&& forall|b: int, p: int, h: Seq<u8>| #[trigger]
                guess_at(v, b, p) && #[trigger] is_solution(h, clues) ==> r.0[27 * b + p] <= h[27 * b
                    + p]
        },
{
    let bs = choose|bs: Seq<u32>| starts(bs, clues) && #[trigger] is_closure(v, bs);
    lemma_run_of(clues, v);
    lemma_same_first(v, fresh_course(), limit, budget);
    let (g, depth) = lemma_lowest(v, fresh_course(), budget);
    if let Some(c) = run_of(clues, limit, gate, budget) {
        if c.count > 0 {
            lemma_start_admits(clues, bs, v, g);
            assert forall|b: int, p: int, h: Seq<u8>| #[trigger]
                guess_at(v, b, p) && #[trigger] is_solution(h, clues) implies g[27 * b + p] <= h[27
                * b + p] by {
                lemma_start_admits(clues, bs, v, h);
                if depth == 0 {
                    let own = lemma_decided_grid(v);
                    assert(h == own && g == own);
                } else {
                    let (b2, p2, w) = choose|b2: int, p2: int, w: Seq<u32>| #[trigger]
                        lowest_step(v, g, b2, p2, w) && lowest_way(w, g, (depth - 1) as nat);
                    lemma_guess_once(v, b, p, b2, p2);
                }
            }
        }
    }
    (g, depth)
}

/// Solves with a difficulty gate and a guess budget.
///
/// `max_unsolved`: a puzzle that still has more open cells than this after
/// the initial propagation is deferred before the first guess. `budget`: the
/// number of guesses after which the run is called off; [`UNBOUNDED`] never
/// runs out. With a limit of zero nothing is counted, but the first way down
/// is taken.
pub fn run(clues: &[u8; 81], limit: u64, max_unsolved: u32, budget: u32) -> (r: Outcome)
    requires
        clues_ok(clues@),
    ensures
        r matches Outcome::Done(n, sol) ==> {
            &&& n == capped(solution_count(clues@) as int, limit as int)
            &&& sol is Some <==> n > 0
            &&& sol matches Some(g) ==> is_solution(g@, clues@)
        },
        r is Deferred <==> run_of(
            clues@,
            limit as int,
            max_unsolved as int,
            budget as int,
        ) is None,
        r matches Outcome::Done(n, sol) ==> {
            let c = run_of(clues@, limit as int, max_unsolved as int, budget as int)->0;
            n == c.count && (sol matches Some(g) ==> encodes(c.first, g@))
        },
        r is Deferred ==> exists|n: nat| #[trigger]
            left_open(clues@, n) && n > 0 && (n > max_unsolved || budget != UNBOUNDED),
        forall|n: nat| #[trigger] left_open(clues@, n) && n > max_unsolved ==> r is Deferred,
        forall|n: nat| #[trigger] left_open(clues@, n) && n > 0 && budget == 0 ==> r is Deferred,
        forall|v: Seq<u32>| #[trigger]
            starting(v, clues@) && open_count(v) <= max_unsolved && budget != UNBOUNDED ==> (
            r is Deferred <==> trail(v, 0, limit as int).0.len() > budget),
        r matches Outcome::Done(n, _) ==> budget != UNBOUNDED ==> n <= 8 * budget + 1,
        budget != UNBOUNDED && capped(solution_count(clues@) as int, limit as int) > 8 * budget + 1
            ==> r is Deferred,
        r matches Outcome::Done(_, Some(g)) ==> budget != UNBOUNDED ==> few_tell(
            clues@,
            g@,
            budget as int,
        ),
        r matches Outcome::Done(_, Some(g)) ==> forall|
            v: Seq<u32>,
            b: int,
            p: int,
            h: Seq<u8>,
        |
            #![trigger starting(v, clues@), guess_at(v, b, p), is_solution(h, clues@)]
            starting(v, clues@) && guess_at(v, b, p) && is_solution(h, clues@) ==> g@[27 * b + p]
                <= h[27 * b + p],
{
    let t = Tables::new();
    run_with(&t, clues, limit, max_unsolved, budget)
}

/// As [`run`], with tables built beforehand.
pub fn run_with(
    t: &Tables,
    clues: &[u8; 81],
    limit: u64,
    max_unsolved: u32,
    budget: u32,
) -> (r: Outcome)
    requires
        t.ok(),
        clues_ok(clues@),
    ensures
        r matches Outcome::Done(n, sol) ==> {
            &&& n == capped(solution_count(clues@) as int, limit as int)
            &&& sol is Some <==> n > 0
            &&& sol matches Some(g) ==> is_solution(g@, clues@)
        },
        r is Deferred <==> run_of(
            clues@,
            limit as int,
            max_unsolved as int,
            budget as int,
        ) is None,
        r matches Outcome::Done(n, sol) ==> {
            let c = run_of(clues@, limit as int, max_unsolved as int, budget as int)->0;
            n == c.count && (sol matches Some(g) ==> encodes(c.first, g@))
        },
        r is Deferred ==> exists|n: nat| #[trigger]
            left_open(clues@, n) && n > 0 && (n > max_unsolved || budget != UNBOUNDED),
        forall|n: nat| #[trigger] left_open(clues@, n) && n > max_unsolved ==> r is Deferred,
        forall|n: nat| #[trigger] left_open(clues@, n) && n > 0 && budget == 0 ==> r is Deferred,
        forall|v: Seq<u32>| #[trigger]
            starting(v, clues@) && open_count(v) <= max_unsolved && budget != UNBOUNDED ==> (
            r is Deferred <==> trail(v, 0, limit as int).0.len() > budget),
        r matches Outcome::Done(n, _) ==> budget != UNBOUNDED ==> n <= 8 * budget + 1,
        budget != UNBOUNDED && capped(solution_count(clues@) as int, limit as int) > 8 * budget + 1
            ==> r is Deferred,
        r matches Outcome::Done(_, Some(g)) ==> budget != UNBOUNDED ==> few_tell(
            clues@,
            g@,
            budget as int,
        ),
        r matches Outcome::Done(_, Some(g)) ==> forall|
            v: Seq<u32>,
            b: int,
            p: int,
            h: Seq<u8>,
        |
            #![trigger starting(v, clues@), guess_at(v, b, p), is_solution(h, clues@)]
            starting(v, clues@) && guess_at(v, b, p) && is_solution(h, clues@) ==> g@[27 * b + p]
                <= h[27 * b + p],
{
    let mut state = match State::init_from_clues(clues) {
        Ok(st) => st,
        Err(_) => {
            proof {
                lemma_none(solutions(clues@));
                assert forall|v: Seq<u32>| !#[trigger] starting(v, clues@) by {}
            }
            return Outcome::Done(0, None);
        },
    };
    let ghost a0 = state.poss@;
    match state.full_update(t) {
        Ok(_) => {},
        Err(_) => {
            proof {
                lemma_dead(a0);
                assert forall|v: Seq<u32>| !#[trigger] starting(v, clues@) by {
                    if starting(v, clues@) {
                        let bs2 = choose|bs2: Seq<u32>|
                            starts(bs2, clues@) && #[trigger] is_closure(v, bs2);
                        assert forall|c: int, d: int| 0 <= c < 81 && 0 <= d < 9 implies (
                        #[trigger] cand(a0, c, d) <==> cand(bs2, c, d)) by {
                            assert(cand(a0, c, d) <==> clue_allows(clues@, c, d));
                            assert(cand(bs2, c, d) <==> clue_allows(clues@, c, d));
                        }
                        lemma_same_boards(a0, bs2);
                        assert(none_stable(a0));
                        assert(within(v, a0));
                    }
                }
                assert forall|n: nat| !#[trigger] left_open(clues@, n) by {
                    if left_open(clues@, n) {
                        let (bs2, v2) = choose|bs2: Seq<u32>, v2: Seq<u32>|
                            starts(bs2, clues@) && #[trigger] is_closure(v2, bs2) && open_count(v2)
                                == n;
                        assert(starting(v2, clues@));
                    }
                }
            }
            return Outcome::Done(0, None);
        },
    }
    let ghost v = state.poss@;
    let ghost n0 = open_count(v);
    proof {
        state.lemma_rested();
        lemma_same_solutions(a0, v);
        lemma_open_band(state.unsolved[0], v, 0);
        lemma_open_band(state.unsolved[1], v, 1);
        lemma_open_band(state.unsolved[2], v, 2);
        assert(starting(v, clues@)) by {
            assert(is_closure(v, a0));
        }
        lemma_run_of(clues@, v);
        if budget != UNBOUNDED {
            lemma_budget(clues@, v, limit as int, max_unsolved as int, budget as int);
        }
        assert forall|v2: Seq<u32>| #[trigger] starting(v2, clues@) implies v2 == v by {
            lemma_starting_once(clues@, v2, v);
        }
        assert(left_open(clues@, n0));
    }
    let open = count_ones32(state.unsolved[0]) + count_ones32(state.unsolved[1]) + count_ones32(
        state.unsolved[2],
    );
    proof {
        assert(open == n0);
        assert(state.all_fixed() <==> open == 0) by {
            if state.all_fixed() {
                assert forall|b: int, p: int| 0 <= b < 3 && 0 <= p < 27 implies !undecided(
                    v,
                    b,
                    p,
                ) by {
                    let c = 27 * b + p;
                    assert(c / 27 == b && c % 27 == p);
                    assert(!open_cell(state.unsolved@, c));
                    assert(!bit32(state.unsolved[b], p));
                }
                crate::bits::lemma_count_none(|p: int| undecided(v, 0, p), 27);
                crate::bits::lemma_count_none(|p: int| undecided(v, 1, p), 27);
                crate::bits::lemma_count_none(|p: int| undecided(v, 2, p), 27);
            } else {
                let c = choose|c: int| 0 <= c < 81 && #[trigger] open_cell(state.unsolved@, c);
                let (b, p) = (c / 27, c % 27);
                assert(bit32(state.unsolved[b], p));
                crate::bits::lemma_count_some(|p: int| undecided(v, b, p), 27, p);
            }
        }
    }
    proof {
        assert(decided(v) <==> open == 0) by {
            if decided(v) {
                crate::bits::lemma_count_none(|p: int| undecided(v, 0, p), 27);
                crate::bits::lemma_count_none(|p: int| undecided(v, 1, p), 27);
                crate::bits::lemma_count_none(|p: int| undecided(v, 2, p), 27);
            } else {
                let (b, p) = choose|b: int, p: int|
                    0 <= b < 3 && 0 <= p < 27 && #[trigger] undecided(v, b, p);
                crate::bits::lemma_count_some(|p: int| undecided(v, b, p), 27, p);
            }
        }
    }
    if !state.is_solved() {
        if open > max_unsolved {
            return Outcome::Deferred;
        }
    }
    let mut solver = Solver {
        limit,
        count: 0,
        solution: [0;27],
        guesses: 0,
        budget,
        aborted: false,
    };
    proof {
        assert(solver.course().first =~= fresh_course().first);
        assert(solver.course() == fresh_course());
    }
    solver.descend(&mut state, t);
    if solver.aborted {
        return Outcome::Deferred;
    }
    if solver.count == 0 || limit == 0 {
        return Outcome::Done(0, None);
    }
    let mut out: [u8; 81] = [0;81];
    let snap = State { poss: solver.solution, dirty: 0, unsolved: [0;3], pairs: [0;3] };
    snap.extract(&mut out);
    proof {
        assert(spells(solver.solution@, solutions(clues@)));
        let g = choose|g: Seq<u8>|
            is_grid(g) && #[trigger] solutions(clues@).contains(g) && encodes(
                solver.solution@,
                g,
            );
        assert(snap.poss@ == solver.solution@);
        assert(encodes(snap.poss@, g));
        assert(out@ == g);
        let (most, spend) = (max_unsolved as int, budget as int);
        let c = course_from(v, limit as int, spend);
        assert(run_of(clues@, limit as int, most, spend) == Some(c));
        assert(c.first == solver.solution@ && c.count > 0);
        lemma_spelled(solver.solution@, g);
        if budget != UNBOUNDED {
            let (h, cells) = lemma_guesses_tell(clues@, v, limit as int, most, spend);
            lemma_spelled(solver.solution@, h);
            assert(tells_apart(clues@, out@, cells));
            assert(few_tell(clues@, out@, spend));
        }
        let (h, depth) = lemma_run_lowest(clues@, v, limit as int, most, spend);
        lemma_spelled(solver.solution@, h);
    }
    Outcome::Done(solver.count, Some(out))
}

/// The course of a run without limits but that on solutions.
pub open spec fn full_run(clues: Seq<u8>, limit: int) -> Course {
    run_of(clues, limit, 0xFFFF_FFFF, UNBOUNDED as int)->0
}

/// Solves to the first solution, unbounded.
pub fn solve_grid(clues: &[u8; 81]) -> (r: Option<[u8; 81]>)
    requires
        clues_ok(clues@),
    ensures
        r is Some <==> solution_count(clues@) > 0,
        r matches Some(g) ==> is_solution(g@, clues@),
        r matches Some(g) ==> encodes(full_run(clues@, 1).first, g@),
        r is Some <==> full_run(clues@, 1).count > 0,
{
    match run(clues, 1, 0xFFFF_FFFF, UNBOUNDED) {
        Outcome::Done(_, sol) => sol,
        Outcome::Deferred => {
            proof {
                lemma_open_small(clues@);
            }
            None
        },
    }
}

/// Counts solutions up to `limit`, unbounded.
pub fn count_solutions(clues: &[u8; 81], limit: u64) -> (n: u64)
    requires
        clues_ok(clues@),
    ensures
        n == capped(solution_count(clues@) as int, limit as int),
{
    match run(clues, limit, 0xFFFF_FFFF, UNBOUNDED) {
        Outcome::Done(n, _) => n,
        Outcome::Deferred => {
            proof {
                lemma_open_small(clues@);
            }
            0
        },
    }
}

/// No more cells are left open than there are cells.
pub proof fn lemma_open_small(clues: Seq<u8>)
    ensures
        forall|n: nat| #[trigger] left_open(clues, n) ==> n <= 81,
{
    assert forall|n: nat| #[trigger] left_open(clues, n) implies n <= 81 by {
        let (bs, v) = choose|bs: Seq<u32>, v: Seq<u32>|
            starts(bs, clues) && #[trigger] is_closure(v, bs) && open_count(v) == n;
        lemma_count_mono(|p: int| undecided(v, 0, p), |p: int| undecided(v, 0, p), 27);
        lemma_count_mono(|p: int| undecided(v, 1, p), |p: int| undecided(v, 1, p), 27);
        lemma_count_mono(|p: int| undecided(v, 2, p), |p: int| undecided(v, 2, p), 27);
    }
}

} // verus!
