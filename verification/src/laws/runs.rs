//! What bounds a run of `jcz`, and where the hybrid sends a puzzle.

use vstd::prelude::*;
use crate::grid::{is_solution, lemma_only, solution_count, solutions};
use crate::bits::{bit32, lemma_count_second, lemma_count_witness};
use crate::boards::digits_at;
use crate::jcz::closure::{open_count, undecided};
use crate::jcz::course::{
    first_open, guess_at, has_pair, lemma_same_first, lemma_trail_reach, trail, UNBOUNDED,
};
use crate::jcz::found::lowest_way;
use crate::jcz::{
    fresh_course, full_run, lemma_budget, lemma_guesses_tell, lemma_run_lowest, lemma_run_of,
    run_of, starting,
};
use crate::laws::law_larger_allowance;
use crate::rest::{lemma_spelled, spelled};
use crate::route::{auto_first, course_found};
use crate::triad::start::triad_first;

verus! {

/// Let `v` be what the propagation makes of the clues. A run is deferred exactly
/// if `v` leaves more cells open than `most`, or if the search from `v` branches
/// on more boards than the budget has guesses; otherwise it spends one guess on
/// each of these boards.
pub proof fn law_guess_budget(clues: Seq<u8>, v: Seq<u32>, limit: int, most: int, budget: int)
    requires
        starting(v, clues),
        limit >= 0,
        0 <= budget < UNBOUNDED,
    ensures
        run_of(clues, limit, most, budget) is None <==> open_count(v) > most || trail(
            v,
            0,
            limit,
        ).0.len() > budget,
        run_of(clues, limit, most, budget) matches Some(c) ==> c.guesses == trail(v, 0, limit).0.len(),
{
    lemma_budget(clues, v, limit, most, budget);
}

/// A guess chooses among nine digits at most, so a run with `budget` guesses
/// that is not deferred counts `8 * budget + 1` solutions at most.
pub proof fn law_few_guesses_few_solutions(
    clues: Seq<u8>,
    v: Seq<u32>,
    limit: int,
    most: int,
    budget: int,
)
    requires
        starting(v, clues),
        limit >= 0,
        0 <= budget < UNBOUNDED,
    ensures
        run_of(clues, limit, most, budget) matches Some(c) ==> c.count <= 8 * budget + 1,
{
    lemma_budget(clues, v, limit, most, budget);
    lemma_trail_reach(v, 0, limit);
}

/// The clues, and the digits of `g` at some cells.
pub open spec fn clues_and(clues: Seq<u8>, g: Seq<u8>, cells: Set<int>) -> Seq<u8> {
    Seq::new(
        81,
        |c: int|
            if cells.contains(c) {
                g[c]
            } else {
                clues[c]
            },
    )
}

/// A run with `budget` guesses that is not deferred finds, first of all, a
/// solution that is the only one once its digits at some `budget` cells are
/// given: the guesses, and nothing else, chose it. So a puzzle with solutions
/// that no `budget` further clues make unique is deferred.
pub proof fn law_guesses_choose(
    clues: Seq<u8>,
    v: Seq<u32>,
    limit: int,
    most: int,
    budget: int,
) -> (r: (Seq<u8>, Set<int>))
    requires
        starting(v, clues),
        limit >= 1,
        0 <= budget < UNBOUNDED,
        run_of(clues, limit, most, budget) matches Some(c) && c.count > 0,
    ensures
        spelled(run_of(clues, limit, most, budget)->0.first) == r.0,
        is_solution(r.0, clues),
        r.1.finite(),
        r.1.len() <= budget,
        solution_count(clues_and(clues, r.0, r.1)) == 1,
{
    let (g, cells) = lemma_guesses_tell(clues, v, limit, most, budget);
    let k = clues_and(clues, g, cells);
    lemma_spelled(run_of(clues, limit, most, budget)->0.first, g);
    assert(is_solution(g, k)) by {
        assert forall|c: int| 0 <= c < 81 && #[trigger] k[c] != 0 implies g[c] == k[c] by {
            if !cells.contains(c) {
                assert(clues[c] != 0);
            }
        }
    }
    assert(solutions(k).contains(g));
    assert forall|h: Seq<u8>| #[trigger] solutions(k).contains(h) implies h == g by {
        crate::grid::lemma_grid_facts(g);
        assert forall|c: int| #[trigger] cells.contains(c) implies h[c] == g[c] by {
            assert(k[c] == g[c]);
            assert(1 <= g[c] <= 9);
        }
        assert(is_solution(h, clues)) by {
            assert forall|c: int| 0 <= c < 81 && #[trigger] clues[c] != 0 implies h[c]
                == clues[c] by {
                if cells.contains(c) {
                    assert(g[c] == clues[c]);
                } else {
                    assert(k[c] == clues[c]);
                }
            }
        }
    }
    lemma_only(solutions(k), g);
    (g, cells)
}

/// A run that is not deferred finds first the solution to which it comes down
/// when every guess is at the lowest digit that still has one. At the cell of
/// the first guess no solution holds a lower digit.
pub proof fn law_lowest_digits(
    clues: Seq<u8>,
    v: Seq<u32>,
    limit: int,
    most: int,
    budget: int,
) -> (r: (Seq<u8>, nat))
    requires
        starting(v, clues),
        limit >= 1,
        run_of(clues, limit, most, budget) matches Some(c) && c.count > 0,
    ensures
        spelled(run_of(clues, limit, most, budget)->0.first) == r.0,
        is_solution(r.0, clues),
        lowest_way(v, r.0, r.1),
        forall|b: int, p: int, h: Seq<u8>| #[trigger]
            guess_at(v, b, p) && #[trigger] is_solution(h, clues) ==> r.0[27 * b + p] <= h[27 * b
                + p],
{
    let (g, depth) = lemma_run_lowest(clues, v, limit, most, budget);
    lemma_spelled(run_of(clues, limit, most, budget)->0.first, g);
    (g, depth)
}

/// The first solution that a run finds does not depend on how many it is to
/// find: if a run for several is not deferred, neither is one for a single one,
/// and it ends with the same.
pub proof fn law_first_whatever_the_limit(
    clues: Seq<u8>,
    v: Seq<u32>,
    limit: int,
    most: int,
    budget: int,
)
    requires
        starting(v, clues),
        limit >= 1,
        run_of(clues, limit, most, budget) is Some,
    ensures
        ({
            let (one, more) = (run_of(clues, 1, most, budget), run_of(clues, limit, most, budget));
            &&& one is Some
            &&& one->0.count > 0 <==> more->0.count > 0
            &&& one->0.first == more->0.first
        }),
{
    lemma_run_of(clues, v);
    lemma_same_first(v, fresh_course(), limit, budget);
}

/// A cell with two candidates or more is one without a decision.
pub proof fn lemma_several(v: Seq<u32>, b: int, p: int)
    ensures
        undecided(v, b, p) <==> digits_at(v, b, p, 9) >= 2,
{
    let f = |e: int| bit32(v[9 * b + e], p);
    if digits_at(v, b, p, 9) >= 2 {
        let x = lemma_count_witness(f, 9);
        let y = lemma_count_second(f, 9, x);
        assert(f(x) && f(y));
        if x < y {
            assert(bit32(v[9 * b + x], p) && bit32(v[9 * b + y], p));
        } else {
            assert(bit32(v[9 * b + y], p) && bit32(v[9 * b + x], p));
        }
    }
    if undecided(v, b, p) {
        let (x, y) = choose|x: int, y: int|
            0 <= x < y < 9 && #[trigger] bit32(v[9 * b + x], p) && #[trigger] bit32(
                v[9 * b + y],
                p,
            );
        assert(f(x) && f(y));
        if crate::bits::count(f, 9) < 2 {
            crate::bits::lemma_count_some(f, 9, x);
            let g = |e: int| f(e) && e != x;
            crate::bits::lemma_count_drop(g, f, 9, x);
            crate::bits::lemma_count_some(g, 9, y);
        }
    }
}

/// Where a guess is made, in numbers of candidates: at the first cell that has
/// two, by band and place. If none has, then among the first cells of the three
/// bands that have several, at the one with the fewest, and of those at the one
/// in the first band.
pub proof fn law_guess_cell(v: Seq<u32>, b: int, p: int)
    requires
        guess_at(v, b, p),
    ensures
        0 <= b < 3,
        0 <= p < 27,
        digits_at(v, b, p, 9) >= 2,
        forall|x: int, q: int|
            0 <= x < 3 && 0 <= q < 27 && #[trigger] digits_at(v, x, q, 9) == 2 ==> digits_at(
                v,
                b,
                p,
                9,
            ) == 2 && (b < x || (b == x && p <= q)),
        digits_at(v, b, p, 9) > 2 ==> {
            &&& forall|q: int| 0 <= q < p ==> #[trigger] digits_at(v, b, q, 9) < 2
            &&& forall|x: int, q: int|
                0 <= x < 3 && 0 <= q < 27 && #[trigger] digits_at(v, x, q, 9) >= 2 && (forall|y: int|
                    0 <= y < q ==> #[trigger] digits_at(v, x, y, 9) < 2) ==> digits_at(v, b, p, 9)
                    <= digits_at(v, x, q, 9) && (x < b ==> digits_at(v, b, p, 9) < digits_at(
                    v,
                    x,
                    q,
                    9,
                ))
        },
{
    lemma_several(v, b, p);
    if digits_at(v, b, p, 9) > 2 {
        assert(!has_pair(v));
        assert forall|q: int| 0 <= q < p implies #[trigger] digits_at(v, b, q, 9) < 2 by {
            lemma_several(v, b, q);
            assert(!undecided(v, b, q));
        }
        assert forall|x: int, q: int|
            0 <= x < 3 && 0 <= q < 27 && #[trigger] digits_at(v, x, q, 9) >= 2 && (forall|y: int|
                0 <= y < q ==> #[trigger] digits_at(v, x, y, 9) < 2) implies digits_at(v, b, p, 9)
            <= digits_at(v, x, q, 9) && (x < b ==> digits_at(v, b, p, 9) < digits_at(v, x, q, 9)) by {
            lemma_several(v, x, q);
            assert(first_open(v, x, q)) by {
                assert forall|y: int| 0 <= y < q implies !#[trigger] undecided(v, x, y) by {
                    lemma_several(v, x, y);
                }
            }
        }
    }
}

/// The hybrid sends a puzzle to the triad engine exactly if the propagation of
/// `jcz` leaves more than 50 cells open, or if its search to one solution would
/// branch more than 16 times; all others get the answer of `jcz`.
pub proof fn law_hybrid(clues: Seq<u8>, v: Seq<u32>)
    requires
        starting(v, clues),
    ensures
        open_count(v) > 50 || trail(v, 0, 1).0.len() > 16 ==> auto_first(clues) == triad_first(
            clues,
        ),
        open_count(v) <= 50 && trail(v, 0, 1).0.len() <= 16 ==> auto_first(clues) == course_found(
            full_run(clues, 1),
        ),
{
    lemma_budget(clues, v, 1, 50, 16);
    if open_count(v) <= 50 && trail(v, 0, 1).0.len() <= 16 {
        law_larger_allowance(clues, 1, 50, 16, 0xFFFF_FFFF, UNBOUNDED as int);
    }
}

} // verus!
