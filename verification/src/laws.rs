//! What holds of the library as a whole.

use vstd::prelude::*;
use vstd::relations::injective_on;
use vstd::seq_lib::to_multiset_remove;
use vstd::set_lib::lemma_map_size;
use vstd::slice::slice_subrange;
use crate::band;
use crate::band::fixpoint::{box_stable, lemma_stable, line_stable};
use crate::baseline;
use crate::baseline::cells::{admits, cell_solutions, only, single, sub_cell};
use crate::baseline::state::ALL;
use crate::baseline::settle::every_mark;
use crate::bits::{
    bit16, group_bits16, lemma_count_some, lemma_ext16, lemma_low_masks16, lemma_nonzero16,
};
use crate::branch::{ascending, listed};
use crate::generate::{
    all_open, canonical_digit, canonical_grid, comes_of, fill, filled, guessed,
    has_clues_of, lemma_canonical_grid, lemma_canonical_peers, lemma_fewer_clues, lemma_grid_alone,
    lemma_rem9, lemma_shuffled, shuffled, swapped,
};
use crate::grid::{
    capped, clues_ok, col_of, is_grid, is_solution, lemma_cell_coords, lemma_grid_facts,
    lemma_grid_from_units, lemma_grids_finite, lemma_none, lemma_some, lemma_unit_has, peers,
    row_of, solution_count, solutions, unit_cell, unit_holds,
};
use crate::jcz;
use crate::jcz::closure::{is_closure, open_count, undecided};
use crate::jcz::course::{decided, lemma_descended_more, UNBOUNDED};
use crate::jcz::init::starts;
use crate::jcz::{fresh_course, left_open, lemma_starting_once, run_of, starting};
use crate::minirow::{closed_at, fits, forced_at, in_perm};
use crate::rng::xorshift;
use crate::route::{
    answers, auto_count_solutions, auto_solve_grid, batch_answers, batch_count, batch_sum,
    law_batch_parts, merge_results, solve_batch, Engine,
};
use crate::simd;
use crate::text::{
    all_cells, cell_chars, cell_value, dotted_line_of, is_white, line_of, parsed,
};
use crate::triad;
use crate::validate::is_valid_solution;

pub mod lines;
pub mod random;
pub mod rules;
pub mod runs;
pub mod search;
pub mod sums;

verus! {

broadcast use group_bits16;

// ---------------------------------------------------------------------------
// Engines
// ---------------------------------------------------------------------------

/// Runs all engines on a puzzle and compares: they report the same number of
/// solutions, each finds a solution exactly if there is one, and what it finds
/// is valid. The answer is always yes.
pub fn engines_agree(clues: &[u8; 81], limit: u64) -> (agree: bool)
    requires
        clues_ok(clues@),
    ensures
        agree,
{
    proof {
        assert forall|c: int| 0 <= c < 81 implies #[trigger] clues[c] <= 16 by {
            assert(clues@[c] <= 9);
        }
    }
    let n = baseline::count_solutions(clues, limit);
    if jcz::count_solutions(clues, limit) != n || triad::count_solutions(clues, limit) != n
        || band::count_solutions(clues, limit) != n || simd::count_solutions(clues, limit) != n
        || auto_count_solutions(clues, limit) != n {
        return false;
    }
    let found = baseline::count_solutions(clues, 1) == 1;
    fits_puzzle(&baseline::solve_grid(clues), clues, found) && fits_puzzle(
        &jcz::solve_grid(clues),
        clues,
        found,
    ) && fits_puzzle(&triad::solve_grid(clues), clues, found) && fits_puzzle(
        &band::solve_grid(clues),
        clues,
        found,
    ) && fits_puzzle(&simd::solve_grid(clues), clues, found) && fits_puzzle(
        &auto_solve_grid(clues),
        clues,
        found,
    )
}

/// Whether an answer is a valid solution, or is missing where none is due.
fn fits_puzzle(answer: &Option<[u8; 81]>, clues: &[u8; 81], due: bool) -> (r: bool)
    ensures
        r == (match *answer {
            Some(g) => due && is_solution(g@, clues@),
            None => !due,
        }),
{
    match answer {
        Some(g) => due && is_valid_solution(g, clues),
        None => !due,
    }
}

/// Solves a batch twice, and once more in two parts, and compares: the sum of
/// the checksums and the number of puzzles solved are the same each time. The
/// answer is always yes.
pub fn batches_agree(puzzles: &[[u8; 81]], at: usize, engine: Engine) -> (agree: bool)
    requires
        at <= puzzles@.len(),
        forall|i: int| 0 <= i < puzzles@.len() ==> clues_ok(#[trigger] puzzles@[i]@),
    ensures
        agree,
{
    let first = slice_subrange(puzzles, 0, at);
    let second = slice_subrange(puzzles, at, puzzles.len());
    proof {
        assert(first@ + second@ =~= puzzles@);
        law_batch_parts(first@, second@, engine);
    }
    let whole = solve_batch(puzzles, engine);
    let again = solve_batch(puzzles, engine);
    let parts = merge_results(solve_batch(first, engine), solve_batch(second, engine));
    whole.0 == again.0 && whole.1 == again.1 && whole.0 == parts.0 && whole.1 == parts.1
}

/// If a puzzle has one solution, every solution found is that one.
pub proof fn law_unique_solution(clues: Seq<u8>, g: Seq<u8>, h: Seq<u8>)
    requires
        solution_count(clues) == 1,
        is_solution(g, clues),
        is_solution(h, clues),
    ensures
        g == h,
{
    let s = solutions(clues);
    lemma_grids_finite(s);
    assert(s.contains(g) && s.contains(h));
    if g != h {
        let t = s.remove(g);
        assert(t.contains(h));
        lemma_grids_finite(t);
        lemma_some(t, h);
    }
}

/// If no puzzle of a batch has several solutions, there is one right list of
/// answers.
pub proof fn law_one_list_of_answers(
    puzzles: Seq<[u8; 81]>,
    xs: Seq<Option<Seq<u8>>>,
    ys: Seq<Option<Seq<u8>>>,
)
    requires
        forall|i: int| 0 <= i < puzzles.len() ==> solution_count(#[trigger] puzzles[i]@) <= 1,
        answers(puzzles, xs),
        answers(puzzles, ys),
    ensures
        xs == ys,
{
    assert forall|i: int| 0 <= i < puzzles.len() implies xs[i] == ys[i] by {
        assert(solution_count(puzzles[i]@) <= 1);
        assert(xs[i] is Some <==> ys[i] is Some);
        if let (Some(g), Some(h)) = (xs[i], ys[i]) {
            law_unique_solution(puzzles[i]@, g, h);
        }
    }
    assert(xs =~= ys);
}

/// Solves a batch with two engines and compares the sums of checksums and the
/// numbers of puzzles solved. If no puzzle has several solutions, any two
/// engines answer the same, so the sums and the numbers are the same.
pub fn same_results(puzzles: &[[u8; 81]], a: Engine, b: Engine) -> (same: bool)
    requires
        forall|i: int| 0 <= i < puzzles@.len() ==> clues_ok(#[trigger] puzzles@[i]@),
    ensures
        (forall|i: int| 0 <= i < puzzles@.len() ==> solution_count(#[trigger] puzzles@[i]@) <= 1)
            ==> same && batch_answers(puzzles@, a) == batch_answers(puzzles@, b),
        same <==> batch_sum(batch_answers(puzzles@, a)) == batch_sum(batch_answers(puzzles@, b))
            && batch_count(batch_answers(puzzles@, a)) == batch_count(batch_answers(puzzles@, b)),
{
    let x = solve_batch(puzzles, a);
    let y = solve_batch(puzzles, b);
    proof {
        if forall|i: int|
            0 <= i < puzzles@.len() ==> solution_count(#[trigger] puzzles@[i]@) <= 1 {
            law_one_list_of_answers(
                puzzles@,
                batch_answers(puzzles@, a),
                batch_answers(puzzles@, b),
            );
        }
    }
    x.0 == y.0 && x.1 == y.1
}

/// Counting to two tells a unique solution from none and from several.
pub proof fn law_count_to_two(clues: Seq<u8>)
    ensures
        capped(solution_count(clues) as int, 2) == 0 <==> solution_count(clues) == 0,
        capped(solution_count(clues) as int, 2) == 1 <==> solution_count(clues) == 1,
        capped(solution_count(clues) as int, 2) == 2 <==> solution_count(clues) >= 2,
{
}

/// A count below the limit is exact, and no count is above the limit.
pub proof fn law_limit(clues: Seq<u8>, limit: u64)
    ensures
        capped(solution_count(clues) as int, limit as int) <= limit,
        capped(solution_count(clues) as int, limit as int) < limit ==> capped(
            solution_count(clues) as int,
            limit as int,
        ) == solution_count(clues),
{
}

// ---------------------------------------------------------------------------
// Puzzles
// ---------------------------------------------------------------------------

/// Row `n`, counted from 0, holds digit `d`.
pub open spec fn row_holds(g: Seq<u8>, n: int, d: int) -> bool {
    exists|x: int| 0 <= x < 9 && #[trigger] g[9 * n + x] == d
}

/// Column `n` holds digit `d`.
pub open spec fn column_holds(g: Seq<u8>, n: int, d: int) -> bool {
    exists|y: int| 0 <= y < 9 && #[trigger] g[9 * y + n] == d
}

/// Box `n`, three boxes to a band, holds digit `d`.
pub open spec fn box_holds(g: Seq<u8>, n: int, d: int) -> bool {
    exists|y: int, x: int|
        0 <= y < 3 && 0 <= x < 3 && #[trigger] g[9 * (3 * (n / 3) + y) + (3 * (n % 3) + x)] == d
}

/// Row, column and box `n` hold digit `d`.
pub open spec fn all_hold(g: Seq<u8>, n: int, d: int) -> bool {
    row_holds(g, n, d) && column_holds(g, n, d) && box_holds(g, n, d)
}

/// A solution in plain terms: 81 digits from 1 to 9, equal to the clues where
/// there are any, every digit in every row, every column and every box.
pub proof fn law_solution(g: Seq<u8>, clues: Seq<u8>)
    ensures
        is_solution(g, clues) <==> {
            &&& g.len() == 81
            &&& forall|c: int| 0 <= c < 81 ==> 1 <= #[trigger] g[c] <= 9
            &&& forall|c: int| 0 <= c < 81 && #[trigger] clues[c] != 0 ==> g[c] == clues[c]
            &&& forall|n: int, d: int|
                0 <= n < 9 && 1 <= d <= 9 ==> #[trigger] all_hold(g, n, d)
        },
{
    if is_solution(g, clues) {
        lemma_grid_facts(g);
        assert forall|n: int, d: int| 0 <= n < 9 && 1 <= d <= 9 implies #[trigger] all_hold(
            g,
            n,
            d,
        ) by {
            let i = lemma_unit_has(g, n, d);
            assert(g[9 * n + i] == d);
            let j = lemma_unit_has(g, 9 + n, d);
            assert(g[9 * j + n] == d);
            let k = lemma_unit_has(g, 18 + n, d);
            assert(g[9 * (3 * (n / 3) + k / 3) + (3 * (n % 3) + k % 3)] == d);
        }
    }
    if {
        &&& g.len() == 81
        &&& forall|c: int| 0 <= c < 81 ==> 1 <= #[trigger] g[c] <= 9
        &&& forall|c: int| 0 <= c < 81 && #[trigger] clues[c] != 0 ==> g[c] == clues[c]
        &&& forall|n: int, d: int|
            0 <= n < 9 && 1 <= d <= 9 ==> #[trigger] all_hold(g, n, d)
    } {
        assert forall|u: int, d: int| 0 <= u < 27 && 1 <= d <= 9 implies #[trigger] unit_holds(
            g,
            u,
            d,
        ) by {
            let n = u % 9;
            assert(all_hold(g, n, d));
            if u < 9 {
                let x = choose|x: int| 0 <= x < 9 && #[trigger] g[9 * n + x] == d;
                assert(g[unit_cell(u, x)] == d);
            } else if u < 18 {
                let y = choose|y: int| 0 <= y < 9 && #[trigger] g[9 * y + n] == d;
                assert(g[unit_cell(u, y)] == d);
            } else {
                let (y, x) = choose|y: int, x: int|
                    0 <= y < 3 && 0 <= x < 3 && #[trigger] g[9 * (3 * (n / 3) + y) + (3 * (n % 3)
                        + x)] == d;
                let i = 3 * y + x;
                assert(i / 3 == y && i % 3 == x);
                assert(g[unit_cell(u, i)] == d);
            }
        }
        lemma_grid_from_units(g);
    }
}

/// The same digit twice in a row, a column or a box leaves no solution.
pub proof fn law_conflict(clues: Seq<u8>, a: int, b: int)
    requires
        0 <= a < 81,
        0 <= b < 81,
        peers(a, b),
        clues[a] == clues[b],
        clues[a] != 0,
    ensures
        solution_count(clues) == 0,
{
    assert forall|g: Seq<u8>| !#[trigger] solutions(clues).contains(g) by {
        if is_solution(g, clues) {
            lemma_grid_facts(g);
            assert(g[a] == clues[a] && g[b] == clues[b]);
        }
    }
    lemma_none(solutions(clues));
}

/// Blanking clues never loses a solution.
pub proof fn law_fewer_clues(more: Seq<u8>, fewer: Seq<u8>)
    requires
        has_clues_of(more, fewer),
    ensures
        forall|g: Seq<u8>| is_solution(g, more) ==> is_solution(g, fewer),
        solution_count(more) <= solution_count(fewer),
{
    lemma_fewer_clues(more, fewer);
    assert forall|g: Seq<u8>| is_solution(g, more) implies is_solution(g, fewer) by {
        assert(solutions(more).contains(g));
        assert(solutions(fewer).contains(g));
    }
}

/// Clues added from the only solution leave it the only solution.
pub proof fn law_more_clues_of_solution(clues: Seq<u8>, more: Seq<u8>, g: Seq<u8>)
    requires
        solution_count(clues) == 1,
        is_solution(g, clues),
        has_clues_of(more, clues),
        has_clues_of(g, more),
    ensures
        is_solution(g, more),
        solution_count(more) == 1,
{
    lemma_fewer_clues(more, clues);
    assert(is_solution(g, more)) by {
        assert forall|c: int| 0 <= c < 81 && #[trigger] more[c] != 0 implies g[c] == more[c] by {}
    }
    lemma_grids_finite(solutions(more));
    lemma_some(solutions(more), g);
}

/// A complete grid has itself as its only solution.
pub proof fn law_complete_grid(g: Seq<u8>)
    requires
        is_grid(g),
    ensures
        is_solution(g, g),
        solution_count(g) == 1,
{
    lemma_grid_alone(g);
    assert forall|c: int| 0 <= c < 81 && #[trigger] g[c] != 0 implies g[c] == g[c] by {}
}

/// The empty puzzle has more than one solution.
pub proof fn law_empty_puzzle(clues: Seq<u8>)
    requires
        clues.len() == 81,
        forall|c: int| 0 <= c < 81 ==> #[trigger] clues[c] == 0,
    ensures
        solution_count(clues) >= 2,
{
    let g = canonical_grid();
    let h = Seq::new(81, |c: int| (10 - g[c]) as u8);
    lemma_canonical_grid();
    lemma_grid_facts(g);
    assert(is_grid(h)) by {
        reveal(is_grid);
        assert forall|a: int, b: int| 0 <= a < 81 && 0 <= b < 81 && peers(a, b) implies
            #[trigger] h[a] != #[trigger] h[b] by {
            assert(g[a] != g[b]);
            assert(1 <= g[a] <= 9 && 1 <= g[b] <= 9);
        }
        assert forall|c: int| 0 <= c < 81 implies 1 <= #[trigger] h[c] <= 9 by {
            assert(1 <= g[c] <= 9);
        }
    }
    let s = solutions(clues);
    assert(is_solution(g, clues) && is_solution(h, clues));
    assert(s.contains(g) && s.contains(h));
    lemma_some(s, g);
    if s.len() == 1 {
        law_unique_solution(clues, g, h);
        assert(canonical_digit(0) == 0);
        assert(g[0] == 1 && h[0] == 9);
    }
}

// ---------------------------------------------------------------------------
// Symmetries
// ---------------------------------------------------------------------------

/// Solutions that correspond one to one are equally many.
proof fn lemma_same_count(
    a: Seq<u8>,
    b: Seq<u8>,
    f: spec_fn(Seq<u8>) -> Seq<u8>,
    h: spec_fn(Seq<u8>) -> Seq<u8>,
)
    requires
        forall|g: Seq<u8>| #[trigger] is_solution(g, a) ==> is_solution(f(g), b) && h(f(g)) == g,
        forall|g: Seq<u8>| #[trigger] is_solution(g, b) ==> is_solution(h(g), a) && f(h(g)) == g,
    ensures
        solution_count(a) == solution_count(b),
{
    let (x, y) = (solutions(a), solutions(b));
    lemma_grids_finite(x);
    assert(x.map(f) =~= y) by {
        assert forall|g: Seq<u8>| x.map(f).contains(g) == y.contains(g) by {
            if x.map(f).contains(g) {
                let k = choose|k: Seq<u8>| x.contains(k) && f(k) == g;
                assert(is_solution(k, a));
            }
            if y.contains(g) {
                assert(is_solution(g, b));
                assert(x.contains(h(g)) && f(h(g)) == g);
            }
        }
    }
    assert(injective_on(f, x)) by {
        assert forall|k: Seq<u8>, m: Seq<u8>|
            x.contains(k) && x.contains(m) && #[trigger] f(k) == #[trigger] f(m) implies k == m by {
            assert(is_solution(k, a) && is_solution(m, a));
            assert(h(f(k)) == k && h(f(m)) == m);
        }
    }
    lemma_map_size(x, y, f);
}

/// `to` and `from` rename the digits 1 to 9 and undo each other; entry `d - 1`
/// is the new name of `d`.
pub open spec fn renaming(to: Seq<u8>, from: Seq<u8>) -> bool {
    &&& to.len() == 9
    &&& from.len() == 9
    &&& forall|i: int| 0 <= i < 9 ==> 1 <= #[trigger] to[i] <= 9 && from[to[i] - 1] == i + 1
    &&& forall|i: int| 0 <= i < 9 ==> 1 <= #[trigger] from[i] <= 9 && to[from[i] - 1] == i + 1
}

/// The grid or puzzle with its digits renamed; a blank stays a blank.
pub open spec fn renamed(g: Seq<u8>, to: Seq<u8>) -> Seq<u8> {
    Seq::new(
        g.len(),
        |c: int|
            if g[c] == 0 {
                0u8
            } else {
                to[g[c] - 1]
            },
    )
}

proof fn lemma_renamed(g: Seq<u8>, clues: Seq<u8>, to: Seq<u8>, from: Seq<u8>)
    requires
        clues_ok(clues),
        renaming(to, from),
        is_solution(g, clues),
    ensures
        is_solution(renamed(g, to), renamed(clues, to)),
        renamed(renamed(g, to), from) == g,
{
    let r = renamed(g, to);
    lemma_grid_facts(g);
    assert forall|c: int| 0 <= c < 81 implies 1 <= #[trigger] r[c] <= 9 && from[r[c] - 1] == g[c] by {
        assert(1 <= g[c] <= 9);
        assert(to[g[c] - 1] == r[c]);
    }
    assert(is_grid(r)) by {
        reveal(is_grid);
        assert forall|a: int, b: int| 0 <= a < 81 && 0 <= b < 81 && peers(a, b) implies
            #[trigger] r[a] != #[trigger] r[b] by {
            assert(g[a] != g[b]);
            assert(from[r[a] - 1] == g[a] && from[r[b] - 1] == g[b]);
        }
    }
    let k = renamed(clues, to);
    assert forall|c: int| 0 <= c < 81 && #[trigger] k[c] != 0 implies r[c] == k[c] by {
        assert(clues[c] <= 9);
        assert(g[c] == clues[c]);
    }
    assert(renamed(r, from) =~= g) by {
        assert forall|c: int| 0 <= c < 81 implies renamed(r, from)[c] == g[c] by {
            assert(1 <= r[c] <= 9);
        }
    }
}

/// Renaming the digits of a puzzle changes nothing about how many solutions
/// it has.
pub proof fn law_renamed_digits(clues: Seq<u8>, to: Seq<u8>, from: Seq<u8>)
    requires
        clues_ok(clues),
        renaming(to, from),
    ensures
        solution_count(renamed(clues, to)) == solution_count(clues),
{
    let k = renamed(clues, to);
    let f = |g: Seq<u8>| renamed(g, to);
    let h = |g: Seq<u8>| renamed(g, from);
    assert forall|c: int| 0 <= c < 81 implies #[trigger] k[c] <= 9 by {
        assert(clues[c] <= 9);
        if clues[c] != 0 {
            assert(1 <= to[clues[c] - 1] <= 9);
        }
    }
    assert(renaming(from, to));
    assert(renamed(k, from) =~= clues) by {
        assert forall|c: int| 0 <= c < 81 implies renamed(k, from)[c] == clues[c] by {
            assert(clues[c] <= 9);
            if clues[c] != 0 {
                assert(1 <= to[clues[c] - 1] <= 9);
            }
        }
    }
    assert forall|g: Seq<u8>| #[trigger] is_solution(g, clues) implies is_solution(f(g), k) && h(
        f(g),
    ) == g by {
        lemma_renamed(g, clues, to, from);
    }
    assert forall|g: Seq<u8>| #[trigger] is_solution(g, k) implies is_solution(h(g), clues) && f(
        h(g),
    ) == g by {
        lemma_renamed(g, k, from, to);
    }
    lemma_same_count(clues, k, f, h);
}

/// The cell with row and column exchanged.
pub open spec fn mirror(c: int) -> int {
    9 * (c % 9) + c / 9
}

/// The grid or puzzle with rows and columns exchanged.
pub open spec fn transposed(g: Seq<u8>) -> Seq<u8> {
    Seq::new(81, |c: int| g[mirror(c)])
}

proof fn lemma_mirror(c: int)
    requires
        0 <= c < 81,
    ensures
        0 <= mirror(c) < 81,
        mirror(mirror(c)) == c,
        row_of(mirror(c)) == col_of(c),
        col_of(mirror(c)) == row_of(c),
{
    let (r, x) = (c / 9, c % 9);
    let m = 9 * x + r;
    assert(m / 9 == x && m % 9 == r);
}

proof fn lemma_mirror_peers(a: int, b: int)
    requires
        0 <= a < 81,
        0 <= b < 81,
        peers(a, b),
    ensures
        peers(mirror(a), mirror(b)),
{
    lemma_mirror(a);
    lemma_mirror(b);
    lemma_cell_coords(a / 9, a % 9);
    lemma_cell_coords(b / 9, b % 9);
    lemma_cell_coords(a % 9, a / 9);
    lemma_cell_coords(b % 9, b / 9);
    if row_of(a) != row_of(b) && col_of(a) != col_of(b) {
        assert(row_of(a) / 3 == row_of(b) / 3 && col_of(a) / 3 == col_of(b) / 3);
    }
}

proof fn lemma_transposed(g: Seq<u8>, clues: Seq<u8>)
    requires
        clues.len() == 81,
        is_solution(g, clues),
    ensures
        is_solution(transposed(g), transposed(clues)),
        transposed(transposed(g)) == g,
{
    let r = transposed(g);
    lemma_grid_facts(g);
    assert(is_grid(r)) by {
        reveal(is_grid);
        assert forall|c: int| 0 <= c < 81 implies 1 <= #[trigger] r[c] <= 9 by {
            lemma_mirror(c);
            assert(1 <= g[mirror(c)] <= 9);
        }
        assert forall|a: int, b: int| 0 <= a < 81 && 0 <= b < 81 && peers(a, b) implies
            #[trigger] r[a] != #[trigger] r[b] by {
            lemma_mirror(a);
            lemma_mirror(b);
            lemma_mirror_peers(a, b);
            assert(g[mirror(a)] != g[mirror(b)]);
        }
    }
    let k = transposed(clues);
    assert forall|c: int| 0 <= c < 81 && #[trigger] k[c] != 0 implies r[c] == k[c] by {
        lemma_mirror(c);
        assert(clues[mirror(c)] != 0);
    }
    assert(transposed(r) =~= g) by {
        assert forall|c: int| 0 <= c < 81 implies transposed(r)[c] == g[c] by {
            lemma_mirror(c);
        }
    }
}

/// Exchanging rows and columns of a puzzle changes nothing about how many
/// solutions it has.
pub proof fn law_transposed(clues: Seq<u8>)
    requires
        clues.len() == 81,
    ensures
        solution_count(transposed(clues)) == solution_count(clues),
{
    let k = transposed(clues);
    let f = |g: Seq<u8>| transposed(g);
    assert(transposed(k) =~= clues) by {
        assert forall|c: int| 0 <= c < 81 implies transposed(k)[c] == clues[c] by {
            lemma_mirror(c);
        }
    }
    assert forall|g: Seq<u8>| #[trigger] is_solution(g, clues) implies is_solution(f(g), k) && f(
        f(g),
    ) == g by {
        lemma_transposed(g, clues);
    }
    assert forall|g: Seq<u8>| #[trigger] is_solution(g, k) implies is_solution(f(g), clues) && f(
        f(g),
    ) == g by {
        lemma_transposed(g, k);
    }
    lemma_same_count(clues, k, f, f);
}

// ---------------------------------------------------------------------------
// Runs and tables
// ---------------------------------------------------------------------------

/// A run that is not deferred ends in the same way under a larger difficulty
/// threshold and a larger guess budget.
pub proof fn law_larger_allowance(
    clues: Seq<u8>,
    limit: int,
    max_unsolved: int,
    budget: int,
    more_unsolved: int,
    more_budget: int,
)
    requires
        max_unsolved <= more_unsolved,
        budget <= more_budget <= UNBOUNDED,
        run_of(clues, limit, max_unsolved, budget) is Some,
    ensures
        run_of(clues, limit, more_unsolved, more_budget) == run_of(
            clues,
            limit,
            max_unsolved,
            budget,
        ),
{
    if exists|v: Seq<u32>| #[trigger] starting(v, clues) {
        let v = choose|v: Seq<u32>| #[trigger] starting(v, clues);
        lemma_descended_more(v, fresh_course(), limit, budget, more_budget);
    }
}

/// A puzzle that the propagation solves alone is never deferred.
pub proof fn law_solved_is_not_deferred(
    clues: Seq<u8>,
    limit: int,
    max_unsolved: int,
    budget: int,
)
    requires
        left_open(clues, 0),
        max_unsolved >= 0,
    ensures
        run_of(clues, limit, max_unsolved, budget) is Some,
{
    let (bs, v) = choose|bs: Seq<u32>, v: Seq<u32>|
        starts(bs, clues) && #[trigger] is_closure(v, bs) && open_count(v) == 0;
    assert(starting(v, clues));
    let u = choose|u: Seq<u32>| #[trigger] starting(u, clues);
    lemma_starting_once(clues, u, v);
    assert(decided(v)) by {
        assert forall|b: int, p: int| 0 <= b < 3 && 0 <= p < 27 implies !#[trigger] undecided(
            v,
            b,
            p,
        ) by {
            if undecided(v, b, p) {
                lemma_count_some(|p: int| undecided(v, b, p), 27, p);
            }
        }
    }
}

/// A pattern that elimination leaves alone, line by line and box by box, is
/// the union of its permutations.
pub proof fn law_elimination_is_exact(s: u16)
    requires
        s <= 0x1FF,
        forall|r: int| 0 <= r < 3 ==> #[trigger] line_stable(s, r),
        forall|j: int| 0 <= j < 3 ==> #[trigger] box_stable(s, j),
    ensures
        forall|i: int| #[trigger] bit16(s, i) <==> closed_at(s, i),
{
    lemma_stable(s);
}

/// The table of supported minirows and the table of closures by elimination
/// are the same, and forced minirows are supported ones.
pub proof fn law_support_tables(support: Seq<u16>, complex: Seq<u16>, forced: Seq<u16>, s: int)
    requires
        0 <= s < 512,
        forall|i: int| #[trigger] bit16(support[s], i) <==> closed_at(s as u16, i),
        forall|i: int| #[trigger] bit16(complex[s], i) <==> closed_at(s as u16, i),
        forall|i: int| #[trigger] bit16(forced[s], i) <==> forced_at(s as u16, i),
    ensures
        support[s] == complex[s],
        forced[s] & !support[s] == 0,
{
    let (x, y, z) = (support[s], complex[s], forced[s]);
    assert forall|i: int| 0 <= i < 16 implies bit16(x, i) == bit16(y, i) by {}
    lemma_ext16(x, y);
    let out = z & !x;
    if out != 0 {
        let i = lemma_nonzero16(out);
        assert(bit16(z, i) && !bit16(x, i));
        assert(forced_at(s as u16, i));
        let k = choose|k: int| #[trigger] fits(s as u16, k);
        assert(in_perm(k, i));
    }
}

/// The state of the generator decides the random grid, and the random puzzle
/// that is made of it.
pub proof fn law_seed_decides(
    x: u64,
    g: Seq<u8>,
    y: u64,
    h: Seq<u8>,
    z: u64,
    p: Seq<u8>,
    q: Seq<u8>,
)
    requires
        fill(all_open(), every_mark(), x) == (Some(g), y),
        fill(all_open(), every_mark(), x) == (Some(h), z),
        comes_of(p, g, y),
        comes_of(q, h, z),
    ensures
        g == h,
        y == z,
        p == q,
{
}

// ---------------------------------------------------------------------------
// Text
// ---------------------------------------------------------------------------

/// A line in which every character is a cell is read character by character.
proof fn lemma_read_cells(s: Seq<char>)
    requires
        forall|i: int| 0 <= i < s.len() ==> cell_value(#[trigger] s[i]) is Some,
    ensures
        cell_chars(s) == s,
    decreases s.len(),
{
    reveal(Seq::filter);
    if s.len() > 0 {
        let t = s.drop_last();
        assert forall|i: int| 0 <= i < t.len() implies cell_value(#[trigger] t[i]) is Some by {
            assert(t[i] == s[i]);
        }
        lemma_read_cells(t);
        assert(cell_value(s.last()) is Some) by {
            assert(s[s.len() - 1] == s.last());
        }
        assert(t.push(s.last()) =~= s);
    } else {
        assert(cell_chars(s) =~= s);
    }
}

/// Reading a written puzzle gives it back, whether blanks are written as
/// zeros or as dots.
pub proof fn law_round_trip(g: Seq<u8>)
    requires
        clues_ok(g),
    ensures
        parsed(line_of(g)) == Some(g),
        parsed(dotted_line_of(g)) == Some(g),
{
    let a = line_of(g);
    let b = dotted_line_of(g);
    assert forall|i: int| 0 <= i < 81 implies cell_value(#[trigger] a[i]) == Some(g[i]) by {
        assert(g[i] <= 9);
    }
    assert forall|i: int| 0 <= i < 81 implies cell_value(#[trigger] b[i]) == Some(g[i]) by {
        assert(g[i] <= 9);
    }
    lemma_read_cells(a);
    lemma_read_cells(b);
    assert(all_cells(a) && all_cells(b));
    assert(parsed(a)->0 =~= g);
    assert(parsed(b)->0 =~= g);
}

/// White space anywhere in a line makes no difference.
pub proof fn law_white_space(s: Seq<char>, t: Seq<char>, c: char)
    requires
        is_white(c),
    ensures
        parsed(s + seq![c] + t) == parsed(s + t),
{
    let keep = |x: char| !is_white(x);
    Seq::filter_distributes_over_add(s + seq![c], t, keep);
    Seq::filter_distributes_over_add(s, seq![c], keep);
    Seq::filter_distributes_over_add(s, t, keep);
    reveal_with_fuel(Seq::filter, 2);
    assert(seq![c].drop_last() =~= Seq::<char>::empty());
    assert(seq![c].filter(keep) =~= Seq::<char>::empty());
    assert(cell_chars(s + seq![c] + t) =~= cell_chars(s + t));
}

/// What is read is made of clues.
pub proof fn law_read_clues(s: Seq<char>)
    ensures
        parsed(s) matches Some(g) ==> clues_ok(g),
{
    if let Some(g) = parsed(s) {
        let k = cell_chars(s);
        assert forall|c: int| 0 <= c < 81 implies #[trigger] g[c] <= 9 by {
            assert(cell_value(k[c]) is Some);
        }
    }
}

// ---------------------------------------------------------------------------
// Shuffling
// ---------------------------------------------------------------------------

/// Replacing one element exchanges it in the multiset.
proof fn lemma_update_multiset(s: Seq<u8>, i: int, v: u8)
    requires
        0 <= i < s.len(),
    ensures
        s.update(i, v).to_multiset() =~= s.to_multiset().remove(s[i]).insert(v),
{
    let t = s.update(i, v);
    assert(t.remove(i) =~= s.remove(i));
    to_multiset_remove(s, i);
    to_multiset_remove(t, i);
    t.to_multiset_ensures();
    assert(t.contains(t[i]));
    let m = t.to_multiset();
    assert(m.count(v) > 0);
    assert(m.remove(v).insert(v) =~= m);
}

/// A shuffle is a permutation.
pub proof fn law_shuffle_permutes(s: Seq<u8>, i: int, x: u64)
    requires
        i < s.len(),
    ensures
        shuffled(s, i, x).to_multiset() == s.to_multiset(),
    decreases i,
{
    if i > 0 {
        let y = xorshift(x);
        let j = y as int % (i + 1);
        let u = s.update(i, s[j]);
        let w = swapped(s, i, j);
        law_shuffle_permutes(w, i - 1, y);
        lemma_update_multiset(s, i, s[j]);
        lemma_update_multiset(u, j, s[i]);
        s.to_multiset_ensures();
        assert(s.contains(s[i]) && s.contains(s[j]));
        let m = s.to_multiset();
        assert(m.count(s[i]) > 0 && m.count(s[j]) > 0);
        if i == j {
            assert(w =~= s);
        } else {
            assert(u[j] == s[j]);
            assert(w.to_multiset() =~= m.remove(s[i]).insert(s[j]).remove(s[j]).insert(s[i]));
            assert(w.to_multiset() =~= m);
        }
    }
}

// ---------------------------------------------------------------------------
// Random grids
// ---------------------------------------------------------------------------

/// The canonical grid with every digit moved on by `d`.
spec fn moved_grid(d: int) -> Seq<u8> {
    Seq::new(81, |c: int| ((canonical_digit(c) + d) % 9 + 1) as u8)
}

/// Moving the digits on keeps a grid complete.
proof fn lemma_moved_grid(d: int)
    requires
        0 <= d < 9,
    ensures
        is_grid(moved_grid(d)),
        moved_grid(d)[0] == d + 1,
{
    let h = moved_grid(d);
    assert forall|a: int, b: int| 0 <= a < 81 && 0 <= b < 81 && peers(a, b) implies #[trigger] h[a]
        != #[trigger] h[b] by {
        lemma_canonical_peers(a, b);
        lemma_rem9(canonical_digit(a) + d, canonical_digit(b) + d);
    }
    assert(canonical_digit(0) == 0);
    assert(is_grid(h)) by {
        reveal(is_grid);
    }
}

/// A random fill ends within the candidates it starts from.
pub proof fn lemma_filled_within(cand: Seq<u16>, x: u64, g: Seq<u8>, y: u64, depth: nat)
    requires
        cand.len() == 81,
        filled(cand, x, g, y, depth),
    ensures
        forall|c: int| 0 <= c < 81 ==> bit16(cand[c], #[trigger] g[c] - 1),
    decreases depth,
{
    if depth > 0 {
        let (c, list, n, k, next, z) = choose|
            c: int,
            list: Seq<u8>,
            n: int,
            k: int,
            next: Seq<u16>,
            z: u64,
        | #[trigger]
            guessed(cand, x, c, list, n, k, next, z) && filled(next, z, g, y, (depth - 1) as nat);
        let order = shuffled(list, n - 1, x);
        lemma_filled_within(next, z, g, y, (depth - 1) as nat);
        lemma_shuffled(list, n - 1, x, n);
        assert(listed(order, 0, n, order[k] as int));
        assert(listed(list, 0, n, order[k] as int));
        assert(bit16(cand[c], order[k] as int));
        let step = cand.update(c, 1u16 << (order[k] as u16));
        assert forall|e: int| 0 <= e < 81 implies bit16(cand[e], #[trigger] g[e] - 1) by {
            assert(sub_cell(next[e], step[e]));
            assert(bit16(next[e], g[e] - 1));
            assert(bit16(step[e], g[e] - 1));
            if e == c {
                lemma_listed_digit(list, n, order[k] as int);
                assert(g[e] - 1 == order[k]);
            }
        }
    } else {
        assert forall|c: int| 0 <= c < 81 implies bit16(cand[c], #[trigger] g[c] - 1) by {
            assert(only(cand[c], g[c] - 1));
        }
    }
}

/// A listed digit is a digit.
pub proof fn lemma_listed_digit(list: Seq<u8>, n: int, d: int)
    requires
        ascending(list, n),
        listed(list, 0, n, d),
    ensures
        0 <= d < 9,
{
    let k = choose|k: int| 0 <= k < n && #[trigger] list[k] == d;
    assert(list[k] < 9);
}

/// All nine digits in increasing order.
pub open spec fn nine_digits() -> Seq<u8> {
    Seq::new(9, |i: int| i as u8)
}

/// Nine digits in increasing order are all of them.
proof fn lemma_nine_digits(list: Seq<u8>, n: int, i: int)
    requires
        list.len() == 9,
        ascending(list, n),
        forall|d: int| 0 <= d < 9 ==> #[trigger] listed(list, 0, n, d),
        0 <= i < 9,
    ensures
        i < n,
        list[i] == i,
    decreases i,
{
    assert(listed(list, 0, n, i));
    let k = choose|k: int| 0 <= k < n && #[trigger] list[k] == i;
    if i > 0 {
        lemma_nine_digits(list, n, i - 1);
        if k < i - 1 {
            assert(list[k] < list[i - 1]);
        }
        assert(k >= i);
        assert(list[i - 1] < list[i]);
    }
    if k > i {
        assert(list[i] < list[k]);
    }
}

/// The first cell of a random grid holds the digit that a shuffle of the nine
/// digits puts first.
pub proof fn law_first_cell(x: u64, g: Seq<u8>, y: u64, depth: nat)
    requires
        filled(all_open(), x, g, y, depth),
    ensures
        g[0] == shuffled(nine_digits(), 8, x)[0] + 1,
{
    let cand = all_open();
    lemma_low_masks16();
    assert(!single(cand[0])) by {
        if single(cand[0]) {
            let d = choose|d: int| #[trigger] only(cand[0], d);
            assert(bit16(cand[0], 0) && bit16(cand[0], 1));
        }
    }
    if depth == 0 {
        assert(only(cand[0], g[0] - 1));
    } else {
        let (c, list, n, k, next, z) = choose|
            c: int,
            list: Seq<u8>,
            n: int,
            k: int,
            next: Seq<u16>,
            z: u64,
        | #[trigger]
            guessed(cand, x, c, list, n, k, next, z) && filled(next, z, g, y, (depth - 1) as nat);
        assert(cand[0] == cand[c]);
        assert(c == 0);
        assert forall|d: int| 0 <= d < 9 implies #[trigger] listed(list, 0, n, d) by {
            assert(bit16(cand[0], d));
        }
        assert forall|i: int| 0 <= i < 9 implies list[i] == i && i < n by {
            lemma_nine_digits(list, n, i);
        }
        assert(list =~= nine_digits());
        lemma_nine_digits(list, n, 8);
        assert(n == 9);
        let order = shuffled(list, 8, x);
        lemma_shuffled(list, 8, x, 9);
        assert(listed(order, 0, 9, order[0] as int));
        assert(listed(list, 0, 9, order[0] as int));
        lemma_listed_digit(list, 9, order[0] as int);
        let step = cand.update(0, 1u16 << (order[0] as u16));
        let h = moved_grid(order[0] as int);
        lemma_moved_grid(order[0] as int);
        lemma_grid_facts(h);
        assert(admits(step, h)) by {
            reveal(admits);
            assert forall|e: int| 0 <= e < 81 implies bit16(step[e], #[trigger] h[e] - 1) by {
                assert(bit16(ALL, h[e] - 1));
            }
        }
        assert(cell_solutions(step).contains(h));
        lemma_some(cell_solutions(step), h);
        assert(k == 0);
        lemma_filled_within(next, z, g, y, (depth - 1) as nat);
        assert(sub_cell(next[0], step[0]));
        assert(bit16(next[0], g[0] - 1));
        assert(bit16(step[0], g[0] - 1));
    }
}

} // verus!
