//! Routing puzzles between the engines, and solving them in batches.

use vstd::prelude::*;
use crate::band::{self, band_first};
use crate::baseline;
use crate::baseline::first::first_found;
use crate::grid::{capped, clues_ok, is_solution, solution_count};
use crate::jcz::course::Course;
use crate::jcz::{self, full_run, run_of, Outcome};
use crate::laws::sums::{law_checksum, law_verdicts, weighed};
use crate::rest::{lemma_spelled, spelled};
use crate::simd::{self, simd_first};
use crate::triad;
use crate::triad::start::triad_first;

verus! {

/// Difficulty threshold of the hybrid: a puzzle still this many cells from solved
/// when the propagation of `jcz` stalls belongs to the triad engine.
pub const HYBRID_MAX_UNSOLVED: u32 = 50;

/// Guess budget of the hybrid: a safety valve for puzzles under the threshold
/// that search deep anyway.
pub const HYBRID_GUESS_BUDGET: u32 = 16;

/// How a run of `jcz` under the limits of the hybrid ends.
pub open spec fn hybrid_run(clues: Seq<u8>, limit: int) -> Option<Course> {
    run_of(clues, limit, HYBRID_MAX_UNSOLVED as int, HYBRID_GUESS_BUDGET as int)
}

/// The solution that a run of `jcz` to one solution ends with.
pub open spec fn course_found(c: Course) -> Option<Seq<u8>> {
    if c.count > 0 {
        Some(spelled(c.first))
    } else {
        None
    }
}

/// The digits of an answer.
pub open spec fn digits_of(r: Option<[u8; 81]>) -> Option<Seq<u8>> {
    match r {
        Some(g) => Some(g@),
        None => None,
    }
}

/// The answer to a puzzle after `jcz` had its turn: its own, or that of the
/// triad engine if it deferred.
pub fn solve_after(first: Outcome, clues: &[u8; 81]) -> (r: Option<[u8; 81]>)
    requires
        clues_ok(clues@),
    ensures
        first matches Outcome::Done(_, sol) ==> r == sol,
        first is Deferred ==> (r is Some <==> solution_count(clues@) > 0) && (r matches Some(g)
            ==> is_solution(g@, clues@)),
        first is Deferred ==> digits_of(r) == triad_first(clues@),
{
    match first {
        Outcome::Done(_, sol) => sol,
        Outcome::Deferred => triad::solve_grid(clues),
    }
}

/// The number of solutions after `jcz` had its turn: the one it found, or that
/// of the triad engine if it deferred.
pub fn count_after(first: Outcome, clues: &[u8; 81], limit: u64) -> (n: u64)
    requires
        clues_ok(clues@),
    ensures
        first matches Outcome::Done(m, _) ==> n == m,
        first is Deferred ==> n == capped(solution_count(clues@) as int, limit as int),
{
    match first {
        Outcome::Done(m, _) => m,
        Outcome::Deferred => triad::count_solutions(clues, limit),
    }
}

/// The solution that the hybrid finds first: that of `jcz` if its run ends
/// within the limits, else that of the triad engine.
pub open spec fn auto_first(clues: Seq<u8>) -> Option<Seq<u8>> {
    match hybrid_run(clues, 1) {
        Some(c) => course_found(c),
        None => triad_first(clues),
    }
}

/// Solves a puzzle with the engine that suits it: `jcz` propagates to its
/// fixpoint and finishes the puzzle unless it is still far from solved, or
/// the guess budget runs out; the triad engine takes those.
pub fn auto_solve_grid(clues: &[u8; 81]) -> (r: Option<[u8; 81]>)
    requires
        clues_ok(clues@),
    ensures
        r is Some <==> solution_count(clues@) > 0,
        r matches Some(g) ==> is_solution(g@, clues@),
        digits_of(r) == auto_first(clues@),
{
    let first = jcz::run(clues, 1, HYBRID_MAX_UNSOLVED, HYBRID_GUESS_BUDGET);
    proof {
        if let Outcome::Done(_, Some(g)) = first {
            lemma_spelled(hybrid_run(clues@, 1)->0.first, g@);
        }
    }
    solve_after(first, clues)
}

/// Counts solutions up to `limit` with the engine that suits the puzzle; see
/// [`auto_solve_grid`].
pub fn auto_count_solutions(clues: &[u8; 81], limit: u64) -> (n: u64)
    requires
        clues_ok(clues@),
    ensures
        n == capped(solution_count(clues@) as int, limit as int),
{
    count_after(
        jcz::run(clues, limit, HYBRID_MAX_UNSOLVED, HYBRID_GUESS_BUDGET),
        clues,
        limit,
    )
}

/// How many solutions a puzzle has.
#[derive(Clone, Copy, PartialEq, Eq, Debug, Structural)]
pub enum Verdict {
    Unsolvable,
    Unique,
    Multiple,
}

/// Tells puzzles without, with one and with several solutions apart.
pub fn classify(clues: &[u8; 81]) -> (v: Verdict)
    requires
        clues_ok(clues@),
    ensures
        v is Unsolvable <==> solution_count(clues@) == 0,
        v is Unique <==> solution_count(clues@) == 1,
        v is Multiple <==> solution_count(clues@) >= 2,
{
    match auto_count_solutions(clues, 2) {
        0 => Verdict::Unsolvable,
        1 => Verdict::Unique,
        _ => Verdict::Multiple,
    }
}

/// The engines a batch can be solved with.
#[derive(Clone, Copy, PartialEq, Eq, Debug, Structural)]
pub enum Engine {
    Auto,
    Jcz,
    Triad,
    Band,
    Simd,
    Baseline,
}

/// The solution that an engine finds first, if there is one.
#[verifier::opaque]
pub open spec fn answer_of(engine: Engine, clues: Seq<u8>) -> Option<Seq<u8>> {
    match engine {
        Engine::Auto => auto_first(clues),
        Engine::Jcz => course_found(full_run(clues, 1)),
        Engine::Triad => triad_first(clues),
        Engine::Band => band_first(clues),
        Engine::Simd => simd_first(clues),
        Engine::Baseline => first_found(clues),
    }
}

/// Solves a puzzle with the given engine.
pub fn solve_with(engine: Engine, clues: &[u8; 81]) -> (r: Option<[u8; 81]>)
    requires
        clues_ok(clues@),
    ensures
        r is Some <==> solution_count(clues@) > 0,
        r matches Some(g) ==> is_solution(g@, clues@),
        digits_of(r) == answer_of(engine, clues@),
{
    proof {
        reveal(answer_of);
    }
    match engine {
        Engine::Auto => auto_solve_grid(clues),
        Engine::Jcz => {
            let r = jcz::solve_grid(clues);
            proof {
                if let Some(g) = r {
                    lemma_spelled(full_run(clues@, 1).first, g@);
                }
            }
            r
        },
        Engine::Triad => triad::solve_grid(clues),
        Engine::Band => band::solve_grid(clues),
        Engine::Simd => simd::solve_grid(clues),
        Engine::Baseline => {
            assert forall|c: int| 0 <= c < 81 implies #[trigger] clues[c] <= 16 by {
                assert(clues@[c] <= 9);
            }
            baseline::solve_grid(clues)
        },
    }
}

/// The digits as the coefficients of a polynomial in 31, modulo 2^64.
pub open spec fn checksum_of(s: Seq<u8>) -> u64
    decreases s.len(),
{
    if s.len() == 0 {
        0
    } else {
        ((checksum_of(s.drop_last()) * 31 + s.last()) % 0x1_0000_0000_0000_0000) as u64
    }
}

/// A cheap fold of a solution, to compare runs by.
pub fn checksum(sol: &[u8; 81]) -> (a: u64)
    ensures
        a == checksum_of(sol@),
        a == weighed(sol@, 81) % 0x1_0000_0000_0000_0000,
{
    let mut a: u64 = 0;
    let mut i: usize = 0;
    while i < 81
        invariant
            i <= 81,
            a == checksum_of(sol@.take(i as int)),
        decreases 81 - i,
    {
        proof {
            let t = sol@.take(i + 1);
            assert(t.drop_last() =~= sol@.take(i as int));
            assert(t.last() == sol@[i as int]);
            let m = 0x1_0000_0000_0000_0000int;
            let x = a as int * 31;
            assert((x % m + sol@[i as int]) % m == (x + sol@[i as int]) % m);
        }
        a = a.wrapping_mul(31).wrapping_add(sol[i] as u64);
        i = i + 1;
    }
    proof {
        assert(sol@.take(81) =~= sol@);
        law_checksum(sol@);
    }
    a
}

/// One answer per puzzle: a solution exactly where there is one.
pub open spec fn answers(puzzles: Seq<[u8; 81]>, sols: Seq<Option<Seq<u8>>>) -> bool {
    &&& sols.len() == puzzles.len()
    &&& forall|i: int|
        0 <= i < sols.len() ==> {
            &&& #[trigger] sols[i] is Some <==> solution_count(puzzles[i]@) > 0
            &&& sols[i] matches Some(g) ==> is_solution(g, puzzles[i]@)
        }
}

/// What an engine answers to the puzzles of a batch.
pub open spec fn batch_answers(puzzles: Seq<[u8; 81]>, engine: Engine) -> Seq<Option<Seq<u8>>> {
    Seq::new(puzzles.len(), |i: int| answer_of(engine, puzzles[i]@))
}

/// The sum of the answers' checksums, modulo 2^64.
pub open spec fn batch_sum(sols: Seq<Option<Seq<u8>>>) -> u64
    decreases sols.len(),
{
    if sols.len() == 0 {
        0
    } else {
        let rest = batch_sum(sols.drop_last());
        match sols.last() {
            Some(g) => ((rest + checksum_of(g)) % 0x1_0000_0000_0000_0000) as u64,
            None => rest,
        }
    }
}

/// How many puzzles have an answer.
pub open spec fn batch_count(sols: Seq<Option<Seq<u8>>>) -> nat
    decreases sols.len(),
{
    if sols.len() == 0 {
        0
    } else {
        batch_count(sols.drop_last()) + if sols.last() is Some {
            1nat
        } else {
            0nat
        }
    }
}

/// Solves a batch of puzzles; returns the sum of the solutions' checksums and
/// the number of puzzles solved.
pub fn solve_batch(puzzles: &[[u8; 81]], engine: Engine) -> (r: (u64, usize))
    requires
        forall|i: int| 0 <= i < puzzles@.len() ==> clues_ok(#[trigger] puzzles@[i]@),
    ensures
        answers(puzzles@, batch_answers(puzzles@, engine)),
        r.0 == batch_sum(batch_answers(puzzles@, engine)),
        r.1 == batch_count(batch_answers(puzzles@, engine)),
        r.1 <= puzzles@.len(),
{
    let mut sum: u64 = 0;
    let mut solved: usize = 0;
    let ghost sols = batch_answers(puzzles@, engine);
    let mut i: usize = 0;
    while i < puzzles.len()
        invariant
            i <= puzzles@.len(),
            forall|k: int| 0 <= k < puzzles@.len() ==> clues_ok(#[trigger] puzzles@[k]@),
            sols == batch_answers(puzzles@, engine),
            answers(puzzles@.take(i as int), sols.take(i as int)),
            sum == batch_sum(sols.take(i as int)),
            solved == batch_count(sols.take(i as int)),
            solved <= i,
        decreases puzzles@.len() - i,
    {
        let answer = solve_with(engine, &puzzles[i]);
        if let Some(s) = &answer {
            sum = sum.wrapping_add(checksum(s));
            solved = solved + 1;
        }
        proof {
            let (a, b) = (sols.take(i as int), sols.take(i + 1));
            assert(b.drop_last() =~= a);
            assert(b.last() == digits_of(answer));
            let t = puzzles@.take(i + 1);
            assert forall|k: int| 0 <= k < b.len() implies {
                &&& #[trigger] b[k] is Some <==> solution_count(t[k]@) > 0
                &&& b[k] matches Some(g) ==> is_solution(g, t[k]@)
            } by {
                if k < i {
                    assert(b[k] == a[k]);
                    assert(t[k] == puzzles@.take(i as int)[k]);
                }
            }
        }
        i = i + 1;
    }
    proof {
        assert(puzzles@.take(puzzles@.len() as int) =~= puzzles@);
        assert(sols.take(puzzles@.len() as int) =~= sols);
    }
    (sum, solved)
}

/// The results of two parts of a batch put together.
pub fn merge_results(a: (u64, usize), b: (u64, usize)) -> (r: (u64, usize))
    requires
        a.1 + b.1 <= usize::MAX,
    ensures
        r.0 == (a.0 + b.0) % 0x1_0000_0000_0000_0000,
        r.1 == a.1 + b.1,
{
    (a.0.wrapping_add(b.0), a.1 + b.1)
}

/// The answers to two parts of a batch, put together, add up to what those to
/// the whole do.
pub proof fn law_batches_split(a: Seq<Option<Seq<u8>>>, b: Seq<Option<Seq<u8>>>)
    ensures
        batch_sum(a + b) == (batch_sum(a) + batch_sum(b)) % 0x1_0000_0000_0000_0000,
        batch_count(a + b) == batch_count(a) + batch_count(b),
    decreases b.len(),
{
    if b.len() == 0 {
        assert(a + b =~= a);
    } else {
        let c = b.drop_last();
        law_batches_split(a, c);
        assert((a + b).drop_last() =~= a + c);
        assert((a + b).last() == b.last());
        let m = 0x1_0000_0000_0000_0000int;
        match b.last() {
            Some(g) => {
                let (x, y, z) = (batch_sum(a) as int, batch_sum(c) as int, checksum_of(g) as int);
                assert(((x + y) % m + z) % m == (x + (y + z) % m) % m);
            },
            None => {},
        }
    }
}

/// Splitting a batch in two, in whatever way, and putting the results together
/// gives what the whole batch gives.
pub proof fn law_batch_parts(a: Seq<[u8; 81]>, b: Seq<[u8; 81]>, engine: Engine)
    ensures
        batch_sum(batch_answers(a + b, engine)) == (batch_sum(batch_answers(a, engine))
            + batch_sum(batch_answers(b, engine))) % 0x1_0000_0000_0000_0000,
        batch_count(batch_answers(a + b, engine)) == batch_count(batch_answers(a, engine))
            + batch_count(batch_answers(b, engine)),
{
    assert(batch_answers(a + b, engine) =~= batch_answers(a, engine) + batch_answers(b, engine));
    law_batches_split(batch_answers(a, engine), batch_answers(b, engine));
}

/// Parts of a batch put together.
pub open spec fn joined(parts: Seq<Seq<[u8; 81]>>) -> Seq<[u8; 81]>
    decreases parts.len(),
{
    if parts.len() == 0 {
        Seq::empty()
    } else {
        joined(parts.drop_last()) + parts.last()
    }
}

/// The results of solving the parts of a batch one by one, put together.
pub open spec fn merged(parts: Seq<Seq<[u8; 81]>>, engine: Engine) -> (u64, nat)
    decreases parts.len(),
{
    if parts.len() == 0 {
        (0, 0)
    } else {
        let rest = merged(parts.drop_last(), engine);
        let last = batch_answers(parts.last(), engine);
        (
            ((rest.0 + batch_sum(last)) % 0x1_0000_0000_0000_0000) as u64,
            rest.1 + batch_count(last),
        )
    }
}

/// Into however many parts a batch is split, the results put together are those
/// of the whole batch.
pub proof fn law_batch_any_parts(parts: Seq<Seq<[u8; 81]>>, engine: Engine)
    ensures
        merged(parts, engine) == (
            batch_sum(batch_answers(joined(parts), engine)),
            batch_count(batch_answers(joined(parts), engine)),
        ),
    decreases parts.len(),
{
    if parts.len() > 0 {
        law_batch_any_parts(parts.drop_last(), engine);
        law_batch_parts(joined(parts.drop_last()), parts.last(), engine);
    }
}

/// How many of the verdicts are `v`.
pub open spec fn verdicts_of(vs: Seq<Verdict>, v: Verdict) -> nat
    decreases vs.len(),
{
    if vs.len() == 0 {
        0
    } else {
        verdicts_of(vs.drop_last(), v) + if vs.last() == v {
            1nat
        } else {
            0nat
        }
    }
}

/// Counts the unsolvable, the unique and the ambiguous puzzles of a list of
/// verdicts.
pub fn count_verdicts(verdicts: &[Verdict]) -> (r: (usize, usize, usize))
    ensures
        r.0 == verdicts_of(verdicts@, Verdict::Unsolvable),
        r.1 == verdicts_of(verdicts@, Verdict::Unique),
        r.2 == verdicts_of(verdicts@, Verdict::Multiple),
        r.0 + r.1 + r.2 == verdicts@.len(),
        r.0 == verdicts@.filter(|v: Verdict| v == Verdict::Unsolvable).len(),
        r.1 == verdicts@.filter(|v: Verdict| v == Verdict::Unique).len(),
        r.2 == verdicts@.filter(|v: Verdict| v == Verdict::Multiple).len(),
{
    let mut none: usize = 0;
    let mut unique: usize = 0;
    let mut multiple: usize = 0;
    let mut i: usize = 0;
    while i < verdicts.len()
        invariant
            i <= verdicts@.len(),
            none == verdicts_of(verdicts@.take(i as int), Verdict::Unsolvable),
            unique == verdicts_of(verdicts@.take(i as int), Verdict::Unique),
            multiple == verdicts_of(verdicts@.take(i as int), Verdict::Multiple),
            none + unique + multiple == i,
        decreases verdicts@.len() - i,
    {
        match verdicts[i] {
            Verdict::Unsolvable => {
                none = none + 1;
            },
            Verdict::Unique => {
                unique = unique + 1;
            },
            Verdict::Multiple => {
                multiple = multiple + 1;
            },
        }
        proof {
            assert(verdicts@.take(i + 1).drop_last() =~= verdicts@.take(i as int));
            assert(verdicts@.take(i + 1).last() == verdicts@[i as int]);
        }
        i = i + 1;
    }
    proof {
        assert(verdicts@.take(verdicts@.len() as int) =~= verdicts@);
        law_verdicts(verdicts@, Verdict::Unsolvable);
        law_verdicts(verdicts@, Verdict::Unique);
        law_verdicts(verdicts@, Verdict::Multiple);
    }
    (none, unique, multiple)
}

} // verus!
