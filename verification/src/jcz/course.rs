//! The course of a search: which cell is guessed at, in what order its digits
//! are tried, how many guesses that takes, and where the search stops.

use vstd::prelude::*;
use crate::bits::{bit32, group_bits32, lemma_ext32, total32};
use crate::boards::{digits_at, sub32, within};
use crate::jcz::closure::{is_closure, undecided};
use crate::jcz::propagate::placed_word;

verus! {

broadcast use group_bits32;

/// A guess budget that never runs out.
pub const UNBOUNDED: u32 = 0xFFFF_FFFF;

/// Where a search stands: the solutions counted, the guesses spent, whether
/// it was called off, and the boards of the first solution.
pub struct Course {
    pub count: int,
    pub guesses: int,
    pub aborted: bool,
    pub first: Seq<u32>,
}

/// Some cell has exactly two candidates.
pub open spec fn has_pair(bs: Seq<u32>) -> bool {
    exists|b: int, p: int| 0 <= b < 3 && 0 <= p < 27 && #[trigger] digits_at(bs, b, p, 9) == 2
}

/// Every cell has at most one candidate.
pub open spec fn decided(bs: Seq<u32>) -> bool {
    forall|b: int, p: int| 0 <= b < 3 && 0 <= p < 27 ==> !#[trigger] undecided(bs, b, p)
}

/// Cell `p` is the first of band `b` with two candidates or more.
pub open spec fn first_open(bs: Seq<u32>, b: int, p: int) -> bool {
    &&& 0 <= b < 3
    &&& 0 <= p < 27
    &&& undecided(bs, b, p)
    &&& forall|q: int| 0 <= q < p ==> !#[trigger] undecided(bs, b, q)
}

/// Cell `p` of band `b` is the one to guess at: the first with two
/// candidates; if there is none, the one with the fewest among the first open
/// cells of the bands, in the first such band.
pub open spec fn guess_at(bs: Seq<u32>, b: int, p: int) -> bool {
    &&& 0 <= b < 3
    &&& 0 <= p < 27
    &&& if has_pair(bs) {
        &&& digits_at(bs, b, p, 9) == 2
        &&& forall|b2: int, p2: int|
            0 <= b2 < 3 && 0 <= p2 < 27 && #[trigger] digits_at(bs, b2, p2, 9) == 2 ==> b < b2 || (b
                == b2 && p <= p2)
    } else {
        &&& first_open(bs, b, p)
        &&& forall|b2: int, p2: int| #[trigger]
            first_open(bs, b2, p2) ==> digits_at(bs, b, p, 9) <= digits_at(bs, b2, p2, 9) && (b2 < b
                ==> digits_at(bs, b, p, 9) < digits_at(bs, b2, p2, 9))
    }
}

/// The cell to guess at is determined.
pub proof fn lemma_guess_once(bs: Seq<u32>, b: int, p: int, b2: int, p2: int)
    requires
        guess_at(bs, b, p),
        guess_at(bs, b2, p2),
    ensures
        b == b2,
        p == p2,
{
    if !has_pair(bs) {
        assert(first_open(bs, b, p) && first_open(bs, b2, p2));
        if b == b2 {
            if p < p2 {
                assert(!undecided(bs, b2, p));
            }
            if p2 < p {
                assert(!undecided(bs, b, p2));
            }
        }
    }
}

/// `v` is the largest stable part of `bs`, and no larger than `bs`.
pub open spec fn closes_to(v: Seq<u32>, bs: Seq<u32>) -> bool {
    is_closure(v, bs) && total32(v) <= total32(bs)
}

/// What the propagation makes of `bs`; `None` if that is a contradiction.
pub open spec fn closed_boards(bs: Seq<u32>) -> Option<Seq<u32>> {
    if exists|v: Seq<u32>| #[trigger] closes_to(v, bs) {
        Some(choose|v: Seq<u32>| #[trigger] closes_to(v, bs))
    } else {
        None
    }
}

/// Boards that are parts of each other are the same.
pub proof fn lemma_within_both(a: Seq<u32>, b: Seq<u32>)
    requires
        a.len() == 27,
        b.len() == 27,
        within(a, b),
        within(b, a),
    ensures
        a == b,
{
    assert forall|i: int| 0 <= i < 27 implies a[i] == b[i] by {
        assert(sub32(a[i], b[i]) && sub32(b[i], a[i]));
        let (x, y) = (a[i], b[i]);
        assert forall|p: int| 0 <= p < 32 implies bit32(x, p) == bit32(y, p) by {}
        lemma_ext32(x, y);
    }
    assert(a =~= b);
}

/// The propagation has one outcome.
pub proof fn lemma_closed_boards(v: Seq<u32>, bs: Seq<u32>)
    requires
        closes_to(v, bs),
    ensures
        closed_boards(bs) == Some(v),
{
    let u = closed_boards(bs)->0;
    assert(closes_to(u, bs));
    assert(within(v, u) && within(u, v));
    assert(v.len() == 27 && u.len() == 27) by {
        reveal(crate::jcz::closure::stable);
    }
    lemma_within_both(v, u);
}

/// `bs` after placing digit `d` at cell `p` of band `b`, before propagation:
/// the digit leaves the other cells of the line and box.
pub open spec fn placed_at(bs: Seq<u32>, b: int, d: int, p: int) -> Seq<u32> {
    bs.update(9 * b + d, choose|w: u32| #[trigger] placed_word(bs[9 * b + d], p, w))
}

/// `bs` without digit `d` at cell `p` of band `b`.
pub open spec fn removed_at(bs: Seq<u32>, b: int, d: int, p: int) -> Seq<u32> {
    bs.update(9 * b + d, bs[9 * b + d] & !(1u32 << (p as u32)))
}

/// The word of a placed digit is determined.
pub proof fn lemma_placed_at(bs: Seq<u32>, b: int, d: int, p: int, w: u32)
    requires
        placed_word(bs[9 * b + d], p, w),
    ensures
        placed_at(bs, b, d, p) == bs.update(9 * b + d, w),
{
    let m = bs[9 * b + d];
    let u = choose|u: u32| #[trigger] placed_word(m, p, u);
    assert(placed_word(m, p, u));
    assert forall|q: int| 0 <= q < 32 implies bit32(u, q) == bit32(w, q) by {
        assert(bit32(u, q) <==> bit32(w, q));
    }
    lemma_ext32(u, w);
}

/// The count of guesses after one more.
pub open spec fn bumped(guesses: int) -> int {
    if guesses < UNBOUNDED {
        guesses + 1
    } else {
        guesses
    }
}

/// The guess budget is spent.
pub open spec fn spent(c: Course, budget: int) -> bool {
    c.guesses >= budget && budget != UNBOUNDED
}

/// The course of a search from boards on which the propagation has nothing
/// more to do: solved boards are counted, others take a guess.
pub open spec fn descended(v: Seq<u32>, c: Course, limit: int, budget: int) -> Course
    decreases total32(v), 2int, 0int,
{
    if decided(v) {
        Course {
            count: c.count + 1,
            first: if c.count == 0 {
                v
            } else {
                c.first
            },
            ..c
        }
    } else if spent(c, budget) {
        Course { aborted: true, ..c }
    } else {
        let (b, p) = choose|b: int, p: int| #[trigger] guess_at(v, b, p);
        branched(v, v, b, p, 0, Course { guesses: bumped(c.guesses), ..c }, limit, budget)
    }
}

/// The course of a search from any boards: they are propagated first.
pub open spec fn solved_from(bs: Seq<u32>, c: Course, limit: int, budget: int) -> Course
    decreases total32(bs), 3int, 0int,
{
    match closed_boards(bs) {
        None => c,
        Some(v) => descended(v, c, limit, budget),
    }
}

/// The course of a search that tries the digits from `d` on at cell `p` of
/// band `b`, in order: each is placed and searched, and, unless that reached
/// the limit or was called off, removed. `top` are the boards of the guess,
/// `v` what is left of them. What a digit placed leaves is smaller than `top`.
pub open spec fn branched(
    top: Seq<u32>,
    v: Seq<u32>,
    b: int,
    p: int,
    d: int,
    c: Course,
    limit: int,
    budget: int,
) -> Course
    decreases total32(top), 1int, 9 - d,
{
    if d < 0 || d >= 9 {
        c
    } else if !bit32(v[9 * b + d], p) || total32(placed_at(v, b, d, p)) >= total32(top) {
        branched(top, v, b, p, d + 1, c, limit, budget)
    } else {
        let n = solved_from(placed_at(v, b, d, p), c, limit, budget);
        if n.count >= limit || n.aborted {
            n
        } else {
            branched(top, removed_at(v, b, d, p), b, p, d + 1, n, limit, budget)
        }
    }
}

/// Without candidates left at the cell nothing more is tried.
pub proof fn lemma_branched_bare(
    top: Seq<u32>,
    v: Seq<u32>,
    b: int,
    p: int,
    d: int,
    c: Course,
    limit: int,
    budget: int,
)
    requires
        0 <= d <= 9,
        forall|e: int| d <= e < 9 ==> !bit32(#[trigger] v[9 * b + e], p),
    ensures
        branched(top, v, b, p, d, c, limit, budget) == c,
    decreases 9 - d,
{
    if d < 9 {
        assert(!bit32(v[9 * b + d], p));
        lemma_branched_bare(top, v, b, p, d + 1, c, limit, budget);
    }
}

/// A course that a budget does not call off is the same under a larger one.
pub proof fn lemma_descended_more(v: Seq<u32>, c: Course, limit: int, small: int, large: int)
    requires
        small <= large <= UNBOUNDED,
        !descended(v, c, limit, small).aborted,
    ensures
        descended(v, c, limit, large) == descended(v, c, limit, small),
    decreases total32(v), 2int, 0int,
{
    if !decided(v) && !spent(c, small) {
        let (b, p) = choose|b: int, p: int| #[trigger] guess_at(v, b, p);
        lemma_branched_more(
            v,
            v,
            b,
            p,
            0,
            Course { guesses: bumped(c.guesses), ..c },
            limit,
            small,
            large,
        );
    }
}

proof fn lemma_solved_more(bs: Seq<u32>, c: Course, limit: int, small: int, large: int)
    requires
        small <= large <= UNBOUNDED,
        !solved_from(bs, c, limit, small).aborted,
    ensures
        solved_from(bs, c, limit, large) == solved_from(bs, c, limit, small),
    decreases total32(bs), 3int, 0int,
{
    if let Some(v) = closed_boards(bs) {
        assert(closes_to(v, bs));
        lemma_descended_more(v, c, limit, small, large);
    }
}

proof fn lemma_branched_more(
    top: Seq<u32>,
    v: Seq<u32>,
    b: int,
    p: int,
    d: int,
    c: Course,
    limit: int,
    small: int,
    large: int,
)
    requires
        small <= large <= UNBOUNDED,
        !branched(top, v, b, p, d, c, limit, small).aborted,
    ensures
        branched(top, v, b, p, d, c, limit, large) == branched(top, v, b, p, d, c, limit, small),
    decreases total32(top), 1int, 9 - d,
{
    if 0 <= d < 9 {
        if !bit32(v[9 * b + d], p) || total32(placed_at(v, b, d, p)) >= total32(top) {
            lemma_branched_more(top, v, b, p, d + 1, c, limit, small, large);
        } else {
            let n = solved_from(placed_at(v, b, d, p), c, limit, small);
            lemma_solved_more(placed_at(v, b, d, p), c, limit, small, large);
            if !(n.count >= limit || n.aborted) {
                lemma_branched_more(
                    top,
                    removed_at(v, b, d, p),
                    b,
                    p,
                    d + 1,
                    n,
                    limit,
                    small,
                    large,
                );
            }
        }
    }
}

// ---------------------------------------------------------------------------
// The first solution
// ---------------------------------------------------------------------------

/// Once a solution is counted it stays the first.
proof fn lemma_first_stays(v: Seq<u32>, c: Course, limit: int, budget: int)
    requires
        c.count > 0,
    ensures
        descended(v, c, limit, budget).first == c.first,
        descended(v, c, limit, budget).count >= c.count,
    decreases total32(v), 2int, 0int,
{
    if !decided(v) && !spent(c, budget) {
        let (b, p) = choose|b: int, p: int| #[trigger] guess_at(v, b, p);
        let next = Course { guesses: bumped(c.guesses), ..c };
        lemma_first_stays_from(v, v, b, p, 0, next, limit, budget);
    }
}

proof fn lemma_first_stays_from(
    top: Seq<u32>,
    v: Seq<u32>,
    b: int,
    p: int,
    d: int,
    c: Course,
    limit: int,
    budget: int,
)
    requires
        c.count > 0,
    ensures
        branched(top, v, b, p, d, c, limit, budget).first == c.first,
        branched(top, v, b, p, d, c, limit, budget).count >= c.count,
    decreases total32(top), 1int, 9 - d,
{
    if 0 <= d < 9 {
        let start = placed_at(v, b, d, p);
        if !bit32(v[9 * b + d], p) || total32(start) >= total32(top) {
            lemma_first_stays_from(top, v, b, p, d + 1, c, limit, budget);
        } else {
            let n = solved_from(start, c, limit, budget);
            if let Some(w) = closed_boards(start) {
                assert(closes_to(w, start));
                lemma_first_stays(w, c, limit, budget);
            }
            if !(n.count >= limit || n.aborted) {
                lemma_first_stays_from(
                    top,
                    removed_at(v, b, d, p),
                    b,
                    p,
                    d + 1,
                    n,
                    limit,
                    budget,
                );
            }
        }
    }
}

/// Up to the first solution a search for more goes the same way as one for a
/// single solution.
pub proof fn lemma_same_first(v: Seq<u32>, c: Course, limit: int, budget: int)
    requires
        c.count == 0,
        !c.aborted,
        limit >= 1,
    ensures
        ({
            let (one, more) = (descended(v, c, 1, budget), descended(v, c, limit, budget));
            &&& one.count >= 0
            &&& one.count == 0 ==> more == one
            &&& one.count > 0 ==> !one.aborted && more.first == one.first && more.count > 0
        }),
    decreases total32(v), 2int, 0int,
{
    if !decided(v) && !spent(c, budget) {
        let (b, p) = choose|b: int, p: int| #[trigger] guess_at(v, b, p);
        let next = Course { guesses: bumped(c.guesses), ..c };
        lemma_same_first_from(v, v, b, p, 0, next, limit, budget);
    }
}

proof fn lemma_same_first_from(
    top: Seq<u32>,
    v: Seq<u32>,
    b: int,
    p: int,
    d: int,
    c: Course,
    limit: int,
    budget: int,
)
    requires
        c.count == 0,
        !c.aborted,
        limit >= 1,
    ensures
        ({
            let one = branched(top, v, b, p, d, c, 1, budget);
            let more = branched(top, v, b, p, d, c, limit, budget);
            &&& one.count >= 0
            &&& one.count == 0 ==> more == one
            &&& one.count > 0 ==> !one.aborted && more.first == one.first && more.count > 0
        }),
    decreases total32(top), 1int, 9 - d,
{
    if 0 <= d < 9 {
        let start = placed_at(v, b, d, p);
        if !bit32(v[9 * b + d], p) || total32(start) >= total32(top) {
            lemma_same_first_from(top, v, b, p, d + 1, c, limit, budget);
        } else {
            let m = solved_from(start, c, 1, budget);
            let n = solved_from(start, c, limit, budget);
            let left = removed_at(v, b, d, p);
            if let Some(w) = closed_boards(start) {
                assert(closes_to(w, start));
                lemma_same_first(w, c, limit, budget);
            }
            if m.count == 0 && !m.aborted {
                lemma_same_first_from(top, left, b, p, d + 1, m, limit, budget);
            }
            if m.count > 0 && !(n.count >= limit || n.aborted) {
                lemma_first_stays_from(top, left, b, p, d + 1, n, limit, budget);
            }
        }
    }
}

// ---------------------------------------------------------------------------
// What a search visits
// ---------------------------------------------------------------------------

/// The boards that a search from `v` branches on when nothing calls it off, in
/// the order of its visits, and the solutions counted when it ends, from
/// `found` on. It ends early once `limit` solutions are counted.
pub open spec fn trail(v: Seq<u32>, found: int, limit: int) -> (Seq<Seq<u32>>, int)
    decreases total32(v), 2int, 0int,
{
    if decided(v) {
        (Seq::empty(), found + 1)
    } else {
        let (b, p) = choose|b: int, p: int| #[trigger] guess_at(v, b, p);
        let below = trail_from(v, v, b, p, 0, found, limit);
        (seq![v] + below.0, below.1)
    }
}

/// The boards branched on below a branch at cell `p` of band `b`, with the
/// digits from `d` on.
pub open spec fn trail_from(
    top: Seq<u32>,
    v: Seq<u32>,
    b: int,
    p: int,
    d: int,
    found: int,
    limit: int,
) -> (Seq<Seq<u32>>, int)
    decreases total32(top), 1int, 9 - d,
{
    if d < 0 || d >= 9 {
        (Seq::empty(), found)
    } else if !bit32(v[9 * b + d], p) || total32(placed_at(v, b, d, p)) >= total32(top) {
        trail_from(top, v, b, p, d + 1, found, limit)
    } else {
        let one = match closed_boards(placed_at(v, b, d, p)) {
            None => (Seq::empty(), found),
            Some(w) => if total32(w) < total32(top) {
                trail(w, found, limit)
            } else {
                (Seq::empty(), found)
            },
        };
        if one.1 >= limit {
            one
        } else {
            let rest = trail_from(top, removed_at(v, b, d, p), b, p, d + 1, one.1, limit);
            (one.0 + rest.0, rest.1)
        }
    }
}

/// The guesses of a search are the boards it branches on, one by one: with a
/// budget it is called off exactly if there are more of them than the budget
/// has left, and otherwise it spends one guess on each.
pub proof fn lemma_trail(v: Seq<u32>, c: Course, limit: int, budget: int)
    requires
        !c.aborted,
        0 <= c.guesses <= budget < UNBOUNDED,
    ensures
        ({
            let end = descended(v, c, limit, budget);
            let seen = trail(v, c.count, limit);
            &&& end.aborted <==> c.guesses + seen.0.len() > budget
            &&& !end.aborted ==> end.guesses == c.guesses + seen.0.len() && end.count == seen.1
        }),
    decreases total32(v), 2int, 0int,
{
    if !decided(v) && !spent(c, budget) {
        let (b, p) = choose|b: int, p: int| #[trigger] guess_at(v, b, p);
        let next = Course { guesses: bumped(c.guesses), ..c };
        lemma_trail_from(v, v, b, p, 0, next, limit, budget);
    }
}

proof fn lemma_trail_from(
    top: Seq<u32>,
    v: Seq<u32>,
    b: int,
    p: int,
    d: int,
    c: Course,
    limit: int,
    budget: int,
)
    requires
        !c.aborted,
        0 <= c.guesses <= budget < UNBOUNDED,
    ensures
        ({
            let end = branched(top, v, b, p, d, c, limit, budget);
            let seen = trail_from(top, v, b, p, d, c.count, limit);
            &&& end.aborted <==> c.guesses + seen.0.len() > budget
            &&& !end.aborted ==> end.guesses == c.guesses + seen.0.len() && end.count == seen.1
        }),
    decreases total32(top), 1int, 9 - d,
{
    if 0 <= d < 9 {
        let start = placed_at(v, b, d, p);
        if !bit32(v[9 * b + d], p) || total32(start) >= total32(top) {
            lemma_trail_from(top, v, b, p, d + 1, c, limit, budget);
        } else {
            let n = solved_from(start, c, limit, budget);
            if let Some(w) = closed_boards(start) {
                assert(closes_to(w, start));
                lemma_trail(w, c, limit, budget);
            }
            if !n.aborted && n.count < limit {
                lemma_trail_from(top, removed_at(v, b, d, p), b, p, d + 1, n, limit, budget);
            }
        }
    }
}

/// A branch has nine ways at most, so few branches reach few solutions.
pub proof fn lemma_trail_reach(v: Seq<u32>, found: int, limit: int)
    ensures
        found <= trail(v, found, limit).1 <= found + 1 + 8 * trail(v, found, limit).0.len(),
    decreases total32(v), 2int, 0int,
{
    if !decided(v) {
        let (b, p) = choose|b: int, p: int| #[trigger] guess_at(v, b, p);
        lemma_trail_from_reach(v, v, b, p, 0, found, limit);
    }
}

proof fn lemma_trail_from_reach(
    top: Seq<u32>,
    v: Seq<u32>,
    b: int,
    p: int,
    d: int,
    found: int,
    limit: int,
)
    requires
        0 <= d <= 9,
    ensures
        found <= trail_from(top, v, b, p, d, found, limit).1 <= found + (9 - d) + 8 * trail_from(
            top,
            v,
            b,
            p,
            d,
            found,
            limit,
        ).0.len(),
    decreases total32(top), 1int, 9 - d,
{
    if d < 9 {
        let start = placed_at(v, b, d, p);
        if !bit32(v[9 * b + d], p) || total32(start) >= total32(top) {
            lemma_trail_from_reach(top, v, b, p, d + 1, found, limit);
        } else {
            let one = match closed_boards(start) {
                None => (Seq::empty(), found),
                Some(w) => if total32(w) < total32(top) {
                    trail(w, found, limit)
                } else {
                    (Seq::empty(), found)
                },
            };
            if let Some(w) = closed_boards(start) {
                assert(closes_to(w, start));
                lemma_trail_reach(w, found, limit);
            }
            if one.1 < limit {
                lemma_trail_from_reach(top, removed_at(v, b, d, p), b, p, d + 1, one.1, limit);
            }
        }
    }
}

} // verus!
