//! What a search to one solution finds, and how few guesses can pin it down.

use vstd::prelude::*;
use crate::bits::{
    bit32, group_bits32, lemma_count_second, lemma_count_witness, lemma_ext32, total32,
};
use crate::boards::{
    admits, cand, digits_at, encodes, lemma_within_admits, lemma_within_total, sub32, within,
};
use crate::grid::{is_grid, is_solution, lemma_grid_facts, peers};
use crate::jcz::closure::{
    is_closure, lemma_placed_grid, lemma_placed_only, lone_digit, pinned, stable, undecided,
};
use crate::jcz::course::{
    branched, bumped, closed_boards, closes_to, decided, descended, first_open, guess_at, has_pair,
    lemma_guess_once, lemma_placed_at, placed_at, removed_at, solved_from, spent, Course, UNBOUNDED,
};
use crate::jcz::init::{clue_allows, starts};
use crate::jcz::propagate::placed_word;
use crate::jcz::largest::lemma_closed;
use crate::jcz::sound::{
    boards_of, lemma_closure_keeps, lemma_decided_grid, lemma_grid_stable, lemma_grid_within,
    lemma_word, word,
};
use crate::jcz::tables::near;

verus! {

broadcast use group_bits32;

// ---------------------------------------------------------------------------
// The cell to guess at
// ---------------------------------------------------------------------------

/// The least number with a property.
proof fn lemma_least(f: spec_fn(int) -> bool, k: int) -> (m: int)
    requires
        0 <= k,
        f(k),
    ensures
        0 <= m <= k,
        f(m),
        forall|j: int| 0 <= j < m ==> !#[trigger] f(j),
    decreases k,
{
    if exists|j: int| 0 <= j < k && #[trigger] f(j) {
        let j = choose|j: int| 0 <= j < k && #[trigger] f(j);
        lemma_least(f, j)
    } else {
        k
    }
}

/// In band `b` some first open cell has `n` candidates.
spec fn opens_with(v: Seq<u32>, b: int, n: int) -> bool {
    exists|p: int| #[trigger] first_open(v, b, p) && digits_at(v, b, p, 9) == n
}

/// In some band the first open cell has `n` candidates.
spec fn some_opens(v: Seq<u32>, n: int) -> bool {
    exists|b: int| #[trigger] opens_with(v, b, n)
}

/// Boards with a choice have a cell to guess at, and it has two candidates or
/// more.
pub proof fn lemma_guess(v: Seq<u32>) -> (r: (int, int))
    requires
        !decided(v),
    ensures
        guess_at(v, r.0, r.1),
        undecided(v, r.0, r.1),
{
    if has_pair(v) {
        let (b, p) = choose|b: int, p: int|
            0 <= b < 3 && 0 <= p < 27 && #[trigger] digits_at(v, b, p, 9) == 2;
        let f = |c: int| 0 <= c < 81 && digits_at(v, c / 27, c % 27, 9) == 2;
        assert((27 * b + p) / 27 == b && (27 * b + p) % 27 == p);
        assert(f(27 * b + p));
        let m = lemma_least(f, 27 * b + p);
        let (mb, mp) = (m / 27, m % 27);
        assert forall|b2: int, p2: int|
            0 <= b2 < 3 && 0 <= p2 < 27 && #[trigger] digits_at(v, b2, p2, 9) == 2 implies mb < b2
            || (mb == b2 && mp <= p2) by {
            let c = 27 * b2 + p2;
            assert(c / 27 == b2 && c % 27 == p2);
            if c < m {
                assert(f(c));
            }
        }
        let g = |e: int| bit32(v[9 * mb + e], mp);
        let x = lemma_count_witness(g, 9);
        let y = lemma_count_second(g, 9, x);
        assert(g(x) && g(y));
        if x < y {
            assert(bit32(v[9 * mb + x], mp) && bit32(v[9 * mb + y], mp));
        } else {
            assert(bit32(v[9 * mb + y], mp) && bit32(v[9 * mb + x], mp));
        }
        (mb, mp)
    } else {
        let (b0, p0) = choose|b: int, p: int|
            0 <= b < 3 && 0 <= p < 27 && #[trigger] undecided(v, b, p);
        let f = |p: int| 0 <= p < 27 && undecided(v, b0, p);
        assert(f(p0));
        let q0 = lemma_least(f, p0);
        assert(first_open(v, b0, q0)) by {
            assert forall|q: int| 0 <= q < q0 implies !#[trigger] undecided(v, b0, q) by {
                assert(!f(q));
            }
        }
        let n0 = digits_at(v, b0, q0, 9) as int;
        assert(opens_with(v, b0, n0));
        let g = |n: int| some_opens(v, n);
        assert(g(n0));
        let n = lemma_least(g, n0);
        let b1 = choose|b: int| #[trigger] opens_with(v, b, n);
        let h = |b: int| opens_with(v, b, n);
        let p1 = choose|p: int| #[trigger] first_open(v, b1, p) && digits_at(v, b1, p, 9) == n;
        assert(first_open(v, b1, p1));
        assert(h(b1));
        let b = lemma_least(h, b1);
        let p = choose|p: int| #[trigger] first_open(v, b, p) && digits_at(v, b, p, 9) == n;
        assert(first_open(v, b, p));
        assert forall|b2: int, p2: int| #[trigger] first_open(v, b2, p2) implies digits_at(v, b, p, 9)
            <= digits_at(v, b2, p2, 9) && (b2 < b ==> digits_at(v, b, p, 9) < digits_at(
            v,
            b2,
            p2,
            9,
        )) by {
            let n2 = digits_at(v, b2, p2, 9) as int;
            assert(opens_with(v, b2, n2));
            if n2 < n {
                assert(g(n2));
            }
            if n2 == n && b2 < b {
                assert(h(b2));
            }
        }
        (b, p)
    }
}

// ---------------------------------------------------------------------------
// Placing a digit
// ---------------------------------------------------------------------------

/// The word of a placed digit exists.
proof fn lemma_placed(bs: Seq<u32>, b: int, d: int, p: int) -> (w: u32)
    ensures
        placed_word(bs[9 * b + d], p, w),
        placed_at(bs, b, d, p) == bs.update(9 * b + d, w),
{
    let m = bs[9 * b + d];
    let f = |q: int| bit32(m, q) && (q == p || !near(q, p));
    let w = word(f, 32);
    lemma_word(f, 32);
    assert(placed_word(m, p, w)) by {
        assert forall|q: int| #[trigger]
            bit32(w, q) <==> bit32(m, q) && (q == p || !near(q, p)) by {
            assert(bit32(w, q) <==> 0 <= q < 32 && f(q));
        }
    }
    lemma_placed_at(bs, b, d, p, w);
    w
}

/// Placing a digit where there was a choice leaves less.
proof fn lemma_placed_less(top: Seq<u32>, v: Seq<u32>, b: int, d: int, p: int)
    requires
        stable(top),
        v.len() == 27,
        within(v, top),
        0 <= b < 3,
        0 <= d < 9,
        0 <= p < 27,
        undecided(top, b, p),
        v[9 * b + d] == top[9 * b + d],
        bit32(v[9 * b + d], p),
    ensures
        total32(placed_at(v, b, d, p)) < total32(top),
        within(placed_at(v, b, d, p), v),
{
    let i = 9 * b + d;
    let w = lemma_placed(v, b, d, p);
    let n = v.update(i, w);
    assert(!lone_digit(top, b, d, p)) by {
        let (x, y) = choose|x: int, y: int|
            0 <= x < y < 9 && #[trigger] bit32(top[9 * b + x], p) && #[trigger] bit32(
                top[9 * b + y],
                p,
            );
        if x != d {
            assert(bit32(top[9 * b + x], p));
        } else {
            assert(bit32(top[9 * b + y], p));
        }
    }
    assert(!pinned(top[i], p)) by {
        reveal(stable);
        assert(lone_digit(top, b, d, p) <==> pinned(top[9 * b + d], p));
    }
    let q = choose|q: int| 0 <= q < 27 && near(q, p) && #[trigger] bit32(top[i], q) && q != p;
    assert(bit32(v[i], q));
    assert(!bit32(w, q));
    assert(within(n, v)) by {
        assert forall|j: int| 0 <= j < 27 implies sub32(#[trigger] n[j], v[j]) by {}
    }
    lemma_within_total(n, v);
    assert(n[i] != v[i]);
    lemma_within_total(v, top);
}

/// Removing a digit from a cell keeps the grids that hold another there, and
/// no others.
proof fn lemma_removed(v: Seq<u32>, b: int, d: int, p: int, g: Seq<u8>)
    requires
        v.len() == 27,
        0 <= b < 3,
        0 <= d < 9,
        0 <= p < 27,
        is_grid(g),
    ensures
        admits(removed_at(v, b, d, p), g) <==> admits(v, g) && g[27 * b + p] != d + 1,
        within(removed_at(v, b, d, p), v),
{
    let (i, e) = (9 * b + d, 27 * b + p);
    let n = removed_at(v, b, d, p);
    assert(e / 27 == b && e % 27 == p);
    assert(within(n, v)) by {
        assert forall|j: int| 0 <= j < 27 implies sub32(#[trigger] n[j], v[j]) by {}
    }
    lemma_grid_facts(g);
    if admits(n, g) {
        lemma_within_admits(n, v, g);
        reveal(admits);
        assert(cand(n, e, g[e] - 1));
    }
    if admits(v, g) && g[e] != d + 1 {
        reveal(admits);
        assert forall|c: int| 0 <= c < 81 implies cand(n, c, #[trigger] g[c] - 1) by {
            assert(cand(v, c, g[c] - 1));
            if 9 * (c / 27) + (g[c] - 1) == i {
                assert(c / 27 == b && g[c] == d + 1);
                assert(c % 27 != p);
            }
        }
    }
}

// ---------------------------------------------------------------------------
// What is found
// ---------------------------------------------------------------------------

/// Of the grids that `v` admits, `g` is the only one with its digits at these
/// cells.
pub open spec fn pinned_down(v: Seq<u32>, g: Seq<u8>, cells: Set<int>) -> bool {
    forall|h: Seq<u8>|
        is_grid(h) && #[trigger] admits(v, h) && (forall|c: int| #[trigger]
            cells.contains(c) ==> h[c] == g[c]) ==> h == g
}

/// A search to one solution that is not called off: what it finds is a grid
/// within the boards, and its digits at as many cells as there were guesses
/// tell it from all others.
pub proof fn lemma_found(v: Seq<u32>, c: Course, budget: int) -> (r: (Seq<u8>, Set<int>))
    requires
        stable(v),
        c.count == 0,
        !c.aborted,
        0 <= c.guesses <= budget < UNBOUNDED,
    ensures
        ({
            let end = descended(v, c, 1, budget);
            &&& c.guesses <= end.guesses <= budget
            &&& 0 <= end.count <= 1
            &&& !end.aborted && end.count > 0 ==> {
                &&& is_grid(r.0)
                &&& encodes(end.first, r.0)
                &&& admits(v, r.0)
                &&& r.1.finite()
                &&& r.1.len() <= end.guesses - c.guesses
                &&& forall|e: int| #[trigger] r.1.contains(e) ==> 0 <= e < 81
                &&& pinned_down(v, r.0, r.1)
            }
        }),
    decreases total32(v), 2int, 0int,
{
    if decided(v) {
        let g = lemma_decided_grid(v);
        (g, Set::empty())
    } else if spent(c, budget) {
        (Seq::empty(), Set::empty())
    } else {
        let (b, p) = choose|b: int, p: int| #[trigger] guess_at(v, b, p);
        let (b2, p2) = lemma_guess(v);
        lemma_guess_once(v, b, p, b2, p2);
        assert(v.len() == 27) by {
            reveal(stable);
        }
        assert(within(v, v)) by {
            assert forall|j: int| 0 <= j < 27 implies sub32(#[trigger] v[j], v[j]) by {}
        }
        let next = Course { guesses: bumped(c.guesses), ..c };
        let (g, cells) = lemma_found_from(v, v, b, p, 0, next, budget);
        let more = cells.insert(27 * b + p);
        assert(cells.finite() ==> more.finite() && more.len() <= cells.len() + 1);
        (g, more)
    }
}

proof fn lemma_found_from(
    top: Seq<u32>,
    v: Seq<u32>,
    b: int,
    p: int,
    d: int,
    c: Course,
    budget: int,
) -> (r: (Seq<u8>, Set<int>))
    requires
        stable(top),
        v.len() == 27,
        within(v, top),
        0 <= b < 3,
        0 <= p < 27,
        0 <= d <= 9,
        undecided(top, b, p),
        forall|e: int| d <= e < 9 ==> #[trigger] v[9 * b + e] == top[9 * b + e],
        c.count == 0,
        !c.aborted,
        0 <= c.guesses <= budget < UNBOUNDED,
    ensures
        ({
            let end = branched(top, v, b, p, d, c, 1, budget);
            &&& c.guesses <= end.guesses <= budget
            &&& 0 <= end.count <= 1
            &&& !end.aborted && end.count > 0 ==> {
                &&& is_grid(r.0)
                &&& encodes(end.first, r.0)
                &&& admits(v, r.0)
                &&& r.1.finite()
                &&& r.1.len() <= end.guesses - c.guesses
                &&& forall|e: int| #[trigger] r.1.contains(e) ==> 0 <= e < 81
                &&& pinned_down(v, r.0, r.1.insert(27 * b + p))
            }
        }),
    decreases total32(top), 1int, 9 - d,
{
    if d == 9 {
        (Seq::empty(), Set::empty())
    } else if !bit32(v[9 * b + d], p) || total32(placed_at(v, b, d, p)) >= total32(top) {
        lemma_found_from(top, v, b, p, d + 1, c, budget)
    } else {
        let i = 9 * b + d;
        let cell = 27 * b + p;
        let start = placed_at(v, b, d, p);
        let w = lemma_placed(v, b, d, p);
        let n = solved_from(start, c, 1, budget);
        let end = branched(top, v, b, p, d, c, 1, budget);
        let one = if closed_boards(start) is Some {
            let u = closed_boards(start)->0;
            assert(closes_to(u, start));
            lemma_found(u, c, budget)
        } else {
            (Seq::empty(), Set::empty())
        };
        if n.count >= 1 || n.aborted {
            if !n.aborted {
                let u = closed_boards(start)->0;
                let (g, cells) = one;
                lemma_closure_keeps(u, start, g);
                lemma_placed_only(v, g, b, d, p, w);
                let more = cells.insert(cell);
                assert forall|h: Seq<u8>|
                    is_grid(h) && #[trigger] admits(v, h) && (forall|e: int| #[trigger]
                        more.contains(e) ==> h[e] == g[e]) implies h == g by {
                    assert(more.contains(cell));
                    lemma_placed_grid(v, h, b, d, p, w);
                    lemma_closure_keeps(u, start, h);
                    assert forall|e: int| #[trigger] cells.contains(e) implies h[e] == g[e] by {
                        assert(more.contains(e));
                    }
                }
            }
            one
        } else {
            let left = removed_at(v, b, d, p);
            assert(within(left, top)) by {
                assert forall|j: int| 0 <= j < 27 implies sub32(#[trigger] left[j], top[j]) by {
                    assert(sub32(v[j], top[j]));
                }
            }
            let (g, cells) = lemma_found_from(top, left, b, p, d + 1, n, budget);
            if !end.aborted && end.count > 0 {
                lemma_removed(v, b, d, p, g);
                let more = cells.insert(cell);
                assert forall|h: Seq<u8>|
                    is_grid(h) && #[trigger] admits(v, h) && (forall|e: int| #[trigger]
                        more.contains(e) ==> h[e] == g[e]) implies h == g by {
                    assert(more.contains(cell));
                    lemma_removed(v, b, d, p, h);
                    assert(admits(left, h));
                }
            }
            (g, cells)
        }
    }
}

/// Of the solutions of a puzzle, `g` is the only one with its digits at these
/// cells.
pub open spec fn tells_apart(clues: Seq<u8>, g: Seq<u8>, cells: Set<int>) -> bool {
    forall|h: Seq<u8>| #[trigger]
        is_solution(h, clues) && (forall|c: int| #[trigger] cells.contains(c) ==> h[c] == g[c])
            ==> h == g
}

/// The digits of `g` at `n` cells, if they are well chosen, tell it from all
/// other solutions.
pub open spec fn few_tell(clues: Seq<u8>, g: Seq<u8>, n: int) -> bool {
    exists|cells: Set<int>| #[trigger]
        tells_apart(clues, g, cells) && cells.finite() && cells.len() <= n
}

/// What the propagation makes of the clues admits the solutions and nothing
/// else.
pub proof fn lemma_start_admits(clues: Seq<u8>, bs: Seq<u32>, v: Seq<u32>, g: Seq<u8>)
    requires
        starts(bs, clues),
        is_closure(v, bs),
        is_grid(g),
    ensures
        admits(v, g) <==> is_solution(g, clues),
{
    lemma_closure_keeps(v, bs, g);
    lemma_grid_facts(g);
    reveal(admits);
    if admits(bs, g) {
        assert forall|c: int| 0 <= c < 81 && #[trigger] clues[c] != 0 implies g[c] == clues[c] by {
            assert(cand(bs, c, g[c] - 1));
            assert(clue_allows(clues, c, g[c] - 1));
        }
    }
    if is_solution(g, clues) {
        assert forall|c: int| 0 <= c < 81 implies cand(bs, c, #[trigger] g[c] - 1) by {
            assert(1 <= g[c] <= 9);
            assert(clue_allows(clues, c, g[c] - 1)) by {
                assert forall|x: int|
                    0 <= x < 81 && #[trigger] clues[x] == g[c] - 1 + 1 implies !peers(c, x) by {
                    assert(g[x] == clues[x]);
                }
            }
        }
    }
}

// ---------------------------------------------------------------------------
// Which solution is found
// ---------------------------------------------------------------------------

/// `v` without the digits below `d` at cell `p` of band `b`.
pub open spec fn cut_below(v: Seq<u32>, b: int, p: int, d: int) -> Seq<u32> {
    Seq::new(
        27,
        |i: int|
            if i / 9 == b && i % 9 < d {
                v[i] & !(1u32 << (p as u32))
            } else {
                v[i]
            },
    )
}

/// The grid `g` holds at cell `p` of band `b`, where `v` takes a guess, the
/// lowest digit of all grids that `v` admits, and `w` is what the propagation
/// makes of that digit placed there, lower ones being removed.
pub open spec fn lowest_step(v: Seq<u32>, g: Seq<u8>, b: int, p: int, w: Seq<u32>) -> bool {
    let d = g[27 * b + p] - 1;
    &&& guess_at(v, b, p)
    &&& 0 <= d < 9
    &&& forall|h: Seq<u8>| is_grid(h) && #[trigger] admits(v, h) ==> g[27 * b + p] <= h[27 * b + p]
    &&& is_closure(w, placed_at(cut_below(v, b, p, d), b, d, p))
}

/// In `depth` guesses, each at the lowest digit possible, `v` comes down to `g`.
pub open spec fn lowest_way(v: Seq<u32>, g: Seq<u8>, depth: nat) -> bool
    decreases depth,
{
    if depth == 0 {
        decided(v) && encodes(v, g)
    } else {
        exists|b: int, p: int, w: Seq<u32>| #[trigger]
            lowest_step(v, g, b, p, w) && lowest_way(w, g, (depth - 1) as nat)
    }
}

/// Removing an absent digit changes nothing, removing a present one is one more
/// digit cut off.
proof fn lemma_cut(top: Seq<u32>, b: int, p: int, d: int)
    requires
        top.len() == 27,
        0 <= b < 3,
        0 <= p < 27,
        0 <= d < 9,
    ensures
        removed_at(cut_below(top, b, p, d), b, d, p) == cut_below(top, b, p, d + 1),
        !bit32(cut_below(top, b, p, d)[9 * b + d], p) ==> cut_below(top, b, p, d + 1) == cut_below(
            top,
            b,
            p,
            d,
        ),
        cut_below(top, b, p, d)[9 * b + d] == top[9 * b + d],
{
    let v = cut_below(top, b, p, d);
    let n = cut_below(top, b, p, d + 1);
    let k = 9 * b + d;
    assert(k / 9 == b && k % 9 == d);
    assert forall|i: int| 0 <= i < 27 && i != k implies n[i] == v[i] by {
        if i / 9 == b && i % 9 == d {
            assert(i == 9 * (i / 9) + i % 9);
        }
    }
    assert(removed_at(v, b, d, p) =~= n);
    if !bit32(v[k], p) {
        let (x, y) = (v[k] & !(1u32 << (p as u32)), v[k]);
        assert forall|q: int| 0 <= q < 32 implies bit32(x, q) == bit32(y, q) by {}
        lemma_ext32(x, y);
        assert(n =~= v);
    }
}

/// A search to one solution that is not called off finds one exactly if the
/// boards admit a grid, and the one that it comes down to by the lowest digits.
pub proof fn lemma_lowest(v: Seq<u32>, c: Course, budget: int) -> (r: (Seq<u8>, nat))
    requires
        stable(v),
        c.count == 0,
        !c.aborted,
    ensures
        ({
            let end = descended(v, c, 1, budget);
            &&& 0 <= end.count <= 1
            &&& !end.aborted && end.count == 0 ==> forall|h: Seq<u8>|
                is_grid(h) ==> !#[trigger] admits(v, h)
            &&& !end.aborted && end.count > 0 ==> {
                &&& is_grid(r.0)
                &&& encodes(end.first, r.0)
                &&& admits(v, r.0)
                &&& lowest_way(v, r.0, r.1)
            }
        }),
    decreases total32(v), 2int, 0int,
{
    if decided(v) {
        let g = lemma_decided_grid(v);
        assert(lowest_way(v, g, 0));
        (g, 0)
    } else if spent(c, budget) {
        (Seq::empty(), 0)
    } else {
        let (b, p) = choose|b: int, p: int| #[trigger] guess_at(v, b, p);
        let (b2, p2) = lemma_guess(v);
        lemma_guess_once(v, b, p, b2, p2);
        assert(v.len() == 27) by {
            reveal(stable);
        }
        assert(cut_below(v, b, p, 0) =~= v);
        let next = Course { guesses: bumped(c.guesses), ..c };
        let (g, depth, w) = lemma_lowest_from(v, v, b, p, 0, next, budget);
        let end = descended(v, c, 1, budget);
        if !end.aborted && end.count > 0 {
            assert(lowest_step(v, g, b, p, w)) by {
                lemma_grid_facts(g);
                assert(1 <= g[27 * b + p] <= 9);
                assert forall|h: Seq<u8>| is_grid(h) && #[trigger] admits(v, h) implies g[27 * b + p]
                    <= h[27 * b + p] by {
                    lemma_grid_facts(h);
                    assert(1 <= h[27 * b + p] <= 9);
                }
            }
            assert(lowest_way(v, g, depth + 1));
        }
        if !end.aborted && end.count == 0 {
            assert forall|h: Seq<u8>| is_grid(h) implies !#[trigger] admits(v, h) by {
                lemma_grid_facts(h);
                assert(1 <= h[27 * b + p] <= 9);
            }
        }
        (g, depth + 1)
    }
}

proof fn lemma_lowest_from(
    top: Seq<u32>,
    v: Seq<u32>,
    b: int,
    p: int,
    d: int,
    c: Course,
    budget: int,
) -> (r: (Seq<u8>, nat, Seq<u32>))
    requires
        stable(top),
        top.len() == 27,
        0 <= b < 3,
        0 <= p < 27,
        0 <= d <= 9,
        undecided(top, b, p),
        v == cut_below(top, b, p, d),
        c.count == 0,
        !c.aborted,
    ensures
        ({
            let end = branched(top, v, b, p, d, c, 1, budget);
            let cell = 27 * b + p;
            &&& 0 <= end.count <= 1
            &&& !end.aborted && end.count == 0 ==> forall|h: Seq<u8>|
                is_grid(h) && #[trigger] admits(v, h) ==> h[cell] <= d
            &&& !end.aborted && end.count > 0 ==> {
                let e = r.0[cell] - 1;
                &&& is_grid(r.0)
                &&& encodes(end.first, r.0)
                &&& admits(v, r.0)
                &&& d <= e
                &&& forall|h: Seq<u8>|
                    is_grid(h) && #[trigger] admits(v, h) ==> h[cell] <= d || r.0[cell] <= h[cell]
                &&& is_closure(r.2, placed_at(cut_below(top, b, p, e), b, e, p))
                &&& lowest_way(r.2, r.0, r.1)
            }
        }),
    decreases total32(top), 1int, 9 - d,
{
    let cell = 27 * b + p;
    assert(cell / 27 == b && cell % 27 == p);
    if d == 9 {
        assert forall|h: Seq<u8>| is_grid(h) && #[trigger] admits(v, h) implies h[cell] <= d by {
            lemma_grid_facts(h);
        }
        (Seq::empty(), 0, Seq::empty())
    } else {
        lemma_cut(top, b, p, d);
        let none = (Seq::<u8>::empty(), 0nat);
        if !bit32(v[9 * b + d], p) {
            assert forall|h: Seq<u8>| is_grid(h) && #[trigger] admits(v, h) implies h[cell] != d + 1 by {
                lemma_grid_facts(h);
                reveal(admits);
                assert(cand(v, cell, h[cell] - 1));
            }
            lemma_lowest_from(top, v, b, p, d + 1, c, budget)
        } else {
            assert(within(v, top)) by {
                assert forall|j: int| 0 <= j < 27 implies sub32(#[trigger] v[j], top[j]) by {}
            }
            lemma_placed_less(top, v, b, d, p);
            let start = placed_at(v, b, d, p);
            let word = lemma_placed(v, b, d, p);
            let n = solved_from(start, c, 1, budget);
            let one = if closed_boards(start) is Some {
                let u = closed_boards(start)->0;
                assert(closes_to(u, start));
                lemma_lowest(u, c, budget)
            } else {
                none
            };
            // No grid with this digit, if nothing is found with it.
            if !n.aborted && n.count == 0 {
                assert forall|h: Seq<u8>| is_grid(h) && #[trigger] admits(v, h) implies h[cell] != d
                    + 1 by {
                    if h[cell] == d + 1 {
                        lemma_placed_grid(v, h, b, d, p, word);
                        lemma_grid_within(start, h);
                        lemma_grid_stable(h);
                        lemma_closed(start, boards_of(h));
                        lemma_closure_keeps(closed_boards(start)->0, start, h);
                    }
                }
            }
            if n.count >= 1 || n.aborted {
                if !n.aborted {
                    let u = closed_boards(start)->0;
                    lemma_closure_keeps(u, start, one.0);
                    lemma_placed_only(v, one.0, b, d, p, word);
                    (one.0, one.1, u)
                } else {
                    (one.0, one.1, Seq::empty())
                }
            } else {
                let left = removed_at(v, b, d, p);
                let r = lemma_lowest_from(top, left, b, p, d + 1, n, budget);
                let end = branched(top, v, b, p, d, c, 1, budget);
                if !end.aborted && end.count > 0 {
                    lemma_removed(v, b, d, p, r.0);
                }
                assert forall|h: Seq<u8>|
                    is_grid(h) && #[trigger] admits(v, h) && h[cell] != d + 1 implies admits(left, h) by {
                    lemma_removed(v, b, d, p, h);
                }
                r
            }
        }
    }
}

} // verus!
