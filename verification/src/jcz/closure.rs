//! What the propagation of the board engine computes: the largest boards that
//! are stable under its rules.

use vstd::prelude::*;
use crate::bits::{bit32, count, group_bits16, group_bits32, lemma_small32};
use crate::boards::{
    admits, boards_ok, cand, keeps, lemma_closure_sound, lemma_homes, lemma_within_admits, sub32,
    within,
};
use crate::grid::{home_col, is_grid, lemma_band_boxes, lemma_cell_coords, lemma_grid_facts, peers};
use crate::jcz::tables::near;
use crate::minirow::{
    closed_at, fits, fits_cells, in_perm, is_pattern, lemma_supported_lines, occupied, perm_box,
    supported, BAND_ALL,
};

verus! {

broadcast use {group_bits16, group_bits32};

/// Cell `p` is the only cell of its line and of its box that `m` holds.
pub open spec fn pinned(m: u32, p: int) -> bool {
    &&& 0 <= p < 27
    &&& bit32(m, p)
    &&& forall|q: int| 0 <= q < 27 && near(q, p) && #[trigger] bit32(m, q) ==> q == p
}

/// Cell set `m` lies within the permutations that fit it.
pub open spec fn closed_self(m: u32) -> bool {
    forall|p: int| #[trigger]
        bit32(m, p) ==> exists|k: int| #[trigger] fits_cells(m, k) && in_perm(k, p / 3)
}

/// Column `x` is the only column that `m` occupies in the box of `x`.
pub open spec fn lone_col(m: u32, x: int) -> bool {
    &&& 0 <= x < 9
    &&& exists|r: int| 0 <= r < 3 && #[trigger] bit32(m, 9 * r + x)
    &&& forall|q: int| 0 <= q < 27 && (q % 9) / 3 == x / 3 && #[trigger] bit32(m, q) ==> q % 9 == x
}

/// The columns that board `9 * b + d` claims are clear of `d` in band `b2`.
pub open spec fn column_clear(bs: Seq<u32>, b: int, d: int, b2: int) -> bool {
    forall|q: int|
        0 <= q < 27 && lone_col(bs[9 * b + d], q % 9) ==> !#[trigger] bit32(bs[9 * b2 + d], q)
}

/// Digit `d` is the only candidate at cell `p` of band `b`.
pub open spec fn lone_digit(bs: Seq<u32>, b: int, d: int, p: int) -> bool {
    &&& bit32(bs[9 * b + d], p)
    &&& forall|e: int| 0 <= e < 9 && e != d ==> !bit32(#[trigger] bs[9 * b + e], p)
}

/// Some digit is a candidate at cell `p` of band `b`.
pub open spec fn has_candidate(bs: Seq<u32>, b: int, p: int) -> bool {
    exists|e: int| 0 <= e < 9 && bit32(#[trigger] bs[9 * b + e], p)
}

/// Boards on which the rules of the propagation find nothing more to do:
/// every digit has a permutation in every band and no cell outside of its
/// permutations, a box confined to a column clears the column in the other
/// bands, a digit confined to one cell of a line and box has the cell to
/// itself, every cell has a candidate, and a cell with one candidate has
/// cleared it from its line and box.
#[verifier::opaque]
pub open spec fn stable(bs: Seq<u32>) -> bool {
    &&& boards_ok(bs)
    &&& forall|i: int| 0 <= i < 27 ==> supported(#[trigger] bs[i]) && closed_self(bs[i])
    &&& forall|b: int, d: int, b2: int|
        0 <= b < 3 && 0 <= d < 9 && 0 <= b2 < 3 && b2 != b ==> #[trigger] column_clear(bs, b, d, b2)
    &&& forall|b: int, d: int, p: int|
        0 <= b < 3 && 0 <= d < 9 && 0 <= p < 27 && bit32(bs[9 * b + d], p) ==> (pinned(
            bs[9 * b + d],
            p,
        ) <==> #[trigger] lone_digit(bs, b, d, p))
    &&& forall|b: int, p: int|
        0 <= b < 3 && 0 <= p < 27 ==> #[trigger] has_candidate(bs, b, p)
}

/// Cell `p` of band `b` has two candidates or more.
pub open spec fn undecided(bs: Seq<u32>, b: int, p: int) -> bool {
    exists|d: int, e: int|
        0 <= d < e < 9 && #[trigger] bit32(bs[9 * b + d], p) && #[trigger] bit32(bs[9 * b + e], p)
}

/// Number of cells with two candidates or more.
pub open spec fn open_count(bs: Seq<u32>) -> nat {
    count(|p: int| undecided(bs, 0, p), 27) + count(|p: int| undecided(bs, 1, p), 27) + count(
        |p: int| undecided(bs, 2, p),
        27,
    )
}

/// Every stable part of `a` is a part of `b`.
pub open spec fn keeps_stable(a: Seq<u32>, b: Seq<u32>) -> bool {
    forall|v: Seq<u32>| stable(v) && #[trigger] within(v, a) ==> within(v, b)
}

/// No part of `a` is stable.
pub open spec fn none_stable(a: Seq<u32>) -> bool {
    forall|v: Seq<u32>| stable(v) ==> !#[trigger] within(v, a)
}

/// `v` is the largest stable part of `a`.
pub open spec fn is_closure(v: Seq<u32>, a: Seq<u32>) -> bool {
    stable(v) && within(v, a) && keeps_stable(a, v)
}

/// A permutation that fits a part fits the whole.
pub proof fn lemma_fits_mono(v: u32, m: u32, k: int)
    requires
        sub32(v, m),
        fits_cells(v, k),
    ensures
        fits_cells(m, k),
{
}

/// A fitting permutation has a cell in every box.
pub proof fn lemma_box_occupied(m: u32, j: int) -> (p: int)
    requires
        supported(m),
        0 <= j < 3,
    ensures
        0 <= p < 27,
        bit32(m, p),
        (p % 9) / 3 == j,
{
    let k = choose|k: int| #[trigger] fits_cells(m, k);
    let r = if perm_box(k, 0) == j {
        0int
    } else if perm_box(k, 1) == j {
        1
    } else {
        2
    };
    assert(perm_box(k, r) == j);
    let i = 3 * r + j;
    assert(occupied(m, i));
    if bit32(m, 3 * i) {
        assert(((3 * i) % 9) / 3 == j);
        3 * i
    } else if bit32(m, 3 * i + 1) {
        assert(((3 * i + 1) % 9) / 3 == j);
        3 * i + 1
    } else {
        assert(((3 * i + 2) % 9) / 3 == j);
        3 * i + 2
    }
}

/// Where the larger set claims a column, so does a supported part of it.
pub proof fn lemma_lone_col_mono(v: u32, m: u32, x: int)
    requires
        sub32(v, m),
        supported(v),
        lone_col(m, x),
    ensures
        lone_col(v, x),
{
    let p = lemma_box_occupied(v, x / 3);
    assert(bit32(m, p));
    assert(p % 9 == x);
    assert(bit32(v, 9 * (p / 9) + x));
}

/// Where the larger set pins a cell, so does a supported part of it.
pub proof fn lemma_pinned_mono(v: u32, m: u32, p: int)
    requires
        sub32(v, m),
        supported(v),
        pinned(m, p),
    ensures
        pinned(v, p),
{
    let x = lemma_supported_lines(v, p / 9);
    assert(bit32(m, 9 * (p / 9) + x));
    assert(near(9 * (p / 9) + x, p));
}

/// In a grid that the boards admit, a pinned digit holds its cell.
pub proof fn lemma_pinned_true(bs: Seq<u32>, g: Seq<u8>, b: int, d: int, p: int)
    requires
        is_grid(g),
        admits(bs, g),
        0 <= b < 3,
        0 <= d < 9,
        pinned(bs[9 * b + d], p),
    ensures
        g[27 * b + p] == d + 1,
{
    lemma_homes(bs, g, b, d);
    let r = p / 9;
    let q = 9 * r + home_col(g, 3 * b + r, d);
    assert(bit32(bs[9 * b + d], q));
    assert(near(q, p));
}

/// In a grid that the boards admit, a claimed column holds the digit in the
/// claiming band, so nowhere in the others.
pub proof fn lemma_lone_col_true(bs: Seq<u32>, g: Seq<u8>, b: int, d: int, x: int, c: int)
    requires
        is_grid(g),
        admits(bs, g),
        0 <= b < 3,
        0 <= d < 9,
        lone_col(bs[9 * b + d], x),
        0 <= c < 81,
        c % 9 == x,
        c / 27 != b,
    ensures
        g[c] != d + 1,
{
    lemma_homes(bs, g, b, d);
    lemma_band_boxes(g, b, d);
    lemma_grid_facts(g);
    let x0 = home_col(g, 3 * b + 0, d);
    let x1 = home_col(g, 3 * b + 1, d);
    let x2 = home_col(g, 3 * b + 2, d);
    let r = if x0 / 3 == x / 3 {
        0int
    } else if x1 / 3 == x / 3 {
        1
    } else {
        2
    };
    let y = home_col(g, 3 * b + r, d);
    assert(y / 3 == x / 3);
    assert(0 <= y < 9);
    let q = 9 * r + y;
    assert(bit32(bs[9 * b + d], q));
    assert(q % 9 == y) by {
        lemma_cell_coords(r, y);
    }
    assert(y == x);
    let e = 9 * (3 * b + r) + y;
    assert(g[e] == d + 1);
    lemma_cell_coords(3 * b + r, y);
    assert(e != c) by {
        assert(e / 27 == b);
    }
    assert(peers(e, c));
}

// ---------------------------------------------------------------------------
// The steps of one update
// ---------------------------------------------------------------------------

/// Replacing one board keeps a grid if the grid's cells for the digit stay.
pub proof fn lemma_admits_update(bs: Seq<u32>, g: Seq<u8>, b: int, d: int, w: u32)
    requires
        bs.len() == 27,
        is_grid(g),
        admits(bs, g),
        0 <= b < 3,
        0 <= d < 9,
        forall|p: int| 0 <= p < 27 && #[trigger] g[27 * b + p] == d + 1 ==> bit32(w, p),
    ensures
        admits(bs.update(9 * b + d, w), g),
{
    reveal(admits);
    lemma_grid_facts(g);
    let n = bs.update(9 * b + d, w);
    assert forall|c: int| 0 <= c < 81 implies cand(n, c, #[trigger] g[c] - 1) by {
        assert(cand(bs, c, g[c] - 1));
        if c / 27 == b && g[c] == d + 1 {
            assert(g[27 * b + c % 27] == d + 1);
        }
    }
}

pub proof fn lemma_within_update(v: Seq<u32>, bs: Seq<u32>, i: int, w: u32)
    requires
        within(v, bs),
        0 <= i < bs.len(),
        sub32(v[i], w),
    ensures
        within(v, bs.update(i, w)),
{
    let n = bs.update(i, w);
    assert forall|j: int| 0 <= j < v.len() implies sub32(#[trigger] v[j], n[j]) by {
        assert(sub32(v[j], bs[j]));
    }
}

/// Step one: the board is cut down to the closure of its pattern.
pub proof fn lemma_step_close(bs: Seq<u32>, b: int, d: int, s: u16, m: u32)
    requires
        bs.len() == 27,
        0 <= b < 3,
        0 <= d < 9,
        is_pattern(s, bs[9 * b + d]),
        forall|p: int| #[trigger]
            bit32(m, p) <==> bit32(bs[9 * b + d], p) && 0 <= p < 27 && closed_at(s, p / 3),
    ensures
        keeps(bs, bs.update(9 * b + d, m)),
        keeps_stable(bs, bs.update(9 * b + d, m)),
{
    let i = 9 * b + d;
    let n = bs.update(i, m);
    assert forall|g: Seq<u8>| is_grid(g) && #[trigger] admits(bs, g) implies admits(n, g) by {
        assert forall|p: int| 0 <= p < 27 && #[trigger] g[27 * b + p] == d + 1 implies bit32(m, p) by {
            lemma_closure_sound(bs, g, b, d, s, p);
            lemma_homes(bs, g, b, d);
        }
        lemma_admits_update(bs, g, b, d, m);
    }
    assert forall|v: Seq<u32>| stable(v) && #[trigger] within(v, bs) implies within(v, n) by {
        reveal(stable);
        assert(sub32(v[i], bs[i]));
        assert(closed_self(v[i]));
        assert forall|p: int| #[trigger] bit32(v[i], p) implies bit32(m, p) by {
            assert(v[i] <= BAND_ALL);
            lemma_in_band(v[i], p);
            let k = choose|k: int| #[trigger] fits_cells(v[i], k) && in_perm(k, p / 3);
            lemma_fits_mono(v[i], bs[i], k);
            assert(fits(s, k));
            assert(closed_at(s, p / 3));
        }
        lemma_within_update(v, bs, i, m);
    }
}

/// A 27-bit word has no bits above.
pub proof fn lemma_in_band(m: u32, p: int)
    requires
        m <= BAND_ALL,
        bit32(m, p),
    ensures
        0 <= p < 27,
{
    lemma_small32(m, p);
}

/// Step two: a neighbour band gives up the columns that the board claims.
pub proof fn lemma_step_column(bs: Seq<u32>, b: int, d: int, b2: int, w: u32)
    requires
        bs.len() == 27,
        0 <= b < 3,
        0 <= d < 9,
        0 <= b2 < 3,
        b2 != b,
        forall|q: int| #[trigger]
            bit32(w, q) <==> bit32(bs[9 * b2 + d], q) && 0 <= q < 27 && !lone_col(
                bs[9 * b + d],
                q % 9,
            ),
    ensures
        keeps(bs, bs.update(9 * b2 + d, w)),
        keeps_stable(bs, bs.update(9 * b2 + d, w)),
{
    let i = 9 * b2 + d;
    let n = bs.update(i, w);
    assert forall|g: Seq<u8>| is_grid(g) && #[trigger] admits(bs, g) implies admits(n, g) by {
        assert forall|q: int| 0 <= q < 27 && #[trigger] g[27 * b2 + q] == d + 1 implies bit32(w, q) by {
            lemma_homes(bs, g, b2, d);
            if lone_col(bs[9 * b + d], q % 9) {
                let c = 27 * b2 + q;
                assert(c % 9 == q % 9 && c / 27 == b2);
                lemma_lone_col_true(bs, g, b, d, q % 9, c);
            }
        }
        lemma_admits_update(bs, g, b2, d, w);
    }
    assert forall|v: Seq<u32>| stable(v) && #[trigger] within(v, bs) implies within(v, n) by {
        reveal(stable);
        assert(sub32(v[i], bs[i]));
        assert(sub32(v[9 * b + d], bs[9 * b + d]));
        assert(column_clear(v, b, d, b2));
        assert(supported(v[9 * b + d]));
        assert forall|q: int| #[trigger] bit32(v[i], q) implies bit32(w, q) by {
            assert(v[i] <= BAND_ALL);
            lemma_in_band(v[i], q);
            if lone_col(bs[9 * b + d], q % 9) {
                lemma_lone_col_mono(v[9 * b + d], bs[9 * b + d], q % 9);
            }
        }
        lemma_within_update(v, bs, i, w);
    }
}

/// Step three: the cells that the board pins are cleared from the band's
/// other digits.
pub proof fn lemma_step_sweep(bs: Seq<u32>, b: int, d: int, n: Seq<u32>)
    requires
        bs.len() == 27,
        n.len() == 27,
        0 <= b < 3,
        0 <= d < 9,
        forall|i: int, p: int|
            0 <= i < 27 ==> (#[trigger] bit32(n[i], p) <==> bit32(bs[i], p) && !(i / 9 == b && i != 9
                * b + d && pinned(bs[9 * b + d], p))),
    ensures
        within(n, bs),
        keeps(bs, n),
        keeps_stable(bs, n),
{
    assert forall|i: int| 0 <= i < 27 implies sub32(#[trigger] n[i], bs[i]) by {}
    assert forall|g: Seq<u8>| is_grid(g) && #[trigger] admits(bs, g) implies admits(n, g) by {
        lemma_grid_facts(g);
        assert forall|c: int| 0 <= c < 81 implies cand(n, c, #[trigger] g[c] - 1) by {
            reveal(admits);
            let (e, p) = (g[c] - 1, c % 27);
            assert(cand(bs, c, e));
            let i = 9 * (c / 27) + e;
            if i / 9 == b && i != 9 * b + d && pinned(bs[9 * b + d], p) {
                lemma_pinned_true(bs, g, b, d, p);
                assert(c == 27 * b + p);
            }
        }
        assert(admits(n, g)) by {
            reveal(admits);
        }
    }
    assert forall|v: Seq<u32>| stable(v) && #[trigger] within(v, bs) implies within(v, n) by {
        reveal(stable);
        assert forall|i: int| 0 <= i < 27 implies sub32(#[trigger] v[i], n[i]) by {
            assert(sub32(v[i], bs[i]));
            assert(sub32(v[9 * b + d], bs[9 * b + d]));
            assert forall|p: int| #[trigger] bit32(v[i], p) implies bit32(n[i], p) by {
                if i / 9 == b && i != 9 * b + d && pinned(bs[9 * b + d], p) {
                    assert(supported(v[9 * b + d]));
                    lemma_pinned_mono(v[9 * b + d], bs[9 * b + d], p);
                    assert(lone_digit(v, b, d, p));
                    let e = i - 9 * b;
                    assert(!bit32(v[9 * b + e], p));
                }
            }
        }
    }
}

/// Step four: a digit that is the only candidate of its cell is cleared from
/// the rest of the cell's line and box.
pub proof fn lemma_step_place(bs: Seq<u32>, b: int, d: int, p: int, w: u32)
    requires
        boards_ok(bs),
        0 <= b < 3,
        0 <= d < 9,
        0 <= p < 27,
        forall|e: int| 0 <= e < 9 && e != d ==> !bit32(#[trigger] bs[9 * b + e], p),
        forall|q: int| #[trigger]
            bit32(w, q) <==> bit32(bs[9 * b + d], q) && (q == p || !near(q, p)),
    ensures
        keeps(bs, bs.update(9 * b + d, w)),
        keeps_stable(bs, bs.update(9 * b + d, w)),
{
    let i = 9 * b + d;
    let n = bs.update(i, w);
    assert forall|g: Seq<u8>| is_grid(g) && #[trigger] admits(bs, g) implies admits(n, g) by {
        lemma_grid_facts(g);
        assert(g[27 * b + p] == d + 1) by {
            reveal(admits);
            let c = 27 * b + p;
            assert(cand(bs, c, g[c] - 1));
            assert(c / 27 == b && c % 27 == p);
        }
        lemma_placed_grid(bs, g, b, d, p, w);
    }
    assert forall|v: Seq<u32>| stable(v) && #[trigger] within(v, bs) implies within(v, n) by {
        reveal(stable);
        assert(sub32(v[i], bs[i]));
        assert(has_candidate(v, b, p));
        assert forall|e: int| 0 <= e < 9 && e != d implies !bit32(#[trigger] v[9 * b + e], p) by {
            assert(sub32(v[9 * b + e], bs[9 * b + e]));
        }
        assert(bit32(v[i], p));
        assert(lone_digit(v, b, d, p));
        assert(pinned(v[i], p));
        assert forall|q: int| #[trigger] bit32(v[i], q) implies bit32(w, q) by {
            assert(v[i] <= BAND_ALL);
            lemma_in_band(v[i], q);
        }
        lemma_within_update(v, bs, i, w);
    }
}

/// A grid with `d` in cell `p` survives clearing `d` from the rest of the
/// line and box.
pub proof fn lemma_placed_grid(bs: Seq<u32>, g: Seq<u8>, b: int, d: int, p: int, w: u32)
    requires
        bs.len() == 27,
        is_grid(g),
        admits(bs, g),
        0 <= b < 3,
        0 <= d < 9,
        0 <= p < 27,
        g[27 * b + p] == d + 1,
        forall|q: int| #[trigger]
            bit32(w, q) <==> bit32(bs[9 * b + d], q) && (q == p || !near(q, p)),
    ensures
        admits(bs.update(9 * b + d, w), g),
{
    lemma_grid_facts(g);
    lemma_homes(bs, g, b, d);
    assert forall|q: int| 0 <= q < 27 && #[trigger] g[27 * b + q] == d + 1 implies bit32(w, q) by {
        if near(q, p) && q != p {
            lemma_cell_coords(3 * b + q / 9, q % 9);
            lemma_cell_coords(3 * b + p / 9, p % 9);
            assert(27 * b + q == 9 * (3 * b + q / 9) + q % 9);
            assert(27 * b + p == 9 * (3 * b + p / 9) + p % 9);
            assert(peers(27 * b + q, 27 * b + p));
        }
    }
    lemma_admits_update(bs, g, b, d, w);
}

/// A grid that survives clearing `d` from the rest of the line and box of
/// cell `p` has `d` there.
pub proof fn lemma_placed_only(bs: Seq<u32>, g: Seq<u8>, b: int, d: int, p: int, w: u32)
    requires
        bs.len() == 27,
        is_grid(g),
        admits(bs.update(9 * b + d, w), g),
        0 <= b < 3,
        0 <= d < 9,
        0 <= p < 27,
        forall|q: int| #[trigger]
            bit32(w, q) <==> bit32(bs[9 * b + d], q) && (q == p || !near(q, p)),
    ensures
        g[27 * b + p] == d + 1,
        admits(bs, g),
{
    let n = bs.update(9 * b + d, w);
    lemma_homes(n, g, b, d);
    let r = p / 9;
    let q = 9 * r + home_col(g, 3 * b + r, d);
    assert(bit32(n[9 * b + d], q));
    assert(near(q, p));
    assert(within(n, bs)) by {
        assert forall|i: int| 0 <= i < 27 implies sub32(#[trigger] n[i], bs[i]) by {}
    }
    lemma_within_admits(n, bs, g);
}

} // verus!
