//! What the lanes of the triad engine say about a grid: the literals of a
//! box and the configurations of a band.

use vstd::prelude::*;
use crate::bits::{
    bit16, count, group_bits16, lemma_count_drop, lemma_count_mono, lemma_pop9, lemma_small9, pop16,
};
use crate::grid::{is_grid, lemma_cell_coords, lemma_grid_facts, lemma_unit_has, peers, unit_cell};

verus! {

broadcast use group_bits16;

/// Cell in row `r` and column `c` of box `bx`.
pub open spec fn cell_at(bx: int, r: int, c: int) -> int {
    27 * (bx / 3) + 9 * r + 3 * (bx % 3) + c
}

/// Digit `d` (counted from 0) is in row `r` of box `bx`: in that horizontal
/// triad.
pub open spec fn in_row(g: Seq<u8>, bx: int, r: int, d: int) -> bool {
    g[cell_at(bx, r, 0)] == d + 1 || g[cell_at(bx, r, 1)] == d + 1 || g[cell_at(bx, r, 2)] == d + 1
}

/// Digit `d` is in column `c` of box `bx`: in that vertical triad.
pub open spec fn in_col(g: Seq<u8>, bx: int, c: int, d: int) -> bool {
    g[cell_at(bx, 0, c)] == d + 1 || g[cell_at(bx, 1, c)] == d + 1 || g[cell_at(bx, 2, c)] == d + 1
}

/// The literal of lane `lane` of box `bx` and digit `d` is true in `g`. In
/// the 3x3 corner: the cell holds the digit. In the margins: the digit is not
/// in the triad of that row or column. The last lane is always true.
pub open spec fn lit(g: Seq<u8>, bx: int, lane: int, d: int) -> bool {
    if lane / 4 < 3 && lane % 4 < 3 {
        g[cell_at(bx, lane / 4, lane % 4)] == d + 1
    } else if lane / 4 < 3 {
        !in_row(g, bx, lane / 4, d)
    } else if lane % 4 < 3 {
        !in_col(g, bx, lane % 4, d)
    } else {
        true
    }
}

/// Where configuration `k` of a digit places its triad in box peer `p`: the
/// six configurations are the six ways to give three peers different
/// elements.
pub open spec fn config_elem(k: int, p: int) -> int {
    if k < 3 {
        (k + p) % 3
    } else {
        (k + 2 - p) % 3
    }
}

/// Box peer `p` of band `b`, horizontal (`v` 0) or vertical (`v` 1).
pub open spec fn peer_box(v: int, b: int, p: int) -> int {
    if v == 0 {
        3 * b + p
    } else {
        3 * p + b
    }
}

/// Digit `d` is in triad `e` of box peer `p` of the band.
pub open spec fn in_triad(g: Seq<u8>, v: int, b: int, p: int, e: int, d: int) -> bool {
    if v == 0 {
        in_row(g, peer_box(v, b, p), e, d)
    } else {
        in_col(g, peer_box(v, b, p), e, d)
    }
}

/// Digit `d` takes configuration `k` in the band.
pub open spec fn conf(g: Seq<u8>, v: int, b: int, k: int, d: int) -> bool {
    &&& 0 <= k < 6
    &&& in_triad(g, v, b, 0, config_elem(k, 0), d)
    &&& in_triad(g, v, b, 1, config_elem(k, 1), d)
    &&& in_triad(g, v, b, 2, config_elem(k, 2), d)
}

pub proof fn lemma_cell_at(bx: int, r: int, c: int)
    requires
        0 <= bx < 9,
        0 <= r < 3,
        0 <= c < 3,
    ensures
        0 <= cell_at(bx, r, c) < 81,
        cell_at(bx, r, c) / 9 == 3 * (bx / 3) + r,
        cell_at(bx, r, c) % 9 == 3 * (bx % 3) + c,
        crate::grid::box_of(cell_at(bx, r, c)) == bx,
{
    lemma_cell_coords(3 * (bx / 3) + r, 3 * (bx % 3) + c);
}

/// No digit stands twice in a box.
pub proof fn lemma_box_once(g: Seq<u8>, bx: int, r: int, c: int, r2: int, c2: int)
    requires
        is_grid(g),
        0 <= bx < 9,
        0 <= r < 3,
        0 <= c < 3,
        0 <= r2 < 3,
        0 <= c2 < 3,
        g[cell_at(bx, r, c)] == g[cell_at(bx, r2, c2)],
    ensures
        r == r2,
        c == c2,
{
    lemma_cell_at(bx, r, c);
    lemma_cell_at(bx, r2, c2);
    lemma_grid_facts(g);
    let (x, y) = (cell_at(bx, r, c), cell_at(bx, r2, c2));
    if x != y {
        assert(peers(x, y));
    }
}

/// Every digit stands somewhere in a box.
pub proof fn lemma_box_has(g: Seq<u8>, bx: int, d: int) -> (rc: (int, int))
    requires
        is_grid(g),
        0 <= bx < 9,
        0 <= d < 9,
    ensures
        0 <= rc.0 < 3,
        0 <= rc.1 < 3,
        g[cell_at(bx, rc.0, rc.1)] == d + 1,
{
    let i = lemma_unit_has(g, 18 + bx, d + 1);
    assert(unit_cell(18 + bx, i) == cell_at(bx, i / 3, i % 3));
    (i / 3, i % 3)
}

/// A digit does not stand in the same row of two boxes side by side.
pub proof fn lemma_row_clash(g: Seq<u8>, b: int, p: int, q: int, e: int, d: int)
    requires
        is_grid(g),
        0 <= b < 3,
        0 <= p < 3,
        0 <= q < 3,
        0 <= e < 3,
        p != q,
        in_row(g, 3 * b + p, e, d),
    ensures
        !in_row(g, 3 * b + q, e, d),
{
    lemma_grid_facts(g);
    let (x, y) = (3 * b + p, 3 * b + q);
    assert(x / 3 == b && x % 3 == p && y / 3 == b && y % 3 == q);
    let c = if g[cell_at(x, e, 0)] == d + 1 {
        0int
    } else if g[cell_at(x, e, 1)] == d + 1 {
        1
    } else {
        2
    };
    let c2 = if g[cell_at(y, e, 0)] == d + 1 {
        0int
    } else if g[cell_at(y, e, 1)] == d + 1 {
        1
    } else {
        2
    };
    lemma_cell_at(x, e, c);
    lemma_cell_at(y, e, c2);
    if in_row(g, y, e, d) {
        assert(peers(cell_at(x, e, c), cell_at(y, e, c2)));
    }
}

/// A digit does not stand in the same column of two boxes one above the other.
pub proof fn lemma_col_clash(g: Seq<u8>, b: int, p: int, q: int, e: int, d: int)
    requires
        is_grid(g),
        0 <= b < 3,
        0 <= p < 3,
        0 <= q < 3,
        0 <= e < 3,
        p != q,
        in_col(g, 3 * p + b, e, d),
    ensures
        !in_col(g, 3 * q + b, e, d),
{
    lemma_grid_facts(g);
    let (x, y) = (3 * p + b, 3 * q + b);
    assert(x / 3 == p && x % 3 == b && y / 3 == q && y % 3 == b);
    let r = if g[cell_at(x, 0, e)] == d + 1 {
        0int
    } else if g[cell_at(x, 1, e)] == d + 1 {
        1
    } else {
        2
    };
    let r2 = if g[cell_at(y, 0, e)] == d + 1 {
        0int
    } else if g[cell_at(y, 1, e)] == d + 1 {
        1
    } else {
        2
    };
    lemma_cell_at(x, r, e);
    lemma_cell_at(y, r2, e);
    if in_col(g, y, e, d) {
        assert(peers(cell_at(x, r, e), cell_at(y, r2, e)));
    }
}

/// A digit is in exactly one row of a box.
pub proof fn lemma_row_of(g: Seq<u8>, bx: int, d: int) -> (r: int)
    requires
        is_grid(g),
        0 <= bx < 9,
        0 <= d < 9,
    ensures
        0 <= r < 3,
        in_row(g, bx, r, d),
        forall|q: int| 0 <= q < 3 && #[trigger] in_row(g, bx, q, d) ==> q == r,
{
    let (r, c) = lemma_box_has(g, bx, d);
    assert forall|q: int| 0 <= q < 3 && #[trigger] in_row(g, bx, q, d) implies q == r by {
        if g[cell_at(bx, q, 0)] == d + 1 {
            lemma_box_once(g, bx, q, 0, r, c);
        } else if g[cell_at(bx, q, 1)] == d + 1 {
            lemma_box_once(g, bx, q, 1, r, c);
        } else {
            lemma_box_once(g, bx, q, 2, r, c);
        }
    }
    r
}

/// A digit is in exactly one column of a box.
pub proof fn lemma_col_of(g: Seq<u8>, bx: int, d: int) -> (c: int)
    requires
        is_grid(g),
        0 <= bx < 9,
        0 <= d < 9,
    ensures
        0 <= c < 3,
        in_col(g, bx, c, d),
        forall|q: int| 0 <= q < 3 && #[trigger] in_col(g, bx, q, d) ==> q == c,
{
    let (r, c) = lemma_box_has(g, bx, d);
    assert forall|q: int| 0 <= q < 3 && #[trigger] in_col(g, bx, q, d) implies q == c by {
        if g[cell_at(bx, 0, q)] == d + 1 {
            lemma_box_once(g, bx, 0, q, r, c);
        } else if g[cell_at(bx, 1, q)] == d + 1 {
            lemma_box_once(g, bx, 1, q, r, c);
        } else {
            lemma_box_once(g, bx, 2, q, r, c);
        }
    }
    c
}

/// A digit is in exactly one triad of a box peer.
pub proof fn lemma_triad_of(g: Seq<u8>, v: int, b: int, p: int, d: int) -> (e: int)
    requires
        is_grid(g),
        0 <= v < 2,
        0 <= b < 3,
        0 <= p < 3,
        0 <= d < 9,
    ensures
        0 <= e < 3,
        in_triad(g, v, b, p, e, d),
        forall|q: int| 0 <= q < 3 && #[trigger] in_triad(g, v, b, p, q, d) ==> q == e,
{
    if v == 0 {
        let e = lemma_row_of(g, peer_box(v, b, p), d);
        assert forall|q: int| 0 <= q < 3 && #[trigger] in_triad(g, v, b, p, q, d) implies q == e by {
            assert(in_row(g, peer_box(v, b, p), q, d));
        }
        e
    } else {
        let e = lemma_col_of(g, peer_box(v, b, p), d);
        assert forall|q: int| 0 <= q < 3 && #[trigger] in_triad(g, v, b, p, q, d) implies q == e by {
            assert(in_col(g, peer_box(v, b, p), q, d));
        }
        e
    }
}

/// In a grid every digit takes a configuration in every band.
pub proof fn lemma_conf_of(g: Seq<u8>, v: int, b: int, d: int) -> (k: int)
    requires
        is_grid(g),
        0 <= v < 2,
        0 <= b < 3,
        0 <= d < 9,
    ensures
        0 <= k < 6,
        conf(g, v, b, k, d),
        forall|j: int| #[trigger] conf(g, v, b, j, d) ==> j == k,
{
    let e0 = lemma_triad_of(g, v, b, 0, d);
    let e1 = lemma_triad_of(g, v, b, 1, d);
    let e2 = lemma_triad_of(g, v, b, 2, d);
    if e0 == e1 {
        if v == 0 {
            lemma_row_clash(g, b, 0, 1, e0, d);
        } else {
            lemma_col_clash(g, b, 0, 1, e0, d);
        }
    }
    if e0 == e2 {
        if v == 0 {
            lemma_row_clash(g, b, 0, 2, e0, d);
        } else {
            lemma_col_clash(g, b, 0, 2, e0, d);
        }
    }
    if e1 == e2 {
        if v == 0 {
            lemma_row_clash(g, b, 1, 2, e1, d);
        } else {
            lemma_col_clash(g, b, 1, 2, e1, d);
        }
    }
    let k = lemma_config_named(e0, e1, e2);
    assert forall|j: int| #[trigger] conf(g, v, b, j, d) implies j == k by {
        lemma_config_range(j, 0);
        lemma_config_range(j, 1);
        lemma_config_range(j, 2);
        assert(config_elem(j, 0) == e0);
        assert(config_elem(j, 1) == e1);
        lemma_config_once(j, k);
    }
    k
}

pub proof fn lemma_config_range(k: int, p: int)
    requires
        0 <= k < 6,
        0 <= p < 3,
    ensures
        0 <= config_elem(k, p) < 3,
{
}

/// The configuration with the given three elements.
proof fn lemma_config_named(e0: int, e1: int, e2: int) -> (k: int)
    requires
        0 <= e0 < 3,
        0 <= e1 < 3,
        0 <= e2 < 3,
        e0 != e1,
        e0 != e2,
        e1 != e2,
    ensures
        0 <= k < 6,
        config_elem(k, 0) == e0,
        config_elem(k, 1) == e1,
        config_elem(k, 2) == e2,
{
    if (e0 + 1) % 3 == e1 {
        e0
    } else if e0 == 2 {
        3
    } else {
        e0 + 4
    }
}

/// Two elements determine the configuration.
pub proof fn lemma_config_once(j: int, k: int)
    requires
        0 <= j < 6,
        0 <= k < 6,
        config_elem(j, 0) == config_elem(k, 0),
        config_elem(j, 1) == config_elem(k, 1),
    ensures
        j == k,
{
}

/// A digit's configuration and its triad in a box peer agree.
pub proof fn lemma_conf_triad(g: Seq<u8>, v: int, b: int, k: int, p: int, e: int, d: int)
    requires
        is_grid(g),
        0 <= v < 2,
        0 <= b < 3,
        0 <= p < 3,
        0 <= d < 9,
        0 <= e < 3,
        conf(g, v, b, k, d),
    ensures
        in_triad(g, v, b, p, e, d) <==> config_elem(k, p) == e,
{
    let x = lemma_triad_of(g, v, b, p, d);
    lemma_config_range(k, p);
    assert(in_triad(g, v, b, p, config_elem(k, p), d)) by {
        if p == 0 {
        } else if p == 1 {
        } else {
            assert(p == 2);
        }
    }
}

/// In a row of three cells and their margin exactly one literal of a digit
/// is true.
pub proof fn lemma_row_lit(g: Seq<u8>, bx: int, r: int, d: int) -> (lane: int)
    requires
        is_grid(g),
        0 <= bx < 9,
        0 <= r < 3,
        0 <= d < 9,
    ensures
        4 * r <= lane < 4 * r + 4,
        lit(g, bx, lane, d),
        forall|i: int| 4 * r <= i < 4 * r + 4 && #[trigger] lit(g, bx, i, d) ==> i == lane,
{
    let lane = if g[cell_at(bx, r, 0)] == d + 1 {
        4 * r
    } else if g[cell_at(bx, r, 1)] == d + 1 {
        4 * r + 1
    } else if g[cell_at(bx, r, 2)] == d + 1 {
        4 * r + 2
    } else {
        4 * r + 3
    };
    assert(lane / 4 == r);
    assert forall|i: int| 4 * r <= i < 4 * r + 4 && #[trigger] lit(g, bx, i, d) implies i == lane by {
        assert(i / 4 == r);
        if i % 4 < 3 && lane % 4 < 3 {
            lemma_box_once(g, bx, r, i % 4, r, lane % 4);
        }
    }
    lane
}

/// In a column of three cells and their margin exactly one literal of a digit
/// is true.
pub proof fn lemma_col_lit(g: Seq<u8>, bx: int, c: int, d: int) -> (lane: int)
    requires
        is_grid(g),
        0 <= bx < 9,
        0 <= c < 3,
        0 <= d < 9,
    ensures
        0 <= lane < 16,
        lane % 4 == c,
        lit(g, bx, lane, d),
        forall|i: int| 0 <= i < 16 && i % 4 == c && #[trigger] lit(g, bx, i, d) ==> i == lane,
{
    let lane = if g[cell_at(bx, 0, c)] == d + 1 {
        c
    } else if g[cell_at(bx, 1, c)] == d + 1 {
        4 + c
    } else if g[cell_at(bx, 2, c)] == d + 1 {
        8 + c
    } else {
        12 + c
    };
    assert(lane % 4 == c);
    assert forall|i: int| 0 <= i < 16 && i % 4 == c && #[trigger] lit(g, bx, i, d) implies i
        == lane by {
        if i / 4 < 3 && lane / 4 < 3 {
            lemma_box_once(g, bx, i / 4, c, lane / 4, c);
        }
    }
    lane
}

// ---------------------------------------------------------------------------
// Counting digits
// ---------------------------------------------------------------------------

/// Nine of nine.
proof fn lemma_count_all(n: nat)
    ensures
        count(|i: int| true, n) == n,
    decreases n,
{
    if n > 0 {
        lemma_count_all((n - 1) as nat);
    }
}

/// A set of six digits or more: all digits but at most three given ones.
pub proof fn lemma_pop_six(m: u16, a: int, b: int, c: int)
    requires
        m <= 0x1FF,
        0 <= a < 9,
        0 <= b < 9,
        0 <= c < 9,
        a != b,
        a != c,
        b != c,
        forall|d: int| 0 <= d < 9 && d != a && d != b && d != c ==> #[trigger] bit16(m, d),
    ensures
        pop16(m) >= 6,
        bit16(m, a) ==> pop16(m) >= 7,
{
    lemma_pop9(m);
    lemma_count_all(9);
    let t = |i: int| true;
    let f = |i: int| bit16(m, i);
    let h1 = |i: int| t(i) && i != b;
    let h2 = |i: int| h1(i) && i != c;
    let h3 = |i: int| h2(i) && i != a;
    lemma_count_drop(h1, t, 9, b);
    lemma_count_drop(h2, h1, 9, c);
    lemma_count_drop(h3, h2, 9, a);
    lemma_count_mono(h3, f, 9);
    if bit16(m, a) {
        lemma_count_mono(h2, f, 9);
    }
}

/// A set of three digits or more.
pub proof fn lemma_pop_three(m: u16, a: int, b: int, c: int)
    requires
        m <= 0x1FF,
        0 <= a < 9,
        0 <= b < 9,
        0 <= c < 9,
        a != b,
        a != c,
        b != c,
        bit16(m, a),
        bit16(m, b),
        bit16(m, c),
    ensures
        pop16(m) >= 3,
        forall|d: int|
            pop16(m) == 3 && #[trigger] bit16(m, d) ==> d == a || d == b || d == c,
{
    lemma_pop9(m);
    let f = |i: int| bit16(m, i);
    let h1 = |i: int| f(i) && i != a;
    let h2 = |i: int| h1(i) && i != b;
    let h3 = |i: int| h2(i) && i != c;
    lemma_count_drop(h1, f, 9, a);
    lemma_count_drop(h2, h1, 9, b);
    lemma_count_drop(h3, h2, 9, c);
    assert forall|d: int| pop16(m) == 3 && #[trigger] bit16(m, d) implies d == a || d == b || d
        == c by {
        lemma_small9(m, d);
        if d != a && d != b && d != c {
            crate::bits::lemma_count_zero(h3, 9, d);
            assert(h3(d));
        }
    }
}

/// A set with one digit.
pub proof fn lemma_pop_one(m: u16, a: int)
    requires
        m <= 0x1FF,
        bit16(m, a),
    ensures
        pop16(m) >= 1,
        forall|d: int| pop16(m) == 1 && #[trigger] bit16(m, d) ==> d == a,
{
    lemma_pop9(m);
    lemma_small9(m, a);
    let f = |i: int| bit16(m, i);
    crate::bits::lemma_count_some(f, 9, a);
    assert forall|d: int| pop16(m) == 1 && #[trigger] bit16(m, d) implies d == a by {
        lemma_small9(m, d);
        if d != a {
            crate::bits::lemma_count_lone(f, 9, a, d);
        }
    }
}

} // verus!
