//! How a complete grid lays its digits over the minirows of a band or of a
//! stack.
//!
//! The six bands are the three bands of rows, 0..3, and the three stacks of
//! columns, 3..6. A band has three lines of nine positions: in a stack the
//! lines are the columns and the positions run down the rows. In every band
//! each digit takes one minirow per line and per box, and each minirow holds
//! exactly three digits.

use vstd::prelude::*;
use crate::bits::{
    bit16, bit32, count, group_bits16, group_bits32, lemma_count_drop, lemma_count_less,
    lemma_count_mono, lemma_count_none, lemma_low_masks32, lemma_subset32,
};
use crate::boards::{admits, cand, dead, lemma_bit_occupied, sub32, within};
use crate::grid::{
    home_col, home_row, is_grid, lemma_band_boxes, lemma_grid_facts, lemma_home_col, lemma_home_row,
    lemma_stack_boxes, lemma_unit_cells, peers,
};
use crate::minirow::{
    closed_at, closed_word, closes, fits, fits_cells, forced_at, has_perm, in_perm, in_some_perm,
    is_pattern, lemma_in_some_perm, lemma_perm_exists, occupied, perm_box, supported, BAND_ALL,
};
use crate::rest::{forced, lemma_forced_line};

verus! {

broadcast use {group_bits16, group_bits32};

/// The cell at position `x` of line `l` in band `bi`.
pub open spec fn line_cell(bi: int, l: int, x: int) -> int {
    if bi < 3 {
        9 * (3 * bi + l) + x
    } else {
        9 * x + 3 * (bi - 3) + l
    }
}

/// The cell at position `p` of 0..27 in band `bi`.
pub open spec fn band_cell(bi: int, p: int) -> int {
    line_cell(bi, p / 9, p % 9)
}

/// The position at which line `l` of band `bi` holds digit `d` in `g`.
pub open spec fn home(g: Seq<u8>, bi: int, l: int, d: int) -> int {
    if bi < 3 {
        home_col(g, 3 * bi + l, d)
    } else {
        home_row(g, 3 * (bi - 3) + l, d)
    }
}

/// Word `m` holds the candidates of digit `d` in band `bi`.
#[verifier::opaque]
pub open spec fn views(m: u32, bs: Seq<u32>, bi: int, d: int) -> bool {
    &&& m <= BAND_ALL
    &&& forall|p: int| 0 <= p < 27 ==> (#[trigger] bit32(m, p) <==> cand(bs, band_cell(bi, p), d))
}

/// `g` lays digit `d` over band `bi` as permutation `k`.
pub open spec fn lays(g: Seq<u8>, bi: int, d: int, k: int) -> bool {
    &&& 0 <= k < 6
    &&& perm_box(k, 0) == home(g, bi, 0, d) / 3
    &&& perm_box(k, 1) == home(g, bi, 1, d) / 3
    &&& perm_box(k, 2) == home(g, bi, 2, d) / 3
}

/// The permutation as which `g` lays digit `d` over band `bi`.
pub open spec fn lay(g: Seq<u8>, bi: int, d: int) -> int {
    choose|k: int| #[trigger] lays(g, bi, d, k)
}

/// One permutation for each of the nine digits, with exactly three digits in
/// every minirow.
pub open spec fn is_layout(k: spec_fn(int) -> int) -> bool {
    &&& forall|d: int| 0 <= d < 9 ==> 0 <= #[trigger] k(d) < 6
    &&& forall|t: int| 0 <= t < 9 ==> #[trigger] users(k, t) == 3
}

/// How many digits of the layout use minirow `t`.
pub open spec fn users(k: spec_fn(int) -> int, t: int) -> nat {
    count(|d: int| in_perm(k(d), t), 9)
}

/// Every digit's permutation fits the digit's pattern.
pub open spec fn fits_all(occ: Seq<u16>, k: spec_fn(int) -> int) -> bool {
    forall|d: int| 0 <= d < 9 ==> fits(occ[d], #[trigger] k(d))
}

/// How many of the first `n` patterns have minirow `t`.
pub open spec fn having(occ: Seq<u16>, t: int, n: nat) -> nat {
    count(|d: int| bit16(occ[d], t), n)
}

/// A line of a band holds a digit at its home and nowhere else.
pub proof fn lemma_home(g: Seq<u8>, bi: int, l: int, d: int)
    requires
        is_grid(g),
        0 <= bi < 6,
        0 <= l < 3,
        0 <= d < 9,
    ensures
        0 <= home(g, bi, l, d) < 9,
        0 <= line_cell(bi, l, home(g, bi, l, d)) < 81,
        g[line_cell(bi, l, home(g, bi, l, d))] == d + 1,
        forall|x: int|
            0 <= x < 9 && #[trigger] g[line_cell(bi, l, x)] == d + 1 ==> x == home(g, bi, l, d),
{
    if bi < 3 {
        lemma_home_col(g, 3 * bi + l, d);
        assert forall|x: int| 0 <= x < 9 && #[trigger] g[line_cell(bi, l, x)] == d + 1 implies x
            == home(g, bi, l, d) by {
            assert(g[9 * (3 * bi + l) + x] == d + 1);
        }
    } else {
        lemma_home_row(g, 3 * (bi - 3) + l, d);
        assert forall|x: int| 0 <= x < 9 && #[trigger] g[line_cell(bi, l, x)] == d + 1 implies x
            == home(g, bi, l, d) by {
            assert(line_cell(bi, l, x) == 9 * x + (3 * (bi - 3) + l));
        }
        assert(line_cell(bi, l, home(g, bi, l, d)) == 9 * home(g, bi, l, d) + (3 * (bi - 3) + l));
    }
}

/// A grid lays each digit as a permutation.
pub proof fn lemma_lay(g: Seq<u8>, bi: int, d: int)
    requires
        is_grid(g),
        0 <= bi < 6,
        0 <= d < 9,
    ensures
        lays(g, bi, d, lay(g, bi, d)),
        forall|l: int| 0 <= l < 3 ==> 0 <= #[trigger] home(g, bi, l, d) < 9,
        forall|l: int|
            0 <= l < 3 ==> #[trigger] perm_box(lay(g, bi, d), l) == home(g, bi, l, d) / 3,
{
    if bi < 3 {
        lemma_band_boxes(g, bi, d);
        assert(home(g, bi, 0, d) == home_col(g, 3 * bi, d));
    } else {
        lemma_stack_boxes(g, bi - 3, d);
        assert(home(g, bi, 0, d) == home_row(g, 3 * (bi - 3), d));
    }
    lemma_home(g, bi, 0, d);
    lemma_home(g, bi, 1, d);
    lemma_home(g, bi, 2, d);
    let k = lemma_perm_exists(
        home(g, bi, 0, d) / 3,
        home(g, bi, 1, d) / 3,
        home(g, bi, 2, d) / 3,
    );
    assert(lays(g, bi, d, k));
}

/// The layout of `g` over band `bi`.
pub open spec fn layout_of(g: Seq<u8>, bi: int) -> spec_fn(int) -> int {
    |d: int| lay(g, bi, d)
}

/// In a complete grid every minirow holds exactly three digits.
pub proof fn lemma_layout(g: Seq<u8>, bi: int)
    requires
        is_grid(g),
        0 <= bi < 6,
    ensures
        is_layout(layout_of(g, bi)),
{
    let k = layout_of(g, bi);
    assert forall|d: int| 0 <= d < 9 implies 0 <= #[trigger] k(d) < 6 by {
        lemma_lay(g, bi, d);
    }
    assert forall|t: int| 0 <= t < 9 implies #[trigger] users(k, t) == 3 by {
        let l = t / 3;
        let j = t % 3;
        let c0 = line_cell(bi, l, 3 * j);
        let c1 = line_cell(bi, l, 3 * j + 1);
        let c2 = line_cell(bi, l, 3 * j + 2);
        assert(0 <= c0 < 81 && 0 <= c1 < 81 && 0 <= c2 < 81);
        lemma_grid_facts(g);
        let (d0, d1, d2) = (g[c0] - 1, g[c1] - 1, g[c2] - 1);
        lemma_line_peers(bi, l, 3 * j, 3 * j + 1);
        lemma_line_peers(bi, l, 3 * j, 3 * j + 2);
        lemma_line_peers(bi, l, 3 * j + 1, 3 * j + 2);
        let f = |d: int| in_perm(k(d), t);
        assert forall|d: int| 0 <= d < 9 implies (#[trigger] f(d) <==> d == d0 || d == d1 || d
            == d2) by {
            lemma_lay(g, bi, d);
            lemma_home(g, bi, l, d);
            let x = home(g, bi, l, d);
            assert(perm_box(k(d), l) == x / 3);
            if f(d) {
                assert(x == 3 * j || x == 3 * j + 1 || x == 3 * j + 2);
            }
            if d == d0 {
                assert(g[line_cell(bi, l, 3 * j)] == d + 1);
            }
            if d == d1 {
                assert(g[line_cell(bi, l, 3 * j + 1)] == d + 1);
            }
            if d == d2 {
                assert(g[line_cell(bi, l, 3 * j + 2)] == d + 1);
            }
        }
        lemma_count_three(f, 9, d0, d1, d2);
    }
}

/// Two positions of one line are peers.
pub proof fn lemma_line_peers(bi: int, l: int, x: int, y: int)
    requires
        0 <= bi < 6,
        0 <= l < 3,
        0 <= x < 9,
        0 <= y < 9,
        x != y,
    ensures
        0 <= line_cell(bi, l, x) < 81,
        0 <= line_cell(bi, l, y) < 81,
        peers(line_cell(bi, l, x), line_cell(bi, l, y)),
{
    if bi < 3 {
        lemma_unit_cells(3 * bi + l, x, y);
    } else {
        lemma_unit_cells(9 + 3 * (bi - 3) + l, x, y);
    }
}

/// A set of exactly three members counts three.
proof fn lemma_count_three(f: spec_fn(int) -> bool, n: nat, a: int, b: int, c: int)
    requires
        0 <= a < n,
        0 <= b < n,
        0 <= c < n,
        a != b,
        a != c,
        b != c,
        forall|d: int| 0 <= d < n ==> (#[trigger] f(d) <==> d == a || d == b || d == c),
    ensures
        count(f, n) == 3,
{
    let f1 = |i: int| f(i) && i != a;
    let f2 = |i: int| f1(i) && i != b;
    let f3 = |i: int| f2(i) && i != c;
    lemma_count_drop(f1, f, n, a);
    lemma_count_drop(f2, f1, n, b);
    lemma_count_drop(f3, f2, n, c);
    assert forall|i: int| 0 <= i < n implies !#[trigger] f3(i) by {
        assert(f(i) ==> i == a || i == b || i == c);
    }
    lemma_count_none(f3, n);
}

/// The homes of a digit are candidates of every board that admits the grid,
/// so the grid's permutation fits the digit's pattern.
pub proof fn lemma_views(m: u32, bs: Seq<u32>, g: Seq<u8>, bi: int, d: int)
    requires
        is_grid(g),
        admits(bs, g),
        0 <= bi < 6,
        0 <= d < 9,
        views(m, bs, bi, d),
    ensures
        forall|l: int| 0 <= l < 3 ==> bit32(m, 9 * l + #[trigger] home(g, bi, l, d)),
        forall|s: u16| #[trigger] is_pattern(s, m) ==> fits(s, lay(g, bi, d)),
{
    lemma_lay(g, bi, d);
    lemma_grid_facts(g);
    assert forall|l: int| 0 <= l < 3 implies bit32(m, 9 * l + #[trigger] home(g, bi, l, d)) by {
        lemma_home(g, bi, l, d);
        let x = home(g, bi, l, d);
        let p = 9 * l + x;
        reveal(views);
        reveal(admits);
        assert(p / 9 == l && p % 9 == x);
        assert(band_cell(bi, p) == line_cell(bi, l, x));
        assert(cand(bs, line_cell(bi, l, x), g[line_cell(bi, l, x)] - 1));
    }
    assert forall|s: u16| #[trigger] is_pattern(s, m) implies fits(s, lay(g, bi, d)) by {
        assert forall|l: int| 0 <= l < 3 implies bit16(
            s,
            3 * l + #[trigger] perm_box(lay(g, bi, d), l),
        ) by {
            let x = home(g, bi, l, d);
            assert(bit32(m, 9 * l + x));
            lemma_bit_occupied(m, 9 * l + x);
            assert((9 * l + x) / 3 == 3 * l + x / 3);
        }
        let k = lay(g, bi, d);
        assert(bit16(s, 3 * 0 + perm_box(k, 0)));
        assert(bit16(s, 3 * 1 + perm_box(k, 1)));
        assert(bit16(s, 3 * 2 + perm_box(k, 2)));
    }
}

/// Minirows `i` and `j` are different and lie in the same line or box.
pub open spec fn linked(i: int, j: int) -> bool {
    i != j && (i / 3 == j / 3 || i % 3 == j % 3)
}

/// A minirow that fewer than three digits can use leaves no layout.
pub proof fn lemma_too_few(occ: Seq<u16>, k: spec_fn(int) -> int, t: int)
    requires
        is_layout(k),
        0 <= t < 9,
        having(occ, t, 9) < 3,
    ensures
        !fits_all(occ, k),
{
    if fits_all(occ, k) {
        let f = |d: int| in_perm(k(d), t);
        let h = |d: int| bit16(occ[d], t);
        assert forall|d: int| 0 <= d < 9 && f(d) implies #[trigger] h(d) by {
            lemma_fits_at(occ[d], k(d), t);
        }
        lemma_count_mono(f, h, 9);
        assert(users(k, t) == 3);
    }
}

/// A permutation in a pattern uses minirows of the pattern.
pub proof fn lemma_fits_at(s: u16, k: int, t: int)
    requires
        fits(s, k),
        in_perm(k, t),
    ensures
        bit16(s, t),
{
    let r = t / 3;
    assert(t == 3 * r + perm_box(k, r));
    assert(r == 0 || r == 1 || r == 2);
}

/// If only three digits can use a minirow, all three do.
pub proof fn lemma_exactly_three(occ: Seq<u16>, k: spec_fn(int) -> int, t: int, d: int)
    requires
        is_layout(k),
        fits_all(occ, k),
        0 <= t < 9,
        having(occ, t, 9) <= 3,
        0 <= d < 9,
        bit16(occ[d], t),
    ensures
        in_perm(k(d), t),
{
    if !in_perm(k(d), t) {
        let f = |e: int| in_perm(k(e), t);
        let h = |e: int| bit16(occ[e], t);
        assert forall|e: int| 0 <= e < 9 && f(e) implies #[trigger] h(e) by {
            lemma_fits_at(occ[e], k(e), t);
        }
        assert(h(d) && !f(d));
        lemma_count_less(f, h, 9, d);
        assert(users(k, t) == 3);
    }
}

/// If three digits are known to use a minirow, no other digit does.
pub proof fn lemma_full(forced: Seq<u16>, k: spec_fn(int) -> int, t: int, d: int)
    requires
        is_layout(k),
        forall|e: int| 0 <= e < 9 && bit16(#[trigger] forced[e], t) ==> in_perm(k(e), t),
        0 <= t < 9,
        having(forced, t, 9) >= 3,
        0 <= d < 9,
        !bit16(forced[d], t),
    ensures
        !in_perm(k(d), t),
{
    if in_perm(k(d), t) {
        let f = |e: int| in_perm(k(e), t);
        let h = |e: int| bit16(forced[e], t);
        assert forall|e: int| 0 <= e < 9 && h(e) implies #[trigger] f(e) by {
            assert(bit16(forced[e], t));
        }
        assert(f(d) && !h(d));
        lemma_count_less(h, f, 9, d);
        assert(users(k, t) == 3);
    }
}

/// Minirows that the permutation does not use can go.
pub proof fn lemma_fits_part(s: u16, n: u16, k: int)
    requires
        fits(s, k),
        forall|i: int| 0 <= i < 9 && #[trigger] bit16(s, i) && in_perm(k, i) ==> bit16(n, i),
    ensures
        fits(n, k),
{
    assert(in_perm(k, perm_box(k, 0)));
    assert(in_perm(k, 3 + perm_box(k, 1)));
    assert(in_perm(k, 6 + perm_box(k, 2)));
}

/// The closure of a pattern keeps every permutation.
pub proof fn lemma_fits_closed(s: u16, n: u16, k: int)
    requires
        fits(s, k),
        closes(n, s),
    ensures
        fits(n, k),
{
    reveal(closes);
    assert forall|i: int| 0 <= i < 9 && #[trigger] bit16(s, i) && in_perm(k, i) implies bit16(
        n,
        i,
    ) by {
        assert(closed_at(s, i));
    }
    lemma_fits_part(s, n, k);
}

/// A permutation uses no minirow linked to one it uses.
pub proof fn lemma_no_linked(k: int, t: int, i: int)
    requires
        0 <= k < 6,
        in_perm(k, t),
        in_perm(k, i),
    ensures
        !linked(t, i),
{
    let (r, q) = (t / 3, i / 3);
    assert(r == 0 || r == 1 || r == 2);
    assert(q == 0 || q == 1 || q == 2);
    assert(t == 3 * r + t % 3 && i == 3 * q + i % 3);
    assert(k == 0 || k == 1 || k == 2 || k == 3 || k == 4 || k == 5);
}

/// A forced minirow is used by every permutation that fits.
pub proof fn lemma_forced_used(s: u16, k: int, i: int)
    requires
        fits(s, k),
        forced_at(s, i),
    ensures
        in_perm(k, i),
{
}

/// Cell `x` lies in band `bi`.
pub open spec fn in_band(bi: int, x: int) -> bool {
    if bi < 3 {
        x / 27 == bi
    } else {
        (x % 9) / 3 == bi - 3
    }
}

/// The position of cell `x` in band `bi`.
pub open spec fn band_pos(bi: int, x: int) -> int {
    if bi < 3 {
        x % 27
    } else {
        9 * (x % 3) + x / 9
    }
}

/// Positions and cells of a band correspond.
pub proof fn lemma_band_pos(bi: int, x: int)
    requires
        0 <= bi < 6,
        0 <= x < 81,
        in_band(bi, x),
    ensures
        0 <= band_pos(bi, x) < 27,
        band_cell(bi, band_pos(bi, x)) == x,
{
    let p = band_pos(bi, x);
    if bi < 3 {
        assert(x == 27 * bi + p);
        assert(9 * (p / 9) + p % 9 == p);
    } else {
        assert(p / 9 == x % 3 && p % 9 == x / 9);
        assert(x % 9 == 3 * (bi - 3) + x % 3);
    }
}

/// Cells and positions of a band correspond.
pub proof fn lemma_band_cell(bi: int, p: int)
    requires
        0 <= bi < 6,
        0 <= p < 27,
    ensures
        0 <= band_cell(bi, p) < 81,
        in_band(bi, band_cell(bi, p)),
        band_pos(bi, band_cell(bi, p)) == p,
{
    let (l, x) = (p / 9, p % 9);
    let c = band_cell(bi, p);
    if bi < 3 {
        assert(c == 27 * bi + p);
    } else {
        assert(c == 9 * x + (3 * (bi - 3) + l));
        assert(c / 9 == x && c % 9 == 3 * (bi - 3) + l);
        assert(c % 3 == l);
    }
}

/// `b` is `a` without the candidates of digit `d` in the minirows of band
/// `bi` outside `occ`.
pub open spec fn cut(a: Seq<u32>, b: Seq<u32>, bi: int, d: int, occ: u16) -> bool {
    forall|x: int, e: int|
        0 <= x < 81 && 0 <= e < 9 ==> (#[trigger] cand(b, x, e) <==> cand(a, x, e) && (e == d
            && in_band(bi, x) ==> bit16(occ, band_pos(bi, x) / 3)))
}

/// Where a grid holds the digit, the minirow is one its permutation uses.
pub proof fn lemma_home_kept(g: Seq<u8>, bi: int, d: int, occ: u16, x: int)
    requires
        is_grid(g),
        0 <= bi < 6,
        0 <= d < 9,
        0 <= x < 81,
        g[x] == d + 1,
        in_band(bi, x),
        fits(occ, lay(g, bi, d)),
    ensures
        bit16(occ, band_pos(bi, x) / 3),
{
    lemma_lay(g, bi, d);
    lemma_band_pos(bi, x);
    let p = band_pos(bi, x);
    let l = p / 9;
    lemma_home(g, bi, l, d);
    assert(g[line_cell(bi, l, p % 9)] == d + 1);
    let k = lay(g, bi, d);
    assert(perm_box(k, l) == home(g, bi, l, d) / 3);
    assert(p / 3 == 3 * l + (p % 9) / 3);
    assert(l == 0 || l == 1 || l == 2);
}

/// Every admitted grid lays digit `d` over band `bi` inside `occ`.
pub open spec fn sound_occ(bs: Seq<u32>, bi: int, d: int, occ: u16) -> bool {
    forall|g: Seq<u8>| is_grid(g) && #[trigger] admits(bs, g) ==> fits(occ, lay(g, bi, d))
}

/// A cut keeps every grid whose permutation fits what is left.
pub proof fn lemma_cut(a: Seq<u32>, b: Seq<u32>, bi: int, d: int, occ: u16, g: Seq<u8>)
    requires
        is_grid(g),
        admits(a, g),
        0 <= bi < 6,
        0 <= d < 9,
        cut(a, b, bi, d, occ),
        fits(occ, lay(g, bi, d)),
    ensures
        admits(b, g),
{
    reveal(admits);
    lemma_grid_facts(g);
    assert forall|x: int| 0 <= x < 81 implies cand(b, x, #[trigger] g[x] - 1) by {
        assert(cand(a, x, g[x] - 1));
        if g[x] - 1 == d && in_band(bi, x) {
            lemma_home_kept(g, bi, d, occ, x);
        }
    }
}

/// Every admitted grid holds digit `d` at cell `c`, and so does whatever rests
/// within the boards.
pub open spec fn implied(bs: Seq<u32>, c: int, d: int) -> bool {
    &&& forall|g: Seq<u8>| is_grid(g) && #[trigger] admits(bs, g) ==> g[c] == d + 1
    &&& forced(bs, c, d)
}

/// The only candidate in a line is where the digit goes.
pub proof fn lemma_single(m: u32, bs: Seq<u32>, bi: int, d: int, l: int, x: int)
    requires
        0 <= bi < 6,
        0 <= d < 9,
        0 <= l < 3,
        0 <= x < 9,
        bs.len() == 27,
        views(m, bs, bi, d),
        forall|y: int| 0 <= y < 9 && #[trigger] bit32(m, 9 * l + y) ==> y == x,
    ensures
        implied(bs, line_cell(bi, l, x), d),
{
    assert forall|g: Seq<u8>| is_grid(g) && #[trigger] admits(bs, g) implies g[line_cell(
        bi,
        l,
        x,
    )] == d + 1 by {
        lemma_views(m, bs, g, bi, d);
        lemma_home(g, bi, l, d);
        assert(bit32(m, 9 * l + home(g, bi, l, d)));
    }
    assert forall|y: int| 0 <= y < 9 && #[trigger] cand(bs, line_cell(bi, l, y), d) implies y
        == x by {
        reveal(views);
        lemma_line_cell(bi, l, y);
        assert(bit32(m, 9 * l + y));
    }
    lemma_forced_line(bs, bi, d, l, x);
}

/// A digit that cannot be laid over a band leaves no grid.
pub proof fn lemma_no_perm(m: u32, bs: Seq<u32>, bi: int, d: int, s: u16)
    requires
        0 <= bi < 6,
        0 <= d < 9,
        views(m, bs, bi, d),
        is_pattern(s, m),
        !has_perm(s),
    ensures
        dead(bs),
{
    assert forall|g: Seq<u8>| is_grid(g) implies !#[trigger] admits(bs, g) by {
        if admits(bs, g) {
            lemma_views(m, bs, g, bi, d);
            assert(fits(s, lay(g, bi, d)));
        }
    }
}

/// The word of a band of rows views the band.
pub proof fn lemma_views_row(bs: Seq<u32>, b: int, d: int)
    requires
        0 <= b < 3,
        0 <= d < 9,
        bs[9 * b + d] <= BAND_ALL,
    ensures
        views(bs[9 * b + d], bs, b, d),
{
    reveal(views);
    assert forall|p: int| 0 <= p < 27 implies (#[trigger] bit32(bs[9 * b + d], p) <==> cand(
        bs,
        band_cell(b, p),
        d,
    )) by {
        lemma_band_cell(b, p);
        assert(band_cell(b, p) == 27 * b + p);
    }
}

/// What a band looks like after a cut.
pub proof fn lemma_views_cut(
    m: u32,
    n: u32,
    a: Seq<u32>,
    b: Seq<u32>,
    bi: int,
    d: int,
    occ: u16,
)
    requires
        0 <= bi < 6,
        0 <= d < 9,
        views(m, a, bi, d),
        cut(a, b, bi, d, occ),
        forall|p: int| #[trigger]
            bit32(n, p) <==> bit32(m, p) && 0 <= p < 27 && bit16(occ, p / 3),
    ensures
        views(n, b, bi, d),
{
    reveal(views);
    lemma_low_masks32();
    lemma_subset32(n, BAND_ALL);
    assert forall|p: int| 0 <= p < 27 implies (#[trigger] bit32(n, p) <==> cand(
        b,
        band_cell(bi, p),
        d,
    )) by {
        lemma_band_cell(bi, p);
        assert(bit32(m, p) <==> cand(a, band_cell(bi, p), d));
    }
}

/// A cut of one digit leaves the words of the others as they look.
pub proof fn lemma_views_other(
    m: u32,
    a: Seq<u32>,
    b: Seq<u32>,
    bi: int,
    d: int,
    occ: u16,
    e: int,
)
    requires
        0 <= bi < 6,
        0 <= e < 9,
        e != d,
        views(m, a, bi, e),
        cut(a, b, bi, d, occ),
    ensures
        views(m, b, bi, e),
{
    reveal(views);
    assert forall|p: int| 0 <= p < 27 implies (#[trigger] bit32(m, p) <==> cand(
        b,
        band_cell(bi, p),
        e,
    )) by {
        lemma_band_cell(bi, p);
        assert(bit32(m, p) <==> cand(a, band_cell(bi, p), e));
    }
}

/// Minirow `i` of band `bi` has a candidate for digit `d`.
pub open spec fn has_minirow(bs: Seq<u32>, bi: int, d: int, i: int) -> bool {
    0 <= i < 9 && (cand(bs, band_cell(bi, 3 * i), d) || cand(bs, band_cell(bi, 3 * i + 1), d)
        || cand(bs, band_cell(bi, 3 * i + 2), d))
}

/// How many digits have a candidate in minirow `i` of a band.
pub open spec fn reach(bs: Seq<u32>, bi: int, i: int) -> nat {
    count(|d: int| has_minirow(bs, bi, d, i), 9)
}

/// The digits that have a candidate in minirow `i` of a band have none in the
/// minirows linked to it.
pub open spec fn settled_minirow(bs: Seq<u32>, bi: int, i: int) -> bool {
    forall|d: int, j: int|
        0 <= d < 9 && 0 <= j < 9 && linked(i, j) && has_minirow(bs, bi, d, i) ==> !(#[trigger]
        has_minirow(bs, bi, d, j))
}

/// Permutation `k` of band `bi` passes through minirows with a candidate for
/// digit `d` only.
pub open spec fn through(bs: Seq<u32>, bi: int, d: int, k: int) -> bool {
    &&& 0 <= k < 6
    &&& has_minirow(bs, bi, d, perm_box(k, 0))
    &&& has_minirow(bs, bi, d, 3 + perm_box(k, 1))
    &&& has_minirow(bs, bi, d, 6 + perm_box(k, 2))
}

/// Band `bi` has a permutation for digit `d`.
pub open spec fn placeable(bs: Seq<u32>, bi: int, d: int) -> bool {
    exists|k: int| #[trigger] through(bs, bi, d, k)
}

/// Minirow `i` lies in a permutation that band `bi` has for digit `d`.
pub open spec fn laid(bs: Seq<u32>, bi: int, d: int, i: int) -> bool {
    exists|k: int| #[trigger] through(bs, bi, d, k) && in_perm(k, i)
}

/// Digit `d` was reduced over band `bi`: `a` has a permutation for it, and
/// what is left of it in `b` lies in permutations of `a`.
pub open spec fn reduced(a: Seq<u32>, b: Seq<u32>, bi: int, d: int) -> bool {
    &&& placeable(a, bi, d)
    &&& forall|x: int|
        0 <= x < 81 && in_band(bi, x) && #[trigger] cand(b, x, d) ==> laid(
            a,
            bi,
            d,
            band_pos(bi, x) / 3,
        )
}

/// `b` is `a` with digit `d` cut down in band `bi` to the permutations that
/// `a` has for it there.
pub open spec fn closed_off(a: Seq<u32>, b: Seq<u32>, bi: int, d: int) -> bool {
    forall|x: int, e: int|
        0 <= x < 81 && 0 <= e < 9 ==> (#[trigger] cand(b, x, e) <==> cand(a, x, e) && (e == d
            && in_band(bi, x) ==> laid(a, bi, d, band_pos(bi, x) / 3)))
}

/// `sup` is the union of the permutations that band `bi` has for digit `d`,
/// and there is one.
pub open spec fn band_closure(bs: Seq<u32>, bi: int, d: int, sup: u16) -> bool {
    &&& placeable(bs, bi, d)
    &&& forall|i: int| #[trigger] bit16(sup, i) <==> laid(bs, bi, d, i)
}

/// Line `l` of band `bi` has its only candidate for digit `d` at position `x`.
pub open spec fn lone(bs: Seq<u32>, bi: int, d: int, l: int, x: int) -> bool {
    &&& cand(bs, line_cell(bi, l, x), d)
    &&& forall|y: int| 0 <= y < 9 && #[trigger] cand(bs, line_cell(bi, l, y), d) ==> y == x
}

/// The permutations of a word are those of the band it views.
pub proof fn lemma_through(m: u32, bs: Seq<u32>, bi: int, d: int, k: int)
    requires
        views(m, bs, bi, d),
    ensures
        fits_cells(m, k) <==> through(bs, bi, d, k),
{
    reveal(views);
    assert forall|i: int| occupied(m, i) == #[trigger] has_minirow(bs, bi, d, i) by {
        if 0 <= i < 9 {
            assert(bit32(m, 3 * i) <==> cand(bs, band_cell(bi, 3 * i), d));
            assert(bit32(m, 3 * i + 1) <==> cand(bs, band_cell(bi, 3 * i + 1), d));
            assert(bit32(m, 3 * i + 2) <==> cand(bs, band_cell(bi, 3 * i + 2), d));
        }
    }
    if 0 <= k < 6 {
        assert(occupied(m, perm_box(k, 0)) == has_minirow(bs, bi, d, perm_box(k, 0)));
        assert(occupied(m, 3 + perm_box(k, 1)) == has_minirow(bs, bi, d, 3 + perm_box(k, 1)));
        assert(occupied(m, 6 + perm_box(k, 2)) == has_minirow(bs, bi, d, 6 + perm_box(k, 2)));
    }
}

/// The closure of the pattern of a view.
pub proof fn lemma_band_closure(m: u32, pat: u16, sup: u16, bs: Seq<u32>, bi: int, d: int)
    requires
        views(m, bs, bi, d),
        is_pattern(pat, m),
        has_perm(pat),
        closes(sup, pat),
    ensures
        band_closure(bs, bi, d, sup),
{
    lemma_in_some_perm(m, pat);
    let k = choose|k: int| #[trigger] fits_cells(m, k);
    lemma_through(m, bs, bi, d, k);
    assert forall|i: int| #[trigger] bit16(sup, i) <==> laid(bs, bi, d, i) by {
        assert(bit16(sup, i) <==> closed_at(pat, i)) by {
            reveal(closes);
        }
        if in_some_perm(m, i) {
            let k = choose|k: int| #[trigger] fits_cells(m, k) && in_perm(k, i);
            lemma_through(m, bs, bi, d, k);
        }
        if laid(bs, bi, d, i) {
            let k = choose|k: int| #[trigger] through(bs, bi, d, k) && in_perm(k, i);
            lemma_through(m, bs, bi, d, k);
        }
    }
}

/// A cut to the closure of a band.
pub proof fn lemma_closed_off(a: Seq<u32>, b: Seq<u32>, bi: int, d: int, sup: u16)
    requires
        band_closure(a, bi, d, sup),
        cut(a, b, bi, d, sup),
    ensures
        closed_off(a, b, bi, d),
{
    assert forall|x: int, e: int| 0 <= x < 81 && 0 <= e < 9 implies (#[trigger] cand(b, x, e)
        <==> cand(a, x, e) && (e == d && in_band(bi, x) ==> laid(
        a,
        bi,
        d,
        band_pos(bi, x) / 3,
    ))) by {
        assert(bit16(sup, band_pos(bi, x) / 3) <==> laid(a, bi, d, band_pos(bi, x) / 3));
    }
}

/// With fewer candidates a band has no more permutations.
pub proof fn lemma_through_within(a: Seq<u32>, b: Seq<u32>, bi: int, d: int)
    requires
        0 <= bi < 6,
        0 <= d < 9,
        b.len() == 27,
        within(a, b),
    ensures
        forall|k: int| #[trigger] through(a, bi, d, k) ==> through(b, bi, d, k),
        placeable(a, bi, d) ==> placeable(b, bi, d),
        forall|i: int| #[trigger] laid(a, bi, d, i) ==> laid(b, bi, d, i),
{
    assert forall|k: int| #[trigger] through(a, bi, d, k) implies through(b, bi, d, k) by {
        assert forall|i: int| #[trigger] has_minirow(a, bi, d, i) implies has_minirow(
            b,
            bi,
            d,
            i,
        ) by {
            lemma_cand_within(a, b, bi, 3 * i, d);
            lemma_cand_within(a, b, bi, 3 * i + 1, d);
            lemma_cand_within(a, b, bi, 3 * i + 2, d);
        }
        assert(has_minirow(a, bi, d, perm_box(k, 0)));
        assert(has_minirow(a, bi, d, 3 + perm_box(k, 1)));
        assert(has_minirow(a, bi, d, 6 + perm_box(k, 2)));
    }
    if placeable(a, bi, d) {
        let k = choose|k: int| #[trigger] through(a, bi, d, k);
        assert(through(b, bi, d, k));
    }
    assert forall|i: int| #[trigger] laid(a, bi, d, i) implies laid(b, bi, d, i) by {
        let k = choose|k: int| #[trigger] through(a, bi, d, k) && in_perm(k, i);
        assert(through(b, bi, d, k));
    }
}

/// A reduction stays one when more was there before or less is left.
pub proof fn lemma_reduced_mono(
    a0: Seq<u32>,
    a: Seq<u32>,
    b: Seq<u32>,
    c: Seq<u32>,
    bi: int,
    d: int,
)
    requires
        0 <= bi < 6,
        0 <= d < 9,
        a0.len() == 27,
        b.len() == 27,
        within(a, a0),
        within(c, b),
        reduced(a, b, bi, d),
    ensures
        reduced(a0, c, bi, d),
{
    lemma_through_within(a, a0, bi, d);
    assert forall|x: int| 0 <= x < 81 && in_band(bi, x) && #[trigger] cand(c, x, d) implies laid(
        a0,
        bi,
        d,
        band_pos(bi, x) / 3,
    ) by {
        assert(sub32(c[9 * (x / 27) + d], b[9 * (x / 27) + d]));
        assert(cand(b, x, d));
        assert(laid(a, bi, d, band_pos(bi, x) / 3));
    }
}

/// What is a candidate in fewer is one in more.
pub proof fn lemma_cand_within(a: Seq<u32>, b: Seq<u32>, bi: int, p: int, d: int)
    requires
        0 <= bi < 6,
        0 <= p < 27,
        0 <= d < 9,
        b.len() == 27,
        within(a, b),
    ensures
        cand(a, band_cell(bi, p), d) ==> cand(b, band_cell(bi, p), d),
{
    lemma_band_cell(bi, p);
    let x = band_cell(bi, p);
    assert(sub32(a[9 * (x / 27) + d], b[9 * (x / 27) + d]));
}

/// Positions along a line are positions in the band.
pub proof fn lemma_line_cell(bi: int, l: int, x: int)
    requires
        0 <= l < 3,
        0 <= x < 9,
    ensures
        band_cell(bi, 9 * l + x) == line_cell(bi, l, x),
{
    let p = 9 * l + x;
    assert(p / 9 == l && p % 9 == x);
}

/// A line's only candidate stays while the band has a permutation for the
/// digit.
pub proof fn lemma_lone_within(a: Seq<u32>, b: Seq<u32>, bi: int, d: int, l: int, x: int)
    requires
        0 <= bi < 6,
        0 <= d < 9,
        0 <= l < 3,
        0 <= x < 9,
        b.len() == 27,
        within(a, b),
        placeable(a, bi, d),
        lone(b, bi, d, l, x),
    ensures
        lone(a, bi, d, l, x),
{
    assert forall|y: int| 0 <= y < 9 && #[trigger] cand(a, line_cell(bi, l, y), d) implies y == x by {
        lemma_line_cell(bi, l, y);
        lemma_cand_within(a, b, bi, 9 * l + y, d);
    }
    let k = choose|k: int| #[trigger] through(a, bi, d, k);
    let y = 3 * perm_box(k, l);
    let i = 3 * l + perm_box(k, l);
    assert(has_minirow(a, bi, d, i)) by {
        if l == 0 {
        } else if l == 1 {
        } else {
            assert(l == 2);
        }
    }
    assert(3 * i == 9 * l + y);
    lemma_line_cell(bi, l, y);
    lemma_line_cell(bi, l, y + 1);
    lemma_line_cell(bi, l, y + 2);
}

/// A line's only candidate, seen in a word.
pub proof fn lemma_lone(m: u32, bs: Seq<u32>, bi: int, d: int, l: int, x: int)
    requires
        views(m, bs, bi, d),
        0 <= l < 3,
        0 <= x < 9,
        lone(bs, bi, d, l, x),
    ensures
        bit32(m, 9 * l + x),
        forall|y: int| 0 <= y < 9 && #[trigger] bit32(m, 9 * l + y) ==> y == x,
{
    reveal(views);
    lemma_line_cell(bi, l, x);
    assert(bit32(m, 9 * l + x) <==> cand(bs, band_cell(bi, 9 * l + x), d));
    assert forall|y: int| 0 <= y < 9 && #[trigger] bit32(m, 9 * l + y) implies y == x by {
        lemma_line_cell(bi, l, y);
        assert(bit32(m, 9 * l + y) <==> cand(bs, band_cell(bi, 9 * l + y), d));
    }
}

/// Boards that agree on a digit in a band have the same permutations there.
pub proof fn lemma_same_laid(a: Seq<u32>, b: Seq<u32>, bi: int, d: int)
    requires
        0 <= bi < 6,
        forall|x: int|
            0 <= x < 81 && in_band(bi, x) ==> (#[trigger] cand(a, x, d) <==> cand(b, x, d)),
    ensures
        forall|k: int| #[trigger] through(a, bi, d, k) <==> through(b, bi, d, k),
        forall|i: int| #[trigger] laid(a, bi, d, i) <==> laid(b, bi, d, i),
        placeable(a, bi, d) <==> placeable(b, bi, d),
        forall|l: int, x: int|
            0 <= l < 3 && 0 <= x < 9 ==> (#[trigger] lone(a, bi, d, l, x) <==> lone(
                b,
                bi,
                d,
                l,
                x,
            )),
{
    assert forall|p: int| 0 <= p < 27 implies (#[trigger] cand(a, band_cell(bi, p), d) <==> cand(
        b,
        band_cell(bi, p),
        d,
    )) by {
        lemma_band_cell(bi, p);
    }
    assert forall|i: int| #[trigger] has_minirow(a, bi, d, i) <==> has_minirow(b, bi, d, i) by {
        if 0 <= i < 9 {
            assert(cand(a, band_cell(bi, 3 * i), d) <==> cand(b, band_cell(bi, 3 * i), d));
            assert(cand(a, band_cell(bi, 3 * i + 1), d) <==> cand(b, band_cell(bi, 3 * i + 1), d));
            assert(cand(a, band_cell(bi, 3 * i + 2), d) <==> cand(b, band_cell(bi, 3 * i + 2), d));
        }
    }
    assert forall|k: int| #[trigger] through(a, bi, d, k) <==> through(b, bi, d, k) by {
        assert(has_minirow(a, bi, d, perm_box(k, 0)) <==> has_minirow(b, bi, d, perm_box(k, 0)));
        assert(has_minirow(a, bi, d, 3 + perm_box(k, 1)) <==> has_minirow(
            b,
            bi,
            d,
            3 + perm_box(k, 1),
        ));
        assert(has_minirow(a, bi, d, 6 + perm_box(k, 2)) <==> has_minirow(
            b,
            bi,
            d,
            6 + perm_box(k, 2),
        ));
    }
    assert forall|i: int| #[trigger] laid(a, bi, d, i) <==> laid(b, bi, d, i) by {
        if laid(a, bi, d, i) {
            let k = choose|k: int| #[trigger] through(a, bi, d, k) && in_perm(k, i);
            assert(through(b, bi, d, k));
        }
        if laid(b, bi, d, i) {
            let k = choose|k: int| #[trigger] through(b, bi, d, k) && in_perm(k, i);
            assert(through(a, bi, d, k));
        }
    }
    if placeable(a, bi, d) {
        let k = choose|k: int| #[trigger] through(a, bi, d, k);
        assert(through(b, bi, d, k));
    }
    if placeable(b, bi, d) {
        let k = choose|k: int| #[trigger] through(b, bi, d, k);
        assert(through(a, bi, d, k));
    }
    assert forall|l: int, x: int| 0 <= l < 3 && 0 <= x < 9 implies (#[trigger] lone(
        a,
        bi,
        d,
        l,
        x,
    ) <==> lone(b, bi, d, l, x)) by {
        assert forall|y: int| 0 <= y < 9 implies (#[trigger] cand(a, line_cell(bi, l, y), d)
            <==> cand(b, line_cell(bi, l, y), d)) by {
            lemma_line_cell(bi, l, y);
            assert(cand(a, band_cell(bi, 9 * l + y), d) <==> cand(b, band_cell(bi, 9 * l + y), d));
        }
        if lone(a, bi, d, l, x) {
            assert(cand(b, line_cell(bi, l, x), d));
            assert forall|y: int| 0 <= y < 9 && #[trigger] cand(
                b,
                line_cell(bi, l, y),
                d,
            ) implies y == x by {
                assert(cand(a, line_cell(bi, l, y), d));
            }
        }
        if lone(b, bi, d, l, x) {
            assert(cand(a, line_cell(bi, l, x), d));
        }
    }
}

/// Where a grid that the boards spell out holds a digit, there it lies in its
/// permutation.
pub proof fn lemma_grid_reduced(bs: Seq<u32>, g: Seq<u8>, bi: int, d: int)
    requires
        is_grid(g),
        crate::boards::encodes(bs, g),
        0 <= bi < 6,
        0 <= d < 9,
    ensures
        reduced(bs, bs, bi, d),
        through(bs, bi, d, lay(g, bi, d)),
        forall|i: int|
            0 <= i < 9 ==> (#[trigger] has_minirow(bs, bi, d, i) <==> in_perm(lay(g, bi, d), i)),
{
    lemma_lay(g, bi, d);
    lemma_grid_facts(g);
    let k = lay(g, bi, d);
    assert forall|i: int| 0 <= i < 9 implies (#[trigger] has_minirow(bs, bi, d, i) <==> in_perm(
        k,
        i,
    )) by {
        let (l, j) = (i / 3, i % 3);
        lemma_home(g, bi, l, d);
        let h = home(g, bi, l, d);
        assert(perm_box(k, l) == h / 3);
        assert forall|y: int| 0 <= y < 3 implies (cand(bs, #[trigger] band_cell(bi, 3 * i + y), d)
            <==> h == 3 * j + y) by {
            let p = 3 * i + y;
            assert(p == 9 * l + (3 * j + y));
            lemma_line_cell(bi, l, 3 * j + y);
            let c = line_cell(bi, l, 3 * j + y);
            assert(0 <= c < 81);
            assert(cand(bs, c, d) <==> g[c] == d + 1);
            if h == 3 * j + y {
                assert(g[line_cell(bi, l, h)] == d + 1);
            }
        }
        assert(band_cell(bi, 3 * i) == band_cell(bi, 3 * i + 0));
        assert(cand(bs, band_cell(bi, 3 * i + 0), d) <==> h == 3 * j + 0);
        assert(cand(bs, band_cell(bi, 3 * i + 1), d) <==> h == 3 * j + 1);
        assert(cand(bs, band_cell(bi, 3 * i + 2), d) <==> h == 3 * j + 2);
        assert(l == 0 || l == 1 || l == 2);
    }
    assert(has_minirow(bs, bi, d, perm_box(k, 0)) <==> in_perm(k, perm_box(k, 0)));
    assert(has_minirow(bs, bi, d, 3 + perm_box(k, 1)) <==> in_perm(k, 3 + perm_box(k, 1)));
    assert(has_minirow(bs, bi, d, 6 + perm_box(k, 2)) <==> in_perm(k, 6 + perm_box(k, 2)));
    assert(through(bs, bi, d, k));
    assert forall|x: int| 0 <= x < 81 && in_band(bi, x) && #[trigger] cand(bs, x, d) implies laid(
        bs,
        bi,
        d,
        band_pos(bi, x) / 3,
    ) by {
        lemma_band_pos(bi, x);
        let p = band_pos(bi, x);
        let i = p / 3;
        assert(p == 3 * i || p == 3 * i + 1 || p == 3 * i + 2);
        assert(band_cell(bi, p) == x);
        assert(has_minirow(bs, bi, d, i));
    }
}

/// In boards that spell out a grid every minirow is used by three digits,
/// which use none linked to it.
pub proof fn lemma_grid_settled(bs: Seq<u32>, g: Seq<u8>, bi: int, i: int)
    requires
        is_grid(g),
        crate::boards::encodes(bs, g),
        0 <= bi < 6,
        0 <= i < 9,
    ensures
        reach(bs, bi, i) == 3,
        settled_minirow(bs, bi, i),
{
    lemma_layout(g, bi);
    let k = layout_of(g, bi);
    assert(users(k, i) == 3);
    let f = |d: int| has_minirow(bs, bi, d, i);
    let h = |d: int| in_perm(k(d), i);
    assert forall|d: int| 0 <= d < 9 implies #[trigger] f(d) == #[trigger] h(d) by {
        lemma_grid_reduced(bs, g, bi, d);
    }
    lemma_count_mono(f, h, 9);
    lemma_count_mono(h, f, 9);
    assert forall|d: int, j: int|
        0 <= d < 9 && 0 <= j < 9 && linked(i, j) && has_minirow(bs, bi, d, i) implies !(#[trigger]
    has_minirow(bs, bi, d, j)) by {
        lemma_grid_reduced(bs, g, bi, d);
        lemma_lay(g, bi, d);
        assert(in_perm(lay(g, bi, d), i));
    }
}

/// The permutations of a word are those of the band that it views.
pub proof fn lemma_view_laid(m: u32, bs: Seq<u32>, bi: int, d: int)
    requires
        views(m, bs, bi, d),
    ensures
        supported(m) <==> placeable(bs, bi, d),
        forall|i: int| #[trigger] laid(bs, bi, d, i) <==> in_some_perm(m, i),
{
    assert forall|k: int| #[trigger] fits_cells(m, k) <==> through(bs, bi, d, k) by {
        lemma_through(m, bs, bi, d, k);
    }
    if supported(m) {
        let k = choose|k: int| #[trigger] fits_cells(m, k);
        assert(through(bs, bi, d, k));
    }
    if placeable(bs, bi, d) {
        let k = choose|k: int| #[trigger] through(bs, bi, d, k);
        assert(fits_cells(m, k));
    }
    assert forall|i: int| #[trigger] laid(bs, bi, d, i) <==> in_some_perm(m, i) by {
        if laid(bs, bi, d, i) {
            let k = choose|k: int| #[trigger] through(bs, bi, d, k) && in_perm(k, i);
            assert(fits_cells(m, k));
        }
        if in_some_perm(m, i) {
            let k = choose|k: int| #[trigger] fits_cells(m, k) && in_perm(k, i);
            assert(through(bs, bi, d, k));
        }
    }
}

/// A closed word leaves its band reduced.
pub proof fn lemma_closed_reduced(m: u32, bs: Seq<u32>, bi: int, d: int)
    requires
        0 <= bi < 6,
        views(m, bs, bi, d),
        closed_word(m),
    ensures
        reduced(bs, bs, bi, d),
{
    lemma_view_laid(m, bs, bi, d);
    reveal(closed_word);
    assert forall|x: int| 0 <= x < 81 && in_band(bi, x) && #[trigger] cand(bs, x, d) implies laid(
        bs,
        bi,
        d,
        band_pos(bi, x) / 3,
    ) by {
        let p = band_pos(bi, x);
        lemma_band_pos(bi, x);
        reveal(views);
        assert(bit32(m, p) <==> cand(bs, band_cell(bi, p), d));
        assert(in_some_perm(m, p / 3));
    }
}

} // verus!
