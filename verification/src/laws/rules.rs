//! What propagation does to a puzzle, cell by cell.

use vstd::prelude::*;
use crate::baseline::cells::only;
use crate::baseline::pass::passed;
use crate::baseline::rest::{placed_in, rests, seated};
use crate::baseline::settle::{all_single, closed_cells, closes_to, crossed, settled};
use crate::baseline::tables::in_unit;
use crate::bits::{
    bit16, bit32, count, lemma_count_drop, lemma_count_second, lemma_count_some, total16,
};
use crate::boards::{admits, cand, digits_at};
use crate::grid::{box_of, col_of, is_grid, is_solution, peers, row_of, unit_cell};
use crate::jcz::closure::{
    closed_self, column_clear, is_closure, lone_col, lone_digit, open_count, pinned, stable,
    undecided,
};
use crate::jcz::found::lemma_start_admits;
use crate::jcz::init::starts;
use crate::jcz::largest::lemma_stable_cell;
use crate::jcz::sound::lemma_decided_peer;
use crate::jcz::starting;
use crate::jcz::tables::near;
use crate::laws::runs::lemma_several;
use crate::layout::{line_cell, lone};
use crate::minirow::{fits_cells, in_perm, occupied, perm_box, supported};
use crate::rest::{self, choices, closed_part, sole};

verus! {

// ---------------------------------------------------------------------------
// Boards by digit
// ---------------------------------------------------------------------------

/// A count in two parts.
proof fn lemma_count_parts(f: spec_fn(int) -> bool, m: nat, n: nat)
    ensures
        count(f, m + n) == count(f, m) + count(|i: int| f(m + i), n),
    decreases n,
{
    if n > 0 {
        lemma_count_parts(f, m, (n - 1) as nat);
        let g = |i: int| f(m + i);
        assert(g(n - 1) == f(m + n - 1));
    }
}

/// Predicates that agree count the same.
proof fn lemma_count_same(f: spec_fn(int) -> bool, g: spec_fn(int) -> bool, n: nat)
    requires
        forall|i: int| #![trigger f(i)] #![trigger g(i)] 0 <= i < n ==> f(i) == g(i),
    ensures
        count(f, n) == count(g, n),
    decreases n,
{
    if n > 0 {
        lemma_count_same(f, g, (n - 1) as nat);
    }
}

/// The number of open cells is the number of cells with two candidates or more,
/// over the whole grid.
pub proof fn law_open_cells(v: Seq<u32>)
    ensures
        open_count(v) == count(|c: int| digits_at(v, c / 27, c % 27, 9) >= 2, 81),
{
    let f = |c: int| digits_at(v, c / 27, c % 27, 9) >= 2;
    lemma_count_parts(f, 54, 27);
    lemma_count_parts(f, 27, 27);
    let (f1, f2) = (|i: int| f(27 + i), |i: int| f(54 + i));
    assert forall|i: int| 0 <= i < 27 implies undecided(v, 0, i) == f(i) && undecided(v, 1, i) == f1(
        i,
    ) && undecided(v, 2, i) == f2(i) by {
        lemma_several(v, 0, i);
        lemma_several(v, 1, i);
        lemma_several(v, 2, i);
        assert(i / 27 == 0 && i % 27 == i);
        assert((27 + i) / 27 == 1 && (27 + i) % 27 == i);
        assert((54 + i) / 27 == 2 && (54 + i) % 27 == i);
    }
    lemma_count_same(|p: int| undecided(v, 0, p), f, 27);
    lemma_count_same(|p: int| undecided(v, 1, p), f1, 27);
    lemma_count_same(|p: int| undecided(v, 2, p), f2, 27);
}

/// What the propagation leaves of the clues has all solutions and nothing else.
pub proof fn law_propagation_keeps(clues: Seq<u8>, v: Seq<u32>, g: Seq<u8>)
    requires
        starting(v, clues),
        is_grid(g),
    ensures
        is_solution(g, clues) <==> forall|c: int|
            0 <= c < 81 ==> cand(v, c, #[trigger] g[c] - 1),
{
    let bs = choose|bs: Seq<u32>| starts(bs, clues) && #[trigger] is_closure(v, bs);
    lemma_start_admits(clues, bs, v, g);
    reveal(admits);
}

/// A cell with one candidate has cleared it from its peers, and every cell has
/// one.
pub proof fn law_naked_single(v: Seq<u32>, c: int, d: int, x: int)
    requires
        stable(v),
        0 <= c < 81,
        0 <= x < 81,
        0 <= d < 9,
        cand(v, c, d),
        forall|e: int| 0 <= e < 9 && #[trigger] cand(v, c, e) ==> e == d,
        peers(c, x),
    ensures
        !cand(v, x, d),
        exists|e: int| 0 <= e < 9 && #[trigger] cand(v, x, e),
{
    assert(lone_digit(v, c / 27, d, c % 27)) by {
        assert forall|e: int| 0 <= e < 9 && e != d implies !bit32(
            #[trigger] v[9 * (c / 27) + e],
            c % 27,
        ) by {
            assert(cand(v, c, e) ==> e == d);
        }
    }
    lemma_decided_peer(v, c, d, x);
    lemma_stable_cell(v, x / 27, d, x % 27);
    let e = choose|e: int| 0 <= e < 9 && bit32(#[trigger] v[9 * (x / 27) + e], x % 27);
    assert(cand(v, x, e));
}

/// A digit with one place left in its row and its box has it to itself.
pub proof fn law_lone_place(v: Seq<u32>, c: int, d: int, e: int)
    requires
        stable(v),
        0 <= c < 81,
        0 <= d < 9,
        0 <= e < 9,
        cand(v, c, d),
        e != d,
        forall|x: int|
            0 <= x < 81 && x != c && #[trigger] cand(v, x, d) ==> row_of(x) != row_of(c) && box_of(x)
                != box_of(c),
    ensures
        !cand(v, c, e),
{
    let (b, p) = (c / 27, c % 27);
    let m = v[9 * b + d];
    assert(pinned(m, p)) by {
        assert forall|q: int| 0 <= q < 27 && near(q, p) && #[trigger] bit32(m, q) implies q == p by {
            let x = 27 * b + q;
            assert(x / 27 == b && x % 27 == q);
            assert(cand(v, x, d));
            assert(c == 27 * b + p);
            assert(x / 9 == 3 * b + q / 9 && c / 9 == 3 * b + p / 9);
            assert(x % 9 == q % 9 && c % 9 == p % 9);
        }
    }
    lemma_stable_cell(v, b, d, p);
    assert(!bit32(v[9 * b + e], p));
}

/// A permutation through a cell that a closed word holds.
proof fn lemma_through(m: u32, q: int) -> (k: int)
    requires
        closed_self(m),
        bit32(m, q),
        0 <= q < 27,
    ensures
        fits_cells(m, k),
        perm_box(k, q / 9) == (q % 9) / 3,
{
    let k = choose|k: int| #[trigger] fits_cells(m, k) && in_perm(k, q / 3);
    assert((q / 3) / 3 == q / 9 && (q / 3) % 3 == (q % 9) / 3);
    k
}

/// A permutation that fits has a cell in each of its rows, in the box of that
/// row.
proof fn lemma_cell_in(m: u32, k: int, r: int) -> (p: int)
    requires
        fits_cells(m, k),
        0 <= r < 3,
    ensures
        0 <= p < 27,
        bit32(m, p),
        p / 9 == r,
        (p % 9) / 3 == perm_box(k, r),
{
    let j = perm_box(k, r);
    let i = 3 * r + j;
    assert(occupied(m, i));
    assert(0 <= j < 3);
    let p = if bit32(m, 3 * i) {
        3 * i
    } else if bit32(m, 3 * i + 1) {
        3 * i + 1
    } else {
        3 * i + 2
    };
    assert(p / 9 == r && (p % 9) / 3 == j);
    p
}

/// Where a digit's places in a box all lie in one row, it has no place in that
/// row outside of the box; where its places in a row all lie in one box, it has
/// no place in the other rows of the box.
pub proof fn law_locked_in_row(v: Seq<u32>, c: int, d: int, y: int)
    requires
        stable(v),
        0 <= c < 81,
        0 <= y < 81,
        0 <= d < 9,
    ensures
        (forall|x: int|
            0 <= x < 81 && box_of(x) == box_of(c) && #[trigger] cand(v, x, d) ==> row_of(x)
                == row_of(c)) && row_of(y) == row_of(c) && box_of(y) != box_of(c) ==> !cand(v, y, d),
        (forall|x: int|
            0 <= x < 81 && row_of(x) == row_of(c) && #[trigger] cand(v, x, d) ==> box_of(x)
                == box_of(c)) && box_of(y) == box_of(c) && row_of(y) != row_of(c) ==> !cand(v, y, d),
{
    let (b, q) = (y / 27, y % 27);
    let m = v[9 * b + d];
    if cand(v, y, d) && c / 27 == b {
        assert(closed_self(m)) by {
            reveal(stable);
            assert(supported(v[9 * b + d]) && closed_self(v[9 * b + d]));
        }
        let p = c % 27;
        let k = lemma_through(m, q);
        let p0 = lemma_cell_in(m, k, 0);
        let p1 = lemma_cell_in(m, k, 1);
        let p2 = lemma_cell_in(m, k, 2);
        lemma_place(v, b, d, p0);
        lemma_place(v, b, d, p1);
        lemma_place(v, b, d, p2);
        lemma_coords(b, p);
        lemma_coords(b, q);
        assert(c == 27 * b + p && y == 27 * b + q);
        assert(perm_box(k, 0) != perm_box(k, 1) && perm_box(k, 0) != perm_box(k, 2) && perm_box(
            k,
            1,
        ) != perm_box(k, 2));
        assert(q / 9 == 0 || q / 9 == 1 || q / 9 == 2);
        assert(p / 9 == 0 || p / 9 == 1 || p / 9 == 2);
    } else {
        lemma_coords(b, q);
        lemma_coords(c / 27, c % 27);
        assert(c == 27 * (c / 27) + c % 27 && y == 27 * b + q);
    }
}

/// Row and box of a cell of a band.
proof fn lemma_coords(b: int, p: int)
    requires
        0 <= b < 3,
        0 <= p < 27,
    ensures
        row_of(27 * b + p) == 3 * b + p / 9,
        col_of(27 * b + p) == p % 9,
        box_of(27 * b + p) == 3 * b + (p % 9) / 3,
        (27 * b + p) / 27 == b,
        (27 * b + p) % 27 == p,
{
    let c = 27 * b + p;
    assert(c / 27 == b && c % 27 == p);
    assert(c / 9 == 3 * b + p / 9 && c % 9 == p % 9);
}

/// A bit of a board as a candidate of a cell.
proof fn lemma_place(v: Seq<u32>, b: int, d: int, p: int)
    requires
        0 <= b < 3,
        0 <= p < 27,
        bit32(v[9 * b + d], p),
    ensures
        cand(v, 27 * b + p, d),
        row_of(27 * b + p) == 3 * b + p / 9,
        box_of(27 * b + p) == 3 * b + (p % 9) / 3,
{
    lemma_coords(b, p);
}

/// Where a digit's places in a box all lie in one column, it has no place in
/// that column outside of the band.
pub proof fn law_locked_in_column(v: Seq<u32>, c: int, d: int, y: int)
    requires
        stable(v),
        0 <= c < 81,
        0 <= y < 81,
        0 <= d < 9,
        cand(v, c, d),
        forall|x: int|
            0 <= x < 81 && box_of(x) == box_of(c) && #[trigger] cand(v, x, d) ==> col_of(x)
                == col_of(c),
        col_of(y) == col_of(c),
        y / 27 != c / 27,
    ensures
        !cand(v, y, d),
{
    let (b, p) = (c / 27, c % 27);
    let (b2, q) = (y / 27, y % 27);
    let m = v[9 * b + d];
    lemma_coords(b, p);
    lemma_coords(b2, q);
    assert(c == 27 * b + p && y == 27 * b2 + q);
    assert(lone_col(m, q % 9)) by {
        assert(q % 9 == p % 9);
        assert(9 * (p / 9) + p % 9 == p);
        assert(bit32(m, 9 * (p / 9) + q % 9));
        assert forall|z: int|
            0 <= z < 27 && (z % 9) / 3 == (q % 9) / 3 && #[trigger] bit32(m, z) implies z % 9 == q
            % 9 by {
            lemma_place(v, b, d, z);
            lemma_coords(b, z);
            assert(box_of(27 * b + z) == box_of(c));
        }
    }
    assert(column_clear(v, b, d, b2)) by {
        reveal(stable);
    }
}

/// What the rules of the board engines leave of boards with some assignments:
/// the assignments are made, every cell has a candidate, one alone has left the
/// peers of its cell, and a digit with one place left in a row or a column has
/// it to itself.
pub proof fn law_rested_boards(bs: Seq<u32>, asks: Set<(int, int)>, pins: bool)
    ensures
        closed_part(bs, asks, pins) matches Some(f) ==> {
            &&& forall|c: int, d: int, e: int|
                asks.contains((c, d)) && 0 <= e < 9 ==> (#[trigger] cand(f, c, d) && (
                #[trigger] cand(f, c, e) ==> e == d))
            &&& forall|c: int| 0 <= c < 81 ==> #[trigger] choices(f, c) >= 1
            &&& forall|c: int, d: int, x: int|
                0 <= c < 81 && 0 <= x < 81 && 0 <= d < 9 && #[trigger] cand(f, c, d) && choices(f, c)
                    == 1 && #[trigger] peers(c, x) ==> !cand(f, x, d)
            &&& forall|r: int, x: int, d: int|
                0 <= r < 9 && 0 <= x < 9 && 0 <= d < 9 && #[trigger] cand(f, 9 * r + x, d) && (
                forall|y: int| 0 <= y < 9 && #[trigger] cand(f, 9 * r + y, d) ==> y == x) ==> choices(
                    f,
                    9 * r + x,
                ) == 1
            &&& forall|r: int, x: int, d: int|
                0 <= r < 9 && 0 <= x < 9 && 0 <= d < 9 && #[trigger] cand(f, 9 * r + x, d) && (
                forall|y: int| 0 <= y < 9 && #[trigger] cand(f, 9 * y + x, d) ==> y == r) ==> choices(
                    f,
                    9 * r + x,
                ) == 1
        },
{
    if let Some(f) = closed_part(bs, asks, pins) {
        assert(rest::closes_to(bs, asks, pins, f));
        assert(rest::rests(f, pins));
        reveal(rest::rests);
        assert forall|c: int, d: int, e: int|
            asks.contains((c, d)) && 0 <= e < 9 implies (#[trigger] cand(f, c, d) && (
        #[trigger] cand(f, c, e) ==> e == d)) by {
            assert(sole(f, c, d));
        }
        assert forall|c: int| 0 <= c < 81 implies #[trigger] choices(f, c) >= 1 by {
            assert(rest::filled(f, c));
            let d = choose|d: int| 0 <= d < 9 && #[trigger] cand(f, c, d);
            lemma_count_some(|e: int| bit32(f[9 * (c / 27) + e], c % 27), 9, d);
        }
        assert forall|c: int, d: int, x: int|
            0 <= c < 81 && 0 <= x < 81 && 0 <= d < 9 && #[trigger] cand(f, c, d) && choices(f, c) == 1
                && #[trigger] peers(c, x) implies !cand(f, x, d) by {
            lemma_sole_choice(f, c, d);
        }
        assert forall|r: int, x: int, d: int|
            0 <= r < 9 && 0 <= x < 9 && 0 <= d < 9 && #[trigger] cand(f, 9 * r + x, d) && (forall|
                y: int,
            | 0 <= y < 9 && #[trigger] cand(f, 9 * r + y, d) ==> y == x) implies choices(
            f,
            9 * r + x,
        ) == 1 by {
            assert(3 * (r / 3) + r % 3 == r);
            assert(lone(f, r / 3, d, r % 3, x));
            lemma_sole_choice(f, 9 * r + x, d);
        }
        assert forall|r: int, x: int, d: int|
            0 <= r < 9 && 0 <= x < 9 && 0 <= d < 9 && #[trigger] cand(f, 9 * r + x, d) && (forall|
                y: int,
            | 0 <= y < 9 && #[trigger] cand(f, 9 * y + x, d) ==> y == r) implies choices(
            f,
            9 * r + x,
        ) == 1 by {
            assert(3 * (x / 3) + x % 3 == x);
            assert forall|y: int| #[trigger] line_cell(3 + x / 3, x % 3, y) == 9 * y + x by {}
            assert(lone(f, 3 + x / 3, d, x % 3, r));
            lemma_sole_choice(f, 9 * r + x, d);
        }
    }
}

/// A cell with one candidate has no other.
proof fn lemma_sole_choice(f: Seq<u32>, c: int, d: int)
    requires
        0 <= d < 9,
        cand(f, c, d),
    ensures
        choices(f, c) == 1 <==> sole(f, c, d),
{
    let g = |e: int| bit32(f[9 * (c / 27) + e], c % 27);
    assert(g(d));
    lemma_count_some(g, 9, d);
    if choices(f, c) == 1 {
        assert forall|e: int| 0 <= e < 9 && #[trigger] cand(f, c, e) implies e == d by {
            if e != d {
                assert(g(e));
                let h = |i: int| g(i) && i != d;
                lemma_count_drop(h, g, 9, d);
                lemma_count_some(h, 9, e);
            }
        }
    }
    if sole(f, c, d) && count(g, 9) >= 2 {
        let e = lemma_count_second(g, 9, d);
        assert(cand(f, c, e));
    }
}

// ---------------------------------------------------------------------------
// Candidates per cell
// ---------------------------------------------------------------------------

/// What full propagation leaves of candidates per cell: no cell is empty, a cell
/// with one candidate has cleared it from its peers, and a digit that has one
/// place left in a row, a column or a box has it to itself.
pub proof fn law_settled_cells(cells: Seq<u16>, marks: Set<int>)
    ensures
        settled(cells, marks) matches Some(left) ==> {
            &&& left.0.len() == 81
            &&& forall|c: int| 0 <= c < 81 ==> #[trigger] left.0[c] != 0
            &&& forall|c: int, d: int, x: int|
                0 <= c < 81 && 0 <= x < 81 && #[trigger] peers(c, x) && (forall|e: int| #[trigger]
                    bit16(left.0[c], e) <==> e == d) ==> !#[trigger] bit16(left.0[x], d)
            &&& forall|u: int, i: int, d: int|
                0 <= u < 27 && 0 <= i < 9 && 0 <= d < 9 && #[trigger] bit16(
                    left.0[unit_cell(u, i)],
                    d,
                ) && (forall|j: int|
                    0 <= j < 9 && j != i ==> !bit16(left.0[#[trigger] unit_cell(u, j)], d)) ==> only(
                    left.0[unit_cell(u, i)],
                    d,
                )
        },
    decreases total16(cells),
{
    if let Some(f) = closed_cells(cells) {
        assert(closes_to(cells, f));
        lemma_rested_cells(f);
        let due = marks.union(crossed(cells, f));
        if !(all_single(f) || due == Set::<int>::empty()) {
            if let Some(g) = passed(f, due, 54) {
                if g != f && total16(g) < total16(cells) {
                    law_settled_cells(g, crossed(f, g));
                }
            }
        }
    }
}

/// The place of a cell in its unit.
proof fn lemma_index(u: int, c: int) -> (i: int)
    requires
        0 <= u < 27,
        0 <= c < 81,
        in_unit(u, c),
    ensures
        0 <= i < 9,
        unit_cell(u, i) == c,
{
    if u < 9 {
        c % 9
    } else if u < 18 {
        c / 9
    } else {
        let (r, x) = (c / 9, c % 9);
        let b = u - 18;
        assert(c / 27 == r / 3);
        assert(b == (r / 3) * 3 + x / 3);
        assert(b / 3 == r / 3 && b % 3 == x / 3);
        let i = 3 * (r % 3) + x % 3;
        assert(i / 3 == r % 3 && i % 3 == x % 3);
        i
    }
}

/// What singles leave alone.
proof fn lemma_rested_cells(f: Seq<u16>)
    requires
        rests(f),
    ensures
        f.len() == 81,
        forall|c: int| 0 <= c < 81 ==> #[trigger] f[c] != 0,
        forall|c: int, d: int, x: int|
            0 <= c < 81 && 0 <= x < 81 && #[trigger] peers(c, x) && (forall|e: int| #[trigger]
                bit16(f[c], e) <==> e == d) ==> !#[trigger] bit16(f[x], d),
        forall|u: int, i: int, d: int|
            0 <= u < 27 && 0 <= i < 9 && 0 <= d < 9 && #[trigger] bit16(f[unit_cell(u, i)], d) && (
            forall|j: int| 0 <= j < 9 && j != i ==> !bit16(f[#[trigger] unit_cell(u, j)], d))
                ==> only(f[unit_cell(u, i)], d),
{
    reveal(rests);
    assert forall|c: int, d: int, x: int|
        0 <= c < 81 && 0 <= x < 81 && #[trigger] peers(c, x) && (forall|e: int| #[trigger]
            bit16(f[c], e) <==> e == d) implies !#[trigger] bit16(f[x], d) by {
        assert(only(f[c], d));
    }
    assert forall|u: int, i: int, d: int|
        0 <= u < 27 && 0 <= i < 9 && 0 <= d < 9 && #[trigger] bit16(f[unit_cell(u, i)], d) && (
        forall|j: int| 0 <= j < 9 && j != i ==> !bit16(f[#[trigger] unit_cell(u, j)], d)) implies only(
        f[unit_cell(u, i)],
        d,
    ) by {
        assert(seated(f, u, d));
        if placed_in(f, u, d) {
            let c = choose|c: int| 0 <= c < 81 && #[trigger] in_unit(u, c) && only(f[c], d);
            let k = lemma_index(u, c);
            assert(bit16(f[c], d));
            assert(bit16(f[unit_cell(u, k)], d));
        }
    }
}

} // verus!
