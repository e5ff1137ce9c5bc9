//! The rules of sudoku: cells, units, complete grids, and the set of
//! solutions of a clue grid.
//!
//! Cells are numbered 0..81 row by row. A grid is a sequence of 81 digits
//! 1..=9; in a clue grid 0 stands for a blank.

use vstd::prelude::*;
use vstd::set_lib::*;

verus! {

pub open spec fn row_of(c: int) -> int {
    c / 9
}

pub open spec fn col_of(c: int) -> int {
    c % 9
}

pub open spec fn box_of(c: int) -> int {
    (c / 27) * 3 + (c % 9) / 3
}

/// Two different cells that share a row, a column or a box.
pub open spec fn peers(a: int, b: int) -> bool {
    a != b && (row_of(a) == row_of(b) || col_of(a) == col_of(b) || box_of(a) == box_of(b))
}

/// Cell `i` of unit `u`: units 0..9 are the rows, 9..18 the columns, 18..27
/// the boxes.
pub open spec fn unit_cell(u: int, i: int) -> int {
    if u < 9 {
        u * 9 + i
    } else if u < 18 {
        i * 9 + (u - 9)
    } else {
        (((u - 18) / 3) * 3 + i / 3) * 9 + ((u - 18) % 3) * 3 + i % 3
    }
}

/// A complete grid: digits 1..=9 in all 81 cells, no digit twice in a unit.
#[verifier::opaque]
pub open spec fn is_grid(g: Seq<u8>) -> bool {
    &&& g.len() == 81
    &&& forall|c: int| 0 <= c < 81 ==> 1 <= #[trigger] g[c] <= 9
    &&& forall|a: int, b: int|
        0 <= a < 81 && 0 <= b < 81 && peers(a, b) ==> #[trigger] g[a] != #[trigger] g[b]
}

/// `g` agrees with every clue that is not blank.
pub open spec fn extends(g: Seq<u8>, clues: Seq<u8>) -> bool {
    forall|c: int| 0 <= c < 81 && #[trigger] clues[c] != 0 ==> g[c] == clues[c]
}

/// `g` is a complete grid that keeps the clues.
pub open spec fn is_solution(g: Seq<u8>, clues: Seq<u8>) -> bool {
    is_grid(g) && extends(g, clues)
}

/// All solutions of a clue grid.
pub open spec fn solutions(clues: Seq<u8>) -> Set<Seq<u8>> {
    Set::new(|g: Seq<u8>| is_solution(g, clues))
}

/// How many solutions a clue grid has.
pub open spec fn solution_count(clues: Seq<u8>) -> nat {
    solutions(clues).len()
}

/// `n`, but no more than `limit`.
pub open spec fn capped(n: int, limit: int) -> int {
    if n <= limit {
        n
    } else {
        limit
    }
}

/// The clues are digits or blanks.
pub open spec fn clues_ok(clues: Seq<u8>) -> bool {
    clues.len() == 81 && forall|c: int| 0 <= c < 81 ==> #[trigger] clues[c] <= 9
}

/// Every complete grid.
pub open spec fn grids() -> Set<Seq<u8>> {
    Set::new(|g: Seq<u8>| is_grid(g))
}

// ---------------------------------------------------------------------------
// Counting
// ---------------------------------------------------------------------------

/// An injective map of `0..n` into itself reaches every value.
pub proof fn lemma_pigeonhole(f: spec_fn(int) -> int, n: nat, y: int) -> (x: int)
    requires
        forall|i: int| 0 <= i < n ==> 0 <= #[trigger] f(i) < n,
        forall|i: int, j: int| 0 <= i < j < n ==> #[trigger] f(i) != #[trigger] f(j),
        0 <= y < n,
    ensures
        0 <= x < n,
        f(x) == y,
{
    let s = Seq::new(n, |i: int| f(i));
    assert(s.no_duplicates());
    s.unique_seq_to_set();
    let t = s.to_set();
    lemma_int_range(0, n as int);
    let full = set_int_range(0, n as int);
    assert(t.subset_of(full)) by {
        assert forall|v: int| t.contains(v) implies full.contains(v) by {
            let i = choose|i: int| 0 <= i < s.len() && s[i] == v;
            assert(0 <= f(i) < n);
        }
    }
    lemma_subset_equality(t, full);
    assert(t.contains(y));
    choose|i: int| 0 <= i < s.len() && s[i] == y
}

/// Some index below `n` is mapped to `y`.
pub open spec fn reaches(f: spec_fn(int) -> int, n: nat, y: int) -> bool {
    exists|x: int| 0 <= x < n && #[trigger] f(x) == y
}

/// A map of `0..n` into itself that reaches every value is injective.
pub proof fn lemma_onto_is_injective(f: spec_fn(int) -> int, n: nat, a: int, b: int)
    requires
        forall|i: int| 0 <= i < n ==> 0 <= #[trigger] f(i) < n,
        forall|y: int| 0 <= y < n ==> #[trigger] reaches(f, n, y),
        0 <= a < n,
        0 <= b < n,
        f(a) == f(b),
    ensures
        a == b,
{
    let h = |y: int| choose|x: int| 0 <= x < n && #[trigger] f(x) == y;
    assert forall|i: int| 0 <= i < n implies 0 <= #[trigger] h(i) < n && f(h(i)) == i by {
        assert(reaches(f, n, i));
    }
    let ya = lemma_pigeonhole(h, n, a);
    let yb = lemma_pigeonhole(h, n, b);
    assert(f(h(ya)) == ya);
    assert(f(h(yb)) == yb);
}

spec fn lines(n: nat) -> Set<Seq<u8>> {
    Set::new(|s: Seq<u8>| s.len() == n && forall|i: int| 0 <= i < n ==> 1 <= #[trigger] s[i] <= 9)
}

proof fn lemma_lines_finite(n: nat)
    ensures
        lines(n).finite(),
    decreases n,
{
    if n == 0 {
        assert(lines(0) =~= set![Seq::<u8>::empty()]) by {
            assert forall|s: Seq<u8>| lines(0).contains(s) implies s == Seq::<u8>::empty() by {
                assert(s =~= Seq::<u8>::empty());
            }
        }
    } else {
        let p = lines((n - 1) as nat);
        lemma_lines_finite((n - 1) as nat);
        lemma_lines_step(n, 9);
        assert(lines(n) =~= lines_to(n, 9)) by {
            assert forall|s: Seq<u8>| lines(n).contains(s) implies lines_to(n, 9).contains(s) by {
                assert(1 <= s[n - 1] <= 9);
            }
        }
    }
}

spec fn lines_to(n: nat, d: int) -> Set<Seq<u8>> {
    Set::new(|s: Seq<u8>| lines(n).contains(s) && s[n - 1] <= d)
}

proof fn lemma_lines_step(n: nat, d: int)
    requires
        n > 0,
        0 <= d <= 9,
        lines((n - 1) as nat).finite(),
    ensures
        lines_to(n, d).finite(),
    decreases d,
{
    if d == 0 {
        assert(lines_to(n, d) =~= Set::empty()) by {
            assert forall|s: Seq<u8>| !lines_to(n, d).contains(s) by {
                if lines_to(n, d).contains(s) {
                    assert(1 <= s[n - 1] <= 9);
                }
            }
        }
    } else {
        lemma_lines_step(n, d - 1);
        let p = lines((n - 1) as nat);
        let f = |s: Seq<u8>| s.push(d as u8);
        p.lemma_map_finite(f);
        assert(lines_to(n, d).subset_of(lines_to(n, d - 1).union(p.map(f)))) by {
            assert forall|s: Seq<u8>|
                lines_to(n, d).contains(s) implies lines_to(n, d - 1).union(p.map(f)).contains(s) by {
                if s[n - 1] == d {
                    let t = s.drop_last();
                    assert forall|i: int| 0 <= i < n - 1 implies 1 <= #[trigger] t[i] <= 9 by {
                        assert(t[i] == s[i]);
                    }
                    assert(p.contains(t));
                    assert(f(t) =~= s);
                    assert(p.map(f).contains(s));
                }
            }
        }
        lemma_set_subset_finite(lines_to(n, d - 1).union(p.map(f)), lines_to(n, d));
    }
}

/// There are finitely many complete grids, so every set of them is finite.
pub proof fn lemma_grids_finite(s: Set<Seq<u8>>)
    requires
        s.subset_of(grids()),
    ensures
        s.finite(),
{
    lemma_lines_finite(81);
    assert(s.subset_of(lines(81))) by {
        reveal(is_grid);
        assert forall|g: Seq<u8>| s.contains(g) implies lines(81).contains(g) by {
            assert(grids().contains(g));
        }
    }
    lemma_set_subset_finite(lines(81), s);
}

/// A set of grids split in two disjoint parts has as many members as the
/// parts together.
pub proof fn lemma_split(s: Set<Seq<u8>>, a: Set<Seq<u8>>, b: Set<Seq<u8>>)
    requires
        s.subset_of(grids()),
        forall|g: Seq<u8>| #[trigger] s.contains(g) <==> a.contains(g) || b.contains(g),
        forall|g: Seq<u8>| !(#[trigger] a.contains(g) && b.contains(g)),
    ensures
        s.len() == a.len() + b.len(),
{
    assert(a.subset_of(grids()) && b.subset_of(grids())) by {
        assert forall|g: Seq<u8>| a.contains(g) || b.contains(g) implies grids().contains(g) by {
            assert(s.contains(g));
        }
    }
    lemma_grids_finite(a);
    lemma_grids_finite(b);
    assert(s =~= a.union(b));
    assert(a.disjoint(b));
    lemma_set_disjoint_lens(a, b);
}

/// A set with the single member `g` counts one.
pub proof fn lemma_only(s: Set<Seq<u8>>, g: Seq<u8>)
    requires
        s.contains(g),
        forall|h: Seq<u8>| #[trigger] s.contains(h) ==> h == g,
    ensures
        s.len() == 1,
{
    assert(s =~= set![g]);
}

/// A set without members counts zero.
pub proof fn lemma_none(s: Set<Seq<u8>>)
    requires
        forall|h: Seq<u8>| !(#[trigger] s.contains(h)),
    ensures
        s.len() == 0,
{
    assert(s =~= Set::empty());
}

/// A set of grids counts zero exactly when it has no member.
pub proof fn lemma_some(s: Set<Seq<u8>>, g: Seq<u8>)
    requires
        s.subset_of(grids()),
        s.contains(g),
    ensures
        s.len() > 0,
{
    lemma_grids_finite(s);
    if s.len() == 0 {
        assert(s =~= Set::empty());
    }
}

// ---------------------------------------------------------------------------
// Units
// ---------------------------------------------------------------------------

/// Row, column and box of the cell in row `r` and column `x`.
pub proof fn lemma_cell_coords(r: int, x: int)
    requires
        0 <= r < 9,
        0 <= x < 9,
    ensures
        0 <= 9 * r + x < 81,
        row_of(9 * r + x) == r,
        col_of(9 * r + x) == x,
        box_of(9 * r + x) == (r / 3) * 3 + x / 3,
{
    assert((9 * r + x) / 27 == r / 3);
}

/// The nine cells of a unit are nine different cells, each a peer of the others.
pub proof fn lemma_unit_cells(u: int, i: int, j: int)
    requires
        0 <= u < 27,
        0 <= i < 9,
        0 <= j < 9,
        i != j,
    ensures
        0 <= unit_cell(u, i) < 81,
        0 <= unit_cell(u, j) < 81,
        peers(unit_cell(u, i), unit_cell(u, j)),
{
    if u < 9 {
        lemma_cell_coords(u, i);
        lemma_cell_coords(u, j);
    } else if u < 18 {
        lemma_cell_coords(i, u - 9);
        lemma_cell_coords(j, u - 9);
    } else {
        let b = u - 18;
        lemma_box_cell(b, i);
        lemma_box_cell(b, j);
    }
}

proof fn lemma_box_cell(b: int, i: int)
    requires
        0 <= b < 9,
        0 <= i < 9,
    ensures
        0 <= unit_cell(18 + b, i) < 81,
        row_of(unit_cell(18 + b, i)) == (b / 3) * 3 + i / 3,
        col_of(unit_cell(18 + b, i)) == (b % 3) * 3 + i % 3,
        box_of(unit_cell(18 + b, i)) == b,
{
    let r = (b / 3) * 3 + i / 3;
    let x = (b % 3) * 3 + i % 3;
    assert(r / 3 == b / 3 && x / 3 == b % 3);
    lemma_cell_coords(r, x);
}

/// Position of cell `c` in unit `u`.
pub open spec fn unit_index(u: int, c: int) -> int {
    if u < 9 {
        c % 9
    } else if u < 18 {
        c / 9
    } else {
        ((c / 9) % 3) * 3 + (c % 9) % 3
    }
}

/// A cell belongs to its row, its column and its box.
pub proof fn lemma_units_of(c: int)
    requires
        0 <= c < 81,
    ensures
        unit_cell(row_of(c), unit_index(row_of(c), c)) == c,
        unit_cell(9 + col_of(c), unit_index(9 + col_of(c), c)) == c,
        unit_cell(18 + box_of(c), unit_index(18 + box_of(c), c)) == c,
        0 <= unit_index(row_of(c), c) < 9,
        0 <= unit_index(9 + col_of(c), c) < 9,
        0 <= unit_index(18 + box_of(c), c) < 9,
        0 <= row_of(c) < 9,
        0 <= col_of(c) < 9,
        0 <= box_of(c) < 9,
{
    let r = c / 9;
    let x = c % 9;
    assert(c == 9 * r + x);
    lemma_cell_coords(r, x);
    let b = box_of(c);
    let i = unit_index(18 + b, c);
    assert(b / 3 == r / 3 && b % 3 == x / 3);
    assert(i == (r % 3) * 3 + x % 3);
    assert(i / 3 == r % 3 && i % 3 == x % 3);
}

/// In a complete grid every unit holds every digit.
pub proof fn lemma_unit_has(g: Seq<u8>, u: int, d: int) -> (i: int)
    requires
        is_grid(g),
        0 <= u < 27,
        1 <= d <= 9,
    ensures
        0 <= i < 9,
        0 <= unit_cell(u, i) < 81,
        g[unit_cell(u, i)] == d,
{
    reveal(is_grid);
    let f = |i: int| g[unit_cell(u, i)] - 1;
    assert forall|i: int| 0 <= i < 9 implies 0 <= #[trigger] f(i) < 9 by {
        lemma_unit_cells(u, i, if i == 0 { 1 } else { 0 });
    }
    assert forall|i: int, j: int| 0 <= i < j < 9 implies #[trigger] f(i) != #[trigger] f(j) by {
        lemma_unit_cells(u, i, j);
    }
    let i = lemma_pigeonhole(f, 9, d - 1);
    lemma_unit_cells(u, i, if i == 0 { 1 } else { 0 });
    i
}

/// Unit `u` of `g` holds digit `d` somewhere.
pub open spec fn unit_holds(g: Seq<u8>, u: int, d: int) -> bool {
    exists|i: int| 0 <= i < 9 && #[trigger] g[unit_cell(u, i)] == d
}

/// Digits 1..=9 such that every unit holds every digit make a complete grid.
pub proof fn lemma_grid_from_units(g: Seq<u8>)
    requires
        g.len() == 81,
        forall|c: int| 0 <= c < 81 ==> 1 <= #[trigger] g[c] <= 9,
        forall|u: int, d: int| 0 <= u < 27 && 1 <= d <= 9 ==> #[trigger] unit_holds(g, u, d),
    ensures
        is_grid(g),
{
    reveal(is_grid);
    assert forall|a: int, b: int|
        0 <= a < 81 && 0 <= b < 81 && peers(a, b) implies #[trigger] g[a] != #[trigger] g[b] by {
        lemma_units_of(a);
        lemma_units_of(b);
        let u = if row_of(a) == row_of(b) {
            row_of(a)
        } else if col_of(a) == col_of(b) {
            9 + col_of(a)
        } else {
            18 + box_of(a)
        };
        if g[a] == g[b] {
            let f = |i: int| g[unit_cell(u, i)] - 1;
            assert forall|i: int| 0 <= i < 9 implies 0 <= #[trigger] f(i) < 9 by {
                lemma_unit_cells(u, i, if i == 0 { 1 } else { 0 });
            }
            assert forall|y: int| 0 <= y < 9 implies #[trigger] reaches(f, 9, y) by {
                assert(unit_holds(g, u, y + 1));
                let x = choose|i: int| 0 <= i < 9 && #[trigger] g[unit_cell(u, i)] == y + 1;
                assert(f(x) == y);
            }
            lemma_onto_is_injective(f, 9, unit_index(u, a), unit_index(u, b));
        }
    }
}

/// What a complete grid holds at a cell, and that peers differ.
pub proof fn lemma_grid_facts(g: Seq<u8>)
    requires
        is_grid(g),
    ensures
        g.len() == 81,
        forall|c: int| 0 <= c < 81 ==> 1 <= #[trigger] g[c] <= 9,
        forall|a: int, b: int|
            0 <= a < 81 && 0 <= b < 81 && peers(a, b) ==> #[trigger] g[a] != #[trigger] g[b],
{
    reveal(is_grid);
}

/// The column at which row `r` of `g` holds digit `d` (counted from 0).
pub open spec fn home_col(g: Seq<u8>, r: int, d: int) -> int {
    choose|x: int| 0 <= x < 9 && #[trigger] g[9 * r + x] == d + 1
}

/// The row at which column `x` of `g` holds digit `d` (counted from 0).
pub open spec fn home_row(g: Seq<u8>, x: int, d: int) -> int {
    choose|r: int| 0 <= r < 9 && #[trigger] g[9 * r + x] == d + 1
}

pub proof fn lemma_home_col(g: Seq<u8>, r: int, d: int)
    requires
        is_grid(g),
        0 <= r < 9,
        0 <= d < 9,
    ensures
        0 <= home_col(g, r, d) < 9,
        g[9 * r + home_col(g, r, d)] == d + 1,
        forall|y: int| 0 <= y < 9 && #[trigger] g[9 * r + y] == d + 1 ==> y == home_col(g, r, d),
{
    reveal(is_grid);
    let i = lemma_unit_has(g, r, d + 1);
    assert(g[9 * r + i] == d + 1);
    let x = home_col(g, r, d);
    assert forall|y: int| 0 <= y < 9 && #[trigger] g[9 * r + y] == d + 1 implies y == x by {
        if y != x {
            lemma_cell_coords(r, x);
            lemma_cell_coords(r, y);
            assert(peers(9 * r + x, 9 * r + y));
        }
    }
}

pub proof fn lemma_home_row(g: Seq<u8>, x: int, d: int)
    requires
        is_grid(g),
        0 <= x < 9,
        0 <= d < 9,
    ensures
        0 <= home_row(g, x, d) < 9,
        g[9 * home_row(g, x, d) + x] == d + 1,
        forall|r: int| 0 <= r < 9 && #[trigger] g[9 * r + x] == d + 1 ==> r == home_row(g, x, d),
{
    reveal(is_grid);
    let i = lemma_unit_has(g, 9 + x, d + 1);
    assert(g[9 * i + x] == d + 1);
    let h = home_row(g, x, d);
    assert forall|r: int| 0 <= r < 9 && #[trigger] g[9 * r + x] == d + 1 implies r == h by {
        if r != h {
            lemma_cell_coords(r, x);
            lemma_cell_coords(h, x);
            assert(peers(9 * r + x, 9 * h + x));
        }
    }
}

/// In the three rows of a band a digit sits in three different boxes.
pub proof fn lemma_band_boxes(g: Seq<u8>, b: int, d: int)
    requires
        is_grid(g),
        0 <= b < 3,
        0 <= d < 9,
    ensures
        forall|r: int| 0 <= r < 3 ==> 0 <= #[trigger] home_col(g, 3 * b + r, d) < 9,
        home_col(g, 3 * b, d) / 3 != home_col(g, 3 * b + 1, d) / 3,
        home_col(g, 3 * b, d) / 3 != home_col(g, 3 * b + 2, d) / 3,
        home_col(g, 3 * b + 1, d) / 3 != home_col(g, 3 * b + 2, d) / 3,
{
    reveal(is_grid);
    assert forall|r: int| 0 <= r < 3 implies 0 <= #[trigger] home_col(g, 3 * b + r, d) < 9 by {
        lemma_home_col(g, 3 * b + r, d);
    }
    lemma_home_col(g, 3 * b, d);
    lemma_home_col(g, 3 * b + 1, d);
    lemma_home_col(g, 3 * b + 2, d);
    let (x, y, z) = (
        9 * (3 * b) + home_col(g, 3 * b, d),
        9 * (3 * b + 1) + home_col(g, 3 * b + 1, d),
        9 * (3 * b + 2) + home_col(g, 3 * b + 2, d),
    );
    lemma_cell_coords(3 * b, home_col(g, 3 * b, d));
    lemma_cell_coords(3 * b + 1, home_col(g, 3 * b + 1, d));
    lemma_cell_coords(3 * b + 2, home_col(g, 3 * b + 2, d));
    assert(g[x] == g[y] && g[y] == g[z]);
    assert(!peers(x, y) && !peers(x, z) && !peers(y, z));
}

/// In the three columns of a stack a digit sits in three different boxes.
pub proof fn lemma_stack_boxes(g: Seq<u8>, s: int, d: int)
    requires
        is_grid(g),
        0 <= s < 3,
        0 <= d < 9,
    ensures
        forall|x: int| 0 <= x < 3 ==> 0 <= #[trigger] home_row(g, 3 * s + x, d) < 9,
        home_row(g, 3 * s, d) / 3 != home_row(g, 3 * s + 1, d) / 3,
        home_row(g, 3 * s, d) / 3 != home_row(g, 3 * s + 2, d) / 3,
        home_row(g, 3 * s + 1, d) / 3 != home_row(g, 3 * s + 2, d) / 3,
{
    reveal(is_grid);
    assert forall|x: int| 0 <= x < 3 implies 0 <= #[trigger] home_row(g, 3 * s + x, d) < 9 by {
        lemma_home_row(g, 3 * s + x, d);
    }
    lemma_home_row(g, 3 * s, d);
    lemma_home_row(g, 3 * s + 1, d);
    lemma_home_row(g, 3 * s + 2, d);
    let (x, y, z) = (
        9 * home_row(g, 3 * s, d) + 3 * s,
        9 * home_row(g, 3 * s + 1, d) + 3 * s + 1,
        9 * home_row(g, 3 * s + 2, d) + 3 * s + 2,
    );
    lemma_cell_coords(home_row(g, 3 * s, d), 3 * s);
    lemma_cell_coords(home_row(g, 3 * s + 1, d), 3 * s + 1);
    lemma_cell_coords(home_row(g, 3 * s + 2, d), 3 * s + 2);
    assert(g[x] == g[y] && g[y] == g[z]);
    assert(!peers(x, y) && !peers(x, z) && !peers(y, z));
}

// ---------------------------------------------------------------------------
// Settled candidate sets
// ---------------------------------------------------------------------------

/// Cell `c` can hold nothing but `d`, and no peer of `c` can hold `d`.
pub open spec fn settled_as(allow: spec_fn(int, int) -> bool, c: int, d: int) -> bool {
    &&& 0 <= d < 9
    &&& forall|e: int| 0 <= e < 9 && e != d ==> !#[trigger] allow(c, e)
    &&& forall|p: int| 0 <= p < 81 && peers(c, p) ==> !#[trigger] allow(p, d)
}

/// Some cell of row `r` can hold `d`.
pub open spec fn row_allows(allow: spec_fn(int, int) -> bool, r: int, d: int) -> bool {
    exists|x: int| 0 <= x < 9 && #[trigger] allow(9 * r + x, d)
}

/// Cell `c` is settled on some digit.
pub open spec fn settled(allow: spec_fn(int, int) -> bool, c: int) -> bool {
    exists|d: int| #[trigger] settled_as(allow, c, d)
}

/// Candidate sets in which every cell is settled and every row still has a
/// place for every digit spell out one complete grid.
pub proof fn lemma_settled_grid(allow: spec_fn(int, int) -> bool) -> (g: Seq<u8>)
    requires
        forall|c: int| 0 <= c < 81 ==> #[trigger] settled(allow, c),
        forall|r: int, d: int|
            0 <= r < 9 && 0 <= d < 9 ==> #[trigger] row_allows(allow, r, d),
    ensures
        is_grid(g),
        forall|c: int, d: int|
            0 <= c < 81 && 0 <= d < 9 ==> (#[trigger] allow(c, d) <==> g[c] == d + 1),
{
    let dig = |c: int| choose|d: int| #[trigger] settled_as(allow, c, d);
    let g = Seq::new(81, |c: int| (dig(c) + 1) as u8);
    assert forall|c: int| 0 <= c < 81 implies settled_as(allow, c, #[trigger] dig(c)) by {
        assert(settled(allow, c));
    }
    assert forall|c: int| 0 <= c < 81 implies allow(c, #[trigger] dig(c)) by {
        let r = c / 9;
        let h = |d: int| choose|x: int| 0 <= x < 9 && #[trigger] allow(9 * r + x, d);
        assert forall|d: int| 0 <= d < 9 implies 0 <= #[trigger] h(d) < 9 && dig(9 * r + h(d)) == d
            && allow(9 * r + h(d), d) by {
            assert(row_allows(allow, r, d));
            assert(settled_as(allow, 9 * r + h(d), dig(9 * r + h(d))));
        }
        assert forall|i: int, j: int| 0 <= i < j < 9 implies #[trigger] h(i) != #[trigger] h(j) by {
            if h(i) == h(j) {
                assert(dig(9 * r + h(i)) == i);
                assert(dig(9 * r + h(j)) == j);
            }
        }
        let d = lemma_pigeonhole(h, 9, c % 9);
        assert(9 * r + h(d) == c);
    }
    assert forall|c: int| 0 <= c < 81 implies 1 <= #[trigger] g[c] <= 9 && g[c] == dig(c) + 1 by {
        assert(settled_as(allow, c, dig(c)));
    }
    assert forall|a: int, b: int|
        0 <= a < 81 && 0 <= b < 81 && peers(a, b) implies #[trigger] g[a] != #[trigger] g[b] by {
        assert(settled_as(allow, a, dig(a)));
        assert(allow(b, dig(b)));
        assert(g[a] == dig(a) + 1 && g[b] == dig(b) + 1);
    }
    reveal(is_grid);
    assert forall|c: int, d: int|
        0 <= c < 81 && 0 <= d < 9 implies (#[trigger] allow(c, d) <==> g[c] == d + 1) by {
        assert(settled_as(allow, c, dig(c)));
        assert(allow(c, dig(c)));
        assert(g[c] == dig(c) + 1);
    }
    g
}

} // verus!
