//! In what order the engines search, and so which of several solutions they
//! return.

use vstd::prelude::*;
use crate::baseline::cells::{only, single};
use crate::baseline::first::{self, lemma_fewest};
use crate::baseline::settle::{crossed, settled};
use crate::bits::{bit16, group_bits16, pop16};
use crate::boards::{cand, encodes};
use crate::grid::is_grid;
use crate::jcz::full_run;
use crate::rest::{self, choices, closed_part};
use crate::route::{answer_of, auto_first, course_found, Engine};
use crate::triad::course::{weight, Node};
use crate::triad::leaf::lanes_with;
use crate::triad::order::{child, leading, low_words, lowest, rest_words, smallest, sought};
use crate::triad::search::preferred;
use crate::triad::start::triad_first;
use crate::tvec::lanes_total;

verus! {

broadcast use group_bits16;

// ---------------------------------------------------------------------------
// Candidates per cell
// ---------------------------------------------------------------------------

/// What a search finds with digit `d` in cell `c`.
pub open spec fn found_with(cells: Seq<u16>, marks: Set<int>, c: int, d: int) -> Option<Seq<u8>> {
    let start = cells.update(c, 1u16 << (d as u16));
    match settled(start, marks.union(crossed(cells, start))) {
        None => None,
        Some(left) => first::first_leaf(left.0, left.1),
    }
}

proof fn lemma_leaf_digit(cells: Seq<u16>, marks: Set<int>, c: int, from: nat) -> (d: int)
    requires
        first::first_leaf_from(cells, marks, c, from) is Some,
    ensures
        from <= d < 9,
        bit16(cells[c], d),
        first::first_leaf_from(cells, marks, c, from) == found_with(cells, marks, c, d),
        forall|e: int| from <= e < d && #[trigger] bit16(cells[c], e) ==> found_with(
            cells,
            marks,
            c,
            e,
        ) is None,
    decreases 9 - from,
{
    let start = cells.update(c, 1u16 << (from as u16));
    if bit16(cells[c], from as int) && found_with(cells, marks, c, from as int) is Some {
        from as int
    } else {
        lemma_leaf_digit(cells, marks, c, from + 1)
    }
}

/// The search of the baseline engine branches on the first cell with the fewest
/// of several candidates. What it finds it finds with one of the cell's
/// candidates, and with no lower one it finds anything. Cells with one
/// candidate each spell out what is found.
pub proof fn law_lower_digits_first(cells: Seq<u16>, marks: Set<int>, c: int) -> (d: int)
    requires
        first::first_leaf(cells, marks) is Some,
        0 <= c < 81,
        !single(cells[c]),
        forall|x: int|
            0 <= x < 81 && !single(#[trigger] cells[x]) ==> pop16(cells[c]) <= pop16(cells[x]) && (x
                < c ==> pop16(cells[c]) < pop16(cells[x])),
    ensures
        0 <= d < 9,
        bit16(cells[c], d),
        first::first_leaf(cells, marks) == found_with(cells, marks, c, d),
        forall|e: int| 0 <= e < d && #[trigger] bit16(cells[c], e) ==> found_with(
            cells,
            marks,
            c,
            e,
        ) is None,
{
    assert(first::first_fewest(cells, c));
    lemma_fewest(cells, c);
    lemma_leaf_digit(cells, marks, c, 0)
}

/// Cells with one candidate each spell out what the baseline engine finds.
pub proof fn law_single_cells(cells: Seq<u16>, marks: Set<int>, g: Seq<u8>)
    requires
        g.len() == 81,
        forall|c: int|
            0 <= c < 81 ==> 1 <= #[trigger] g[c] <= 9 && (forall|e: int| #[trigger]
                bit16(cells[c], e) <==> e == g[c] - 1),
    ensures
        first::first_leaf(cells, marks) == Some(g),
{
    assert forall|c: int| 0 <= c < 81 implies 1 <= #[trigger] g[c] <= 9 && only(cells[c], g[c] - 1) by {
        assert(forall|e: int| #[trigger] bit16(cells[c], e) <==> e == g[c] - 1);
    }
    first::lemma_spelled(cells, g);
}

// ---------------------------------------------------------------------------
// Boards by digit
// ---------------------------------------------------------------------------

/// What a search finds with digit `d` in cell `c`.
pub open spec fn boards_with(bs: Seq<u32>, c: int, d: int, pins: bool) -> Option<Seq<u8>> {
    match closed_part(bs, set![(c, d)], pins) {
        None => None,
        Some(f) => rest::first_leaf(f, pins),
    }
}

proof fn lemma_board_digit(bs: Seq<u32>, c: int, from: nat, pins: bool) -> (d: int)
    requires
        rest::first_leaf_from(bs, c, from, pins) is Some,
    ensures
        from <= d < 9,
        cand(bs, c, d),
        rest::first_leaf_from(bs, c, from, pins) == boards_with(bs, c, d, pins),
        forall|e: int| from <= e < d && #[trigger] cand(bs, c, e) ==> boards_with(
            bs,
            c,
            e,
            pins,
        ) is None,
    decreases 9 - from,
{
    if cand(bs, c, from as int) && boards_with(bs, c, from as int, pins) is Some {
        from as int
    } else {
        lemma_board_digit(bs, c, from + 1, pins)
    }
}

/// The search of the engines on boards by digit, with or without the counting
/// of minirows, branches on the first cell with the fewest of several
/// candidates. What it finds it finds with one of the cell's candidates, and
/// with no lower one it finds anything.
pub proof fn law_lower_digits_first_on_boards(bs: Seq<u32>, c: int, pins: bool) -> (d: int)
    requires
        rest::first_leaf(bs, pins) is Some,
        0 <= c < 81,
        choices(bs, c) >= 2,
        forall|x: int|
            0 <= x < 81 && #[trigger] choices(bs, x) >= 2 ==> choices(bs, c) <= choices(bs, x) && (x
                < c ==> choices(bs, c) < choices(bs, x)),
    ensures
        0 <= d < 9,
        cand(bs, c, d),
        rest::first_leaf(bs, pins) == boards_with(bs, c, d, pins),
        forall|e: int| 0 <= e < d && #[trigger] cand(bs, c, e) ==> boards_with(
            bs,
            c,
            e,
            pins,
        ) is None,
{
    let x = choose|x: int| rest::first_fewest(bs, x);
    assert(rest::first_fewest(bs, c));
    assert(rest::first_fewest(bs, x));
    assert(choices(bs, x) >= 2 && choices(bs, c) >= 2);
    assert(x == c);
    lemma_board_digit(bs, c, 0, pins)
}

/// Boards that spell out a grid lead to that grid.
pub proof fn law_spelled_boards(bs: Seq<u32>, g: Seq<u8>, pins: bool)
    requires
        is_grid(g),
        encodes(bs, g),
    ensures
        rest::first_leaf(bs, pins) == Some(g),
{
    rest::lemma_spelled(bs, g);
}

// ---------------------------------------------------------------------------
// Configurations of a band
// ---------------------------------------------------------------------------

/// What a search to one solution finds once `e` is ruled out in band `i`.
pub open spec fn found_without(n: Node, i: int, e: Seq<u16>) -> (int, Option<Node>) {
    match child(n, i, e) {
        None => (0, None),
        Some(m) => if weight(m) < weight(n) {
            sought(m, 0, 1)
        } else {
            (0, None)
        },
    }
}

/// The search of the triad engine branches on the first band with the fewest
/// configurations of those with more than nine, and there on the first digit
/// with two of them, else with three, else with more. A digit with two tries the
/// higher one first: the lower one is ruled out, and only if that leads nowhere
/// the higher one. A digit with more tries the lowest first.
pub proof fn law_configurations_in_order(
    n: Node,
    i: int,
    v: int,
    t: int,
    low: Seq<u16>,
    rest: Seq<u16>,
)
    requires
        0 <= i < 6,
        lanes_total(n.cfg[i], 8) > 9,
        forall|j: int|
            0 <= j < 6 && lanes_total(#[trigger] n.cfg[j], 8) > 9 ==> lanes_total(n.cfg[i], 8)
                <= lanes_total(n.cfg[j], 8) && (j < i ==> lanes_total(n.cfg[i], 8) < lanes_total(
                n.cfg[j],
                8,
            )),
        0 <= v < 9,
        lanes_with(n.cfg[i], v, 6) >= 2,
        forall|d: int|
            0 <= d < 9 && #[trigger] lanes_with(n.cfg[i], d, 6) >= 2 ==> {
                let (own, other) = (lanes_with(n.cfg[i], v, 6), lanes_with(n.cfg[i], d, 6));
                &&& other == 2 ==> own == 2
                &&& other == 3 ==> own <= 3
                &&& d < v ==> other > own && own <= 3
            },
        0 <= t < 6,
        bit16(n.cfg[i][t], v),
        forall|k: int| 0 <= k < t ==> !bit16(#[trigger] n.cfg[i][k], v),
        low.len() == 8,
        rest.len() == 8,
        forall|k: int|
            0 <= k < 8 ==> #[trigger] low[k] == (if k == t {
                1u16 << (v as u16)
            } else {
                0
            }),
        forall|k: int|
            0 <= k < 8 ==> #[trigger] rest[k] == (if k != t && k < 6 {
                n.cfg[i][k] & (1u16 << (v as u16))
            } else {
                0
            }),
    ensures
        ({
            let (a, b) = if lanes_with(n.cfg[i], v, 6) == 2 {
                (low, rest)
            } else {
                (rest, low)
            };
            let (first, second) = (found_without(n, i, a), found_without(n, i, b));
            &&& first.0 == 1 ==> sought(n, 0, 1) == first
            &&& first.0 == 0 && second.0 == 1 ==> sought(n, 0, 1) == second
        }),
{
    assert(smallest(n, i));
    let i2 = choose|i2: int| smallest(n, i2);
    assert(lanes_total(n.cfg[i], 8) > 9 && lanes_total(n.cfg[i2], 8) > 9);
    assert(i2 == i);
    let cfg = n.cfg[i];
    assert(preferred(cfg, v));
    assert(leading(cfg, v));
    let v2 = choose|v2: int| leading(cfg, v2);
    assert(lanes_with(cfg, v, 6) >= 2 && lanes_with(cfg, v2, 6) >= 2);
    assert(v2 == v);
    assert(lowest(cfg, v, t));
    let t2 = choose|t2: int| lowest(cfg, v, t2);
    assert(t2 == t) by {
        if t < t2 {
            assert(!bit16(cfg[t], v));
        }
        if t2 < t {
            assert(!bit16(cfg[t2], v));
        }
    }
    assert(low_words(cfg, v) =~= low);
    assert(rest_words(cfg, v) =~= rest);
}

// ---------------------------------------------------------------------------
// Engines
// ---------------------------------------------------------------------------

/// Whose answer each engine of a batch gives: the board engines differ in
/// whether they count minirows.
pub proof fn law_each_engine(clues: Seq<u8>)
    ensures
        answer_of(Engine::Baseline, clues) == first::first_found(clues),
        answer_of(Engine::Band, clues) == rest::first_found(clues, false),
        answer_of(Engine::Simd, clues) == rest::first_found(clues, true),
        answer_of(Engine::Triad, clues) == triad_first(clues),
        answer_of(Engine::Jcz, clues) == course_found(full_run(clues, 1)),
        answer_of(Engine::Auto, clues) == auto_first(clues),
{
    reveal(answer_of);
}

} // verus!
