//! Propagation to a fixpoint and depth-first search of the lane engine.

use vstd::prelude::*;
use crate::bits::{
    bit32, bit64, group_bits32, group_bits64, lemma_count_mono, lemma_count_second,
    lemma_count_some, lemma_count_witness, lemma_low_masks32, lemma_nonzero64, lemma_small32,
    lowest32, lowest64, pop32, total32, without_lowest32,
};
use crate::boards::{
    admits, board_solutions, boards_ok, cand, cands, dead, digits_at, encodes, keeps, lemma_leaf,
    lemma_placed, lemma_settled_digit, lemma_within_admits, lemma_within_total, lemma_within_trans,
    placed, within,
};
use crate::branch::{
    ascending, holding, holding_any, lemma_branch, lemma_branch_all, lemma_branch_end, listed,
};
use crate::grid::{
    capped, clues_ok, grids, is_grid, is_solution, lemma_grid_facts, lemma_none, peers, settled,
    settled_as,
};
use crate::layout::{
    band_cell, band_pos, closed_off, implied, in_band, lemma_band_pos, lemma_closed_reduced,
    lemma_line_peers, lemma_same_laid, lemma_view_laid, line_cell, lone, placeable, reach, reduced,
    settled_minirow, views,
};
use crate::minirow::{closed_word, lemma_closed_supported, supported, BAND_ALL};
use crate::rest::{
    choices, closes_to, clue_asks, counted, filled, first_fewest, first_leaf, first_leaf_from,
    forced, lemma_barren_band, lemma_barren_more, lemma_barren_refuted, lemma_closed_part,
    lemma_closes, lemma_fewest, lemma_grid_rests, lemma_held_nests, lemma_leaf_over,
    lemma_line_place, lemma_missing_refuted, lemma_nests_trans, lemma_no_part, lemma_placed_nests,
    lemma_refuted_back, lemma_settled_lone, lemma_settled_within, lemma_spares_cut,
    lemma_spares_more, lemma_spelled, lemma_step_nests, lemma_unchanged, lemma_unfilled, refuted,
    rests, same_nests, sole, spares,
};
use crate::simd::scan::{
    at_lane, changes_marked_but, lemma_at_lane, naked_queued, pushed, singles_queued, tally_lanes,
};
use crate::simd::state::{
    entry_cell, entry_digit, entry_ok, records_from, records_kept, same_solved, Queue, State,
};
use crate::simd::tables::Tables;

verus! {

broadcast use {group_bits32, group_bits64};

/// Whether the cardinality pass runs.
pub const CARDINALITY: bool = true;

/// Some queued assignment is to an open cell.
pub open spec fn pending(s: State, q: Queue) -> bool {
    exists|j: int| 0 <= j < q.len && s.open(entry_cell(#[trigger] q.buf[j]))
}

/// `g` is a complete grid that the boards admit and that makes the queued
/// assignments.
pub open spec fn model(s: State, q: Queue, g: Seq<u8>) -> bool {
    is_grid(g) && admits(s.boards(), g) && q.agrees(g)
}

/// The models are the same before and after.
pub open spec fn same_models(s0: State, q0: Queue, s: State, q: Queue) -> bool {
    forall|g: Seq<u8>| #[trigger] model(s0, q0, g) <==> model(s, q, g)
}

/// There is no model.
pub open spec fn no_models(s: State, q: Queue) -> bool {
    forall|g: Seq<u8>| !#[trigger] model(s, q, g)
}

proof fn lemma_models_trans(
    s0: State,
    q0: Queue,
    s1: State,
    q1: Queue,
    s: State,
    q: Queue,
)
    requires
        same_models(s0, q0, s1, q1),
        same_models(s1, q1, s, q),
    ensures
        same_models(s0, q0, s, q),
{
    assert forall|g: Seq<u8>| #[trigger] model(s0, q0, g) <==> model(s, q, g) by {
        assert(model(s0, q0, g) <==> model(s1, q1, g));
        assert(model(s1, q1, g) <==> model(s, q, g));
    }
}

/// Nothing is left after equivalent steps to nothing.
proof fn lemma_models_none(s0: State, q0: Queue, s: State, q: Queue)
    requires
        same_models(s0, q0, s, q),
        no_models(s, q),
    ensures
        no_models(s0, q0),
{
    assert forall|g: Seq<u8>| !#[trigger] model(s0, q0, g) by {
        assert(!model(s, q, g));
    }
}

/// A scan that queues what is implied changes no models.
proof fn lemma_scan_models(s1: State, q1: Queue, s: State, q: Queue)
    requires
        q1.len == 0,
        s.shape(),
        within(s.boards(), s1.boards()),
        keeps(s1.boards(), s.boards()),
        pushed(q1, q, s),
    ensures
        same_models(s1, q1, s, q),
{
    s.lemma_boards();
    assert forall|g: Seq<u8>| #[trigger] model(s1, q1, g) <==> model(s, q, g) by {
        if is_grid(g) && admits(s.boards(), g) {
            lemma_within_admits(s.boards(), s1.boards(), g);
            assert forall|j: int| 0 <= j < q.len implies g[entry_cell(#[trigger] q.buf[j])]
                == entry_digit(q.buf[j]) + 1 by {}
        }
    }
}

/// A cell queued by a scan is open.
proof fn lemma_scan_pending(q1: Queue, q: Queue, s: State)
    requires
        q1.len == 0,
        pushed(q1, q, s),
    ensures
        q.len > 0 ==> pending(s, q),
        q.len == 0 ==> !pending(s, q),
{
    if q.len > 0 {
        assert(s.open(entry_cell(q.buf[0])));
    }
}

/// An open cell is counted.
proof fn lemma_open_counted(s: State, c: int)
    requires
        s.shape(),
        0 <= c < 81,
        s.open(c),
    ensures
        s.n_unsolved >= 1,
{
    let u = s.unsolved[c / 27];
    let f = |i: int| bit32(u, i);
    assert(f(c % 27));
    lemma_count_some(f, 32, c % 27);
    assert(c / 27 == 0 || c / 27 == 1 || c / 27 == 2);
}

/// How far the propagation has to go: open cells, less the one that a queued
/// assignment will close.
pub open spec fn weight(s: State, q: Queue) -> int {
    2 * s.n_unsolved - if pending(s, q) {
        1int
    } else {
        0int
    }
}

proof fn lemma_weight(s: State, q: Queue)
    requires
        s.shape(),
        q.ok(),
    ensures
        weight(s, q) >= 0,
{
    if pending(s, q) {
        let j = choose|j: int| 0 <= j < q.len && s.open(entry_cell(#[trigger] q.buf[j]));
        lemma_entry(q.buf[j]);
        lemma_open_counted(s, entry_cell(q.buf[j]));
    }
}

/// An entry names a cell and a digit.
proof fn lemma_entry(e: u16)
    requires
        entry_ok(e),
    ensures
        0 <= entry_cell(e) < 81,
        0 <= entry_digit(e) < 9,
{
}

/// Every minirow of every lane can be used by three digits or more, and where
/// exactly three can use it, they use no minirow linked to it.
pub open spec fn cardinality_done(bs: Seq<u32>) -> bool {
    forall|l: int, i: int| 0 <= l < 6 && 0 <= i < 9 ==> #[trigger] minirow_done(bs, l, i)
}

/// Three digits or more can use minirow `i` of lane `l`, and if there are
/// just three, they use no minirow linked to it.
pub open spec fn minirow_done(bs: Seq<u32>, l: int, i: int) -> bool {
    &&& reach(bs, l, i) >= 3
    &&& reach(bs, l, i) == 3 ==> settled_minirow(bs, l, i)
}

/// Every open cell has a candidate, and the naked singles are queued.
pub open spec fn cells_done(s: State, q: Queue) -> bool {
    forall|b: int, p: int|
        0 <= b < 3 && #[trigger] bit32(s.unsolved[b], p) ==> digits_at(s.boards(), b, p, 9) >= 1
            && naked_queued(s, q, b, p)
}

/// What is not due for a scan needs none: of a lane that is not marked the
/// hidden singles are queued, and so are the naked singles and the
/// cardinality rules drawn, unless they are due.
pub open spec fn due_marked(s: State, q: Queue) -> bool {
    &&& forall|d: int, l: int|
        0 <= d < 9 && 0 <= l < 6 && !#[trigger] bit64(s.dirty, 6 * d + l) ==> singles_queued(
            s,
            q,
            l,
            d,
            3,
        )
    &&& !s.dirty_cells ==> cells_done(s, q)
    &&& !s.tdirty ==> cardinality_done(s.boards())
}

/// Digit `d` has no hidden single in the lines of a lane that are not
/// recorded as solved.
pub open spec fn no_single(s: State, lane: int, d: int) -> bool {
    forall|l: int, x: int|
        0 <= l < 3 && 0 <= x < 9 && #[trigger] lone(s.boards(), lane, d, l, x) ==> bit32(
            s.placed[d],
            3 * lane + l,
        )
}

/// No scan has anything left to do: every open cell has two candidates or
/// more and no row has a hidden single; and, while cells are open, no column
/// has a hidden single, the cardinality rules are drawn and every lane is
/// closed.
pub open spec fn at_fixpoint(s: State) -> bool {
    &&& forall|b: int, p: int|
        0 <= b < 3 && #[trigger] bit32(s.unsolved[b], p) ==> digits_at(s.boards(), b, p, 9) >= 2
    &&& forall|d: int, l: int|
        0 <= d < 9 && 0 <= l < 6 && (l < 3 || s.n_unsolved > 0) ==> #[trigger] no_single(s, l, d)
    &&& s.n_unsolved > 0 ==> cardinality_done(s.boards()) && forall|d: int, l: int|
        0 <= d < 9 && 0 <= l < 6 ==> closed_word(#[trigger] s.b[d][l])
}

/// A row or column recorded for a digit has a cell settled on it.
pub open spec fn records_true(s: State) -> bool {
    forall|d: int, r: int|
        0 <= d < 9 && #[trigger] bit32(s.placed[d], r) ==> line_settled(s.boards(), r, d)
}

/// A cell of row `r`, or of column `r - 9`, is settled on digit `d`.
pub open spec fn line_settled(bs: Seq<u32>, r: int, d: int) -> bool {
    exists|c: int|
        0 <= c < 81 && (r == c / 9 || r == 9 + c % 9) && #[trigger] settled_as(cands(bs), c, d)
}

/// Records stay true as candidates shrink.
proof fn lemma_records_kept(s0: State, s: State)
    requires
        records_true(s0),
        within(s.boards(), s0.boards()),
        s.placed == s0.placed,
    ensures
        records_true(s),
{
    assert forall|d: int, r: int| 0 <= d < 9 && #[trigger] bit32(s.placed[d], r) implies
        line_settled(s.boards(), r, d) by {
        assert(line_settled(s0.boards(), r, d));
        let c = choose|c: int|
            0 <= c < 81 && (r == c / 9 || r == 9 + c % 9) && #[trigger] settled_as(
                cands(s0.boards()),
                c,
                d,
            );
        lemma_settled_within(s0.boards(), s.boards(), c, d);
    }
}

/// An assignment records what it settles.
proof fn lemma_records_placed(s0: State, s: State, c: int, d: int)
    requires
        records_true(s0),
        0 <= c < 81,
        0 <= d < 9,
        within(s.boards(), s0.boards()),
        placed(s0.boards(), s.boards(), c, d),
        records_from(s0, s, c, d),
    ensures
        records_true(s),
{
    let bs = s.boards();
    assert(settled_as(cands(bs), c, d)) by {
        assert forall|e: int| 0 <= e < 9 && e != d implies !#[trigger] cands(bs)(c, e) by {
            assert(!cand(bs, c, e));
        }
        assert forall|x: int| 0 <= x < 81 && peers(c, x) implies !#[trigger] cands(bs)(x, d) by {
            assert(!cand(bs, x, d));
        }
    }
    assert forall|e: int, r: int| 0 <= e < 9 && #[trigger] bit32(s.placed[e], r) implies
        line_settled(bs, r, e) by {
        if bit32(s0.placed[e], r) {
            assert(line_settled(s0.boards(), r, e));
            let x = choose|x: int|
                0 <= x < 81 && (r == x / 9 || r == 9 + x % 9) && #[trigger] settled_as(
                    cands(s0.boards()),
                    x,
                    e,
                );
            lemma_settled_within(s0.boards(), bs, x, e);
        }
    }
}

/// What a scan queues is forced.
proof fn lemma_scan_nests(s1: State, q1: Queue, s: State, q: Queue)
    requires
        q1.len == 0,
        within(s.boards(), s1.boards()),
        spares(s1.boards(), s.boards(), true),
        pushed(q1, q, s),
    ensures
        same_nests(s1.boards(), q1.asks(), s.boards(), q.asks(), true),
{
    assert(q1.asks() =~= Set::<(int, int)>::empty()) by {
        assert forall|c: int, d: int| !q1.has(c, d) by {}
    }
    assert forall|c: int, d: int| #[trigger] q.asks().contains((c, d)) implies forced(
        s.boards(),
        c,
        d,
    ) by {
        let j = choose|j: int|
            0 <= j < q.len && entry_cell(#[trigger] q.buf[j]) == c && entry_digit(q.buf[j]) == d;
        assert(implied(s.boards(), entry_cell(q.buf[j]), entry_digit(q.buf[j])));
    }
    lemma_step_nests(s1.boards(), s.boards(), q.asks(), true);
}

/// A lane cut down to its permutations.
proof fn lemma_cut_spares(a: Seq<u32>, b: Seq<u32>, lane: int, d: int)
    requires
        0 <= lane < 6,
        0 <= d < 9,
        boards_ok(a),
        b.len() == 27,
        closed_off(a, b, lane, d),
    ensures
        spares(a, b, true),
{
    lemma_spares_cut(a, b, lane, d);
    lemma_spares_more(a, b);
}

/// Nothing rests where a digit has no permutation over a lane.
proof fn lemma_lane_refuted(a: Seq<u32>, lane: int, d: int, asks: Set<(int, int)>)
    requires
        0 <= lane < 6,
        0 <= d < 9,
        a.len() == 27,
        !placeable(a, lane, d),
    ensures
        refuted(a, asks, true),
{
    lemma_barren_band(a, lane, d);
    lemma_barren_more(a);
    lemma_barren_refuted(a, asks, true);
}

/// Nothing rests where an open cell has no candidate.
proof fn lemma_cell_refuted(s: State, b: int, p: int, asks: Set<(int, int)>)
    requires
        s.shape(),
        0 <= b < 3,
        bit32(s.unsolved[b], p),
        digits_at(s.boards(), b, p, 9) < 1,
    ensures
        refuted(s.boards(), asks, true),
{
    lemma_small32(s.unsolved[b], p);
    lemma_unfilled(s.boards(), b, p);
    lemma_barren_more(s.boards());
    lemma_barren_refuted(s.boards(), asks, true);
}

/// At the fixpoint the boards are at rest.
proof fn lemma_rests(s: State)
    requires
        s.rested(),
        at_fixpoint(s),
        records_true(s),
    ensures
        rests(s.boards(), true),
        forall|c: int| 0 <= c < 81 ==> (s.open(c) <==> #[trigger] choices(s.boards(), c) >= 2),
{
    let bs = s.boards();
    s.lemma_boards();
    assert forall|l: int, d: int|
        0 <= l < 6 && 0 <= d < 9 && (l < 3 || s.n_unsolved > 0) implies #[trigger] reduced(
        bs,
        bs,
        l,
        d,
    ) by {
        assert(views(s.b[d][l], bs, l, d));
        assert(closed_word(s.b[d][l])) by {
            if l < 3 {
                assert(!bit64(s.dirty, 6 * d + l));
            }
        }
        lemma_closed_reduced(s.b[d][l], bs, l, d);
    }
    assert forall|c: int| 0 <= c < 81 && !s.open(c) implies #[trigger] choices(bs, c) < 2 by {
        assert(settled(cands(bs), c));
        let d = choose|d: int| #[trigger] settled_as(cands(bs), c, d);
        let f = |e: int| bit32(bs[9 * (c / 27) + e], c % 27);
        if crate::bits::count(f, 9) >= 2 {
            let a = lemma_count_witness(f, 9);
            let b = lemma_count_second(f, 9, a);
            assert(cands(bs)(c, a) && cands(bs)(c, b));
        }
    }
    assert forall|c: int| 0 <= c < 81 && s.open(c) implies #[trigger] choices(bs, c) >= 2 by {
        assert(bit32(s.unsolved[c / 27], c % 27));
    }
    if s.n_unsolved == 0 {
        let g = s.lemma_solved();
        lemma_grid_rests(bs, g, true);
    } else {
        reveal(rests);
        assert forall|c: int| 0 <= c < 81 implies #[trigger] filled(bs, c) by {
            if s.open(c) {
                assert(choices(bs, c) >= 2);
                let f = |e: int| bit32(bs[9 * (c / 27) + e], c % 27);
                let d = lemma_count_witness(f, 9);
                assert(f(d));
                assert(cand(bs, c, d));
            } else {
                assert(settled(cands(bs), c));
                let d = choose|d: int| #[trigger] settled_as(cands(bs), c, d);
                let (b, l, x) = (c / 27, (c % 27) / 9, c % 9);
                assert(c == line_cell(b, l, x));
                assert(reduced(bs, bs, b, d));
                let y = lemma_line_place(bs, b, d, l);
                if y != x {
                    lemma_line_peers(b, l, x, y);
                    assert(!cands(bs)(line_cell(b, l, y), d));
                }
                assert(cand(bs, c, d));
            }
        }
        assert forall|c: int, d: int, x: int|
            0 <= c < 81 && 0 <= x < 81 && 0 <= d < 9 && #[trigger] sole(bs, c, d)
                && #[trigger] peers(c, x) implies !cand(bs, x, d) by {
            if s.open(c) {
                assert(choices(bs, c) >= 2);
                let f = |e: int| bit32(bs[9 * (c / 27) + e], c % 27);
                let a = lemma_count_witness(f, 9);
                let b = lemma_count_second(f, 9, a);
                assert(cand(bs, c, a) && cand(bs, c, b));
            } else {
                assert(settled(cands(bs), c));
                let e = choose|e: int| #[trigger] settled_as(cands(bs), c, e);
                assert(cands(bs)(c, d));
                assert(e == d);
                assert(!cands(bs)(x, d));
            }
        }
        assert forall|bi: int, d: int, l: int, x: int|
            0 <= bi < 6 && 0 <= d < 9 && 0 <= l < 3 && 0 <= x < 9 && #[trigger] lone(
                bs,
                bi,
                d,
                l,
                x,
            ) implies sole(bs, line_cell(bi, l, x), d) by {
            assert(no_single(s, bi, d));
            assert(bit32(s.placed[d], 3 * bi + l));
            let r = 3 * bi + l;
            assert(line_settled(bs, r, d));
            let c = choose|c: int|
                0 <= c < 81 && (r == c / 9 || r == 9 + c % 9) && #[trigger] settled_as(
                    cands(bs),
                    c,
                    d,
                );
            if bi < 3 {
                assert(c == line_cell(bi, l, c % 9));
            } else {
                assert(c == line_cell(bi, l, c / 9));
            }
            lemma_settled_lone(bs, c, d, bi, l, x);
        }
        assert forall|bi: int, i: int| 0 <= bi < 6 && 0 <= i < 9 implies #[trigger] counted(
            bs,
            bi,
            i,
        ) by {
            assert(minirow_done(bs, bi, i));
        }
    }
}

/// What was queued is queued, or is done.
spec fn queue_done(q1: Queue, s: State, q: Queue) -> bool {
    forall|c: int, d: int| #[trigger]
        q1.has(c, d) ==> q.has(c, d) || (0 <= c < 81 && s.marked(c, d) && !s.open(c))
}

/// Queued hidden singles of an unchanged lane stay queued or are done.
proof fn lemma_singles_carried(s1: State, q1: Queue, s: State, q: Queue, lane: int, e: int)
    requires
        0 <= lane < 6,
        0 <= e < 9,
        s1.synced(),
        s.synced(),
        s.b[e][lane] == s1.b[e][lane],
        singles_queued(s1, q1, lane, e, 3),
        records_kept(s1, s),
        queue_done(q1, s, q),
    ensures
        singles_queued(s, q, lane, e, 3),
{
    assert forall|x: int| 0 <= x < 81 && in_band(lane, x) implies (#[trigger] cand(
        s1.boards(),
        x,
        e,
    ) <==> cand(s.boards(), x, e)) by {
        reveal(views);
        lemma_band_pos(lane, x);
        let p = band_pos(lane, x);
        assert(views(s1.b[e][lane], s1.boards(), lane, e));
        assert(views(s.b[e][lane], s.boards(), lane, e));
        assert(bit32(s1.b[e][lane], p) <==> cand(s1.boards(), band_cell(lane, p), e));
        assert(bit32(s.b[e][lane], p) <==> cand(s.boards(), band_cell(lane, p), e));
    }
    lemma_same_laid(s1.boards(), s.boards(), lane, e);
    assert forall|l: int, x: int|
        0 <= l < 3 && 0 <= x < 9 && !bit32(s.placed[e], 3 * lane + l) && #[trigger] lone(
            s.boards(),
            lane,
            e,
            l,
            x,
        ) implies q.has(line_cell(lane, l, x), e) by {
        assert(lone(s1.boards(), lane, e, l, x));
        assert(!bit32(s1.placed[e], 3 * lane + l));
        let c = line_cell(lane, l, x);
        assert(q1.has(c, e));
        if s.marked(c, e) {
            if lane < 3 {
                assert(c / 9 == 3 * lane + l);
            } else {
                assert(c % 9 == 3 * (lane - 3) + l);
            }
        }
    }
}

/// A step that marks what it changes, and that queues or makes what was
/// queued, leaves nothing out, but for what it saw to itself: the lane
/// `word`, the cells, and the cardinality rules.
proof fn lemma_due_kept(s1: State, q1: Queue, s: State, q: Queue, word: int)
    requires
        s1.shape(),
        s.shape(),
        s1.synced(),
        s.synced(),
        due_marked(s1, q1),
        records_kept(s1, s),
        queue_done(q1, s, q),
        forall|c: int| 0 <= c < 81 && #[trigger] s.open(c) ==> s1.open(c),
        forall|d: int, l: int|
            0 <= d < 9 && 0 <= l < 6 && !#[trigger] bit64(s.dirty, 6 * d + l) ==> {
                ||| 6 * d + l == word && singles_queued(s, q, l, d, 3)
                ||| !bit64(s1.dirty, 6 * d + l) && s.b[d][l] == s1.b[d][l]
            },
        !s.dirty_cells ==> cells_done(s, q) || (!s1.dirty_cells && s.boards() == s1.boards()),
        !s.tdirty ==> cardinality_done(s.boards()) || (!s1.tdirty && s.boards() == s1.boards()),
    ensures
        due_marked(s, q),
{
    assert forall|d: int, l: int| 0 <= d < 9 && 0 <= l < 6 && !#[trigger] bit64(
        s.dirty,
        6 * d + l,
    ) implies singles_queued(s, q, l, d, 3) by {
        if !(6 * d + l == word && singles_queued(s, q, l, d, 3)) {
            assert(!bit64(s1.dirty, 6 * d + l));
            lemma_singles_carried(s1, q1, s, q, l, d);
        }
    }
    if !s.dirty_cells && !cells_done(s, q) {
        assert forall|b: int, p: int| 0 <= b < 3 && #[trigger] bit32(
            s.unsolved[b],
            p,
        ) implies digits_at(s.boards(), b, p, 9) >= 1 && naked_queued(s, q, b, p) by {
            lemma_small32(s.unsolved[b], p);
            let c = 27 * b + p;
            assert(c / 27 == b && c % 27 == p);
            assert(s.open(c));
            assert(bit32(s1.unsolved[b], p));
            assert(naked_queued(s1, q1, b, p));
            if digits_at(s.boards(), b, p, 9) == 1 {
                assert forall|d: int| 0 <= d < 9 && bit32(
                    #[trigger] s.boards()[9 * b + d],
                    p,
                ) implies q.has(27 * b + p, d) by {
                    assert(bit32(s1.boards()[9 * b + d], p));
                    assert(q1.has(27 * b + p, d));
                }
            }
        }
    }
}

/// With no marks and nothing queued there is nothing left to do.
proof fn lemma_at_fixpoint(s: State, q: Queue)
    requires
        s.rested(),
        due_marked(s, q),
        q.len == 0,
        !s.dirty_cells,
        s.n_unsolved == 0 || (s.dirty == 0 && !s.tdirty),
    ensures
        at_fixpoint(s),
{
    assert forall|d: int, l: int| 0 <= d < 9 && 0 <= l < 6 && (l < 3 || s.n_unsolved
        > 0) implies #[trigger] no_single(s, l, d) by {
        assert(!bit64(s.dirty, 6 * d + l)) by {
            if l >= 3 {
                assert(!bit64(0u64, 6 * d + l));
            }
        }
        assert(singles_queued(s, q, l, d, 3));
    }
    if s.n_unsolved > 0 {
        assert forall|d: int, l: int| 0 <= d < 9 && 0 <= l < 6 implies closed_word(
            #[trigger] s.b[d][l],
        ) by {
            assert(!bit64(0u64, 6 * d + l));
            assert(!bit64(s.dirty, 6 * d + l));
        }
    }
    assert forall|b: int, p: int| 0 <= b < 3 && #[trigger] bit32(
        s.unsolved[b],
        p,
    ) implies digits_at(s.boards(), b, p, 9) >= 2 by {
        assert(naked_queued(s, q, b, p));
        if digits_at(s.boards(), b, p, 9) == 1 {
            let f = |e: int| bit32(s.boards()[9 * b + e], p);
            let d = lemma_count_witness(f, 9);
            assert(f(d));
            assert(bit32(s.boards()[9 * b + d], p));
            assert(q.has(27 * b + p, d));
        }
    }
}

/// The first state needs no reduction, and all else is due in it.
pub proof fn lemma_first_due(s: State, q: Queue)
    requires
        s.dirty_cells,
        s.tdirty,
        forall|i: int| 0 <= i < 27 ==> #[trigger] s.boards()[i] == BAND_ALL,
    ensures
        due_marked(s, q),
{
    lemma_low_masks32();
    assert forall|d: int, l: int| 0 <= d < 9 && 0 <= l < 6 implies singles_queued(
        s,
        q,
        l,
        d,
        3,
    ) by {
        assert forall|r: int, x: int|
            0 <= r < 3 && 0 <= x < 9 implies !#[trigger] lone(s.boards(), l, d, r, x) by {
            let y: int = if x == 0 {
                1
            } else {
                0
            };
            let c = line_cell(l, r, y);
            assert(0 <= c < 81);
            assert(s.boards()[9 * (c / 27) + d] == BAND_ALL);
            assert(cand(s.boards(), c, d));
        }
    }
}

impl State {
    /// Makes the queued assignments; false, with an empty queue, if one of
    /// them is impossible.
    fn drain(&mut self, q: &mut Queue, t: &Tables) -> (r: bool)
        requires
            old(self).ok(),
            t.ok(),
            old(q).ok(),
            due_marked(*old(self), *old(q)),
            records_true(*old(self)),
        ensures
            final(q).ok(),
            final(q).len == 0,
            within(final(self).boards(), old(self).boards()),
            !r ==> no_models(*old(self), *old(q)),
            !r ==> refuted(old(self).boards(), old(q).asks(), true),
            r ==> {
                &&& final(self).ok()
                &&& due_marked(*final(self), *final(q))
                &&& records_true(*final(self))
                &&& same_nests(
                    old(self).boards(),
                    old(q).asks(),
                    final(self).boards(),
                    final(q).asks(),
                    true,
                )
                &&& same_models(*old(self), *old(q), *final(self), *final(q))
                &&& pending(*old(self), *old(q)) ==> final(self).n_unsolved < old(self).n_unsolved
                &&& !pending(*old(self), *old(q)) ==> *final(self) == *old(self)
            },
    {
        let ghost s0 = *self;
        let ghost q0 = *q;
        while q.len > 0
            invariant
                s0 == *old(self),
                q0 == *old(q),
                self.ok(),
                t.ok(),
                q0.ok(),
                q.ok(),
                q.len <= q0.len,
                q.buf@ == q0.buf@,
                due_marked(*self, *q),
                records_true(*self),
                same_nests(s0.boards(), q0.asks(), self.boards(), q.asks(), true),
                same_models(s0, q0, *self, *q),
                within(self.boards(), s0.boards()),
                self.n_unsolved <= s0.n_unsolved,
                self.n_unsolved == s0.n_unsolved ==> *self == s0 && forall|j: int|
                    q.len <= j < q0.len ==> !s0.open(entry_cell(#[trigger] q0.buf[j])),
                !pending(s0, q0) ==> *self == s0,
            decreases q.len,
        {
            let ghost s1 = *self;
            let ghost q1 = *q;
            match q.pop() {
                None => {
                    return true;
                },
                Some((dd, cell)) => {
                    let ghost e = q0.buf[q.len as int];
                    let ghost (c, d) = (entry_cell(e), entry_digit(e));
                    proof {
                        lemma_entry(e);
                        assert forall|g: Seq<u8>| #[trigger] q1.agrees(g) <==> q.agrees(g) && g[c]
                            == d + 1 by {
                            if q1.agrees(g) {
                                assert forall|j: int| 0 <= j < q.len implies g[entry_cell(
                                    #[trigger] q.buf[j],
                                )] == entry_digit(q.buf[j]) + 1 by {
                                    assert(q.buf[j] == q1.buf[j]);
                                }
                                assert(q1.buf[q.len as int] == e);
                            }
                            if q.agrees(g) && g[c] == d + 1 {
                                assert forall|j: int| 0 <= j < q1.len implies g[entry_cell(
                                    #[trigger] q1.buf[j],
                                )] == entry_digit(q1.buf[j]) + 1 by {
                                    if j < q.len {
                                        assert(q.buf[j] == q1.buf[j]);
                                    }
                                }
                            }
                        }
                    }
                    proof {
                        assert forall|x: int, y: int| #[trigger]
                            q1.asks().contains((x, y)) <==> q.asks().contains((x, y)) || (x == c
                                && y == d) by {
                            if q1.has(x, y) {
                                let j = choose|j: int|
                                    0 <= j < q1.len && entry_cell(#[trigger] q1.buf[j]) == x
                                        && entry_digit(q1.buf[j]) == y;
                                if j < q.len {
                                    assert(q.buf[j] == q1.buf[j]);
                                }
                            }
                            if q.has(x, y) {
                                let j = choose|j: int|
                                    0 <= j < q.len && entry_cell(#[trigger] q.buf[j]) == x
                                        && entry_digit(q.buf[j]) == y;
                                assert(q1.buf[j] == q.buf[j]);
                            }
                            assert(q1.buf[q.len as int] == e);
                        }
                        s1.lemma_boards();
                    }
                    if !self.assign(dd, cell, t) {
                        proof {
                            assert(q1.asks().contains((c, d)));
                            lemma_missing_refuted(s1.boards(), c, d, q1.asks(), true);
                            lemma_refuted_back(
                                s0.boards(),
                                q0.asks(),
                                s1.boards(),
                                q1.asks(),
                                true,
                            );
                            assert forall|g: Seq<u8>| !#[trigger] model(s1, q1, g) by {
                                if model(s1, q1, g) {
                                    reveal(admits);
                                    lemma_grid_facts(g);
                                    assert(cand(s1.boards(), c, g[c] - 1));
                                }
                            }
                            lemma_models_none(s0, q0, s1, q1);
                        }
                        q.clear();
                        return false;
                    }
                    proof {
                        assert(same_models(s1, q1, *self, *q)) by {
                            assert forall|g: Seq<u8>| #[trigger] model(s1, q1, g) <==> model(
                                *self,
                                *q,
                                g,
                            ) by {
                                if is_grid(g) {
                                    if s1.open(c) {
                                        lemma_placed(s1.boards(), self.boards(), c, d, g);
                                    } else if admits(s1.boards(), g) {
                                        lemma_settled_digit(s1.boards(), g, c, d);
                                    }
                                }
                            }
                        }
                        lemma_models_trans(s0, q0, s1, q1, *self, *q);
                        self.lemma_boards();
                        if s1.open(c) {
                            lemma_placed_nests(
                                s1.boards(),
                                self.boards(),
                                c,
                                d,
                                q1.asks(),
                                q.asks(),
                                true,
                            );
                            lemma_records_placed(s1, *self, c, d);
                        } else {
                            assert(settled(cands(s1.boards()), c));
                            let z = choose|z: int| #[trigger]
                                settled_as(cands(s1.boards()), c, z);
                            assert(cands(s1.boards())(c, d));
                            assert forall|y: int| 0 <= y < 9 && #[trigger] cand(
                                s1.boards(),
                                c,
                                y,
                            ) implies y == d by {
                                assert(cands(s1.boards())(c, y));
                            }
                            lemma_held_nests(s1.boards(), c, d, q1.asks(), q.asks(), true);
                        }
                        lemma_nests_trans(
                            s0.boards(),
                            q0.asks(),
                            s1.boards(),
                            q1.asks(),
                            self.boards(),
                            q.asks(),
                            true,
                        );
                        if s1.open(c) {
                            lemma_within_trans(self.boards(), s1.boards(), s0.boards());
                        }
                        assert(self.marked(c, d) && !self.open(c));
                        assert(queue_done(q1, *self, *q)) by {
                            assert forall|x: int, e: int| #[trigger] q1.has(x, e) implies q.has(
                                x,
                                e,
                            ) || (0 <= x < 81 && self.marked(x, e) && !self.open(x)) by {
                                let j = choose|j: int|
                                    0 <= j < q1.len && entry_cell(#[trigger] q1.buf[j]) == x
                                        && entry_digit(q1.buf[j]) == e;
                                if j < q.len {
                                    assert(q.buf[j] == q1.buf[j]);
                                }
                            }
                        }
                        lemma_due_kept(s1, q1, *self, *q, -1);
                    }
                },
            }
        }
        proof {
            if pending(s0, q0) && self.n_unsolved == s0.n_unsolved {
                let j = choose|j: int|
                    0 <= j < q0.len && s0.open(entry_cell(#[trigger] q0.buf[j]));
            }
        }
        true
    }
}


impl State {
    /// No horizontal lane is due for a reduction, so all of them are closed.
    pub open spec fn rested(&self) -> bool {
        self.ok() && forall|d: int, l: int|
            0 <= d < 9 && 0 <= l < 3 ==> !#[trigger] bit64(self.dirty, 6 * d + l)
    }

    /// Makes the queued assignments and runs the scans until nothing is due:
    /// rows first, then single cells, then columns, then the cardinality
    /// pass. False if no grid is left. What is not marked as due at the start
    /// must need no scan.
    pub fn propagate(&mut self, q: &mut Queue, t: &Tables) -> (r: bool)
        requires
            old(self).ok(),
            t.ok(),
            old(q).ok(),
            due_marked(*old(self), *old(q)),
            records_true(*old(self)),
        ensures
            final(q).ok(),
            final(q).len == 0,
            within(final(self).boards(), old(self).boards()),
            !r ==> no_models(*old(self), *old(q)),
            !r ==> refuted(old(self).boards(), old(q).asks(), true),
            r ==> {
                &&& final(self).rested()
                &&& at_fixpoint(*final(self))
                &&& records_true(*final(self))
                &&& closes_to(old(self).boards(), old(q).asks(), true, final(self).boards())
                &&& due_marked(*final(self), *final(q))
                &&& !final(self).dirty_cells
                &&& final(self).n_unsolved == 0 || (final(self).dirty == 0 && !final(self).tdirty)
                &&& same_models(*old(self), *old(q), *final(self), *final(q))
                &&& final(self).n_unsolved <= old(self).n_unsolved
                &&& pending(*old(self), *old(q)) ==> final(self).n_unsolved < old(self).n_unsolved
            },
    {
        let ghost s0 = *self;
        let ghost q0 = *q;
        loop
            invariant
                s0 == *old(self),
                q0 == *old(q),
                self.ok(),
                t.ok(),
                q.ok(),
                due_marked(*self, *q),
                records_true(*self),
                same_nests(s0.boards(), q0.asks(), self.boards(), q.asks(), true),
                within(self.boards(), s0.boards()),
                same_models(s0, q0, *self, *q),
                self.n_unsolved <= s0.n_unsolved,
                pending(s0, q0) && !pending(*self, *q) ==> self.n_unsolved < s0.n_unsolved,
            decreases
                    weight(*self, *q),
                    total32(self.boards()),
                    self.dirty,
                    flag(self.dirty_cells),
        {
            let ghost s1 = *self;
            let ghost q1 = *q;
            proof {
                lemma_weight(s1, q1);
                s1.lemma_boards();
            }
            if !self.drain(q, t) {
                proof {
                    lemma_models_none(s0, q0, s1, q1);
                    lemma_refuted_back(s0.boards(), q0.asks(), s1.boards(), q1.asks(), true);
                    lemma_within_trans(self.boards(), s1.boards(), s0.boards());
                }
                return false;
            }
            let ghost s2 = *self;
            let ghost q2 = *q;
            proof {
                s2.lemma_boards();
                lemma_models_trans(s0, q0, s1, q1, s2, q2);
                lemma_nests_trans(
                    s0.boards(),
                    q0.asks(),
                    s1.boards(),
                    q1.asks(),
                    s2.boards(),
                    q2.asks(),
                    true,
                );
                lemma_within_total(s2.boards(), s1.boards());
                lemma_within_trans(s2.boards(), s1.boards(), s0.boards());
                assert(!pending(s2, q2));
            }
            let hot = self.dirty & t.h_units;
            if hot != 0 {
                let u = lowest64(hot);
                proof {
                    assert(bit64(hot, u as int) && bit64(self.dirty, u as int));
                    assert(u < 54);
                }
                if !self.scan_marked(u, q, t) {
                    proof {
                        lemma_models_dead(s2, q2);
                        lemma_models_none(s0, q0, s2, q2);
                        lemma_lane_refuted(s2.boards(), u as int % 6, u as int / 6, q2.asks());
                        lemma_refuted_back(s0.boards(), q0.asks(), s2.boards(), q2.asks(), true);
                    }
                    q.clear();
                    return false;
                }
                proof {
                    lemma_scan_models(s2, q2, *self, *q);
                    lemma_models_trans(s0, q0, s2, q2, *self, *q);
                    lemma_cut_spares(s2.boards(), self.boards(), u as int % 6, u as int / 6);
                    lemma_scan_nests(s2, q2, *self, *q);
                    lemma_nests_trans(
                        s0.boards(),
                        q0.asks(),
                        s2.boards(),
                        q2.asks(),
                        self.boards(),
                        q.asks(),
                        true,
                    );
                    lemma_records_kept(s2, *self);
                    lemma_scan_pending(q2, *q, *self);
                    lemma_weight(*self, *q);
                    lemma_step(s0, q0, s1, q1, s2, *self, *q);
                    lemma_within_trans(self.boards(), s2.boards(), s0.boards());
                    lemma_due_kept(s2, q2, *self, *q, u as int);
                }
                continue;
            }
            proof {
                lemma_cold_rows(s2, *t);
            }
            if self.dirty_cells {
                self.dirty_cells = false;
                let ghost s3 = *self;
                proof {
                    lemma_unswept(s2, s3);
                }
                if !self.scan_naked(q) {
                    proof {
                        lemma_models_dead(s2, q2);
                        lemma_models_none(s0, q0, s2, q2);
                        let (b, p) = choose|b: int, p: int|
                            0 <= b < 3 && #[trigger] bit32(self.unsolved[b], p) && digits_at(
                                self.boards(),
                                b,
                                p,
                                9,
                            ) < 1;
                        lemma_cell_refuted(s3, b, p, q2.asks());
                        lemma_refuted_back(s0.boards(), q0.asks(), s2.boards(), q2.asks(), true);
                    }
                    q.clear();
                    return false;
                }
                proof {
                    lemma_scan_models(s2, q2, *self, *q);
                    lemma_models_trans(s0, q0, s2, q2, *self, *q);
                    lemma_unchanged(s2.boards(), true);
                    lemma_scan_nests(s2, q2, *self, *q);
                    lemma_nests_trans(
                        s0.boards(),
                        q0.asks(),
                        s2.boards(),
                        q2.asks(),
                        self.boards(),
                        q.asks(),
                        true,
                    );
                    lemma_records_kept(s2, *self);
                    lemma_scan_pending(q2, *q, *self);
                    lemma_weight(*self, *q);
                    lemma_step(s0, q0, s1, q1, s2, *self, *q);
                    lemma_within_trans(self.boards(), s2.boards(), s0.boards());
                    assert(cells_done(*self, *q));
                    lemma_due_kept(s2, q2, *self, *q, -1);
                }
                continue;
            }
            if self.n_unsolved == 0 {
                proof {
                    lemma_at_fixpoint(*self, *q);
                    lemma_rested(s0, q0, *self, *q);
                }
                return true;
            }
            let cold = self.dirty & t.v_units;
            if cold != 0 {
                let u = lowest64(cold);
                proof {
                    assert(bit64(cold, u as int) && bit64(self.dirty, u as int));
                    assert(u < 54);
                }
                if !self.scan_marked(u, q, t) {
                    proof {
                        lemma_models_dead(s2, q2);
                        lemma_models_none(s0, q0, s2, q2);
                        lemma_lane_refuted(s2.boards(), u as int % 6, u as int / 6, q2.asks());
                        lemma_refuted_back(s0.boards(), q0.asks(), s2.boards(), q2.asks(), true);
                    }
                    q.clear();
                    return false;
                }
                proof {
                    lemma_scan_models(s2, q2, *self, *q);
                    lemma_models_trans(s0, q0, s2, q2, *self, *q);
                    lemma_cut_spares(s2.boards(), self.boards(), u as int % 6, u as int / 6);
                    lemma_scan_nests(s2, q2, *self, *q);
                    lemma_nests_trans(
                        s0.boards(),
                        q0.asks(),
                        s2.boards(),
                        q2.asks(),
                        self.boards(),
                        q.asks(),
                        true,
                    );
                    lemma_records_kept(s2, *self);
                    lemma_scan_pending(q2, *q, *self);
                    lemma_weight(*self, *q);
                    lemma_step(s0, q0, s1, q1, s2, *self, *q);
                    lemma_within_trans(self.boards(), s2.boards(), s0.boards());
                    lemma_due_kept(s2, q2, *self, *q, u as int);
                }
                continue;
            }
            proof {
                lemma_all_cold(s2, *t);
            }
            if !CARDINALITY || !self.tdirty {
                proof {
                    lemma_at_fixpoint(*self, *q);
                    lemma_rested(s0, q0, *self, *q);
                }
                return true;
            }
            self.tdirty = false;
            let ghost s3 = *self;
            proof {
                lemma_unswept(s2, s3);
            }
            if !self.band_inference(t) {
                proof {
                    lemma_models_dead(s2, q2);
                    lemma_models_none(s0, q0, s2, q2);
                    lemma_barren_refuted(s2.boards(), q2.asks(), true);
                    lemma_refuted_back(s0.boards(), q0.asks(), s2.boards(), q2.asks(), true);
                    lemma_within_trans(self.boards(), s2.boards(), s0.boards());
                }
                q.clear();
                return false;
            }
            proof {
                s3.lemma_boards();
                self.lemma_boards();
                lemma_within_trans(self.boards(), s3.boards(), s2.boards());
                lemma_within_trans(self.boards(), s2.boards(), s0.boards());
                assert(!self.tdirty ==> cardinality_done(self.boards())) by {
                    if !self.tdirty {
                        assert(*self == s3);
                    }
                }
                lemma_due_kept(s2, q2, *self, *q, -1);
                assert(keeps(s2.boards(), self.boards()));
                lemma_scan_models(s2, q2, *self, *q);
                lemma_models_trans(s0, q0, s2, q2, *self, *q);
                lemma_scan_nests(s2, q2, *self, *q);
                lemma_nests_trans(
                    s0.boards(),
                    q0.asks(),
                    s2.boards(),
                    q2.asks(),
                    self.boards(),
                    q.asks(),
                    true,
                );
                lemma_records_kept(s2, *self);
                lemma_scan_pending(q2, *q, *self);
                lemma_weight(*self, *q);
                lemma_step(s0, q0, s1, q1, s2, *self, *q);
                if self.boards() != s3.boards() {
                    lemma_shrank(s3.boards(), self.boards());
                }
            }
            if self.dirty == 0 && !self.dirty_cells {
                proof {
                    assert(*self == s3);
                    assert forall|d: int, l: int| 0 <= d < 9 && 0 <= l < 3 implies
                        !#[trigger] bit64(self.dirty, 6 * d + l) by {
                        assert(!bit64(0u64, 6 * d + l));
                    }
                    lemma_at_fixpoint(*self, *q);
                    lemma_rested(s0, q0, *self, *q);
                }
                return true;
            }
        }
    }

    /// Takes lane `u` off the list of those due, and reduces it; false if its
    /// digit has no place there.
    fn scan_marked(&mut self, u: usize, q: &mut Queue, t: &Tables) -> (r: bool)
        requires
            old(self).ok(),
            t.ok(),
            u < 54,
            bit64(old(self).dirty, u as int),
            old(q).ok(),
            old(q).len == 0,
        ensures
            r <==> placeable(old(self).boards(), u as int % 6, u as int / 6),
            !r ==> dead(old(self).boards()) && final(self).boards() == old(self).boards(),
            final(self).boards() == old(self).boards() || (final(self).dirty_cells
                && final(self).tdirty),
            !final(self).dirty_cells ==> !old(self).dirty_cells,
            !final(self).tdirty ==> !old(self).tdirty,
            changes_marked_but(*old(self), *final(self), u as int / 6, u as int % 6),
            r ==> {
                &&& final(self).ok()
                &&& closed_off(
                    old(self).boards(),
                    final(self).boards(),
                    u as int % 6,
                    u as int / 6,
                )
                &&& singles_queued(*final(self), *final(q), u as int % 6, u as int / 6, 3)
                &&& within(final(self).boards(), old(self).boards())
                &&& keeps(old(self).boards(), final(self).boards())
                &&& pushed(*old(q), *final(q), *final(self))
                &&& total32(final(self).boards()) < total32(old(self).boards()) || {
                    &&& total32(final(self).boards()) == total32(old(self).boards())
                    &&& final(self).dirty < old(self).dirty
                }
            },
            same_solved(*old(self), *final(self)),
            final(q).ok(),
    {
        let ghost s2 = *self;
        let left = self.dirty & !(1u64 << (u as u64));
        proof {
            crate::bits::lemma_subset64(left, s2.dirty);
            assert(bit64(s2.dirty, u as int) && !bit64(left, u as int));
        }
        self.dirty = left;
        let ghost s3 = *self;
        proof {
            lemma_unmarked(s2, s3, u as int);
        }
        let ok = self.scan_unit(u / 6, u % 6, q, t);
        proof {
            let (d, l) = (u as int / 6, u as int % 6);
            assert(views(s2.b[d][l], s2.boards(), l, d));
            lemma_view_laid(s2.b[d][l], s2.boards(), l, d);
            assert(changes_marked_but(s2, *self, u as int / 6, u as int % 6)) by {
                assert forall|d: int, l: int|
                    0 <= d < 9 && 0 <= l < 6 && (d != u as int / 6 || l != u as int % 6)
                        && !#[trigger] bit64(self.dirty, 6 * d + l) implies !bit64(
                    s2.dirty,
                    6 * d + l,
                ) && self.b[d][l] == s2.b[d][l] by {
                    assert(!bit64(s3.dirty, 6 * d + l));
                    assert(6 * d + l != u);
                }
            }
            if ok {
                s3.lemma_boards();
                self.lemma_boards();
                if self.boards() != s3.boards() {
                    lemma_shrank(s3.boards(), self.boards());
                }
            }
        }
        ok
    }
}

/// With nothing queued, a fixpoint is the largest part at rest.
proof fn lemma_rested(s0: State, q0: Queue, s: State, q: Queue)
    requires
        s.rested(),
        at_fixpoint(s),
        records_true(s),
        q.len == 0,
        same_nests(s0.boards(), q0.asks(), s.boards(), q.asks(), true),
    ensures
        closes_to(s0.boards(), q0.asks(), true, s.boards()),
{
    lemma_rests(s);
    assert(q.asks() =~= Set::<(int, int)>::empty());
    lemma_closes(s0.boards(), q0.asks(), s.boards(), true);
}

/// A flag as a number.
pub open spec fn flag(b: bool) -> int {
    if b {
        1
    } else {
        0
    }
}

/// Boards that admit nothing leave no models.
proof fn lemma_models_dead(s: State, q: Queue)
    requires
        dead(s.boards()),
    ensures
        no_models(s, q),
{
    assert forall|g: Seq<u8>| !#[trigger] model(s, q, g) by {
        if is_grid(g) {
            assert(!admits(s.boards(), g));
        }
    }
}

/// Boards that differ differ in a word.
proof fn lemma_shrank(a: Seq<u32>, b: Seq<u32>)
    requires
        within(b, a),
        a != b,
    ensures
        total32(b) < total32(a),
{
    if forall|i: int| 0 <= i < a.len() ==> a[i] == b[i] {
        assert(a =~= b);
    }
    let i = choose|i: int| 0 <= i < a.len() && a[i] != b[i];
    assert(b[i] != a[i]);
    lemma_within_total(b, a);
}

/// Without marks on the rows, no horizontal lane is due.
proof fn lemma_cold_rows(s: State, t: Tables)
    requires
        s.ok(),
        t.ok(),
        s.dirty & t.h_units == 0,
    ensures
        s.rested(),
{
    assert forall|d: int, l: int| 0 <= d < 9 && 0 <= l < 3 implies !#[trigger] bit64(
        s.dirty,
        6 * d + l,
    ) by {
        let i = 6 * d + l;
        assert(bit64(t.h_units, i)) by {
            reveal(Tables::ok);
            assert(i % 6 == l);
        }
        assert(!bit64(s.dirty & t.h_units, i));
    }
}

/// Without marks on rows and columns, nothing is due.
proof fn lemma_all_cold(s: State, t: Tables)
    requires
        s.ok(),
        t.ok(),
        s.dirty & t.h_units == 0,
        s.dirty & t.v_units == 0,
    ensures
        s.dirty == 0,
{
    if s.dirty != 0 {
        let i = lemma_nonzero64(s.dirty);
        assert(bit64(s.dirty, i));
        reveal(Tables::ok);
        if i % 6 < 3 {
            assert(bit64(s.dirty & t.h_units, i));
        } else {
            assert(bit64(s.dirty & t.v_units, i));
        }
        assert(!bit64(0u64, i));
    }
}

/// Taking one lane off the list of those due.
proof fn lemma_unmarked(a: State, b: State, u: int)
    requires
        a.ok(),
        0 <= u < 54,
        forall|i: int| #[trigger] bit64(b.dirty, i) <==> bit64(a.dirty, i) && i != u,
        same_solved(a, b),
        b.b == a.b,
    ensures
        b.shape(),
        b.synced(),
        b.solved_ok(),
        b.clean_but(u / 6, u % 6),
        b.boards() == a.boards(),
{
    assert(b.boards() =~= a.boards());
    assert forall|c: int| 0 <= c < 81 implies #[trigger] b.open(c) == a.open(c) by {}
    assert forall|c: int, d: int|
        0 <= c < 81 && 0 <= d < 9 && !b.open(c) && #[trigger] cand(
            b.boards(),
            c,
            d,
        ) implies b.marked(c, d) by {
        assert(a.marked(c, d));
    }
    assert forall|d: int, l: int|
        0 <= d < 9 && 0 <= l < 6 && (d != u / 6 || l != u % 6) && !#[trigger] bit64(
            b.dirty,
            6 * d + l,
        ) implies closed_word(b.b[d][l]) by {
        assert(6 * d + l != u);
        assert(!bit64(a.dirty, 6 * d + l));
    }
}

/// Clearing a flag changes nothing else.
proof fn lemma_unswept(a: State, b: State)
    requires
        a.ok(),
        same_solved(a, b),
        b.b == a.b,
        b.dirty == a.dirty,
    ensures
        b.ok(),
        b.boards() == a.boards(),
        within(b.boards(), a.boards()),
        keeps(a.boards(), b.boards()),
{
    assert(b.boards() =~= a.boards());
    assert forall|c: int| 0 <= c < 81 implies #[trigger] b.open(c) == a.open(c) by {}
    assert forall|c: int, d: int|
        0 <= c < 81 && 0 <= d < 9 && !b.open(c) && #[trigger] cand(
            b.boards(),
            c,
            d,
        ) implies b.marked(c, d) by {
        assert(a.marked(c, d));
    }
}

/// Where a step of the propagation leaves the count of open cells.
proof fn lemma_step(
    s0: State,
    q0: Queue,
    s1: State,
    q1: Queue,
    s2: State,
    s: State,
    q: Queue,
)
    requires
        s1.n_unsolved <= s0.n_unsolved,
        pending(s0, q0) && !pending(s1, q1) ==> s1.n_unsolved < s0.n_unsolved,
        pending(s1, q1) ==> s2.n_unsolved < s1.n_unsolved,
        !pending(s1, q1) ==> s2 == s1,
        same_solved(s2, s),
    ensures
        s.n_unsolved <= s0.n_unsolved,
        pending(s0, q0) ==> s.n_unsolved < s0.n_unsolved,
        pending(s1, q1) || pending(s, q) ==> weight(s, q) < weight(s1, q1),
        !pending(s1, q1) && !pending(s, q) ==> weight(s, q) == weight(s1, q1),
{
}

impl State {
    /// The candidates of a cell in increasing order, and how many there are.
    pub fn cell_digits(&self, cell: usize, t: &Tables) -> (r: ([u8; 9], usize))
        requires
            self.shape(),
            t.ok(),
            cell < 81,
        ensures
            ascending(r.0@, r.1 as int),
            forall|d: int|
                0 <= d < 9 ==> (#[trigger] cand(self.boards(), cell as int, d) <==> listed(
                    r.0@,
                    0,
                    r.1 as int,
                    d,
                )),
            r.1 == digits_at(self.boards(), cell as int / 27, cell as int % 27, 9),
    {
        let ghost bs = self.boards();
        let ghost c = cell as int;
        let (b, i) = t.horizontal(cell);
        let mut digits: [u8; 9] = [0;9];
        let mut n: usize = 0;
        let mut d: usize = 0;
        proof {
            self.lemma_boards();
        }
        while d < 9
            invariant
                d <= 9,
                b < 3,
                i < 27,
                n <= d,
                bs == self.boards(),
                c / 27 == b && c % 27 == i,
                forall|k: int, e: int|
                    0 <= k < 3 && 0 <= e < 9 ==> #[trigger] bs[9 * k + e] == self.b[e][k],
                ascending(digits@, n as int),
                n == digits_at(bs, b as int, i as int, d as nat),
                forall|j: int| 0 <= j < n ==> #[trigger] digits[j] < d,
                forall|e: int|
                    0 <= e < d ==> (#[trigger] cand(bs, c, e) <==> listed(digits@, 0, n as int, e)),
            decreases 9 - d,
        {
            let m = self.b[d][b];
            let ghost (digits0, n0) = (digits@, n as int);
            proof {
                assert(bit32(m, i as int) <==> (m >> (i as u32)) & 1 == 1) by {
                    reveal(bit32);
                }
                assert(bs[9 * b + d] == m);
                assert(cand(bs, c, d as int) <==> bit32(m, i as int));
                assert(digits_at(bs, b as int, i as int, (d + 1) as nat) == digits_at(
                    bs,
                    b as int,
                    i as int,
                    d as nat,
                ) + if bit32(m, i as int) {
                    1nat
                } else {
                    0nat
                });
            }
            if (m >> (i as u32)) & 1 == 1 {
                digits[n] = d as u8;
                n = n + 1;
            }
            proof {
                assert forall|e: int| 0 <= e < d + 1 implies (#[trigger] cand(bs, c, e) <==> listed(
                    digits@,
                    0,
                    n as int,
                    e,
                )) by {
                    if listed(digits@, 0, n as int, e) {
                        let k = choose|k: int| 0 <= k < n && #[trigger] digits@[k] == e;
                        if k < n0 {
                            assert(digits0[k] == e);
                            assert(listed(digits0, 0, n0, e));
                        }
                    }
                    if e < d && cand(bs, c, e) {
                        assert(listed(digits0, 0, n0, e));
                        let k = choose|k: int| 0 <= k < n0 && #[trigger] digits0[k] == e;
                        assert(digits@[k] == e);
                    }
                    if e == d && cand(bs, c, e) {
                        assert(digits@[n0] == e);
                    }
                    if e == d && listed(digits0, 0, n0, e) {
                        let k = choose|k: int| 0 <= k < n0 && #[trigger] digits0[k] == e;
                        assert(digits0[k] < d);
                    }
                }
            }
            d = d + 1;
        }
        (digits, n)
    }

    /// Some open cell has exactly two candidates.
    pub open spec fn has_pair(&self) -> bool {
        exists|b: int, i: int|
            0 <= b < 3 && 0 <= i < 27 && self.open(27 * b + i) && #[trigger] digits_at(
                self.boards(),
                b,
                i,
                9,
            ) == 2
    }

    /// An open cell with its candidates and their number.
    pub open spec fn guess_ok(&self, c: int, digits: Seq<u8>, n: int) -> bool {
        &&& 0 <= c < 81
        &&& self.open(c)
        &&& ascending(digits, n)
        &&& forall|d: int|
            0 <= d < 9 ==> (#[trigger] cand(self.boards(), c, d) <==> listed(digits, 0, n, d))
        &&& n == digits_at(self.boards(), c / 27, c % 27, 9)
    }

    /// The guess point: the first cell with two candidates if there is one,
    /// else the first with three or with the fewest. Returns the cell, its
    /// candidates and their number.
    pub fn pick(&self, t: &Tables) -> (r: (usize, [u8; 9], usize))
        requires
            self.shape(),
            t.ok(),
            self.n_unsolved > 0,
        ensures
            self.guess_ok(r.0 as int, r.1@, r.2 as int),
            self.has_pair() ==> r.2 == 2,
            forall|b: int, i: int|
                0 <= b < 3 && 0 <= i < 27 && 27 * b + i < r.0 && self.open(27 * b + i) ==> r.2
                    != #[trigger] digits_at(self.boards(), b, i, 9) && (self.has_pair() || r.2
                    < digits_at(self.boards(), b, i, 9)),
            self.has_pair() || r.2 == 3 || forall|b: int, i: int|
                0 <= b < 3 && 0 <= i < 27 && self.open(27 * b + i) ==> r.2 <= #[trigger] digits_at(
                    self.boards(),
                    b,
                    i,
                    9,
                ),
    {
        let ghost bs = self.boards();
        let (_, two, three, _) = tally_lanes(&self.b);
        let mut b: usize = 0;
        while b < 3
            invariant
                b <= 3,
                self.shape(),
                t.ok(),
                bs == self.boards(),
                forall|l: int, p: int|
                    0 <= l < 8 ==> (#[trigger] bit32(two[l], p) <==> at_lane(self.b@, l, p, 9)
                        >= 2),
                forall|l: int, p: int|
                    0 <= l < 8 ==> (#[trigger] bit32(three[l], p) <==> at_lane(self.b@, l, p, 9)
                        >= 3),
                forall|k: int, i: int|
                    0 <= k < b && 0 <= i < 27 && self.open(27 * k + i) ==> #[trigger] digits_at(
                        bs,
                        k,
                        i,
                        9,
                    ) != 2,
            decreases 3 - b,
        {
            let biv = two[b] & !three[b] & self.unsolved[b];
            if biv != 0 {
                let i = lowest32(biv);
                let cell = (b * 3 + i / 9) * 9 + i % 9;
                proof {
                    assert(bit32(two[b as int], i as int) && !bit32(three[b as int], i as int));
                    lemma_at_lane(*self, b as int, i as int);
                    lemma_small32(self.unsolved[b as int], i as int);
                    assert(cell == 27 * b + i);
                    assert(cell as int / 27 == b && cell as int % 27 == i);
                }
                let (digits, n) = self.cell_digits(cell, t);
                proof {
                    assert forall|k: int, p: int|
                        0 <= k < 3 && 0 <= p < 27 && 27 * k + p < cell && self.open(
                            27 * k + p,
                        ) implies #[trigger] digits_at(bs, k, p, 9) != 2 by {
                        if k == b && digits_at(bs, k, p, 9) == 2 {
                            let x = 27 * k + p;
                            assert(x / 27 == k && x % 27 == p);
                            lemma_at_lane(*self, b as int, p);
                            assert(bit32(two[b as int], p) && !bit32(three[b as int], p));
                            assert(bit32(biv, p));
                        }
                    }
                    assert(self.open(27 * b + i) && digits_at(bs, b as int, i as int, 9) == 2);
                }
                return (cell, digits, n);
            }
            proof {
                assert forall|k: int, i: int|
                    0 <= k < b + 1 && 0 <= i < 27 && self.open(27 * k + i) implies #[trigger] digits_at(
                    bs,
                    k,
                    i,
                    9,
                ) != 2 by {
                    if k == b && digits_at(bs, k, i, 9) == 2 {
                        let c = 27 * k + i;
                        assert(c / 27 == k && c % 27 == i);
                        lemma_at_lane(*self, b as int, i);
                        assert(bit32(two[b as int], i) && !bit32(three[b as int], i));
                        assert(bit32(biv, i));
                        assert(!bit32(0u32, i));
                    }
                }
            }
            b = b + 1;
        }
        let mut best: (usize, [u8; 9], usize) = (0, [0;9], 10);
        let mut b: usize = 0;
        while b < 3
            invariant
                b <= 3,
                self.shape(),
                t.ok(),
                bs == self.boards(),
                forall|k: int, i: int|
                    0 <= k < 3 && 0 <= i < 27 && self.open(27 * k + i) ==> #[trigger] digits_at(
                        bs,
                        k,
                        i,
                        9,
                    ) != 2,
                best.2 <= 10,
                best.2 < 10 ==> self.guess_ok(best.0 as int, best.1@, best.2 as int),
                forall|k: int, i: int|
                    0 <= k < b && 0 <= i < 27 && self.open(27 * k + i) ==> best.2
                        <= #[trigger] digits_at(bs, k, i, 9),
                forall|k: int, i: int|
                    0 <= k < 3 && 0 <= i < 27 && 27 * k + i < best.0 && self.open(27 * k + i)
                        ==> best.2 < #[trigger] digits_at(bs, k, i, 9),
            decreases 3 - b,
        {
            let mut uns: u32 = self.unsolved[b];
            while uns != 0
                invariant
                    b < 3,
                    self.shape(),
                    t.ok(),
                    bs == self.boards(),
                    forall|k: int, i: int|
                        0 <= k < 3 && 0 <= i < 27 && self.open(27 * k + i) ==> #[trigger] digits_at(
                            bs,
                            k,
                            i,
                            9,
                        ) != 2,
                    best.2 <= 10,
                    best.2 < 10 ==> self.guess_ok(best.0 as int, best.1@, best.2 as int),
                    forall|k: int, i: int|
                        0 <= k < b && 0 <= i < 27 && self.open(27 * k + i) ==> best.2
                            <= #[trigger] digits_at(bs, k, i, 9),
                    forall|i: int| #[trigger] bit32(uns, i) ==> bit32(self.unsolved[b as int], i),
                    forall|i: int|
                        0 <= i < 27 && bit32(self.unsolved[b as int], i) && !bit32(uns, i)
                            ==> best.2 <= #[trigger] digits_at(bs, b as int, i, 9),
                    forall|k: int, i: int|
                        0 <= k < 3 && 0 <= i < 27 && 27 * k + i < best.0 && self.open(27 * k + i)
                            ==> best.2 < #[trigger] digits_at(bs, k, i, 9),
                decreases uns,
            {
                let i = lowest32(uns);
                let ghost u0 = uns;
                uns = without_lowest32(uns);
                proof {
                    let k = choose|k: int| #![trigger bit32(u0, k)] 0 <= k < 32 && bit32(u0, k) && (
                    forall|j: int| #[trigger] bit32(uns, j) <==> bit32(u0, j) && j != k) && (forall|
                        j: int,
                    |
                        0 <= j < k ==> !bit32(u0, j));
                    assert(k == i);
                    lemma_small32(self.unsolved[b as int], i as int);
                    let c = 27 * b + i;
                    assert(c / 27 == b && c % 27 == i);
                    assert(self.open(c));
                }
                let cell = (b * 3 + i / 9) * 9 + i % 9;
                proof {
                    assert(cell == 27 * b + i);
                    assert(cell as int / 27 == b && cell as int % 27 == i);
                }
                let (digits, n) = self.cell_digits(cell, t);
                if n < best.2 {
                    best = (cell, digits, n);
                    proof {
                        assert forall|k: int, p: int|
                            0 <= k < 3 && 0 <= p < 27 && 27 * k + p < cell && self.open(
                                27 * k + p,
                            ) implies best.2 < #[trigger] digits_at(bs, k, p, 9) by {
                            if k == b {
                                let x = 27 * k + p;
                                assert(x / 27 == k && x % 27 == p);
                                assert(!bit32(u0, p));
                            }
                        }
                    }
                    if n == 3 {
                        return best;
                    }
                }
            }
            proof {
                assert forall|k: int, i: int|
                    0 <= k < b + 1 && 0 <= i < 27 && self.open(27 * k + i) implies best.2
                    <= #[trigger] digits_at(bs, k, i, 9) by {
                    if k == b {
                        let c = 27 * k + i;
                        assert(c / 27 == k && c % 27 == i);
                        assert(!bit32(0u32, i));
                    }
                }
            }
            b = b + 1;
        }
        proof {
            if best.2 == 10 {
                let (k, i) = lemma_some_open(*self);
                let f = |e: int| bit32(bs[9 * k + e], i);
                lemma_count_mono(f, f, 9);
                assert(digits_at(bs, k, i, 9) <= 9);
            }
        }
        best
    }

    /// Writes out the candidate of every cell.
    pub fn write_grid(&self, out: &mut [u8; 81], t: &Tables, Ghost(g): Ghost<Seq<u8>>)
        requires
            self.shape(),
            t.ok(),
            is_grid(g),
            encodes(self.boards(), g),
        ensures
            final(out)@ == g,
    {
        let ghost bs = self.boards();
        proof {
            lemma_grid_facts(g);
            self.lemma_boards();
        }
        let mut c: usize = 0;
        while c < 81
            invariant
                c <= 81,
                t.ok(),
                is_grid(g),
                g.len() == 81,
                bs == self.boards(),
                forall|k: int, e: int|
                    0 <= k < 3 && 0 <= e < 9 ==> #[trigger] bs[9 * k + e] == self.b[e][k],
                forall|x: int| 0 <= x < 81 ==> 1 <= #[trigger] g[x] <= 9,
                encodes(bs, g),
                forall|x: int| 0 <= x < c ==> #[trigger] out[x] == g[x],
            decreases 81 - c,
        {
            let (b, i) = t.horizontal(c);
            let mut d: usize = 0;
            proof {
                assert(cand(bs, c as int, g[c as int] - 1));
            }
            while d < 9
                invariant_except_break
                    d <= 9,
                    forall|e: int| 0 <= e < d ==> !#[trigger] cand(bs, c as int, e),
                    forall|x: int| 0 <= x < c ==> #[trigger] out[x] == g[x],
                invariant
                    c < 81,
                    b == c / 27,
                    b < 3,
                    i == c % 27,
                    i < 27,
                    g.len() == 81,
                    forall|k: int, e: int|
                        0 <= k < 3 && 0 <= e < 9 ==> #[trigger] bs[9 * k + e] == self.b[e][k],
                    forall|x: int| 0 <= x < 81 ==> 1 <= #[trigger] g[x] <= 9,
                    encodes(bs, g),
                    cand(bs, c as int, g[c as int] - 1),
                ensures
                    forall|x: int| 0 <= x < c + 1 ==> #[trigger] out[x] == g[x],
                decreases 9 - d,
            {
                let m = self.b[d][b];
                proof {
                    assert(bit32(m, i as int) <==> (m >> (i as u32)) & 1 == 1) by {
                        reveal(bit32);
                    }
                    assert(bs[9 * b + d] == m);
                    assert(cand(bs, c as int, d as int) <==> bit32(m, i as int));
                }
                if (m >> (i as u32)) & 1 == 1 {
                    out[c] = d as u8 + 1;
                    break;
                }
                d = d + 1;
            }
            c = c + 1;
        }
        proof {
            assert(out@ =~= g);
        }
    }

    /// A state at rest with no open cell spells out one grid.
    proof fn lemma_solved(&self) -> (g: Seq<u8>)
        requires
            self.rested(),
            self.n_unsolved == 0,
        ensures
            is_grid(g),
            encodes(self.boards(), g),
            board_solutions(self.boards()).contains(g),
            board_solutions(self.boards()).len() == 1,
    {
        self.lemma_boards();
        assert forall|c: int| 0 <= c < 81 implies #[trigger] settled(cands(self.boards()), c) by {
            if self.open(c) {
                lemma_open_counted(*self, c);
            }
        }
        assert forall|i: int| 0 <= i < 27 implies supported(#[trigger] self.boards()[i]) by {
            let (b, d) = (i / 9, i % 9);
            assert(!bit64(self.dirty, 6 * d + b));
            assert(9 * b + d == i);
            lemma_closed_supported(self.b[d][b]);
        }
        lemma_leaf(self.boards())
    }
}

/// If cells are counted, one is open.
proof fn lemma_some_open(s: State) -> (r: (int, int))
    requires
        s.shape(),
        s.n_unsolved > 0,
    ensures
        0 <= r.0 < 3,
        0 <= r.1 < 27,
        s.open(27 * r.0 + r.1),
{
    let b = if pop32(s.unsolved[0]) > 0 {
        0
    } else if pop32(s.unsolved[1]) > 0 {
        1
    } else {
        2int
    };
    let u = s.unsolved[b];
    let f = |i: int| bit32(u, i);
    let i = crate::bits::lemma_count_witness(f, 32);
    lemma_small32(u, i);
    let c = 27 * b + i;
    assert(c / 27 == b && c % 27 == i);
    (b, i)
}

/// Guessing a digit keeps the grids that hold it.
proof fn lemma_guess(st: State, q: Queue, s2: State, q2: Queue, c: int, d: int)
    requires
        same_models(st, q, s2, q2),
        q.len == 1,
        entry_cell(q.buf[0]) == c,
        entry_digit(q.buf[0]) == d,
        q2.len == 0,
    ensures
        board_solutions(s2.boards()) == holding(board_solutions(st.boards()), c, d),
{
    assert forall|g: Seq<u8>| board_solutions(s2.boards()).contains(g) == holding(
        board_solutions(st.boards()),
        c,
        d,
    ).contains(g) by {
        assert(model(st, q, g) <==> model(s2, q2, g));
        if is_grid(g) && g[c] == d + 1 {
            assert forall|j: int| 0 <= j < q.len implies g[entry_cell(#[trigger] q.buf[j])]
                == entry_digit(q.buf[j]) + 1 by {}
        }
        if model(st, q, g) {
            assert(g[entry_cell(q.buf[0])] == entry_digit(q.buf[0]) + 1);
        }
    }
    assert(board_solutions(s2.boards()) =~= holding(board_solutions(st.boards()), c, d));
}

/// An impossible guess has no grids.
proof fn lemma_guess_none(st: State, q: Queue, c: int, d: int)
    requires
        no_models(st, q),
        q.len == 1,
        entry_cell(q.buf[0]) == c,
        entry_digit(q.buf[0]) == d,
    ensures
        holding(board_solutions(st.boards()), c, d).len() == 0,
{
    let s = holding(board_solutions(st.boards()), c, d);
    assert forall|g: Seq<u8>| !#[trigger] s.contains(g) by {
        if s.contains(g) {
            assert forall|j: int| 0 <= j < q.len implies g[entry_cell(#[trigger] q.buf[j])]
                == entry_digit(q.buf[j]) + 1 by {}
            assert(model(st, q, g));
        }
    }
    lemma_none(s);
}

/// The cell picked at the fixpoint is the first with the fewest candidates.
proof fn lemma_picked(s: State, c: int)
    requires
        s.rested(),
        at_fixpoint(s),
        records_true(s),
        0 <= c < 81,
        s.open(c),
        forall|b: int, i: int|
            0 <= b < 3 && 0 <= i < 27 && 27 * b + i < c && s.open(27 * b + i) ==> choices(
                s.boards(),
                c,
            ) != #[trigger] digits_at(s.boards(), b, i, 9) && (s.has_pair() || choices(
                s.boards(),
                c,
            ) < digits_at(s.boards(), b, i, 9)),
        s.has_pair() ==> choices(s.boards(), c) == 2,
        s.has_pair() || choices(s.boards(), c) == 3 || forall|b: int, i: int|
            0 <= b < 3 && 0 <= i < 27 && s.open(27 * b + i) ==> choices(s.boards(), c)
                <= #[trigger] digits_at(s.boards(), b, i, 9),
    ensures
        first_fewest(s.boards(), c),
{
    let bs = s.boards();
    lemma_rests(s);
    assert(choices(bs, c) >= 2);
    assert forall|x: int| 0 <= x < 81 && #[trigger] choices(bs, x) >= 2 implies choices(bs, c)
        <= choices(bs, x) && (x < c ==> choices(bs, c) < choices(bs, x)) by {
        let (b, i) = (x / 27, x % 27);
        assert(27 * b + i == x);
        assert(s.open(27 * b + i));
        assert(digits_at(bs, b, i, 9) == choices(bs, x));
        if !s.has_pair() {
            assert(choices(bs, x) != 2);
        }
    }
}

/// A guess leaves fewer candidates.
proof fn lemma_guess_less(a: Seq<u32>, q: Queue, b: Seq<u32>, c: int, d: int)
    requires
        0 <= c < 81,
        choices(a, c) >= 2,
        q.asks().contains((c, d)),
        closes_to(a, q.asks(), true, b),
    ensures
        total32(b) < total32(a),
{
    assert(sole(b, c, d));
    let f = |e: int| bit32(a[9 * (c / 27) + e], c % 27);
    let x = lemma_count_witness(f, 9);
    let y = lemma_count_second(f, 9, x);
    let e = if x == d {
        y
    } else {
        x
    };
    assert(cand(a, c, e) && !cand(b, c, e));
    lemma_shrank(a, b);
}

/// Counts the grids of a state at rest, up to `limit`, and writes out the
/// first.
pub fn search(
    st: &State,
    q: &mut Queue,
    t: &Tables,
    limit: u64,
    count: &mut u64,
    out: &mut [u8; 81],
)
    requires
        t.ok(),
        st.rested(),
        at_fixpoint(*st),
        records_true(*st),
        due_marked(*st, *old(q)),
        old(q).ok(),
        old(q).len == 0,
        *old(count) < limit,
    ensures
        final(q).ok(),
        final(q).len == 0,
        *final(count) == capped(*old(count) + board_solutions(st.boards()).len(), limit as int),
        *old(count) == 0 && *final(count) > 0 ==> board_solutions(st.boards()).contains(final(out)@),
        *old(count) > 0 ==> final(out)@ == old(out)@,
        *old(count) == 0 && *final(count) > 0 ==> first_leaf(st.boards(), true) == Some(
            final(out)@,
        ),
        *old(count) == 0 && *final(count) == 0 ==> first_leaf(st.boards(), true) is None,
    decreases st.n_unsolved,
{
    let ghost none = *q;
    let ghost count0 = *count;
    let ghost out0 = out@;
    if st.n_unsolved == 0 {
        let ghost g = st.lemma_solved();
        if *count == 0 {
            st.write_grid(out, t, Ghost(g));
        }
        proof {
            lemma_spelled(st.boards(), g);
        }
        *count = *count + 1;
        return;
    }
    let (cell, digits, n) = st.pick(t);
    let ghost c = cell as int;
    let ghost s = board_solutions(st.boards());
    proof {
        assert forall|g: Seq<u8>| #[trigger] s.contains(g) implies listed(
            digits@,
            0,
            n as int,
            g[c] - 1,
        ) by {
            reveal(admits);
            lemma_grid_facts(g);
            assert(cand(st.boards(), c, g[c] - 1));
        }
        lemma_picked(*st, c);
        lemma_fewest(st.boards(), c);
        lemma_branch_all(s, c, digits@, n as int);
        assert(s.subset_of(grids()));
    }
    let ghost mut tried: nat = 0;
    let mut j: usize = 0;
    while j < n
        invariant
            tried <= 9,
            forall|k: int| 0 <= k < j ==> #[trigger] digits@[k] < tried,
            forall|k: int| j <= k < n ==> tried <= #[trigger] digits@[k],
            forall|d: int|
                0 <= d < 9 ==> (#[trigger] cand(st.boards(), c, d) <==> listed(
                    digits@,
                    0,
                    n as int,
                    d,
                )),
            first_fewest(st.boards(), c),
            count0 == 0 && *count > 0 ==> first_leaf(st.boards(), true) == Some(out@),
            count0 == 0 && *count == 0 ==> first_leaf(st.boards(), true) == first_leaf_from(
                st.boards(),
                c,
                tried,
                true,
            ),
            t.ok(),
            at_fixpoint(*st),
            records_true(*st),
            st.rested(),
            due_marked(*st, none),
            none.len == 0,
            q.ok(),
            q.len == 0,
            cell < 81,
            j <= n <= 9,
            c == cell,
            st.open(c),
            ascending(digits@, n as int),
            s == board_solutions(st.boards()),
            s.subset_of(grids()),
            count0 == *old(count),
            out0 == old(out)@,
            *count < limit,
            *count + holding_any(s, c, digits@, j as int, n as int).len() == count0 + s.len(),
            *count >= count0,
            count0 == 0 && *count > 0 ==> s.contains(out@),
            count0 > 0 ==> out@ == out0,
        decreases n - j,
    {
        let ghost n1 = *count;
        let d = digits[j] as usize;
        proof {
            assert(digits@[j as int] < 9);
            lemma_branch(s, c, digits@, j as int, n as int);
            assert forall|e: int| tried <= e < d implies !#[trigger] cand(st.boards(), c, e) by {
                if cand(st.boards(), c, e) {
                    let k = choose|k: int| 0 <= k < n && #[trigger] digits@[k] == e;
                    assert(k < j || digits@[j as int] <= digits@[k]);
                }
            }
            lemma_leaf_over(st.boards(), c, tried, d as nat, true);
            assert(listed(digits@, 0, n as int, d as int));
            assert(cand(st.boards(), c, d as int));
            tried = (d + 1) as nat;
        }
        let mut s2 = *st;
        q.push(d, cell);
        let ghost q1 = *q;
        proof {
            lemma_due_kept(*st, none, s2, q1, -1);
            assert(entry_cell(q.buf[0]) == c && entry_digit(q.buf[0]) == d);
            assert(pending(s2, *q));
            assert(q.asks() =~= set![(c, d as int)]) by {
                assert forall|x: int, y: int| q.has(x, y) <==> x == c && y == d by {
                    if x == c && y == d {
                        assert(entry_cell(q.buf[0]) == x);
                    }
                }
            }
        }
        if s2.propagate(q, t) {
            proof {
                lemma_guess(*st, q1, s2, *q, c, d as int);
                lemma_closed_part(st.boards(), q1.asks(), true, s2.boards());
                lemma_guess_less(st.boards(), q1, s2.boards(), c, d as int);
            }
            search(&s2, q, t, limit, count, out);
            proof {
                if count0 == 0 && n1 == 0 && *count > 0 {
                    assert(holding(s, c, d as int).contains(out@));
                }
            }
            if *count >= limit {
                return;
            }
        } else {
            proof {
                lemma_guess_none(*st, q1, c, d as int);
                lemma_no_part(st.boards(), q1.asks(), true);
            }
        }
        j = j + 1;
    }
    proof {
        lemma_branch_end(s, c, digits@, n as int);
        assert forall|e: int| tried <= e < 9 implies !#[trigger] cand(st.boards(), c, e) by {
            if cand(st.boards(), c, e) {
                let k = choose|k: int| 0 <= k < n && #[trigger] digits@[k] == e;
            }
        }
        lemma_leaf_over(st.boards(), c, tried, 9, true);
    }
}

/// Queues the clues.
pub fn load(q: &mut Queue, clues: &[u8; 81])
    requires
        clues_ok(clues@),
        old(q).ok(),
        old(q).len == 0,
    ensures
        final(q).ok(),
        final(q).len <= 81,
        forall|g: Seq<u8>| is_grid(g) ==> (#[trigger] final(q).agrees(g) <==> is_solution(g, clues@)),
        final(q).asks() == clue_asks(clues@),
{
    let mut c: usize = 0;
    while c < 81
        invariant
            c <= 81,
            clues_ok(clues@),
            q.ok(),
            q.len <= c,
            forall|j: int|
                0 <= j < q.len ==> 0 <= entry_cell(#[trigger] q.buf[j]) < c && clues[entry_cell(
                    q.buf[j],
                )] == entry_digit(q.buf[j]) + 1,
            forall|x: int| 0 <= x < c && #[trigger] clues[x] != 0 ==> has_clue(*q, x),
        decreases 81 - c,
    {
        let d = clues[c];
        let ghost q0 = *q;
        if d != 0 {
            proof {
                assert(clues@[c as int] <= 9);
            }
            q.push((d - 1) as usize, c);
            proof {
                assert(entry_cell(q.buf[q0.len as int]) == c);
                assert forall|j: int| 0 <= j < q.len implies 0 <= entry_cell(
                    #[trigger] q.buf[j],
                ) < c + 1 && clues[entry_cell(q.buf[j])] == entry_digit(q.buf[j]) + 1 by {
                    if j < q0.len {
                        assert(q.buf[j] == q0.buf[j]);
                    }
                }
                assert forall|x: int| 0 <= x < c + 1 && #[trigger] clues[x] != 0 implies has_clue(
                    *q,
                    x,
                ) by {
                    if x < c {
                        assert(has_clue(q0, x));
                        let j = choose|j: int|
                            0 <= j < q0.len && entry_cell(#[trigger] q0.buf[j]) == x;
                        assert(q.buf[j] == q0.buf[j]);
                    }
                }
            }
        }
        c = c + 1;
    }
    proof {
        assert forall|p: (int, int)| q.asks().contains(p) <==> clue_asks(clues@).contains(p) by {
            if q.has(p.0, p.1) {
                let j = choose|j: int|
                    0 <= j < q.len && entry_cell(#[trigger] q.buf[j]) == p.0 && entry_digit(
                        q.buf[j],
                    ) == p.1;
                lemma_entry(q.buf[j]);
                assert(clues[p.0] == p.1 + 1);
            }
            if clue_asks(clues@).contains(p) {
                assert(clues[p.0] != 0);
                assert(has_clue(*q, p.0));
                let j = choose|j: int| 0 <= j < q.len && entry_cell(#[trigger] q.buf[j]) == p.0;
                assert(q.has(p.0, p.1));
            }
        }
        assert(q.asks() =~= clue_asks(clues@));
    }
    proof {
        assert forall|g: Seq<u8>| is_grid(g) implies (#[trigger] q.agrees(g) <==> is_solution(
            g,
            clues@,
        )) by {
            if q.agrees(g) {
                assert forall|x: int| 0 <= x < 81 && #[trigger] clues@[x] != 0 implies g[x]
                    == clues@[x] by {
                    assert(clues[x] != 0);
                    assert(has_clue(*q, x));
                    let j = choose|j: int| 0 <= j < q.len && entry_cell(#[trigger] q.buf[j]) == x;
                }
            }
            if is_solution(g, clues@) {
                assert forall|j: int| 0 <= j < q.len implies g[entry_cell(#[trigger] q.buf[j])]
                    == entry_digit(q.buf[j]) + 1 by {
                    lemma_entry(q.buf[j]);
                    let x = entry_cell(q.buf[j]);
                    assert(clues@[x] != 0);
                }
            }
        }
    }
}

/// Some queued assignment is to cell `x`.
pub open spec fn has_clue(q: Queue, x: int) -> bool {
    exists|j: int| 0 <= j < q.len && entry_cell(#[trigger] q.buf[j]) == x
}

} // verus!
