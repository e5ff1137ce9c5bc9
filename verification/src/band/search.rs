//! Propagation to a fixpoint and depth-first search of the band engine.

use vstd::prelude::*;
use crate::band::infer::{chosen, stacks_cut, visited, CARDINALITY};
use crate::band::scan::{line_solved, naked_queued, pushed, same_solved, singles_queued};
use crate::band::state::{
    digits_marked, entry, entry_cell, entry_digit, entry_ok, lemma_small3, records_from,
    records_kept, BState, Queue,
};
use crate::band::tables::Tables;
use crate::bits::{
    bit16, bit32, group_bits16, group_bits32, lemma_count_mono, lemma_count_some,
    lemma_count_witness, lemma_small32, lowest16, lowest32, pop32, total32, without_lowest16,
    without_lowest32,
};
use crate::boards::{
    admits, board_solutions, boards_ok, cand, cands, dead, digits_at, encodes, keeps, lemma_leaf,
    lemma_placed, lemma_settled_digit, lemma_within_admits, lemma_within_total, lemma_within_trans,
    placed, tally, within,
};
use crate::branch::{
    ascending, holding, holding_any, lemma_branch, lemma_branch_all, lemma_branch_end, listed,
};
use crate::grid::{
    capped, clues_ok, grids, is_grid, is_solution, lemma_grid_facts, lemma_none, peers, settled,
    settled_as,
};
use crate::layout::{
    band_pos, closed_off, implied, in_band, laid, lemma_line_peers, lemma_same_laid,
    lemma_through_within, lemma_view_laid, lemma_views_row, line_cell, lone, placeable, reduced,
};
use crate::minirow::{closed_word, closure_of, in_some_perm, lemma_closed_supported, supported};
use crate::rest::{
    choices, closes_to, clue_asks, filled, first_fewest, first_leaf, first_leaf_from, forced,
    lemma_barren_band, lemma_barren_refuted, lemma_cand, lemma_closed_part, lemma_closes,
    lemma_fewest, lemma_grid_rests, lemma_held_nests, lemma_leaf_over, lemma_line_place,
    lemma_missing_refuted, lemma_no_part, lemma_nests_trans, lemma_placed_nests, lemma_refuted_back,
    lemma_settled_lone, lemma_settled_within, lemma_spares_cut, lemma_unchanged, lemma_unfilled,
    lemma_spelled, lemma_step_nests, lemma_within, refuted, rests, same_nests, sole, spares,
};

verus! {

broadcast use {group_bits16, group_bits32};

/// Some queued assignment is to an open cell.
pub open spec fn pending(s: BState, q: Queue) -> bool {
    exists|j: int| 0 <= j < q.len && s.open(entry_cell(#[trigger] q.buf[j]))
}

/// `g` is a complete grid that the boards admit and that makes the queued
/// assignments.
pub open spec fn model(s: BState, q: Queue, g: Seq<u8>) -> bool {
    is_grid(g) && admits(s.bands@, g) && q.agrees(g)
}

/// The models are the same before and after.
pub open spec fn same_models(s0: BState, q0: Queue, s: BState, q: Queue) -> bool {
    forall|g: Seq<u8>| #[trigger] model(s0, q0, g) <==> model(s, q, g)
}

/// There is no model.
pub open spec fn no_models(s: BState, q: Queue) -> bool {
    forall|g: Seq<u8>| !#[trigger] model(s, q, g)
}

proof fn lemma_models_trans(
    s0: BState,
    q0: Queue,
    s1: BState,
    q1: Queue,
    s: BState,
    q: Queue,
)
    requires
        same_models(s0, q0, s1, q1),
        same_models(s1, q1, s, q),
    ensures
        same_models(s0, q0, s, q),
{
    assert forall|g: Seq<u8>| #[trigger] model(s0, q0, g) <==> model(s, q, g) by {
        assert(model(s0, q0, g) <==> model(s1, q1, g));
        assert(model(s1, q1, g) <==> model(s, q, g));
    }
}

/// Nothing is left after equivalent steps to nothing.
proof fn lemma_models_none(s0: BState, q0: Queue, s: BState, q: Queue)
    requires
        same_models(s0, q0, s, q),
        no_models(s, q),
    ensures
        no_models(s0, q0),
{
    assert forall|g: Seq<u8>| !#[trigger] model(s0, q0, g) by {
        assert(!model(s, q, g));
    }
}

/// A scan that queues what is implied changes no models.
proof fn lemma_scan_models(s1: BState, q1: Queue, s: BState, q: Queue)
    requires
        q1.len == 0,
        s.bands@.len() == 27,
        within(s.bands@, s1.bands@),
        keeps(s1.bands@, s.bands@),
        pushed(q1, q, s),
    ensures
        same_models(s1, q1, s, q),
{
    assert forall|g: Seq<u8>| #[trigger] model(s1, q1, g) <==> model(s, q, g) by {
        if is_grid(g) && admits(s.bands@, g) {
            lemma_within_admits(s.bands@, s1.bands@, g);
            assert forall|j: int| 0 <= j < q.len implies g[entry_cell(#[trigger] q.buf[j])]
                == entry_digit(q.buf[j]) + 1 by {}
        }
    }
}

/// A cell queued by a scan is open.
proof fn lemma_scan_pending(q1: Queue, q: Queue, s: BState)
    requires
        q1.len == 0,
        pushed(q1, q, s),
    ensures
        q.len > 0 ==> pending(s, q),
        q.len == 0 ==> !pending(s, q),
{
    if q.len > 0 {
        assert(s.open(entry_cell(q.buf[0])));
    }
}

/// An open cell is counted.
proof fn lemma_open_counted(s: BState, c: int)
    requires
        s.shape(),
        0 <= c < 81,
        s.open(c),
    ensures
        s.n_unsolved >= 1,
{
    let u = s.unsolved[c / 27];
    let f = |i: int| bit32(u, i);
    assert(f(c % 27));
    lemma_count_some(f, 32, c % 27);
    assert(c / 27 == 0 || c / 27 == 1 || c / 27 == 2);
}

/// How far the propagation has to go: open cells, less the one that a queued
/// assignment will close.
pub open spec fn weight(s: BState, q: Queue) -> int {
    2 * s.n_unsolved - if pending(s, q) {
        1int
    } else {
        0int
    }
}

proof fn lemma_weight(s: BState, q: Queue)
    requires
        s.shape(),
        q.ok(),
    ensures
        weight(s, q) >= 0,
{
    if pending(s, q) {
        let j = choose|j: int| 0 <= j < q.len && s.open(entry_cell(#[trigger] q.buf[j]));
        lemma_entry(q.buf[j]);
        lemma_open_counted(s, entry_cell(q.buf[j]));
    }
}

/// An entry names a cell and a digit.
proof fn lemma_entry(e: u16)
    requires
        entry_ok(e),
    ensures
        0 <= entry_cell(e) < 81,
        0 <= entry_digit(e) < 9,
        entry_cell(e) == 27 * ((e / 32) % 3) + e % 32,
        entry_digit(e) == (e / 32) / 3,
{
}

/// Stack `bi` is reduced for digit `d`: the digit has a permutation there, and
/// all its candidates lie in permutations.
pub open spec fn stack_reduced(bs: Seq<u32>, bi: int, d: int) -> bool {
    reduced(bs, bs, bi, d)
}

/// Stack `bi` is reduced for digit `d`, and its hidden singles are queued.
pub open spec fn stack_done(s: BState, q: Queue, bi: int, d: int) -> bool {
    stack_reduced(s.bands@, bi, d) && singles_queued(s, q, bi, d, 3)
}

/// What is not due for a scan needs none: of a word that is not marked the
/// hidden singles are queued, in a band that is not marked every open cell
/// has a candidate and the naked singles are queued, and a digit that is not
/// marked is reduced over the stacks and its hidden singles there are queued.
pub open spec fn due_marked(s: BState, q: Queue) -> bool {
    &&& forall|b: int, d: int|
        0 <= b < 3 && 0 <= d < 9 && !#[trigger] bit32(s.dirty_bd, 3 * d + b) ==> singles_queued(
            s,
            q,
            b,
            d,
            3,
        )
    &&& forall|b: int, p: int|
        0 <= b < 3 && !bit16(s.dirty_cells, b) && #[trigger] bit32(s.unsolved[b], p) ==> digits_at(
            s.bands@,
            b,
            p,
            9,
        ) >= 1 && naked_queued(s, q, b, p)
    &&& forall|bi: int, d: int|
        3 <= bi < 6 && 0 <= d < 9 && !bit16(s.tdirty, d) ==> #[trigger] stack_done(s, q, bi, d)
}

/// Digit `d` has no hidden single in the lines of band `bi` that are not
/// recorded as solved.
pub open spec fn no_single(s: BState, bi: int, d: int) -> bool {
    forall|l: int, x: int|
        0 <= l < 3 && 0 <= x < 9 && #[trigger] lone(s.bands@, bi, d, l, x) ==> line_solved(
            s,
            bi,
            l,
            d,
        )
}

/// No scan has anything left to do: every open cell has two candidates or
/// more and no row has a hidden single; and, while cells are open, every
/// digit is reduced over the stacks and no column has a hidden single.
pub open spec fn at_fixpoint(s: BState) -> bool {
    &&& forall|b: int, p: int|
        0 <= b < 3 && #[trigger] bit32(s.unsolved[b], p) ==> digits_at(s.bands@, b, p, 9) >= 2
    &&& forall|b: int, d: int| 0 <= b < 3 && 0 <= d < 9 ==> #[trigger] no_single(s, b, d)
    &&& s.n_unsolved > 0 ==> forall|bi: int, d: int|
        3 <= bi < 6 && 0 <= d < 9 ==> #[trigger] stack_reduced(s.bands@, bi, d) && no_single(
            s,
            bi,
            d,
        )
}

/// A row or column recorded for a digit has a cell settled on it.
pub open spec fn records_true(s: BState) -> bool {
    &&& forall|d: int, r: int|
        0 <= d < 9 && #[trigger] bit16(s.solved_rows[d], r) ==> row_settled(s.bands@, r, d)
    &&& forall|d: int, r: int|
        0 <= d < 9 && #[trigger] bit16(s.solved_cols[d], r) ==> col_settled(s.bands@, r, d)
}

/// A cell of row `r` is settled on digit `d`.
pub open spec fn row_settled(bs: Seq<u32>, r: int, d: int) -> bool {
    exists|c: int| 0 <= c < 81 && c / 9 == r && #[trigger] settled_as(cands(bs), c, d)
}

/// A cell of column `r` is settled on digit `d`.
pub open spec fn col_settled(bs: Seq<u32>, r: int, d: int) -> bool {
    exists|c: int| 0 <= c < 81 && c % 9 == r && #[trigger] settled_as(cands(bs), c, d)
}

/// Records stay true as candidates shrink.
proof fn lemma_records_kept(s0: BState, s: BState)
    requires
        records_true(s0),
        s.bands@.len() == 27,
        within(s.bands@, s0.bands@),
        s.solved_rows == s0.solved_rows,
        s.solved_cols == s0.solved_cols,
    ensures
        records_true(s),
{
    assert forall|d: int, r: int| 0 <= d < 9 && #[trigger] bit16(s.solved_rows[d], r) implies
        row_settled(s.bands@, r, d) by {
        assert(row_settled(s0.bands@, r, d));
        let c = choose|c: int|
            0 <= c < 81 && c / 9 == r && #[trigger] settled_as(cands(s0.bands@), c, d);
        lemma_settled_within(s0.bands@, s.bands@, c, d);
    }
    assert forall|d: int, r: int| 0 <= d < 9 && #[trigger] bit16(s.solved_cols[d], r) implies
        col_settled(s.bands@, r, d) by {
        assert(col_settled(s0.bands@, r, d));
        let c = choose|c: int|
            0 <= c < 81 && c % 9 == r && #[trigger] settled_as(cands(s0.bands@), c, d);
        lemma_settled_within(s0.bands@, s.bands@, c, d);
    }
}

/// An assignment records what it settles.
proof fn lemma_records_placed(s0: BState, s: BState, c: int, d: int)
    requires
        records_true(s0),
        0 <= c < 81,
        0 <= d < 9,
        s.bands@.len() == 27,
        within(s.bands@, s0.bands@),
        placed(s0.bands@, s.bands@, c, d),
        records_from(s0, s, c, d),
    ensures
        records_true(s),
{
    assert(settled_as(cands(s.bands@), c, d)) by {
        assert forall|e: int| 0 <= e < 9 && e != d implies !#[trigger] cands(s.bands@)(c, e) by {
            assert(!cand(s.bands@, c, e));
        }
        assert forall|x: int| 0 <= x < 81 && peers(c, x) implies !#[trigger] cands(s.bands@)(
            x,
            d,
        ) by {
            assert(!cand(s.bands@, x, d));
        }
    }
    assert forall|e: int, r: int| 0 <= e < 9 && #[trigger] bit16(s.solved_rows[e], r) implies
        row_settled(s.bands@, r, e) by {
        if bit16(s0.solved_rows[e], r) {
            assert(row_settled(s0.bands@, r, e));
            let x = choose|x: int|
                0 <= x < 81 && x / 9 == r && #[trigger] settled_as(cands(s0.bands@), x, e);
            lemma_settled_within(s0.bands@, s.bands@, x, e);
        }
    }
    assert forall|e: int, r: int| 0 <= e < 9 && #[trigger] bit16(s.solved_cols[e], r) implies
        col_settled(s.bands@, r, e) by {
        if bit16(s0.solved_cols[e], r) {
            assert(col_settled(s0.bands@, r, e));
            let x = choose|x: int|
                0 <= x < 81 && x % 9 == r && #[trigger] settled_as(cands(s0.bands@), x, e);
            lemma_settled_within(s0.bands@, s.bands@, x, e);
        }
    }
}

/// The permutations of a word are those of its band of rows.
proof fn lemma_row_laid(bs: Seq<u32>, b: int, d: int)
    requires
        0 <= b < 3,
        0 <= d < 9,
        boards_ok(bs),
    ensures
        supported(bs[9 * b + d]) <==> placeable(bs, b, d),
        forall|i: int| #[trigger] laid(bs, b, d, i) <==> in_some_perm(bs[9 * b + d], i),
{
    lemma_views_row(bs, b, d);
    lemma_view_laid(bs[9 * b + d], bs, b, d);
}

/// A scan of a word cuts the digit down to its permutations.
proof fn lemma_scan_spares(a: Seq<u32>, n: Seq<u32>, b: int, d: int)
    requires
        0 <= b < 3,
        0 <= d < 9,
        boards_ok(a),
        n.len() == 27,
        closure_of(n[9 * b + d], a[9 * b + d]),
        forall|i: int| 0 <= i < 27 && i != 9 * b + d ==> #[trigger] n[i] == a[i],
    ensures
        spares(a, n, false),
{
    lemma_row_laid(a, b, d);
    assert(closed_off(a, n, b, d)) by {
        assert forall|x: int, e: int| 0 <= x < 81 && 0 <= e < 9 implies (#[trigger] cand(n, x, e)
            <==> cand(a, x, e) && (e == d && in_band(b, x) ==> laid(
            a,
            b,
            d,
            band_pos(b, x) / 3,
        ))) by {
            let i = 9 * (x / 27) + e;
            if i == 9 * b + d {
                assert(e == d && x / 27 == b);
                assert(laid(a, b, d, (x % 27) / 3) <==> in_some_perm(a[9 * b + d], (x % 27) / 3));
            } else {
                assert(n[i] == a[i]);
            }
        }
    }
    lemma_spares_cut(a, n, b, d);
}

/// A pass over the stacks cuts digits down to their permutations.
proof fn lemma_stacks_spare(a: Seq<u32>, n: Seq<u32>, digits: u16)
    requires
        boards_ok(a),
        n.len() == 27,
        stacks_cut(a, n, digits, 6),
    ensures
        spares(a, n, false),
{
    assert forall|f: Seq<u32>| #[trigger] rests(f, false) && within(f, a) implies within(f, n) by {
        assert(f.len() == 27) by {
            reveal(rests);
        }
        assert forall|x: int, e: int| 0 <= x < 81 && 0 <= e < 9 && #[trigger] cand(
            f,
            x,
            e,
        ) implies cand(n, x, e) by {
            lemma_cand(f, a, x, e);
            assert forall|k: int| 3 <= k < 6 && #[trigger] in_band(k, x) implies laid(
                a,
                k,
                e,
                band_pos(k, x) / 3,
            ) by {
                reveal(rests);
                assert(reduced(f, f, k, e));
                lemma_through_within(f, a, k, e);
                assert(laid(f, k, e, band_pos(k, x) / 3));
            }
        }
        lemma_within(f, n, a);
    }
}

/// What a scan queues is forced.
proof fn lemma_scan_nests(s1: BState, q1: Queue, s: BState, q: Queue)
    requires
        q1.len == 0,
        within(s.bands@, s1.bands@),
        spares(s1.bands@, s.bands@, false),
        pushed(q1, q, s),
    ensures
        same_nests(s1.bands@, q1.asks(), s.bands@, q.asks(), false),
{
    assert(q1.asks() =~= Set::<(int, int)>::empty()) by {
        assert forall|c: int, d: int| !q1.has(c, d) by {}
    }
    assert forall|c: int, d: int| #[trigger] q.asks().contains((c, d)) implies forced(
        s.bands@,
        c,
        d,
    ) by {
        let j = choose|j: int|
            0 <= j < q.len && entry_cell(#[trigger] q.buf[j]) == c && entry_digit(q.buf[j]) == d;
        assert(implied(s.bands@, entry_cell(q.buf[j]), entry_digit(q.buf[j])));
    }
    lemma_step_nests(s1.bands@, s.bands@, q.asks(), false);
}

/// At the fixpoint the boards are at rest.
proof fn lemma_rests(s: BState)
    requires
        s.rested(),
        at_fixpoint(s),
        records_true(s),
    ensures
        rests(s.bands@, false),
        forall|c: int| 0 <= c < 81 ==> (s.open(c) <==> #[trigger] choices(s.bands@, c) >= 2),
{
    let bs = s.bands@;
    assert forall|b: int, d: int| 0 <= b < 3 && 0 <= d < 9 implies #[trigger] reduced(
        bs,
        bs,
        b,
        d,
    ) by {
        assert(!bit32(0u32, 3 * d + b));
        let m = bs[9 * b + d];
        assert(closed_word(s.bands[9 * b + d]));
        lemma_row_laid(bs, b, d);
        reveal(closed_word);
        assert forall|x: int| 0 <= x < 81 && in_band(b, x) && #[trigger] cand(bs, x, d) implies laid(
            bs,
            b,
            d,
            band_pos(b, x) / 3,
        ) by {
            assert(bit32(m, x % 27));
            assert(in_some_perm(m, (x % 27) / 3));
        }
    }
    assert forall|c: int| 0 <= c < 81 && !s.open(c) implies #[trigger] choices(bs, c) < 2 by {
        assert(settled(cands(bs), c));
        let d = choose|d: int| #[trigger] settled_as(cands(bs), c, d);
        let f = |e: int| bit32(bs[9 * (c / 27) + e], c % 27);
        if crate::bits::count(f, 9) >= 2 {
            let a = lemma_count_witness(f, 9);
            let b = crate::bits::lemma_count_second(f, 9, a);
            assert(cands(bs)(c, a) && cands(bs)(c, b));
        }
    }
    assert forall|c: int| 0 <= c < 81 && s.open(c) implies #[trigger] choices(bs, c) >= 2 by {
        assert(bit32(s.unsolved[c / 27], c % 27));
    }
    if s.n_unsolved == 0 {
        let g = s.lemma_solved();
        lemma_grid_rests(bs, g, false);
    } else {
        reveal(rests);
        assert forall|c: int| 0 <= c < 81 implies #[trigger] filled(bs, c) by {
            if s.open(c) {
                assert(choices(bs, c) >= 2);
                let f = |e: int| bit32(bs[9 * (c / 27) + e], c % 27);
                let d = lemma_count_witness(f, 9);
                assert(f(d));
                assert(cand(bs, c, d));
            } else {
                assert(settled(cands(bs), c));
                let d = choose|d: int| #[trigger] settled_as(cands(bs), c, d);
                let (b, l, x) = (c / 27, (c % 27) / 9, c % 9);
                assert(c == line_cell(b, l, x));
                assert(reduced(bs, bs, b, d));
                let y = lemma_line_place(bs, b, d, l);
                if y != x {
                    lemma_line_peers(b, l, x, y);
                    assert(!cands(bs)(line_cell(b, l, y), d));
                }
                assert(cand(bs, c, d));
            }
        }
        assert forall|c: int, d: int, x: int|
            0 <= c < 81 && 0 <= x < 81 && 0 <= d < 9 && #[trigger] sole(bs, c, d)
                && #[trigger] peers(c, x) implies !cand(bs, x, d) by {
            if s.open(c) {
                assert(choices(bs, c) >= 2);
                let f = |e: int| bit32(bs[9 * (c / 27) + e], c % 27);
                let a = lemma_count_witness(f, 9);
                let b = crate::bits::lemma_count_second(f, 9, a);
                assert(cand(bs, c, a) && cand(bs, c, b));
            } else {
                assert(settled(cands(bs), c));
                let e = choose|e: int| #[trigger] settled_as(cands(bs), c, e);
                assert(cands(bs)(c, d));
                assert(e == d);
                assert(!cands(bs)(x, d));
            }
        }
        assert forall|bi: int, d: int, l: int, x: int|
            0 <= bi < 6 && 0 <= d < 9 && 0 <= l < 3 && 0 <= x < 9 && #[trigger] lone(
                bs,
                bi,
                d,
                l,
                x,
            ) implies sole(bs, line_cell(bi, l, x), d) by {
            assert(no_single(s, bi, d)) by {
                if bi >= 3 {
                    assert(stack_reduced(bs, bi, d));
                }
            }
            assert(line_solved(s, bi, l, d));
            if bi < 3 {
                assert(row_settled(bs, 3 * bi + l, d));
                let c = choose|c: int|
                    0 <= c < 81 && c / 9 == 3 * bi + l && #[trigger] settled_as(cands(bs), c, d);
                assert(c == line_cell(bi, l, c % 9));
                lemma_settled_lone(bs, c, d, bi, l, x);
            } else {
                assert(col_settled(bs, 3 * (bi - 3) + l, d));
                let c = choose|c: int|
                    0 <= c < 81 && c % 9 == 3 * (bi - 3) + l && #[trigger] settled_as(
                        cands(bs),
                        c,
                        d,
                    );
                assert(c == line_cell(bi, l, c / 9));
                lemma_settled_lone(bs, c, d, bi, l, x);
            }
        }
        assert forall|bi: int, d: int| 0 <= bi < 6 && 0 <= d < 9 implies #[trigger] reduced(
            bs,
            bs,
            bi,
            d,
        ) by {
            if bi >= 3 {
                assert(stack_reduced(bs, bi, d));
            }
        }
    }
}

/// What was queued is queued, or is done.
spec fn queue_done(q1: Queue, s: BState, q: Queue) -> bool {
    forall|c: int, d: int| #[trigger]
        q1.has(c, d) ==> q.has(c, d) || (0 <= c < 81 && s.marked(c, d) && !s.open(c))
}

/// A cell recorded for a digit has its lines recorded.
proof fn lemma_line_recorded(s: BState, bi: int, l: int, x: int, d: int)
    requires
        0 <= bi < 6,
        0 <= l < 3,
        0 <= x < 9,
        s.marked(line_cell(bi, l, x), d),
    ensures
        line_solved(s, bi, l, d),
{
    let c = line_cell(bi, l, x);
    if bi < 3 {
        assert(c / 9 == 3 * bi + l);
    } else {
        assert(c % 9 == 3 * (bi - 3) + l);
    }
}

/// Queued hidden singles of an unchanged digit stay queued or are done.
proof fn lemma_singles_carried(s1: BState, q1: Queue, s: BState, q: Queue, bi: int, e: int)
    requires
        0 <= bi < 6,
        0 <= e < 9,
        singles_queued(s1, q1, bi, e, 3),
        records_kept(s1, s),
        queue_done(q1, s, q),
        forall|x: int|
            0 <= x < 81 && in_band(bi, x) ==> (#[trigger] cand(s1.bands@, x, e) <==> cand(
                s.bands@,
                x,
                e,
            )),
    ensures
        singles_queued(s, q, bi, e, 3),
{
    lemma_same_laid(s1.bands@, s.bands@, bi, e);
    assert forall|l: int, x: int|
        0 <= l < 3 && 0 <= x < 9 && !line_solved(s, bi, l, e) && #[trigger] lone(
            s.bands@,
            bi,
            e,
            l,
            x,
        ) implies q.has(line_cell(bi, l, x), e) by {
        assert(lone(s1.bands@, bi, e, l, x));
        assert(!line_solved(s1, bi, l, e));
        assert(q1.has(line_cell(bi, l, x), e));
        if s.marked(line_cell(bi, l, x), e) {
            lemma_line_recorded(s, bi, l, x, e);
        }
    }
}

/// Cells of an unchanged band keep their candidates, and their queued singles.
proof fn lemma_naked_carried(s1: BState, q1: Queue, s: BState, q: Queue, b: int, p: int)
    requires
        0 <= b < 3,
        0 <= p < 27,
        bit32(s.unsolved[b], p),
        digits_at(s1.bands@, b, p, 9) >= 1,
        naked_queued(s1, q1, b, p),
        queue_done(q1, s, q),
        forall|e: int| 0 <= e < 9 ==> #[trigger] s.bands[9 * b + e] == s1.bands[9 * b + e],
    ensures
        digits_at(s.bands@, b, p, 9) >= 1,
        naked_queued(s, q, b, p),
{
    let f = |e: int| bit32(s1.bands@[9 * b + e], p);
    let g = |e: int| bit32(s.bands@[9 * b + e], p);
    assert forall|e: int| 0 <= e < 9 && f(e) implies #[trigger] g(e) by {
        assert(s.bands[9 * b + e] == s1.bands[9 * b + e]);
    }
    assert forall|e: int| 0 <= e < 9 && g(e) implies #[trigger] f(e) by {
        assert(s.bands[9 * b + e] == s1.bands[9 * b + e]);
    }
    lemma_count_mono(f, g, 9);
    lemma_count_mono(g, f, 9);
    if digits_at(s.bands@, b, p, 9) == 1 {
        assert forall|d: int| 0 <= d < 9 && bit32(#[trigger] s.bands[9 * b + d], p) implies q.has(
            27 * b + p,
            d,
        ) by {
            assert(bit32(s1.bands[9 * b + d], p));
            assert(q1.has(27 * b + p, d));
            let c = 27 * b + p;
            assert(c / 27 == b && c % 27 == p);
            assert(s.open(c));
        }
    }
}

/// An unchanged digit stays reduced over a stack.
proof fn lemma_stack_carried(s1: BState, s: BState, bi: int, e: int)
    requires
        3 <= bi < 6,
        0 <= e < 9,
        stack_reduced(s1.bands@, bi, e),
        forall|x: int| 0 <= x < 81 ==> (#[trigger] cand(s1.bands@, x, e) <==> cand(s.bands@, x, e)),
    ensures
        stack_reduced(s.bands@, bi, e),
{
    lemma_same_laid(s1.bands@, s.bands@, bi, e);
    assert forall|x: int| 0 <= x < 81 && in_band(bi, x) && #[trigger] cand(
        s.bands@,
        x,
        e,
    ) implies laid(s.bands@, bi, e, band_pos(bi, x) / 3) by {
        assert(cand(s1.bands@, x, e));
        assert(laid(s1.bands@, bi, e, band_pos(bi, x) / 3));
    }
}

/// A digit whose words are unchanged has the same candidates.
proof fn lemma_same_words(a: BState, b: BState, e: int)
    requires
        0 <= e < 9,
        forall|k: int| 0 <= k < 3 ==> #[trigger] b.bands[9 * k + e] == a.bands[9 * k + e],
    ensures
        forall|x: int| 0 <= x < 81 ==> (#[trigger] cand(a.bands@, x, e) <==> cand(b.bands@, x, e)),
{
    assert forall|x: int| 0 <= x < 81 implies (#[trigger] cand(a.bands@, x, e) <==> cand(
        b.bands@,
        x,
        e,
    )) by {
        let k = x / 27;
        assert(b.bands[9 * k + e] == a.bands[9 * k + e]);
    }
}

/// A step that marks what it changes, and that queues or makes what was
/// queued, leaves nothing out, but for what it took off the lists itself.
proof fn lemma_due_kept(s1: BState, q1: Queue, s: BState, q: Queue, word: int, band: int, all: bool)
    requires
        s1.shape(),
        s.shape(),
        due_marked(s1, q1),
        records_kept(s1, s),
        queue_done(q1, s, q),
        forall|c: int| 0 <= c < 81 && #[trigger] s.open(c) ==> s1.open(c),
        forall|b: int, e: int|
            0 <= b < 3 && 0 <= e < 9 && !#[trigger] bit32(s.dirty_bd, 3 * e + b) ==> {
                ||| 3 * e + b == word && singles_queued(s, q, b, e, 3)
                ||| !bit32(s1.dirty_bd, 3 * e + b) && s.bands[9 * b + e] == s1.bands[9 * b + e]
            },
        forall|b: int|
            0 <= b < 3 && !#[trigger] bit16(s.dirty_cells, b) ==> {
                ||| b == band
                ||| !bit16(s1.dirty_cells, b) && forall|e: int|
                    0 <= e < 9 ==> #[trigger] s.bands[9 * b + e] == s1.bands[9 * b + e]
            },
        0 <= band < 3 ==> forall|p: int| #[trigger]
            bit32(s.unsolved[band], p) ==> digits_at(s.bands@, band, p, 9) >= 1 && naked_queued(
                s,
                q,
                band,
                p,
            ),
        !all ==> digits_marked(s1, s),
        all ==> forall|bi: int, d: int|
            3 <= bi < 6 && 0 <= d < 9 && !bit16(s.tdirty, d) ==> #[trigger] stack_done(s, q, bi, d),
    ensures
        due_marked(s, q),
{
    assert forall|b: int, d: int| 0 <= b < 3 && 0 <= d < 9 && !#[trigger] bit32(
        s.dirty_bd,
        3 * d + b,
    ) implies singles_queued(s, q, b, d, 3) by {
        if !(3 * d + b == word && singles_queued(s, q, b, d, 3)) {
            assert(!bit32(s1.dirty_bd, 3 * d + b));
            assert forall|x: int| 0 <= x < 81 && in_band(b, x) implies (#[trigger] cand(
                s1.bands@,
                x,
                d,
            ) <==> cand(s.bands@, x, d)) by {}
            lemma_singles_carried(s1, q1, s, q, b, d);
        }
    }
    assert forall|b: int, p: int| 0 <= b < 3 && !bit16(s.dirty_cells, b) && #[trigger] bit32(
        s.unsolved[b],
        p,
    ) implies digits_at(s.bands@, b, p, 9) >= 1 && naked_queued(s, q, b, p) by {
        if b != band {
            lemma_small32(s.unsolved[b], p);
            let c = 27 * b + p;
            assert(c / 27 == b && c % 27 == p);
            assert(s.open(c));
            assert(bit32(s1.unsolved[b], p));
            lemma_naked_carried(s1, q1, s, q, b, p);
        }
    }
    assert forall|bi: int, d: int| 3 <= bi < 6 && 0 <= d < 9 && !bit16(
        s.tdirty,
        d,
    ) implies #[trigger] stack_done(s, q, bi, d) by {
        if !all {
            assert(!bit16(s1.tdirty, d));
            assert(stack_done(s1, q1, bi, d));
            lemma_same_words(s1, s, d);
            lemma_stack_carried(s1, s, bi, d);
            lemma_singles_carried(s1, q1, s, q, bi, d);
        }
    }
}

/// With no marks and nothing queued there is nothing left to do.
proof fn lemma_at_fixpoint(s: BState, q: Queue)
    requires
        s.shape(),
        due_marked(s, q),
        q.len == 0,
        s.dirty_bd == 0,
        s.dirty_cells == 0,
        s.n_unsolved == 0 || s.tdirty == 0,
    ensures
        at_fixpoint(s),
{
    assert forall|b: int, d: int| 0 <= b < 3 && 0 <= d < 9 implies #[trigger] no_single(s, b, d) by {
        assert(!bit32(0u32, 3 * d + b));
        assert(singles_queued(s, q, b, d, 3));
    }
    assert forall|b: int, p: int| 0 <= b < 3 && #[trigger] bit32(
        s.unsolved[b],
        p,
    ) implies digits_at(s.bands@, b, p, 9) >= 2 by {
        assert(!bit16(0u16, b));
        assert(naked_queued(s, q, b, p));
        if digits_at(s.bands@, b, p, 9) == 1 {
            let f = |e: int| bit32(s.bands@[9 * b + e], p);
            let d = lemma_count_witness(f, 9);
            assert(f(d));
            assert(bit32(s.bands[9 * b + d], p));
            assert(q.has(27 * b + p, d));
        }
    }
    if s.n_unsolved > 0 {
        assert forall|bi: int, d: int| 3 <= bi < 6 && 0 <= d < 9 implies #[trigger] stack_reduced(
            s.bands@,
            bi,
            d,
        ) && no_single(s, bi, d) by {
            assert(!bit16(0u16, d));
            assert(stack_done(s, q, bi, d));
            assert(singles_queued(s, q, bi, d, 3));
        }
    }
}

impl BState {
    /// Makes the queued assignments; false, with an empty queue, if one of
    /// them is impossible.
    fn drain(&mut self, q: &mut Queue, t: &Tables) -> (r: bool)
        requires
            old(self).ok(),
            t.ok(),
            old(q).ok(),
            due_marked(*old(self), *old(q)),
            records_true(*old(self)),
        ensures
            final(q).ok(),
            final(q).len == 0,
            within(final(self).bands@, old(self).bands@),
            !r ==> no_models(*old(self), *old(q)),
            !r ==> refuted(old(self).bands@, old(q).asks(), false),
            r ==> {
                &&& final(self).ok()
                &&& due_marked(*final(self), *final(q))
                &&& records_true(*final(self))
                &&& same_nests(
                    old(self).bands@,
                    old(q).asks(),
                    final(self).bands@,
                    final(q).asks(),
                    false,
                )
                &&& same_models(*old(self), *old(q), *final(self), *final(q))
                &&& pending(*old(self), *old(q)) ==> final(self).n_unsolved < old(self).n_unsolved
                &&& !pending(*old(self), *old(q)) ==> *final(self) == *old(self)
            },
    {
        let ghost s0 = *self;
        let ghost q0 = *q;
        while q.len > 0
            invariant
                s0 == *old(self),
                q0 == *old(q),
                self.ok(),
                t.ok(),
                q0.ok(),
                q.ok(),
                q.len <= q0.len,
                q.buf@ == q0.buf@,
                due_marked(*self, *q),
                records_true(*self),
                same_nests(s0.bands@, q0.asks(), self.bands@, q.asks(), false),
                same_models(s0, q0, *self, *q),
                within(self.bands@, s0.bands@),
                self.n_unsolved <= s0.n_unsolved,
                self.n_unsolved == s0.n_unsolved ==> *self == s0 && forall|j: int|
                    q.len <= j < q0.len ==> !s0.open(entry_cell(#[trigger] q0.buf[j])),
                !pending(s0, q0) ==> *self == s0,
            decreases q.len,
        {
            let ghost s1 = *self;
            let ghost q1 = *q;
            match q.pop() {
                None => {
                    return true;
                },
                Some(e) => {
                    let i = (e % 32) as usize;
                    let db = (e / 32) as usize;
                    let ghost (c, d) = (entry_cell(e), entry_digit(e));
                    proof {
                        lemma_entry(e);
                        assert(e == q0.buf[q.len as int]);
                        assert forall|g: Seq<u8>| #[trigger] q1.agrees(g) <==> q.agrees(g) && g[c]
                            == d + 1 by {
                            if q1.agrees(g) {
                                assert forall|j: int| 0 <= j < q.len implies g[entry_cell(
                                    #[trigger] q.buf[j],
                                )] == entry_digit(q.buf[j]) + 1 by {
                                    assert(q.buf[j] == q1.buf[j]);
                                }
                                assert(q1.buf[q.len as int] == e);
                            }
                            if q.agrees(g) && g[c] == d + 1 {
                                assert forall|j: int| 0 <= j < q1.len implies g[entry_cell(
                                    #[trigger] q1.buf[j],
                                )] == entry_digit(q1.buf[j]) + 1 by {
                                    if j < q.len {
                                        assert(q.buf[j] == q1.buf[j]);
                                    }
                                }
                            }
                        }
                    }
                    proof {
                        assert forall|x: int, y: int| #[trigger]
                            q1.asks().contains((x, y)) <==> q.asks().contains((x, y)) || (x == c
                                && y == d) by {
                            if q1.has(x, y) {
                                let j = choose|j: int|
                                    0 <= j < q1.len && entry_cell(#[trigger] q1.buf[j]) == x
                                        && entry_digit(q1.buf[j]) == y;
                                if j < q.len {
                                    assert(q.buf[j] == q1.buf[j]);
                                }
                            }
                            if q.has(x, y) {
                                let j = choose|j: int|
                                    0 <= j < q.len && entry_cell(#[trigger] q.buf[j]) == x
                                        && entry_digit(q.buf[j]) == y;
                                assert(q1.buf[j] == q.buf[j]);
                            }
                            assert(q1.buf[q.len as int] == e);
                        }
                    }
                    if !self.assign(db / 3, db % 3, i, t) {
                        proof {
                            assert(q1.asks().contains((c, d)));
                            lemma_missing_refuted(s1.bands@, c, d, q1.asks(), false);
                            lemma_refuted_back(
                                s0.bands@,
                                q0.asks(),
                                s1.bands@,
                                q1.asks(),
                                false,
                            );
                            assert forall|g: Seq<u8>| !#[trigger] model(s1, q1, g) by {
                                if model(s1, q1, g) {
                                    reveal(admits);
                                    lemma_grid_facts(g);
                                    assert(cand(s1.bands@, c, g[c] - 1));
                                }
                            }
                            lemma_models_none(s0, q0, s1, q1);
                        }
                        q.clear();
                        return false;
                    }
                    proof {
                        assert(same_models(s1, q1, *self, *q)) by {
                            assert forall|g: Seq<u8>| #[trigger] model(s1, q1, g) <==> model(
                                *self,
                                *q,
                                g,
                            ) by {
                                if is_grid(g) {
                                    if s1.open(c) {
                                        lemma_placed(s1.bands@, self.bands@, c, d, g);
                                    } else if admits(s1.bands@, g) {
                                        lemma_settled_digit(s1.bands@, g, c, d);
                                    }
                                }
                            }
                        }
                        lemma_models_trans(s0, q0, s1, q1, *self, *q);
                        if s1.open(c) {
                            lemma_placed_nests(
                                s1.bands@,
                                self.bands@,
                                c,
                                d,
                                q1.asks(),
                                q.asks(),
                                false,
                            );
                            lemma_records_placed(s1, *self, c, d);
                        } else {
                            assert(settled(cands(s1.bands@), c));
                            let z = choose|z: int| #[trigger]
                                settled_as(cands(s1.bands@), c, z);
                            assert(cands(s1.bands@)(c, d));
                            assert forall|y: int| 0 <= y < 9 && #[trigger] cand(
                                s1.bands@,
                                c,
                                y,
                            ) implies y == d by {
                                assert(cands(s1.bands@)(c, y));
                            }
                            lemma_held_nests(s1.bands@, c, d, q1.asks(), q.asks(), false);
                        }
                        lemma_nests_trans(
                            s0.bands@,
                            q0.asks(),
                            s1.bands@,
                            q1.asks(),
                            self.bands@,
                            q.asks(),
                            false,
                        );
                        if s1.open(c) {
                            lemma_within_trans(self.bands@, s1.bands@, s0.bands@);
                        }
                        assert(self.marked(c, d) && !self.open(c));
                        assert(queue_done(q1, *self, *q)) by {
                            assert forall|x: int, e: int| #[trigger] q1.has(x, e) implies q.has(
                                x,
                                e,
                            ) || (0 <= x < 81 && self.marked(x, e) && !self.open(x)) by {
                                let j = choose|j: int|
                                    0 <= j < q1.len && entry_cell(#[trigger] q1.buf[j]) == x
                                        && entry_digit(q1.buf[j]) == e;
                                if j < q.len {
                                    assert(q.buf[j] == q1.buf[j]);
                                }
                            }
                        }
                        lemma_due_kept(s1, q1, *self, *q, -1, -1, false);
                    }
                },
            }
        }
        proof {
            if pending(s0, q0) && self.n_unsolved == s0.n_unsolved {
                let j = choose|j: int|
                    0 <= j < q0.len && s0.open(entry_cell(#[trigger] q0.buf[j]));
            }
        }
        true
    }
}


impl BState {
    /// No word is due for a scan, so every word is closed.
    pub open spec fn rested(&self) -> bool {
        self.ok() && self.dirty_bd == 0
    }

    /// Makes the queued assignments and runs the scans to their fixpoint;
    /// false if no grid is left. What is not marked as due at the start must
    /// need no scan.
    pub fn propagate(&mut self, q: &mut Queue, t: &Tables) -> (r: bool)
        requires
            old(self).ok(),
            t.ok(),
            old(q).ok(),
            due_marked(*old(self), *old(q)),
            records_true(*old(self)),
        ensures
            final(q).ok(),
            final(q).len == 0,
            within(final(self).bands@, old(self).bands@),
            !r ==> no_models(*old(self), *old(q)),
            !r ==> refuted(old(self).bands@, old(q).asks(), false),
            r ==> {
                &&& final(self).rested()
                &&& at_fixpoint(*final(self))
                &&& records_true(*final(self))
                &&& closes_to(old(self).bands@, old(q).asks(), false, final(self).bands@)
                &&& due_marked(*final(self), *final(q))
                &&& final(self).dirty_cells == 0
                &&& final(self).n_unsolved == 0 || final(self).tdirty == 0
                &&& same_models(*old(self), *old(q), *final(self), *final(q))
                &&& final(self).n_unsolved <= old(self).n_unsolved
                &&& pending(*old(self), *old(q)) ==> final(self).n_unsolved < old(self).n_unsolved
            },
    {
        let ghost s0 = *self;
        let ghost q0 = *q;
        loop
            invariant
                s0 == *old(self),
                q0 == *old(q),
                self.ok(),
                t.ok(),
                q.ok(),
                due_marked(*self, *q),
                records_true(*self),
                same_nests(s0.bands@, q0.asks(), self.bands@, q.asks(), false),
                within(self.bands@, s0.bands@),
                same_models(s0, q0, *self, *q),
                self.n_unsolved <= s0.n_unsolved,
                pending(s0, q0) && !pending(*self, *q) ==> self.n_unsolved < s0.n_unsolved,
            decreases
                    weight(*self, *q),
                    total32(self.bands@),
                    self.dirty_bd,
                    self.dirty_cells,
        {
            let ghost s1 = *self;
            let ghost q1 = *q;
            proof {
                lemma_weight(s1, q1);
            }
            if !self.drain(q, t) {
                proof {
                    lemma_models_none(s0, q0, s1, q1);
                    lemma_refuted_back(s0.bands@, q0.asks(), s1.bands@, q1.asks(), false);
                    lemma_within_trans(self.bands@, s1.bands@, s0.bands@);
                }
                return false;
            }
            let ghost s2 = *self;
            let ghost q2 = *q;
            proof {
                lemma_models_trans(s0, q0, s1, q1, s2, q2);
                lemma_nests_trans(
                    s0.bands@,
                    q0.asks(),
                    s1.bands@,
                    q1.asks(),
                    s2.bands@,
                    q2.asks(),
                    false,
                );
                lemma_within_total(s2.bands@, s1.bands@);
                lemma_within_trans(s2.bands@, s1.bands@, s0.bands@);
            }
            if self.dirty_bd != 0 {
                let db = lowest32(self.dirty_bd);
                proof {
                    lemma_small32(self.dirty_bd, db as int);
                }
                self.dirty_bd = without_lowest32(self.dirty_bd);
                let ghost s3 = *self;
                proof {
                    lemma_unmarked(s2, s3, db as int);
                }
                let ok = self.scan_band(db / 3, db % 3, q, t);
                if !ok {
                    proof {
                        lemma_models_dead(s2, q2);
                        lemma_models_none(s0, q0, s2, q2);
                        lemma_row_laid(s2.bands@, db as int % 3, db as int / 3);
                        lemma_barren_band(s2.bands@, db as int % 3, db as int / 3);
                        lemma_barren_refuted(s2.bands@, q2.asks(), false);
                        lemma_refuted_back(s0.bands@, q0.asks(), s2.bands@, q2.asks(), false);
                    }
                    q.clear();
                    return false;
                }
                proof {
                    lemma_scan_models(s2, q2, *self, *q);
                    lemma_models_trans(s0, q0, s2, q2, *self, *q);
                    lemma_scan_spares(s2.bands@, self.bands@, db as int % 3, db as int / 3);
                    lemma_scan_nests(s2, q2, *self, *q);
                    lemma_nests_trans(
                        s0.bands@,
                        q0.asks(),
                        s2.bands@,
                        q2.asks(),
                        self.bands@,
                        q.asks(),
                        false,
                    );
                    lemma_records_kept(s2, *self);
                    lemma_scan_pending(q2, *q, *self);
                    lemma_weight(*self, *q);
                    lemma_within_total(self.bands@, s3.bands@);
                    lemma_within_trans(self.bands@, s2.bands@, s0.bands@);
                    lemma_step(s0, q0, s1, q1, s2, *self, *q);
                    assert(digits_marked(s2, *self)) by {
                        assert(digits_marked(s3, *self));
                    }
                    assert forall|b: int, e: int|
                        0 <= b < 3 && 0 <= e < 9 && !#[trigger] bit32(
                            self.dirty_bd,
                            3 * e + b,
                        ) implies {
                        ||| 3 * e + b == db && singles_queued(*self, *q, b, e, 3)
                        ||| !bit32(s2.dirty_bd, 3 * e + b) && self.bands[9 * b + e]
                            == s2.bands[9 * b + e]
                    } by {
                        if 3 * e + b == db {
                            assert(b == db % 3 && e == db / 3);
                        } else {
                            assert(9 * b + e != 9 * (db % 3) + db / 3);
                        }
                    }
                    lemma_due_kept(s2, q2, *self, *q, db as int, -1, false);
                }
                continue;
            }
            if self.dirty_cells != 0 {
                let b = lowest16(self.dirty_cells);
                proof {
                    lemma_small3(self.dirty_cells, b as int);
                }
                self.dirty_cells = without_lowest16(self.dirty_cells);
                let ghost s3 = *self;
                proof {
                    lemma_unswept(s2, s3);
                }
                let ok = self.scan_naked(b, q);
                if !ok {
                    proof {
                        lemma_models_dead(s2, q2);
                        lemma_models_none(s0, q0, s2, q2);
                        let p = choose|p: int| #[trigger]
                            bit32(self.unsolved[b as int], p) && digits_at(
                                self.bands@,
                                b as int,
                                p,
                                9,
                            ) < 1;
                        lemma_small32(self.unsolved[b as int], p);
                        lemma_unfilled(s2.bands@, b as int, p);
                        lemma_barren_refuted(s2.bands@, q2.asks(), false);
                        lemma_refuted_back(s0.bands@, q0.asks(), s2.bands@, q2.asks(), false);
                    }
                    q.clear();
                    return false;
                }
                proof {
                    lemma_scan_models(s2, q2, *self, *q);
                    lemma_models_trans(s0, q0, s2, q2, *self, *q);
                    lemma_unchanged(s2.bands@, false);
                    lemma_scan_nests(s2, q2, *self, *q);
                    lemma_nests_trans(
                        s0.bands@,
                        q0.asks(),
                        s2.bands@,
                        q2.asks(),
                        self.bands@,
                        q.asks(),
                        false,
                    );
                    lemma_records_kept(s2, *self);
                    lemma_scan_pending(q2, *q, *self);
                    lemma_weight(*self, *q);
                    lemma_step(s0, q0, s1, q1, s2, *self, *q);
                    assert forall|k: int| #[trigger] bit16(s3.dirty_cells, k) <==> bit16(
                        s2.dirty_cells,
                        k,
                    ) && k != b by {
                        let z = choose|z: int| #![trigger bit16(s2.dirty_cells, z)] bit16(
                            s2.dirty_cells,
                            z,
                        ) && (forall|j: int| 0 <= j < z ==> !bit16(s2.dirty_cells, j)) && (forall|
                            j: int,
                        | #[trigger]
                            bit16(s3.dirty_cells, j) <==> bit16(s2.dirty_cells, j) && j != z);
                        assert(z == b);
                    }
                    lemma_due_kept(s2, q2, *self, *q, -1, b as int, false);
                }
                continue;
            }
            proof {
                assert(!pending(s2, q2));
            }
            if self.n_unsolved == 0 || self.tdirty == 0 {
                proof {
                    lemma_at_fixpoint(*self, *q);
                    lemma_rests(*self);
                    assert(q.asks() =~= Set::<(int, int)>::empty());
                    lemma_closes(s0.bands@, q0.asks(), self.bands@, false);
                }
                return true;
            }
            let digits = self.tdirty;
            self.tdirty = 0;
            let ghost s3 = *self;
            proof {
                lemma_unswept(s2, s3);
            }
            match self.band_inference(q, digits, CARDINALITY, t) {
                None => {
                    proof {
                        lemma_models_dead(s2, q2);
                        lemma_models_none(s0, q0, s2, q2);
                        let (bi, d) = choose|bi: int, d: int|
                            3 <= bi < 6 && 0 <= d < 9 && bit16(digits, d) && !#[trigger] placeable(
                                s3.bands@,
                                bi,
                                d,
                            );
                        lemma_barren_band(s2.bands@, bi, d);
                        lemma_barren_refuted(s2.bands@, q2.asks(), false);
                        lemma_refuted_back(s0.bands@, q0.asks(), s2.bands@, q2.asks(), false);
                        lemma_within_trans(self.bands@, s2.bands@, s0.bands@);
                    }
                    q.clear();
                    return false;
                },
                Some(changed) => {
                    proof {
                        lemma_scan_models(s2, q2, *self, *q);
                        lemma_models_trans(s0, q0, s2, q2, *self, *q);
                        lemma_stacks_spare(s2.bands@, self.bands@, digits);
                        lemma_scan_nests(s2, q2, *self, *q);
                        lemma_nests_trans(
                            s0.bands@,
                            q0.asks(),
                            s2.bands@,
                            q2.asks(),
                            self.bands@,
                            q.asks(),
                            false,
                        );
                        lemma_records_kept(s2, *self);
                        lemma_scan_pending(q2, *q, *self);
                        lemma_weight(*self, *q);
                        lemma_within_total(self.bands@, s3.bands@);
                        lemma_within_trans(self.bands@, s2.bands@, s0.bands@);
                        lemma_step(s0, q0, s1, q1, s2, *self, *q);
                        assert forall|bi: int, d: int|
                            3 <= bi < 6 && 0 <= d < 9 && !bit16(
                                self.tdirty,
                                d,
                            ) implies #[trigger] stack_done(*self, *q, bi, d) by {
                            assert(digits_marked(s3, *self));
                            lemma_same_words(s3, *self, d);
                            if bit16(digits, d) {
                                assert(chosen(digits, CARDINALITY, d));
                                assert(visited(s3, *self, *q, bi, d));
                                assert(stack_reduced(s3.bands@, bi, d)) by {
                                    assert forall|x: int|
                                        0 <= x < 81 && in_band(bi, x) && #[trigger] cand(
                                            s3.bands@,
                                            x,
                                            d,
                                        ) implies laid(
                                        s3.bands@,
                                        bi,
                                        d,
                                        band_pos(bi, x) / 3,
                                    ) by {
                                        assert(cand(self.bands@, x, d));
                                    }
                                }
                                lemma_singles_carried(s3, *q, *self, *q, bi, d);
                            } else {
                                assert(stack_done(s2, q2, bi, d));
                                assert(singles_queued(s3, q2, bi, d, 3)) by {
                                    lemma_singles_carried(s2, q2, s3, q2, bi, d);
                                }
                                lemma_singles_carried(s3, q2, *self, *q, bi, d);
                            }
                            lemma_stack_carried(s3, *self, bi, d);
                        }
                        lemma_due_kept(s2, q2, *self, *q, -1, -1, true);
                        if changed && self.bands@ != s3.bands@ {
                            lemma_shrank(s3.bands@, self.bands@);
                        }
                    }
                    if !changed {
                        proof {
                            lemma_at_fixpoint(*self, *q);
                            lemma_rests(*self);
                            assert(q.asks() =~= Set::<(int, int)>::empty());
                            lemma_closes(s0.bands@, q0.asks(), self.bands@, false);
                        }
                        return true;
                    }
                },
            }
        }
    }
}

/// Boards that admit nothing leave no models.
proof fn lemma_models_dead(s: BState, q: Queue)
    requires
        dead(s.bands@),
    ensures
        no_models(s, q),
{
    assert forall|g: Seq<u8>| !#[trigger] model(s, q, g) by {
        if is_grid(g) {
            assert(!admits(s.bands@, g));
        }
    }
}

/// Boards that differ differ in a word.
proof fn lemma_shrank(a: Seq<u32>, b: Seq<u32>)
    requires
        within(b, a),
        a != b,
    ensures
        total32(b) < total32(a),
{
    if forall|i: int| 0 <= i < a.len() ==> a[i] == b[i] {
        assert(a =~= b);
    }
    let i = choose|i: int| 0 <= i < a.len() && a[i] != b[i];
    assert(b[i] != a[i]);
    lemma_within_total(b, a);
}

/// Taking one word off the list of those due for a scan.
proof fn lemma_unmarked(a: BState, b: BState, db: int)
    requires
        a.ok(),
        0 <= db < 27,
        b.dirty_bd < a.dirty_bd,
        forall|i: int| #[trigger] bit32(b.dirty_bd, i) <==> bit32(a.dirty_bd, i) && i != db,
        same_solved(a, b),
        b.bands == a.bands,
        b.tdirty == a.tdirty,
        b.dirty_cells == a.dirty_cells,
    ensures
        b.shape(),
        b.solved_ok(),
        b.clean_but(db % 3, db / 3),
{
    assert forall|c: int| 0 <= c < 81 implies #[trigger] b.open(c) == a.open(c) by {}
    assert forall|k: int, d: int|
        0 <= k < 3 && 0 <= d < 9 && (k != db % 3 || d != db / 3) && !#[trigger] bit32(
            b.dirty_bd,
            3 * d + k,
        ) implies closed_word(b.bands[9 * k + d]) by {
        assert(3 * d + k != db);
        assert(!bit32(a.dirty_bd, 3 * d + k));
    }
}

/// Taking something off the other lists.
proof fn lemma_unswept(a: BState, b: BState)
    requires
        a.ok(),
        same_solved(a, b),
        b.bands == a.bands,
        b.dirty_bd == a.dirty_bd,
        b.tdirty <= a.tdirty,
        b.dirty_cells <= a.dirty_cells,
    ensures
        b.ok(),
        within(b.bands@, a.bands@),
        keeps(a.bands@, b.bands@),
{
    assert forall|c: int| 0 <= c < 81 implies #[trigger] b.open(c) == a.open(c) by {}
}

/// Where a step of the propagation leaves the count of open cells.
proof fn lemma_step(
    s0: BState,
    q0: Queue,
    s1: BState,
    q1: Queue,
    s2: BState,
    s: BState,
    q: Queue,
)
    requires
        s1.n_unsolved <= s0.n_unsolved,
        pending(s0, q0) && !pending(s1, q1) ==> s1.n_unsolved < s0.n_unsolved,
        pending(s1, q1) ==> s2.n_unsolved < s1.n_unsolved,
        !pending(s1, q1) ==> s2 == s1,
        same_solved(s2, s),
    ensures
        s.n_unsolved <= s0.n_unsolved,
        pending(s0, q0) ==> s.n_unsolved < s0.n_unsolved,
        pending(s1, q1) || pending(s, q) ==> weight(s, q) < weight(s1, q1),
        !pending(s1, q1) && !pending(s, q) ==> weight(s, q) == weight(s1, q1),
{
}

impl BState {
    /// The candidates of a cell in increasing order, and how many there are.
    pub fn cell_digits(&self, b: usize, i: usize) -> (r: ([u8; 9], usize))
        requires
            b < 3,
            i < 27,
        ensures
            ascending(r.0@, r.1 as int),
            forall|d: int|
                0 <= d < 9 ==> (#[trigger] cand(self.bands@, 27 * b + i, d) <==> listed(
                    r.0@,
                    0,
                    r.1 as int,
                    d,
                )),
            r.1 == digits_at(self.bands@, b as int, i as int, 9),
    {
        let ghost bs = self.bands@;
        let ghost c = 27 * b + i;
        let mut digits: [u8; 9] = [0;9];
        let mut n: usize = 0;
        let mut d: usize = 0;
        proof {
            assert(c / 27 == b && c % 27 == i);
        }
        while d < 9
            invariant
                d <= 9,
                b < 3,
                i < 27,
                n <= d,
                bs == self.bands@,
                c == 27 * b + i,
                c / 27 == b && c % 27 == i,
                ascending(digits@, n as int),
                n == digits_at(bs, b as int, i as int, d as nat),
                forall|j: int| 0 <= j < n ==> #[trigger] digits[j] < d,
                forall|e: int|
                    0 <= e < d ==> (#[trigger] cand(bs, c, e) <==> listed(digits@, 0, n as int, e)),
            decreases 9 - d,
        {
            let m = self.bands[9 * b + d];
            let ghost (digits0, n0) = (digits@, n as int);
            proof {
                assert(bit32(m, i as int) <==> (m >> (i as u32)) & 1 == 1) by {
                    reveal(bit32);
                }
                assert(cand(bs, c, d as int) <==> bit32(m, i as int));
                assert(digits_at(bs, b as int, i as int, (d + 1) as nat) == digits_at(
                    bs,
                    b as int,
                    i as int,
                    d as nat,
                ) + if bit32(m, i as int) {
                    1nat
                } else {
                    0nat
                });
            }
            if (m >> (i as u32)) & 1 == 1 {
                digits[n] = d as u8;
                n = n + 1;
            }
            proof {
                assert forall|e: int| 0 <= e < d + 1 implies (#[trigger] cand(bs, c, e) <==> listed(
                    digits@,
                    0,
                    n as int,
                    e,
                )) by {
                    if listed(digits@, 0, n as int, e) {
                        let k = choose|k: int| 0 <= k < n && #[trigger] digits@[k] == e;
                        if k < n0 {
                            assert(digits0[k] == e);
                            assert(listed(digits0, 0, n0, e));
                        }
                    }
                    if e < d && cand(bs, c, e) {
                        assert(listed(digits0, 0, n0, e));
                        let k = choose|k: int| 0 <= k < n0 && #[trigger] digits0[k] == e;
                        assert(digits@[k] == e);
                    }
                    if e == d && cand(bs, c, e) {
                        assert(digits@[n0] == e);
                    }
                    if e == d && listed(digits0, 0, n0, e) {
                        let k = choose|k: int| 0 <= k < n0 && #[trigger] digits0[k] == e;
                        assert(digits0[k] < d);
                    }
                }
            }
            d = d + 1;
        }
        (digits, n)
    }

    /// Some open cell has exactly two candidates.
    pub open spec fn has_pair(&self) -> bool {
        exists|b: int, i: int|
            0 <= b < 3 && 0 <= i < 27 && self.open(27 * b + i) && #[trigger] digits_at(
                self.bands@,
                b,
                i,
                9,
            ) == 2
    }

    /// The guess point: the first cell with two candidates if there is one,
    /// else the first with three or with the fewest. Returns its band and
    /// position, its candidates and their number.
    pub fn pick(&self) -> (r: (usize, usize, [u8; 9], usize))
        requires
            self.shape(),
            self.n_unsolved > 0,
        ensures
            r.0 < 3,
            r.1 < 27,
            self.open(27 * r.0 + r.1),
            ascending(r.2@, r.3 as int),
            forall|d: int|
                0 <= d < 9 ==> (#[trigger] cand(self.bands@, 27 * r.0 + r.1, d) <==> listed(
                    r.2@,
                    0,
                    r.3 as int,
                    d,
                )),
            r.3 == digits_at(self.bands@, r.0 as int, r.1 as int, 9),
            self.has_pair() ==> r.3 == 2,
            forall|b: int, i: int|
                0 <= b < 3 && 0 <= i < 27 && 27 * b + i < 27 * r.0 + r.1 && self.open(27 * b + i)
                    ==> r.3 != #[trigger] digits_at(self.bands@, b, i, 9) && (self.has_pair() || r.3
                    < digits_at(self.bands@, b, i, 9)),
            self.has_pair() || r.3 == 3 || forall|b: int, i: int|
                0 <= b < 3 && 0 <= i < 27 && self.open(27 * b + i) ==> r.3 <= #[trigger] digits_at(
                    self.bands@,
                    b,
                    i,
                    9,
                ),
    {
        let ghost bs = self.bands@;
        let mut b: usize = 0;
        while b < 3
            invariant
                b <= 3,
                self.shape(),
                bs == self.bands@,
                forall|k: int, i: int|
                    0 <= k < b && 0 <= i < 27 && self.open(27 * k + i) ==> #[trigger] digits_at(
                        bs,
                        k,
                        i,
                        9,
                    ) != 2,
            decreases 3 - b,
        {
            let (_, two, three) = tally(&self.bands, b);
            let biv = two & !three & self.unsolved[b];
            if biv != 0 {
                let i = lowest32(biv);
                proof {
                    lemma_small32(self.unsolved[b as int], i as int);
                    let c = 27 * b + i;
                    assert(c / 27 == b && c % 27 == i);
                }
                let (digits, n) = self.cell_digits(b, i);
                proof {
                    assert forall|k: int, p: int|
                        0 <= k < 3 && 0 <= p < 27 && 27 * k + p < 27 * b + i && self.open(
                            27 * k + p,
                        ) implies #[trigger] digits_at(bs, k, p, 9) != 2 by {
                        if k == b && digits_at(bs, k, p, 9) == 2 {
                            let x = 27 * k + p;
                            assert(x / 27 == k && x % 27 == p);
                            assert(bit32(biv, p));
                        }
                    }
                    assert(self.open(27 * b + i) && digits_at(bs, b as int, i as int, 9) == 2);
                }
                return (b, i, digits, n);
            }
            proof {
                assert forall|k: int, i: int|
                    0 <= k < b + 1 && 0 <= i < 27 && self.open(27 * k + i) implies #[trigger] digits_at(
                    bs,
                    k,
                    i,
                    9,
                ) != 2 by {
                    if k == b && digits_at(bs, k, i, 9) == 2 {
                        let c = 27 * k + i;
                        assert(c / 27 == k && c % 27 == i);
                        assert(bit32(biv, i));
                        assert(!bit32(0u32, i));
                    }
                }
            }
            b = b + 1;
        }
        let mut best: (usize, usize, [u8; 9], usize) = (0, 0, [0;9], 10);
        let mut b: usize = 0;
        while b < 3
            invariant
                b <= 3,
                self.shape(),
                bs == self.bands@,
                forall|k: int, i: int|
                    0 <= k < 3 && 0 <= i < 27 && self.open(27 * k + i) ==> #[trigger] digits_at(
                        bs,
                        k,
                        i,
                        9,
                    ) != 2,
                best.3 <= 10,
                best.3 < 10 ==> self.guess_ok(best.0 as int, best.1 as int, best.2@, best.3 as int),
                forall|k: int, i: int|
                    0 <= k < b && 0 <= i < 27 && self.open(27 * k + i) ==> best.3
                        <= #[trigger] digits_at(bs, k, i, 9),
                forall|k: int, i: int|
                    0 <= k < 3 && 0 <= i < 27 && 27 * k + i < 27 * best.0 + best.1 && self.open(
                        27 * k + i,
                    ) ==> best.3 < #[trigger] digits_at(bs, k, i, 9),
            decreases 3 - b,
        {
            let mut uns: u32 = self.unsolved[b];
            while uns != 0
                invariant
                    b < 3,
                    self.shape(),
                    bs == self.bands@,
                    forall|k: int, i: int|
                        0 <= k < 3 && 0 <= i < 27 && self.open(27 * k + i) ==> #[trigger] digits_at(
                            bs,
                            k,
                            i,
                            9,
                        ) != 2,
                    best.3 <= 10,
                    best.3 < 10 ==> self.guess_ok(
                        best.0 as int,
                        best.1 as int,
                        best.2@,
                        best.3 as int,
                    ),
                    forall|k: int, i: int|
                        0 <= k < b && 0 <= i < 27 && self.open(27 * k + i) ==> best.3
                            <= #[trigger] digits_at(bs, k, i, 9),
                    forall|i: int| #[trigger] bit32(uns, i) ==> bit32(self.unsolved[b as int], i),
                    forall|i: int|
                        0 <= i < 27 && bit32(self.unsolved[b as int], i) && !bit32(uns, i)
                            ==> best.3 <= #[trigger] digits_at(bs, b as int, i, 9),
                    forall|k: int, i: int|
                        0 <= k < 3 && 0 <= i < 27 && 27 * k + i < 27 * best.0 + best.1 && self.open(
                            27 * k + i,
                        ) ==> best.3 < #[trigger] digits_at(bs, k, i, 9),
                decreases uns,
            {
                let i = lowest32(uns);
                let ghost u0 = uns;
                let ghost best0 = best;
                uns = without_lowest32(uns);
                proof {
                    let k = choose|k: int| #![trigger bit32(u0, k)] 0 <= k < 32 && bit32(u0, k) && (
                    forall|j: int| #[trigger] bit32(uns, j) <==> bit32(u0, j) && j != k) && (forall|
                        j: int,
                    |
                        0 <= j < k ==> !bit32(u0, j));
                    assert(k == i);
                    lemma_small32(self.unsolved[b as int], i as int);
                    let c = 27 * b + i;
                    assert(c / 27 == b && c % 27 == i);
                    assert(self.open(c));
                }
                let (digits, n) = self.cell_digits(b, i);
                if n < best.3 {
                    best = (b, i, digits, n);
                    proof {
                        assert forall|k: int, p: int|
                            0 <= k < 3 && 0 <= p < 27 && 27 * k + p < 27 * b + i && self.open(
                                27 * k + p,
                            ) implies best.3 < #[trigger] digits_at(bs, k, p, 9) by {
                            if k == b {
                                let x = 27 * k + p;
                                assert(x / 27 == k && x % 27 == p);
                                assert(!bit32(u0, p));
                            }
                        }
                    }
                    if n == 3 {
                        return best;
                    }
                }
            }
            proof {
                assert forall|k: int, i: int|
                    0 <= k < b + 1 && 0 <= i < 27 && self.open(27 * k + i) implies best.3
                    <= #[trigger] digits_at(bs, k, i, 9) by {
                    if k == b {
                        let c = 27 * k + i;
                        assert(c / 27 == k && c % 27 == i);
                        assert(!bit32(0u32, i));
                    }
                }
            }
            b = b + 1;
        }
        proof {
            if best.3 == 10 {
                let (k, i) = lemma_some_open(*self);
                let f = |e: int| bit32(bs[9 * k + e], i);
                crate::bits::lemma_count_mono(f, f, 9);
                assert(digits_at(bs, k, i, 9) <= 9);
            }
        }
        best
    }

    /// An open cell with its candidates and their number.
    pub open spec fn guess_ok(&self, b: int, i: int, digits: Seq<u8>, n: int) -> bool {
        &&& 0 <= b < 3
        &&& 0 <= i < 27
        &&& self.open(27 * b + i)
        &&& ascending(digits, n)
        &&& forall|d: int|
            0 <= d < 9 ==> (#[trigger] cand(self.bands@, 27 * b + i, d) <==> listed(
                digits,
                0,
                n,
                d,
            ))
        &&& n == digits_at(self.bands@, b, i, 9)
    }

    /// Writes out the candidate of every cell.
    pub fn write_grid(&self, out: &mut [u8; 81], Ghost(g): Ghost<Seq<u8>>)
        requires
            is_grid(g),
            encodes(self.bands@, g),
        ensures
            final(out)@ == g,
    {
        proof {
            lemma_grid_facts(g);
        }
        let mut c: usize = 0;
        while c < 81
            invariant
                c <= 81,
                is_grid(g),
                g.len() == 81,
                forall|x: int| 0 <= x < 81 ==> 1 <= #[trigger] g[x] <= 9,
                encodes(self.bands@, g),
                forall|x: int| 0 <= x < c ==> #[trigger] out[x] == g[x],
            decreases 81 - c,
        {
            let b = c / 27;
            let i = c % 27;
            let mut d: usize = 0;
            proof {
                assert(cand(self.bands@, c as int, g[c as int] - 1));
            }
            while d < 9
                invariant_except_break
                    d <= 9,
                    forall|e: int| 0 <= e < d ==> !#[trigger] cand(self.bands@, c as int, e),
                    forall|x: int| 0 <= x < c ==> #[trigger] out[x] == g[x],
                invariant
                    c < 81,
                    b == c / 27,
                    i == c % 27,
                    g.len() == 81,
                    forall|x: int| 0 <= x < 81 ==> 1 <= #[trigger] g[x] <= 9,
                    encodes(self.bands@, g),
                    cand(self.bands@, c as int, g[c as int] - 1),
                ensures
                    forall|x: int| 0 <= x < c + 1 ==> #[trigger] out[x] == g[x],
                decreases 9 - d,
            {
                let m = self.bands[9 * b + d];
                proof {
                    assert(bit32(m, i as int) <==> (m >> (i as u32)) & 1 == 1) by {
                        reveal(bit32);
                    }
                    assert(cand(self.bands@, c as int, d as int) <==> bit32(m, i as int));
                }
                if (m >> (i as u32)) & 1 == 1 {
                    out[c] = d as u8 + 1;
                    break;
                }
                d = d + 1;
            }
            c = c + 1;
        }
        proof {
            assert(out@ =~= g);
        }
    }

    /// A state at rest with no open cell spells out one grid.
    proof fn lemma_solved(&self) -> (g: Seq<u8>)
        requires
            self.rested(),
            self.n_unsolved == 0,
        ensures
            is_grid(g),
            encodes(self.bands@, g),
            board_solutions(self.bands@).contains(g),
            board_solutions(self.bands@).len() == 1,
    {
        assert forall|c: int| 0 <= c < 81 implies #[trigger] settled(cands(self.bands@), c) by {
            if self.open(c) {
                lemma_open_counted(*self, c);
            }
        }
        assert forall|i: int| 0 <= i < 27 implies supported(#[trigger] self.bands@[i]) by {
            let (b, d) = (i / 9, i % 9);
            assert(!bit32(self.dirty_bd, 3 * d + b));
            assert(9 * b + d == i);
            lemma_closed_supported(self.bands@[i]);
        }
        lemma_leaf(self.bands@)
    }
}

/// If cells are counted, one is open.
proof fn lemma_some_open(s: BState) -> (r: (int, int))
    requires
        s.shape(),
        s.n_unsolved > 0,
    ensures
        0 <= r.0 < 3,
        0 <= r.1 < 27,
        s.open(27 * r.0 + r.1),
{
    let b = if pop32(s.unsolved[0]) > 0 {
        0
    } else if pop32(s.unsolved[1]) > 0 {
        1
    } else {
        2int
    };
    let u = s.unsolved[b];
    let f = |i: int| bit32(u, i);
    let i = crate::bits::lemma_count_witness(f, 32);
    lemma_small32(u, i);
    let c = 27 * b + i;
    assert(c / 27 == b && c % 27 == i);
    (b, i)
}

/// Guessing a digit keeps the grids that hold it.
proof fn lemma_guess(st: BState, q: Queue, s2: BState, q2: Queue, c: int, d: int)
    requires
        same_models(st, q, s2, q2),
        q.len == 1,
        entry_cell(q.buf[0]) == c,
        entry_digit(q.buf[0]) == d,
        q2.len == 0,
    ensures
        board_solutions(s2.bands@) == holding(board_solutions(st.bands@), c, d),
{
    assert forall|g: Seq<u8>| board_solutions(s2.bands@).contains(g) == holding(
        board_solutions(st.bands@),
        c,
        d,
    ).contains(g) by {
        assert(model(st, q, g) <==> model(s2, q2, g));
        if is_grid(g) && g[c] == d + 1 {
            assert forall|j: int| 0 <= j < q.len implies g[entry_cell(#[trigger] q.buf[j])]
                == entry_digit(q.buf[j]) + 1 by {}
        }
        if model(st, q, g) {
            assert(g[entry_cell(q.buf[0])] == entry_digit(q.buf[0]) + 1);
        }
    }
    assert(board_solutions(s2.bands@) =~= holding(board_solutions(st.bands@), c, d));
}

/// An impossible guess has no grids.
proof fn lemma_guess_none(st: BState, q: Queue, c: int, d: int)
    requires
        no_models(st, q),
        q.len == 1,
        entry_cell(q.buf[0]) == c,
        entry_digit(q.buf[0]) == d,
    ensures
        holding(board_solutions(st.bands@), c, d).len() == 0,
{
    let s = holding(board_solutions(st.bands@), c, d);
    assert forall|g: Seq<u8>| !#[trigger] s.contains(g) by {
        if s.contains(g) {
            assert forall|j: int| 0 <= j < q.len implies g[entry_cell(#[trigger] q.buf[j])]
                == entry_digit(q.buf[j]) + 1 by {}
            assert(model(st, q, g));
        }
    }
    lemma_none(s);
}

/// The cell picked at the fixpoint is the first with the fewest candidates.
proof fn lemma_picked(s: BState, c: int)
    requires
        s.rested(),
        at_fixpoint(s),
        records_true(s),
        0 <= c < 81,
        s.open(c),
        forall|b: int, i: int|
            0 <= b < 3 && 0 <= i < 27 && 27 * b + i < c && s.open(27 * b + i) ==> choices(
                s.bands@,
                c,
            ) != #[trigger] digits_at(s.bands@, b, i, 9) && (s.has_pair() || choices(s.bands@, c)
                < digits_at(s.bands@, b, i, 9)),
        s.has_pair() ==> choices(s.bands@, c) == 2,
        s.has_pair() || choices(s.bands@, c) == 3 || forall|b: int, i: int|
            0 <= b < 3 && 0 <= i < 27 && s.open(27 * b + i) ==> choices(s.bands@, c)
                <= #[trigger] digits_at(s.bands@, b, i, 9),
    ensures
        first_fewest(s.bands@, c),
{
    let bs = s.bands@;
    lemma_rests(s);
    assert(choices(bs, c) >= 2);
    assert forall|x: int| 0 <= x < 81 && #[trigger] choices(bs, x) >= 2 implies choices(bs, c)
        <= choices(bs, x) && (x < c ==> choices(bs, c) < choices(bs, x)) by {
        let (b, i) = (x / 27, x % 27);
        assert(27 * b + i == x);
        assert(s.open(27 * b + i));
        assert(digits_at(bs, b, i, 9) == choices(bs, x));
        if !s.has_pair() {
            assert(choices(bs, x) != 2);
        }
    }
}

/// A guess leaves fewer candidates.
proof fn lemma_guess_less(st: BState, q: Queue, s2: BState, c: int, d: int)
    requires
        0 <= c < 81,
        choices(st.bands@, c) >= 2,
        q.asks().contains((c, d)),
        closes_to(st.bands@, q.asks(), false, s2.bands@),
    ensures
        total32(s2.bands@) < total32(st.bands@),
{
    let (a, b) = (st.bands@, s2.bands@);
    assert(sole(b, c, d));
    let f = |e: int| bit32(a[9 * (c / 27) + e], c % 27);
    let x = lemma_count_witness(f, 9);
    let y = crate::bits::lemma_count_second(f, 9, x);
    let e = if x == d {
        y
    } else {
        x
    };
    assert(cand(a, c, e) && !cand(b, c, e));
    lemma_shrank(a, b);
}

/// Counts the grids of a state at rest, up to `limit`, and writes out the
/// first.
pub fn search(
    st: &BState,
    q: &mut Queue,
    t: &Tables,
    limit: u64,
    count: &mut u64,
    out: &mut [u8; 81],
)
    requires
        t.ok(),
        st.rested(),
        at_fixpoint(*st),
        records_true(*st),
        due_marked(*st, *old(q)),
        old(q).ok(),
        old(q).len == 0,
        *old(count) < limit,
    ensures
        final(q).ok(),
        final(q).len == 0,
        *final(count) == capped(*old(count) + board_solutions(st.bands@).len(), limit as int),
        *old(count) == 0 && *final(count) > 0 ==> board_solutions(st.bands@).contains(final(out)@),
        *old(count) > 0 ==> final(out)@ == old(out)@,
        *old(count) == 0 && *final(count) > 0 ==> first_leaf(st.bands@, false) == Some(final(out)@),
        *old(count) == 0 && *final(count) == 0 ==> first_leaf(st.bands@, false) is None,
    decreases st.n_unsolved,
{
    let ghost none = *q;
    let ghost count0 = *count;
    let ghost out0 = out@;
    if st.n_unsolved == 0 {
        let ghost g = st.lemma_solved();
        if *count == 0 {
            st.write_grid(out, Ghost(g));
        }
        proof {
            lemma_spelled(st.bands@, g);
        }
        *count = *count + 1;
        return;
    }
    let (b, i, digits, n) = st.pick();
    let ghost c = 27 * b + i;
    let ghost s = board_solutions(st.bands@);
    proof {
        assert forall|g: Seq<u8>| #[trigger] s.contains(g) implies listed(
            digits@,
            0,
            n as int,
            g[c] - 1,
        ) by {
            reveal(admits);
            lemma_grid_facts(g);
            assert(cand(st.bands@, c, g[c] - 1));
        }
        lemma_picked(*st, c);
        lemma_fewest(st.bands@, c);
        lemma_branch_all(s, c, digits@, n as int);
        assert(s.subset_of(grids()));
    }
    let ghost mut tried: nat = 0;
    let mut j: usize = 0;
    while j < n
        invariant
            tried <= 9,
            forall|k: int| 0 <= k < j ==> #[trigger] digits@[k] < tried,
            forall|k: int| j <= k < n ==> tried <= #[trigger] digits@[k],
            forall|d: int|
                0 <= d < 9 ==> (#[trigger] cand(st.bands@, c, d) <==> listed(
                    digits@,
                    0,
                    n as int,
                    d,
                )),
            first_fewest(st.bands@, c),
            count0 == 0 && *count > 0 ==> first_leaf(st.bands@, false) == Some(out@),
            count0 == 0 && *count == 0 ==> first_leaf(st.bands@, false) == first_leaf_from(
                st.bands@,
                c,
                tried,
                false,
            ),
            t.ok(),
            at_fixpoint(*st),
            records_true(*st),
            st.rested(),
            due_marked(*st, none),
            none.len == 0,
            q.ok(),
            q.len == 0,
            b < 3,
            i < 27,
            j <= n <= 9,
            c == 27 * b + i,
            st.open(c),
            ascending(digits@, n as int),
            s == board_solutions(st.bands@),
            s.subset_of(grids()),
            count0 == *old(count),
            out0 == old(out)@,
            *count < limit,
            *count + holding_any(s, c, digits@, j as int, n as int).len() == count0 + s.len(),
            *count >= count0,
            count0 == 0 && *count > 0 ==> s.contains(out@),
            count0 > 0 ==> out@ == out0,
        decreases n - j,
    {
        let ghost n1 = *count;
        let d = digits[j] as usize;
        proof {
            assert(digits@[j as int] < 9);
            lemma_branch(s, c, digits@, j as int, n as int);
            assert forall|e: int| tried <= e < d implies !#[trigger] cand(st.bands@, c, e) by {
                if cand(st.bands@, c, e) {
                    let k = choose|k: int| 0 <= k < n && #[trigger] digits@[k] == e;
                    assert(k < j || digits@[j as int] <= digits@[k]);
                }
            }
            lemma_leaf_over(st.bands@, c, tried, d as nat, false);
            assert(listed(digits@, 0, n as int, d as int));
            assert(cand(st.bands@, c, d as int));
            tried = (d + 1) as nat;
        }
        let mut s2 = *st;
        q.push(entry(d, b, i));
        let ghost q1 = *q;
        proof {
            lemma_due_kept(*st, none, s2, q1, -1, -1, false);
            assert(entry_cell(q.buf[0]) == c && entry_digit(q.buf[0]) == d);
            assert(pending(s2, *q));
            assert(q.asks() =~= set![(c, d as int)]) by {
                assert forall|x: int, y: int| q.has(x, y) <==> x == c && y == d by {
                    if x == c && y == d {
                        assert(entry_cell(q.buf[0]) == x);
                    }
                }
            }
        }
        if s2.propagate(q, t) {
            proof {
                lemma_guess(*st, q1, s2, *q, c, d as int);
                lemma_closed_part(st.bands@, q1.asks(), false, s2.bands@);
                lemma_guess_less(*st, q1, s2, c, d as int);
            }
            search(&s2, q, t, limit, count, out);
            proof {
                if count0 == 0 && n1 == 0 && *count > 0 {
                    assert(holding(s, c, d as int).contains(out@));
                }
            }
            if *count >= limit {
                return;
            }
        } else {
            proof {
                lemma_guess_none(*st, q1, c, d as int);
                lemma_no_part(st.bands@, q1.asks(), false);
            }
        }
        j = j + 1;
    }
    proof {
        lemma_branch_end(s, c, digits@, n as int);
        assert forall|e: int| tried <= e < 9 implies !#[trigger] cand(st.bands@, c, e) by {
            if cand(st.bands@, c, e) {
                let k = choose|k: int| 0 <= k < n && #[trigger] digits@[k] == e;
            }
        }
        lemma_leaf_over(st.bands@, c, tried, 9, false);
    }
}

/// Queues the clues.
pub fn load(q: &mut Queue, clues: &[u8; 81])
    requires
        clues_ok(clues@),
        old(q).ok(),
        old(q).len == 0,
    ensures
        final(q).ok(),
        final(q).len <= 81,
        forall|g: Seq<u8>| is_grid(g) ==> (#[trigger] final(q).agrees(g) <==> is_solution(g, clues@)),
        final(q).asks() == clue_asks(clues@),
{
    let mut c: usize = 0;
    while c < 81
        invariant
            c <= 81,
            clues_ok(clues@),
            q.ok(),
            q.len <= c,
            forall|j: int|
                0 <= j < q.len ==> 0 <= entry_cell(#[trigger] q.buf[j]) < c && clues[entry_cell(
                    q.buf[j],
                )] == entry_digit(q.buf[j]) + 1,
            forall|x: int| 0 <= x < c && #[trigger] clues[x] != 0 ==> has_clue(*q, x),
        decreases 81 - c,
    {
        let d = clues[c];
        let ghost q0 = *q;
        if d != 0 {
            let b = c / 27;
            let i = c % 27;
            proof {
                assert(clues@[c as int] <= 9);
            }
            q.push(entry((d - 1) as usize, b, i));
            proof {
                assert(entry_cell(q.buf[q0.len as int]) == c);
                assert forall|j: int| 0 <= j < q.len implies 0 <= entry_cell(
                    #[trigger] q.buf[j],
                ) < c + 1 && clues[entry_cell(q.buf[j])] == entry_digit(q.buf[j]) + 1 by {
                    if j < q0.len {
                        assert(q.buf[j] == q0.buf[j]);
                    }
                }
                assert forall|x: int| 0 <= x < c + 1 && #[trigger] clues[x] != 0 implies has_clue(
                    *q,
                    x,
                ) by {
                    if x < c {
                        assert(has_clue(q0, x));
                        let j = choose|j: int|
                            0 <= j < q0.len && entry_cell(#[trigger] q0.buf[j]) == x;
                        assert(q.buf[j] == q0.buf[j]);
                    }
                }
            }
        }
        c = c + 1;
    }
    proof {
        assert forall|p: (int, int)| q.asks().contains(p) <==> clue_asks(clues@).contains(p) by {
            if q.has(p.0, p.1) {
                let j = choose|j: int|
                    0 <= j < q.len && entry_cell(#[trigger] q.buf[j]) == p.0 && entry_digit(
                        q.buf[j],
                    ) == p.1;
                lemma_entry(q.buf[j]);
                assert(clues[p.0] == p.1 + 1);
            }
            if clue_asks(clues@).contains(p) {
                assert(clues[p.0] != 0);
                assert(has_clue(*q, p.0));
                let j = choose|j: int| 0 <= j < q.len && entry_cell(#[trigger] q.buf[j]) == p.0;
                assert(q.has(p.0, p.1));
            }
        }
        assert(q.asks() =~= clue_asks(clues@));
    }
    proof {
        assert forall|g: Seq<u8>| is_grid(g) implies (#[trigger] q.agrees(g) <==> is_solution(
            g,
            clues@,
        )) by {
            if q.agrees(g) {
                assert forall|x: int| 0 <= x < 81 && #[trigger] clues@[x] != 0 implies g[x]
                    == clues@[x] by {
                    assert(clues[x] != 0);
                    assert(has_clue(*q, x));
                    let j = choose|j: int| 0 <= j < q.len && entry_cell(#[trigger] q.buf[j]) == x;
                }
            }
            if is_solution(g, clues@) {
                assert forall|j: int| 0 <= j < q.len implies g[entry_cell(#[trigger] q.buf[j])]
                    == entry_digit(q.buf[j]) + 1 by {
                    lemma_entry(q.buf[j]);
                    let x = entry_cell(q.buf[j]);
                    assert(clues@[x] != 0);
                }
            }
        }
    }
}

/// Some queued assignment is to cell `x`.
pub open spec fn has_clue(q: Queue, x: int) -> bool {
    exists|j: int| 0 <= j < q.len && entry_cell(#[trigger] q.buf[j]) == x
}

} // verus!
