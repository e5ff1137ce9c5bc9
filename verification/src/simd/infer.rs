//! Cardinality over all six lanes at once: each minirow of a lane holds exactly
//! three digits.

use vstd::prelude::*;
use crate::bits::{
    bit16, bit32, bit64, group_bits16, group_bits32, group_bits64, lemma_count_mono, lemma_ext32,
    lemma_low_masks32, lemma_narrow, lemma_nonzero32, lemma_small32, lemma_subset32, lowest32,
    without_lowest32,
};
use crate::boards::{
    admits, cand, dead, keeps, lemma_within_admits, lemma_within_cands, lemma_within_trans, within,
};
use crate::grid::{is_grid, lemma_grid_facts};
use crate::layout::{
    band_cell, band_pos, fits_all, has_minirow, having, home, is_layout, lay, layout_of,
    lemma_band_cell, lemma_band_pos, lemma_cand_within, lemma_exactly_three, lemma_fits_part,
    lemma_home, lemma_home_kept, lemma_layout, lemma_line_cell, lemma_no_linked, lemma_too_few,
    lemma_views, line_cell, linked, reach, reduced, settled_minirow, sound_occ, views,
};
use crate::minirow::{fits, in_perm, is_pattern, occupied, BAND_ALL};
use crate::rest::{
    barren, counted, lemma_cand, lemma_line_place, lemma_within, rests, spares,
};
use crate::simd::lanes::{
    and_lanes, and_not_lanes, diff_lanes, gather, shrink6, zero_lanes, Lanes,
};
use crate::simd::scan::{
    at_lane, drop_mirrored, lemma_same_view, lemma_shrunk, tally_lanes,
};
use crate::simd::state::{
    changes_marked, lanes_due, lemma_bit_test, lemma_clean, same_solved, State,
};
use crate::simd::tables::{
    lemma_lanes, lemma_other, other_lane, other_pos, stack_lane, Tables,
};

verus! {

broadcast use {group_bits16, group_bits32, group_bits64};

/// The patterns of the nine digits in one lane.
pub open spec fn lane_patterns(occ: Seq<Lanes>, lane: int) -> Seq<u16> {
    Seq::new(9, |d: int| occ[d][lane] as u16)
}

/// Nine-bit patterns, in the six lanes fit for every admitted grid.
pub open spec fn sound_rows(bs: Seq<u32>, occ: Seq<Lanes>) -> bool {
    &&& forall|d: int, l: int| 0 <= d < 9 && 0 <= l < 8 ==> #[trigger] occ[d][l] <= 0x1FF
    &&& forall|d: int, l: int|
        0 <= d < 9 && 0 <= l < 6 ==> sound_occ(bs, l, d, #[trigger] occ[d][l] as u16)
    &&& forall|d: int, l: int|
        0 <= d < 9 && 0 <= l < 6 ==> kept_occ(bs, l, d, #[trigger] occ[d][l] as u16)
}

/// The pattern has every minirow that the digit uses in whatever rests within
/// the boards.
pub open spec fn kept_occ(bs: Seq<u32>, lane: int, d: int, occ: u16) -> bool {
    forall|f: Seq<u32>, i: int| #[trigger]
        rests(f, true) && within(f, bs) && #[trigger] has_minirow(f, lane, d, i) ==> bit16(occ, i)
}

/// Patterns of fewer boards.
proof fn lemma_kept_within(a: Seq<u32>, b: Seq<u32>, lane: int, d: int, occ: u16)
    requires
        within(b, a),
        kept_occ(a, lane, d, occ),
    ensures
        kept_occ(b, lane, d, occ),
{
    assert forall|f: Seq<u32>, i: int| #[trigger]
        rests(f, true) && within(f, b) && #[trigger] has_minirow(f, lane, d, i) implies bit16(
        occ,
        i,
    ) by {
        lemma_within_trans(f, b, a);
    }
}

/// At least three digits use a minirow in whatever rests within the boards,
/// and they have it in their patterns.
proof fn lemma_rest_users(bs: Seq<u32>, occ: Seq<Lanes>, lane: int, t: int, f: Seq<u32>)
    requires
        sound_rows(bs, occ),
        0 <= lane < 6,
        0 <= t < 9,
        rests(f, true),
        within(f, bs),
    ensures
        3 <= reach(f, lane, t) <= at_lane(occ, lane, t, 9),
        reach(f, lane, t) == 3 ==> settled_minirow(f, lane, t),
        at_lane(occ, lane, t, 9) == 3 ==> forall|d: int|
            0 <= d < 9 && #[trigger] bit32(occ[d][lane], t) ==> has_minirow(f, lane, d, t),
{
    assert(counted(f, lane, t)) by {
        reveal(rests);
    }
    let h = |d: int| has_minirow(f, lane, d, t);
    let k = |d: int| bit32(occ[d][lane], t);
    assert forall|d: int| 0 <= d < 9 && h(d) implies #[trigger] k(d) by {
        assert(kept_occ(bs, lane, d, occ[d][lane] as u16));
        assert(occ[d][lane] <= 0x1FF);
        lemma_narrow(occ[d][lane]);
        assert(bit16(occ[d][lane] as u16, t));
    }
    lemma_count_mono(h, k, 9);
    assert forall|d: int| 0 <= d < 9 && #[trigger] bit32(occ[d][lane], t) && at_lane(
        occ,
        lane,
        t,
        9,
    ) == 3 implies has_minirow(f, lane, d, t) by {
        if !h(d) {
            assert(k(d));
            crate::bits::lemma_count_less(h, k, 9, d);
        }
    }
}

/// The patterns count alike in both widths.
proof fn lemma_having(occ: Seq<Lanes>, lane: int, t: int)
    requires
        0 <= lane < 8,
        forall|d: int, l: int| 0 <= d < 9 && 0 <= l < 8 ==> #[trigger] occ[d][l] <= 0x1FF,
    ensures
        having(lane_patterns(occ, lane), t, 9) == at_lane(occ, lane, t, 9),
{
    let f = |d: int| bit16(lane_patterns(occ, lane)[d], t);
    let g = |d: int| bit32(occ[d][lane], t);
    assert forall|d: int| 0 <= d < 9 implies f(d) == #[trigger] g(d) by {
        assert(occ[d][lane] <= 0x1FF);
        lemma_narrow(occ[d][lane]);
    }
    lemma_count_mono(f, g, 9);
    lemma_count_mono(g, f, 9);
}

/// The layout of an admitted grid fits the patterns.
proof fn lemma_fits_lane(bs: Seq<u32>, occ: Seq<Lanes>, lane: int, g: Seq<u8>)
    requires
        sound_rows(bs, occ),
        0 <= lane < 6,
        is_grid(g),
        admits(bs, g),
    ensures
        is_layout(layout_of(g, lane)),
        fits_all(lane_patterns(occ, lane), layout_of(g, lane)),
{
    lemma_layout(g, lane);
    assert forall|d: int| 0 <= d < 9 implies fits(
        lane_patterns(occ, lane)[d],
        #[trigger] layout_of(g, lane)(d),
    ) by {
        assert(sound_occ(bs, lane, d, occ[d][lane] as u16));
    }
}

/// A minirow that fewer than three digits can use leaves no grid.
proof fn lemma_lane_short(bs: Seq<u32>, occ: Seq<Lanes>, lane: int, t: int)
    requires
        sound_rows(bs, occ),
        0 <= lane < 6,
        0 <= t < 9,
        at_lane(occ, lane, t, 9) < 3,
    ensures
        dead(bs),
        barren(bs, true),
{
    assert forall|f: Seq<u32>| #[trigger] rests(f, true) implies !within(f, bs) by {
        if within(f, bs) {
            lemma_rest_users(bs, occ, lane, t, f);
        }
    }
    lemma_having(occ, lane, t);
    assert forall|g: Seq<u8>| is_grid(g) implies !#[trigger] admits(bs, g) by {
        if admits(bs, g) {
            lemma_fits_lane(bs, occ, lane, g);
            lemma_too_few(lane_patterns(occ, lane), layout_of(g, lane), t);
        }
    }
}

/// A digit pinned to a minirow leaves those linked to it.
proof fn lemma_pinned(
    bs: Seq<u32>,
    occ0: Seq<Lanes>,
    lane: int,
    t: int,
    d: int,
    o: u32,
    n: u32,
)
    requires
        sound_rows(bs, occ0),
        0 <= lane < 6,
        0 <= t < 9,
        0 <= d < 9,
        at_lane(occ0, lane, t, 9) == 3,
        o <= 0x1FF,
        n <= 0x1FF,
        bit32(o, t),
        forall|i: int| #[trigger] bit32(o, i) ==> bit32(occ0[d][lane], i),
        forall|i: int| #[trigger] bit32(n, i) <==> bit32(o, i) && !linked(t, i),
        sound_occ(bs, lane, d, o as u16),
        kept_occ(bs, lane, d, o as u16),
    ensures
        sound_occ(bs, lane, d, n as u16),
        kept_occ(bs, lane, d, n as u16),
{
    lemma_having(occ0, lane, t);
    lemma_narrow(o);
    lemma_narrow(n);
    assert(occ0[d][lane] <= 0x1FF);
    lemma_narrow(occ0[d][lane]);
    let pats = lane_patterns(occ0, lane);
    assert forall|f: Seq<u32>, i: int| #[trigger]
        rests(f, true) && within(f, bs) && #[trigger] has_minirow(f, lane, d, i) implies bit16(
        n as u16,
        i,
    ) by {
        lemma_rest_users(bs, occ0, lane, t, f);
        assert(bit32(occ0[d][lane], t));
        assert(has_minirow(f, lane, d, t));
        assert(bit16(o as u16, i));
        assert(bit32(o, i));
        if linked(t, i) {
            assert(!has_minirow(f, lane, d, i));
        }
        assert(bit32(n, i));
    }
    assert forall|g: Seq<u8>| is_grid(g) && #[trigger] admits(bs, g) implies fits(
        n as u16,
        lay(g, lane, d),
    ) by {
        let k = layout_of(g, lane);
        lemma_fits_lane(bs, occ0, lane, g);
        assert(bit16(pats[d], t)) by {
            assert(bit32(occ0[d][lane], t));
        }
        lemma_exactly_three(pats, k, t, d);
        assert(k(d) == lay(g, lane, d));
        assert forall|i: int| 0 <= i < 9 && #[trigger] bit16(o as u16, i) && in_perm(
            k(d),
            i,
        ) implies bit16(n as u16, i) by {
            lemma_no_linked(k(d), t, i);
            assert(bit32(n, i));
        }
        lemma_fits_part(o as u16, n as u16, k(d));
    }
}

/// Row by row, `a` has no minirow that `b` lacks.
pub open spec fn rows_in(a: Seq<Lanes>, b: Seq<Lanes>) -> bool {
    forall|d: int, l: int, i: int|
        0 <= d < 9 && 0 <= l < 6 && #[trigger] bit32(a[d][l], i) ==> bit32(b[d][l], i)
}

/// A pattern that has minirow `t` has no minirow linked to it.
pub open spec fn pinned_row(m: u32, t: int) -> bool {
    bit32(m, t) ==> forall|i: int| 0 <= i < 9 && #[trigger] linked(t, i) ==> !bit32(m, i)
}

/// Every digit that has minirow `t` in a lane has no minirow linked to it.
pub open spec fn pinned_lane(occ: Seq<Lanes>, lane: int, t: int) -> bool {
    forall|d: int| 0 <= d < 9 ==> pinned_row(#[trigger] occ[d][lane], t)
}

/// Digits pinned to a minirow stay so as patterns shrink.
proof fn lemma_pinned_in(a: Seq<Lanes>, b: Seq<Lanes>, lane: int, t: int)
    requires
        0 <= lane < 6,
        pinned_lane(a, lane, t),
        rows_in(b, a),
    ensures
        pinned_lane(b, lane, t),
{
    assert forall|d: int| 0 <= d < 9 implies pinned_row(#[trigger] b[d][lane], t) by {
        assert(pinned_row(a[d][lane], t));
        if bit32(b[d][lane], t) {
            assert forall|i: int| 0 <= i < 9 && #[trigger] linked(t, i) implies !bit32(
                b[d][lane],
                i,
            ) by {
                if bit32(b[d][lane], i) {
                    assert(bit32(a[d][lane], i));
                }
            }
        }
    }
}

/// The patterns of a state.
pub open spec fn rows_of(s: State, occ: Seq<Lanes>) -> bool {
    forall|d: int, l: int|
        0 <= d < 9 && 0 <= l < 6 ==> is_pattern(#[trigger] occ[d][l] as u16, s.b[d][l])
}

/// A lane's word has the minirows that the boards have.
proof fn lemma_lane_minirow(s: State, d: int, l: int, i: int)
    requires
        s.ok(),
        0 <= d < 9,
        0 <= l < 6,
    ensures
        occupied(s.b[d][l], i) <==> has_minirow(s.boards(), l, d, i),
{
    assert(views(s.b[d][l], s.boards(), l, d));
    reveal(views);
    if 0 <= i < 9 {
        assert(bit32(s.b[d][l], 3 * i) <==> cand(s.boards(), band_cell(l, 3 * i), d));
        assert(bit32(s.b[d][l], 3 * i + 1) <==> cand(s.boards(), band_cell(l, 3 * i + 1), d));
        assert(bit32(s.b[d][l], 3 * i + 2) <==> cand(s.boards(), band_cell(l, 3 * i + 2), d));
    }
}

/// The patterns count the digits that reach a minirow.
proof fn lemma_reach(s: State, occ: Seq<Lanes>, l: int, i: int)
    requires
        s.ok(),
        0 <= l < 6,
        rows_of(s, occ),
        forall|d: int, k: int| 0 <= d < 9 && 0 <= k < 8 ==> #[trigger] occ[d][k] <= 0x1FF,
    ensures
        reach(s.boards(), l, i) == at_lane(occ, l, i, 9),
{
    let f = |d: int| has_minirow(s.boards(), l, d, i);
    let g = |d: int| bit32(occ[d][l], i);
    assert forall|d: int| 0 <= d < 9 implies f(d) == #[trigger] g(d) by {
        assert(occ[d][l] <= 0x1FF);
        lemma_narrow(occ[d][l]);
        assert(is_pattern(occ[d][l] as u16, s.b[d][l]));
        assert(bit16(occ[d][l] as u16, i) <==> occupied(s.b[d][l], i));
        lemma_lane_minirow(s, d, l, i);
    }
    lemma_count_mono(f, g, 9);
    lemma_count_mono(g, f, 9);
}

/// Cut down to pinned patterns, a minirow is settled.
proof fn lemma_settled(s0: State, s: State, occ: Seq<Lanes>, l: int, i: int)
    requires
        s0.ok(),
        s.ok(),
        0 <= l < 6,
        0 <= i < 9,
        forall|d: int, k: int| 0 <= d < 9 && 0 <= k < 8 ==> #[trigger] occ[d][k] <= 0x1FF,
        forall|d: int| 0 <= d < 9 ==> lanes_cut(s0.b[d], s.b[d], #[trigger] occ[d]),
        pinned_lane(occ, l, i),
    ensures
        settled_minirow(s.boards(), l, i),
{
    assert forall|d: int, j: int|
        0 <= d < 9 && 0 <= j < 9 && has_minirow(s.boards(), l, d, j) implies #[trigger] bit32(
        occ[d][l],
        j,
    ) by {
        lemma_lane_minirow(s, d, l, j);
        assert(lanes_cut(s0.b[d], s.b[d], occ[d]));
        let p = if bit32(s.b[d][l], 3 * j) {
            3 * j
        } else if bit32(s.b[d][l], 3 * j + 1) {
            3 * j + 1
        } else {
            3 * j + 2
        };
        assert(p / 3 == j);
        assert(bit32(s.b[d][l], p));
        assert(occ[d][l] <= 0x1FF);
        lemma_narrow(occ[d][l]);
    }
    assert forall|d: int, j: int|
        0 <= d < 9 && 0 <= j < 9 && linked(i, j) && has_minirow(s.boards(), l, d, i) implies !(
    #[trigger] has_minirow(s.boards(), l, d, j)) by {
        assert(bit32(occ[d][l], i));
        assert(pinned_row(occ[d][l], i));
        if has_minirow(s.boards(), l, d, j) {
            assert(bit32(occ[d][l], j));
        }
    }
}

/// Pinned patterns of a state settle its minirows as they are.
proof fn lemma_settled_already(s: State, occ: Seq<Lanes>, l: int, i: int)
    requires
        s.ok(),
        0 <= l < 6,
        0 <= i < 9,
        forall|d: int, k: int| 0 <= d < 9 && 0 <= k < 8 ==> #[trigger] occ[d][k] <= 0x1FF,
        rows_of(s, occ),
        pinned_lane(occ, l, i),
    ensures
        settled_minirow(s.boards(), l, i),
{
    assert forall|d: int, j: int| 0 <= d < 9 implies (#[trigger] bit32(occ[d][l], j) <==> has_minirow(
        s.boards(),
        l,
        d,
        j,
    )) by {
        lemma_lane_minirow(s, d, l, j);
        assert(occ[d][l] <= 0x1FF);
        lemma_narrow(occ[d][l]);
        assert(is_pattern(occ[d][l] as u16, s.b[d][l]));
        assert(bit16(occ[d][l] as u16, j) <==> occupied(s.b[d][l], j));
    }
    assert forall|d: int, j: int|
        0 <= d < 9 && 0 <= j < 9 && linked(i, j) && has_minirow(s.boards(), l, d, i) implies !(
    #[trigger] has_minirow(s.boards(), l, d, j)) by {
        assert(bit32(occ[d][l], i));
        assert(pinned_row(occ[d][l], i));
        assert(!bit32(occ[d][l], j));
    }
}

/// Minirow `i` of a pattern is left once the minirows below `t` of `exact` that
/// the pattern still had have removed those linked to them.
pub open spec fn pinned_word(o: u32, exact: u32, i: int, t: nat) -> bool
    decreases t,
{
    if t == 0 {
        bit32(o, i)
    } else {
        let u = (t - 1) as nat;
        pinned_word(o, exact, i, u) && !(bit32(exact, u as int) && linked(u as int, i)
            && pinned_word(o, exact, u as int, u))
    }
}

/// Minirows that are not in `exact` remove nothing.
proof fn lemma_word_skip(o: u32, exact: u32, i: int, a: nat, b: nat)
    requires
        a <= b,
        forall|j: int| a <= j < b ==> !#[trigger] bit32(exact, j),
    ensures
        pinned_word(o, exact, i, a) == pinned_word(o, exact, i, b),
    decreases b,
{
    if a < b {
        lemma_word_skip(o, exact, i, a, (b - 1) as nat);
        assert(!bit32(exact, b - 1));
    }
}

/// Minirow `i` of lane `l` is left to digit `d`: the minirows below `t` that
/// just three digits can use took it, in increasing order, off the minirows
/// linked to them, as far as it was still theirs.
pub open spec fn left_over(bs: Seq<u32>, l: int, d: int, i: int, t: nat) -> bool
    decreases t,
{
    if t == 0 {
        has_minirow(bs, l, d, i)
    } else {
        let u = (t - 1) as nat;
        left_over(bs, l, d, i, u) && !(reach(bs, l, u as int) == 3 && linked(u as int, i)
            && left_over(bs, l, d, u as int, u))
    }
}

/// Digit `d` can use minirow `i` of lane `l`, but it is not left to it.
pub open spec fn loses(bs: Seq<u32>, l: int, d: int, i: int) -> bool {
    0 <= l < 6 && 0 <= i < 9 && has_minirow(bs, l, d, i) && !left_over(bs, l, d, i, 9)
}

/// No minirow of lane `l` is left to digit `d`.
pub open spec fn lane_bare(bs: Seq<u32>, l: int, d: int) -> bool {
    forall|i: int| 0 <= i < 9 ==> !#[trigger] left_over(bs, l, d, i, 9)
}

/// Digit `d` loses a minirow and is left without one in some lane.
pub open spec fn stranded(bs: Seq<u32>, d: int) -> bool {
    &&& exists|l: int, i: int| #[trigger] loses(bs, l, d, i)
    &&& exists|l: int| 0 <= l < 6 && #[trigger] lane_bare(bs, l, d)
}

/// `b` holds the candidates of `a` in minirows that are left, in both lanes of
/// the cell.
pub open spec fn cut_to_left(a: Seq<u32>, b: Seq<u32>) -> bool {
    forall|c: int, d: int|
        0 <= c < 81 && 0 <= d < 9 ==> (#[trigger] cand(b, c, d) <==> cand(a, c, d) && left_over(
            a,
            c / 27,
            d,
            band_pos(c / 27, c) / 3,
            9,
        ) && left_over(a, stack_lane(c), d, band_pos(stack_lane(c), c) / 3, 9))
}

/// What is left could be used.
proof fn lemma_left_has(bs: Seq<u32>, l: int, d: int, i: int, t: nat)
    requires
        left_over(bs, l, d, i, t),
    ensures
        has_minirow(bs, l, d, i),
    decreases t,
{
    if t > 0 {
        lemma_left_has(bs, l, d, i, (t - 1) as nat);
    }
}

/// Patterns and boards agree on what is left.
proof fn lemma_word_left(bs: Seq<u32>, l: int, d: int, o: u32, exact: u32, i: int, t: nat)
    requires
        0 <= i < 9,
        t <= 9,
        forall|j: int| 0 <= j < 9 ==> (#[trigger] bit32(o, j) <==> has_minirow(bs, l, d, j)),
        forall|j: int| 0 <= j < 9 ==> (#[trigger] bit32(exact, j) <==> reach(bs, l, j) == 3),
    ensures
        pinned_word(o, exact, i, t) <==> left_over(bs, l, d, i, t),
    decreases t,
{
    if t == 0 {
        assert(bit32(o, i) <==> has_minirow(bs, l, d, i));
    } else {
        let u = (t - 1) as nat;
        lemma_word_left(bs, l, d, o, exact, i, u);
        lemma_word_left(bs, l, d, o, exact, u as int, u);
        assert(bit32(exact, u as int) <==> reach(bs, l, u as int) == 3);
    }
}

/// With no minirow for just three digits, all is left.
proof fn lemma_all_left(bs: Seq<u32>, l: int, d: int, i: int, t: nat)
    requires
        t <= 9,
        forall|j: int| 0 <= j < 9 ==> #[trigger] reach(bs, l, j) != 3,
    ensures
        left_over(bs, l, d, i, t) <==> has_minirow(bs, l, d, i),
    decreases t,
{
    if t > 0 {
        assert(reach(bs, l, t - 1) != 3);
        lemma_all_left(bs, l, d, i, (t - 1) as nat);
    }
}

/// Where nothing is lost, no digit is stranded and nothing is cut.
proof fn lemma_nothing_lost(bs: Seq<u32>)
    requires
        forall|l: int, d: int, i: int|
            0 <= l < 6 && 0 <= d < 9 && 0 <= i < 9 && #[trigger] has_minirow(bs, l, d, i)
                ==> left_over(bs, l, d, i, 9),
    ensures
        forall|d: int| 0 <= d < 9 ==> !#[trigger] stranded(bs, d),
        cut_to_left(bs, bs),
{
    assert forall|d: int| 0 <= d < 9 implies !#[trigger] stranded(bs, d) by {
        if stranded(bs, d) {
            let (l, i) = choose|l: int, i: int| #[trigger] loses(bs, l, d, i);
            assert(has_minirow(bs, l, d, i));
        }
    }
    assert forall|c: int, d: int| 0 <= c < 81 && 0 <= d < 9 && #[trigger] cand(
        bs,
        c,
        d,
    ) implies left_over(bs, c / 27, d, band_pos(c / 27, c) / 3, 9) && left_over(
        bs,
        stack_lane(c),
        d,
        band_pos(stack_lane(c), c) / 3,
        9,
    ) by {
        let (h, v) = (c / 27, stack_lane(c));
        lemma_lanes(c, h);
        lemma_lanes(c, v);
        lemma_band_pos(h, c);
        lemma_band_pos(v, c);
        lemma_cell_minirow(bs, h, band_pos(h, c), d);
        lemma_cell_minirow(bs, v, band_pos(v, c), d);
        assert(has_minirow(bs, h, d, band_pos(h, c) / 3));
        assert(has_minirow(bs, v, d, band_pos(v, c) / 3));
    }
}

/// The patterns hold what is left.
pub open spec fn rows_left(bs: Seq<u32>, occ: Seq<Lanes>) -> bool {
    forall|d: int, l: int, i: int|
        0 <= d < 9 && 0 <= l < 6 && 0 <= i < 9 ==> (#[trigger] bit32(occ[d][l], i) <==> left_over(
            bs,
            l,
            d,
            i,
            9,
        ))
}

/// A word has a cell in a minirow that the pattern lacks.
pub open spec fn word_trimmed(o: u32, m: u32) -> bool {
    exists|p: int| 0 <= p < 27 && #[trigger] bit32(o, p) && !bit16(m as u16, p / 3)
}

/// A word has no cell in a minirow of the pattern.
pub open spec fn word_bare(o: u32, m: u32) -> bool {
    forall|p: int| 0 <= p < 27 && #[trigger] bit32(o, p) ==> !bit16(m as u16, p / 3)
}

/// What a pattern does to a word is what the lane loses.
proof fn lemma_word_lane(s: State, occ: Seq<Lanes>, d: int, l: int)
    requires
        s.ok(),
        0 <= d < 9,
        0 <= l < 6,
        occ[d][l] <= 0x1FF,
        rows_left(s.boards(), occ),
    ensures
        word_trimmed(s.b[d][l], occ[d][l]) <==> exists|i: int| #[trigger]
            loses(s.boards(), l, d, i),
        word_bare(s.b[d][l], occ[d][l]) <==> lane_bare(s.boards(), l, d),
{
    let bs = s.boards();
    let (o, m) = (s.b[d][l], occ[d][l]);
    lemma_narrow(m);
    assert forall|i: int| 0 <= i < 9 implies (#[trigger] bit16(m as u16, i) <==> left_over(
        bs,
        l,
        d,
        i,
        9,
    )) by {
        assert(bit32(occ[d][l], i) <==> left_over(bs, l, d, i, 9));
    }
    if word_trimmed(o, m) {
        let p = choose|p: int| 0 <= p < 27 && #[trigger] bit32(o, p) && !bit16(m as u16, p / 3);
        let i = p / 3;
        assert(p == 3 * i || p == 3 * i + 1 || p == 3 * i + 2);
        lemma_lane_minirow(s, d, l, i);
        assert(loses(bs, l, d, i));
    }
    if exists|i: int| #[trigger] loses(bs, l, d, i) {
        let i = choose|i: int| #[trigger] loses(bs, l, d, i);
        let p = lemma_lane_cell(s, d, l, i);
        assert(bit32(o, p) && !bit16(m as u16, p / 3));
    }
    if word_bare(o, m) {
        assert forall|i: int| 0 <= i < 9 implies !#[trigger] left_over(bs, l, d, i, 9) by {
            if left_over(bs, l, d, i, 9) {
                lemma_left_has(bs, l, d, i, 9);
                let p = lemma_lane_cell(s, d, l, i);
                assert(!bit16(m as u16, p / 3));
            }
        }
    }
    if lane_bare(bs, l, d) {
        assert forall|p: int| 0 <= p < 27 && #[trigger] bit32(o, p) implies !bit16(
            m as u16,
            p / 3,
        ) by {
            assert(!left_over(bs, l, d, p / 3, 9));
        }
    }
}

/// A minirow that a digit can use has a cell for it.
proof fn lemma_lane_cell(s: State, d: int, l: int, i: int) -> (p: int)
    requires
        s.ok(),
        0 <= d < 9,
        0 <= l < 6,
        0 <= i < 9,
        has_minirow(s.boards(), l, d, i),
    ensures
        0 <= p < 27,
        p / 3 == i,
        bit32(s.b[d][l], p),
{
    lemma_lane_minirow(s, d, l, i);
    if bit32(s.b[d][l], 3 * i) {
        3 * i
    } else if bit32(s.b[d][l], 3 * i + 1) {
        3 * i + 1
    } else {
        3 * i + 2
    }
}

/// Whether a digit is stranded shows in its words and patterns.
proof fn lemma_stranded(s: State, occ: Seq<Lanes>, d: int)
    requires
        s.ok(),
        0 <= d < 9,
        forall|l: int| 0 <= l < 6 ==> #[trigger] occ[d][l] <= 0x1FF,
        rows_left(s.boards(), occ),
    ensures
        stranded(s.boards(), d) <==> (exists|l: int|
            0 <= l < 6 && word_trimmed(#[trigger] s.b[d][l], occ[d][l])) && (exists|l: int|
            0 <= l < 6 && word_bare(#[trigger] s.b[d][l], occ[d][l])),
{
    let bs = s.boards();
    assert forall|l: int| 0 <= l < 6 implies (word_trimmed(#[trigger] s.b[d][l], occ[d][l])
        <==> exists|i: int| #[trigger] loses(bs, l, d, i)) && (word_bare(s.b[d][l], occ[d][l])
        <==> lane_bare(bs, l, d)) by {
        assert(occ[d][l] <= 0x1FF);
        lemma_word_lane(s, occ, d, l);
    }
    if stranded(bs, d) {
        let (l, i) = choose|l: int, i: int| #[trigger] loses(bs, l, d, i);
        assert(word_trimmed(s.b[d][l], occ[d][l]));
        let k = choose|k: int| 0 <= k < 6 && #[trigger] lane_bare(bs, k, d);
        assert(word_bare(s.b[d][k], occ[d][k]));
    }
}

/// Lanes cut down to what is left.
proof fn lemma_cut_to_left(s0: State, s: State, occ: Seq<Lanes>)
    requires
        s0.ok(),
        s.ok(),
        forall|d: int, l: int| 0 <= d < 9 && 0 <= l < 8 ==> #[trigger] occ[d][l] <= 0x1FF,
        forall|d: int| 0 <= d < 9 ==> lanes_cut(s0.b[d], s.b[d], #[trigger] occ[d]),
        rows_left(s0.boards(), occ),
    ensures
        cut_to_left(s0.boards(), s.boards()),
{
    let (x, y) = (s0.boards(), s.boards());
    s0.lemma_boards();
    s.lemma_boards();
    assert forall|c: int, d: int| 0 <= c < 81 && 0 <= d < 9 implies (#[trigger] cand(y, c, d)
        <==> cand(x, c, d) && left_over(x, c / 27, d, band_pos(c / 27, c) / 3, 9) && left_over(
        x,
        stack_lane(c),
        d,
        band_pos(stack_lane(c), c) / 3,
        9,
    )) by {
        let (h, v) = (c / 27, stack_lane(c));
        let p = c % 27;
        lemma_lanes(c, h);
        lemma_lanes(c, v);
        lemma_band_pos(h, c);
        lemma_band_pos(v, c);
        let q = band_pos(v, c);
        assert(band_pos(h, c) == p && band_cell(h, p) == c);
        assert(other_lane(h, p) == v && other_pos(h, p) == q);
        assert(y[9 * h + d] == s.b[d][h] && x[9 * h + d] == s0.b[d][h]);
        assert(lanes_cut(s0.b[d], s.b[d], occ[d]));
        assert(bit32(s.b[d][h], p) <==> bit32(s0.b[d][h], p) && bit16(
            occ[d][h] as u16,
            p / 3,
        ) && bit16(occ[d][v] as u16, q / 3));
        assert(occ[d][h] <= 0x1FF && occ[d][v] <= 0x1FF);
        lemma_narrow(occ[d][h]);
        lemma_narrow(occ[d][v]);
        assert(bit32(occ[d][h], p / 3) <==> left_over(x, h, d, p / 3, 9));
        assert(bit32(occ[d][v], q / 3) <==> left_over(x, v, d, q / 3, 9));
    }
}

/// The three digits that alone can use a minirow use none linked to it; says
/// whether that removed anything.
fn pin_minirow(
    occ: &mut [[u32; 8]; 9],
    lane: usize,
    tt: usize,
    t: &Tables,
    Ghost(occ0): Ghost<Seq<Lanes>>,
    Ghost(bs): Ghost<Seq<u32>>,
) -> (changed: bool)
    requires
        t.ok(),
        lane < 6,
        tt < 9,
        sound_rows(bs, occ0),
        at_lane(occ0, lane as int, tt as int, 9) == 3,
        sound_rows(bs, old(occ)@),
        rows_in(old(occ)@, occ0),
    ensures
        sound_rows(bs, final(occ)@),
        rows_in(final(occ)@, occ0),
        rows_in(final(occ)@, old(occ)@),
        pinned_lane(final(occ)@, lane as int, tt as int),
        !changed ==> final(occ)@ == old(occ)@,
        forall|e: int, l: int, i: int|
            0 <= e < 9 && 0 <= l < 6 ==> (#[trigger] bit32(final(occ)@[e][l], i) <==> bit32(
                old(occ)@[e][l],
                i,
            ) && !(l == lane && linked(tt as int, i) && bit32(old(occ)@[e][l], tt as int))),
{
    let ghost occ1 = occ@;
    let tb = 1u32 << (tt as u32);
    let around = t.minirow_linked[tt];
    proof {
        assert forall|i: int| #[trigger] bit32(around, i) <==> 0 <= i < 9 && linked(tt as int, i) by {
            reveal(Tables::ok);
        }
    }
    let mut changed = false;
    let mut d: usize = 0;
    while d < 9
        invariant
            d <= 9,
            lane < 6,
            tt < 9,
            tb == 1u32 << (tt as u32),
            forall|i: int| #[trigger] bit32(around, i) <==> 0 <= i < 9 && linked(tt as int, i),
            sound_rows(bs, occ0),
            at_lane(occ0, lane as int, tt as int, 9) == 3,
            sound_rows(bs, occ@),
            rows_in(occ@, occ0),
            occ1 == old(occ)@,
            rows_in(occ@, occ1),
            forall|e: int| 0 <= e < d ==> pinned_row(#[trigger] occ@[e][lane as int], tt as int),
            !changed ==> occ@ == old(occ)@,
            forall|e: int| d <= e < 9 ==> #[trigger] occ@[e] == occ1[e],
            forall|e: int, l: int, i: int|
                0 <= e < d && 0 <= l < 6 ==> (#[trigger] bit32(occ@[e][l], i) <==> bit32(
                    occ1[e][l],
                    i,
                ) && !(l == lane && linked(tt as int, i) && bit32(occ1[e][l], tt as int))),
        decreases 9 - d,
    {
        let mut row: Lanes = occ[d];
        let o = row[lane];
        let ghost start = occ@;
        proof {
            assert(occ@[d as int][lane as int] <= 0x1FF);
            lemma_bit_test(o, tt as u32, tb);
        }
        if o & tb != 0 && o & around != 0 {
            let ghost before = occ@;
            let n = o & !around;
            proof {
                lemma_subset32(n, o);
                assert forall|i: int| #[trigger] bit32(n, i) <==> bit32(o, i) && !linked(
                    tt as int,
                    i,
                ) by {
                    if bit32(o, i) {
                        lemma_low(o, i);
                    }
                }
                assert forall|i: int| #[trigger] bit32(o, i) implies bit32(
                    occ0[d as int][lane as int],
                    i,
                ) by {
                    assert(bit32(occ@[d as int][lane as int], i));
                }
                assert(sound_occ(bs, lane as int, d as int, occ@[d as int][lane as int] as u16));
                assert(kept_occ(bs, lane as int, d as int, occ@[d as int][lane as int] as u16));
                lemma_pinned(bs, occ0, lane as int, tt as int, d as int, o, n);
            }
            row[lane] = n;
            occ[d] = row;
            changed = true;
            proof {
                assert forall|e: int, l: int| 0 <= e < 9 && 0 <= l < 8 implies
                    #[trigger] occ@[e][l] <= 0x1FF by {
                    assert(before[e][l] <= 0x1FF);
                }
                assert forall|e: int, l: int| 0 <= e < 9 && 0 <= l < 6 implies sound_occ(
                    bs,
                    l,
                    e,
                    #[trigger] occ@[e][l] as u16,
                ) by {
                    assert(sound_occ(bs, l, e, before[e][l] as u16));
                }
                assert forall|e: int, l: int| 0 <= e < 9 && 0 <= l < 6 implies kept_occ(
                    bs,
                    l,
                    e,
                    #[trigger] occ@[e][l] as u16,
                ) by {
                    assert(kept_occ(bs, l, e, before[e][l] as u16));
                }
                assert forall|e: int, l: int, i: int|
                    0 <= e < 9 && 0 <= l < 6 && #[trigger] bit32(occ@[e][l], i) implies bit32(
                    occ0[e][l],
                    i,
                ) && bit32(occ1[e][l], i) by {
                    assert(bit32(before[e][l], i));
                }
            }
        } else {
            proof {
                if bit32(o, tt as int) {
                    assert forall|i: int| 0 <= i < 9 && #[trigger] linked(
                        tt as int,
                        i,
                    ) implies !bit32(o, i) by {
                        if bit32(o, i) {
                            assert(bit32(o & around, i));
                            assert(!bit32(0u32, i));
                        }
                    }
                }
            }
        }
        proof {
            assert forall|e: int| 0 <= e < d + 1 implies pinned_row(
                #[trigger] occ@[e][lane as int],
                tt as int,
            ) by {
                if e < d {
                    assert(occ@[e] == start[e]);
                    assert(pinned_row(start[e][lane as int], tt as int));
                }
            }
            assert forall|e: int, l: int, i: int| 0 <= e < d + 1 && 0 <= l < 6 implies (
            #[trigger] bit32(occ@[e][l], i) <==> bit32(occ1[e][l], i) && !(l == lane && linked(
                tt as int,
                i,
            ) && bit32(occ1[e][l], tt as int))) by {
                if e < d {
                    assert(occ@[e] == start[e]);
                    assert(bit32(start[e][l], i) <==> bit32(occ1[e][l], i) && !(l == lane && linked(
                        tt as int,
                        i,
                    ) && bit32(occ1[e][l], tt as int)));
                } else {
                    assert(start[e] == occ1[e]);
                    if l == lane && bit32(o, i) {
                        lemma_low(o, i);
                    }
                }
            }
        }
        d = d + 1;
    }
    changed
}

/// A nine-bit pattern has no minirow from 9 up.
proof fn lemma_low(m: u32, i: int)
    requires
        m <= 0x1FF,
        bit32(m, i),
    ensures
        0 <= i < 9,
{
    lemma_narrow(m);
    assert(bit16(m as u16, i));
    crate::bits::lemma_small9(m as u16, i);
}

/// Applies the rule of three to every minirow of every lane that exactly three
/// digits can use; says whether that removed anything.
fn pin_all(
    occ: &mut [[u32; 8]; 9],
    exact: &Lanes,
    t: &Tables,
    Ghost(bs): Ghost<Seq<u32>>,
) -> (changed: bool)
    requires
        t.ok(),
        sound_rows(bs, old(occ)@),
        forall|l: int, i: int|
            0 <= l < 6 && #[trigger] bit32(exact[l], i) ==> 0 <= i < 9 && at_lane(
                old(occ)@,
                l,
                i,
                9,
            ) == 3,
    ensures
        sound_rows(bs, final(occ)@),
        rows_in(final(occ)@, old(occ)@),
        forall|l: int, i: int|
            0 <= l < 6 && #[trigger] bit32(exact[l], i) ==> pinned_lane(final(occ)@, l, i),
        !changed ==> final(occ)@ == old(occ)@,
        (forall|l: int| 0 <= l < 6 ==> #[trigger] exact[l] == 0) ==> !changed,
        forall|d: int, l: int, i: int|
            0 <= d < 9 && 0 <= l < 6 ==> (#[trigger] bit32(final(occ)@[d][l], i) <==> pinned_word(
                old(occ)@[d][l],
                exact[l],
                i,
                9,
            )),
{
    let ghost occ0 = occ@;
    let mut changed = false;
    let mut lane: usize = 0;
    while lane < 6
        invariant
            lane <= 6,
            t.ok(),
            occ0 == old(occ)@,
            sound_rows(bs, occ0),
            sound_rows(bs, occ@),
            rows_in(occ@, occ0),
            !changed ==> occ@ == occ0,
            changed ==> exists|l: int| 0 <= l < 6 && #[trigger] exact[l] != 0,
            forall|l: int, i: int|
                0 <= l < 6 && #[trigger] bit32(exact[l], i) ==> 0 <= i < 9 && at_lane(occ0, l, i, 9)
                    == 3,
            forall|l: int, i: int|
                0 <= l < lane && #[trigger] bit32(exact[l], i) ==> pinned_lane(occ@, l, i),
            forall|d: int, l: int, i: int|
                0 <= d < 9 && 0 <= l < 6 ==> (#[trigger] bit32(occ@[d][l], i) <==> pinned_word(
                    occ0[d][l],
                    exact[l],
                    i,
                    if l < lane {
                        9
                    } else {
                        0
                    },
                )),
        decreases 6 - lane,
    {
        let ghost mut upto: nat = 0;
        let mut e: u32 = exact[lane];
        while e != 0
            invariant
                lane < 6,
                t.ok(),
                sound_rows(bs, occ0),
                sound_rows(bs, occ@),
                rows_in(occ@, occ0),
                !changed ==> occ@ == occ0,
                changed ==> exists|l: int| 0 <= l < 6 && #[trigger] exact[l] != 0,
                e != 0 ==> exact[lane as int] != 0,
                forall|i: int| #[trigger]
                    bit32(e, i) ==> 0 <= i < 9 && at_lane(occ0, lane as int, i, 9) == 3,
                forall|l: int, i: int|
                    0 <= l < lane && #[trigger] bit32(exact[l], i) ==> pinned_lane(occ@, l, i),
                forall|i: int| #[trigger]
                    bit32(exact[lane as int], i) ==> bit32(e, i) || pinned_lane(
                        occ@,
                        lane as int,
                        i,
                    ),
                upto <= 9,
                forall|i: int| #[trigger] bit32(e, i) ==> upto <= i && bit32(exact[lane as int], i),
                forall|i: int| upto <= i && #[trigger] bit32(exact[lane as int], i) ==> bit32(e, i),
                forall|d: int, l: int, i: int|
                    0 <= d < 9 && 0 <= l < 6 ==> (#[trigger] bit32(occ@[d][l], i) <==> pinned_word(
                        occ0[d][l],
                        exact[l],
                        i,
                        if l < lane {
                            9
                        } else if l == lane {
                            upto
                        } else {
                            0
                        },
                    )),
            decreases e,
        {
            let ghost e0 = e;
            let ghost occ1 = occ@;
            let tt = lowest32(e);
            e = without_lowest32(e);
            proof {
                let k = choose|k: int| #![trigger bit32(e0, k)] 0 <= k < 32 && bit32(e0, k) && (
                forall|j: int| #[trigger] bit32(e, j) <==> bit32(e0, j) && j != k) && (forall|
                    j: int,
                |
                    0 <= j < k ==> !bit32(e0, j));
                assert(k == tt);
            }
            if pin_minirow(occ, lane, tt, t, Ghost(occ0), Ghost(bs)) {
                changed = true;
            }
            proof {
                let x = exact[lane as int];
                assert(bit32(e0, tt as int));
                assert forall|d: int, l: int, i: int| 0 <= d < 9 && 0 <= l < 6 implies (
                #[trigger] bit32(occ@[d][l], i) <==> pinned_word(
                    occ0[d][l],
                    exact[l],
                    i,
                    if l < lane {
                        9
                    } else if l == lane {
                        (tt + 1) as nat
                    } else {
                        0
                    },
                )) by {
                    assert(bit32(occ1[d][l], i) <==> pinned_word(
                        occ0[d][l],
                        exact[l],
                        i,
                        if l < lane {
                            9
                        } else if l == lane {
                            upto
                        } else {
                            0
                        },
                    ));
                    if l == lane {
                        assert(bit32(occ1[d][l], tt as int) <==> pinned_word(
                            occ0[d][l],
                            x,
                            tt as int,
                            upto,
                        ));
                        lemma_word_skip(occ0[d][l], x, i, upto, tt as nat);
                        lemma_word_skip(occ0[d][l], x, tt as int, upto, tt as nat);
                    }
                }
                upto = (tt + 1) as nat;
                assert forall|l: int, i: int| 0 <= l < lane && #[trigger] bit32(
                    exact[l],
                    i,
                ) implies pinned_lane(occ@, l, i) by {
                    lemma_pinned_in(occ1, occ@, l, i);
                }
                assert forall|i: int| #[trigger] bit32(exact[lane as int], i) implies bit32(e, i)
                    || pinned_lane(occ@, lane as int, i) by {
                    if !bit32(e, i) && i != tt {
                        assert(!bit32(e0, i));
                        lemma_pinned_in(occ1, occ@, lane as int, i);
                    }
                }
            }
        }
        proof {
            assert forall|i: int| #[trigger] bit32(exact[lane as int], i) implies pinned_lane(
                occ@,
                lane as int,
                i,
            ) by {
                assert(!bit32(0u32, i));
            }
            assert forall|d: int, l: int, i: int| 0 <= d < 9 && 0 <= l < 6 implies (#[trigger] bit32(
                occ@[d][l],
                i,
            ) <==> pinned_word(
                occ0[d][l],
                exact[l],
                i,
                if l < lane + 1 {
                    9
                } else {
                    0
                },
            )) by {
                if l == lane {
                    assert forall|j: int| upto <= j < 9 implies !#[trigger] bit32(exact[l], j) by {
                        assert(!bit32(0u32, j));
                    }
                    lemma_word_skip(occ0[d][l], exact[l], i, upto, 9);
                }
            }
        }
        lane = lane + 1;
    }
    changed
}

/// Lanes `n` are lanes `o` cut down to the patterns `occ`.
pub open spec fn lanes_cut(o: Lanes, n: Lanes, occ: Lanes) -> bool {
    forall|l: int, p: int|
        0 <= l < 6 && 0 <= p < 27 ==> (#[trigger] bit32(n[l], p) <==> bit32(o[l], p) && bit16(
            occ[l] as u16,
            p / 3,
        ) && bit16(occ[other_lane(l, p)] as u16, other_pos(l, p) / 3))
}

/// A candidate makes its minirow used.
proof fn lemma_cell_minirow(f: Seq<u32>, l: int, p: int, d: int)
    requires
        0 <= l < 6,
        0 <= p < 27,
        cand(f, band_cell(l, p), d),
    ensures
        has_minirow(f, l, d, p / 3),
{
    let i = p / 3;
    assert(p == 3 * i || p == 3 * i + 1 || p == 3 * i + 2);
}

/// The state after one digit was cut in all lanes.
proof fn lemma_digit_cut(s0: State, s: State, d: int, occ: Lanes)
    requires
        s0.ok(),
        s.shape(),
        same_solved(s0, s),
        0 <= d < 9,
        changes_marked(s0, s),
        forall|e: int| 0 <= e < 9 && e != d ==> #[trigger] s.b[e] == s0.b[e],
        lanes_cut(s0.b[d], s.b[d], occ),
        forall|l: int| 0 <= l < 6 ==> sound_occ(s0.boards(), l, d, #[trigger] occ[l] as u16),
        forall|l: int| 0 <= l < 6 ==> kept_occ(s0.boards(), l, d, #[trigger] occ[l] as u16),
    ensures
        s.ok(),
        within(s.boards(), s0.boards()),
        keeps(s0.boards(), s.boards()),
        spares(s0.boards(), s.boards(), true),
        (exists|l: int| 0 <= l < 6 && #[trigger] s.b[d][l] != s0.b[d][l]) ==> s.boards()
            != s0.boards(),
{
    let (x, y) = (s0.boards(), s.boards());
    s0.lemma_boards();
    s.lemma_boards();
    assert forall|c: int, e: int| 0 <= c < 81 && 0 <= e < 9 && #[trigger] cand(
        y,
        c,
        e,
    ) implies cand(x, c, e) by {
        let (l, p) = (c / 27, c % 27);
        assert(y[9 * l + e] == s.b[e][l] && x[9 * l + e] == s0.b[e][l]);
        if e == d {
            assert(bit32(s.b[d][l], p));
        }
    }
    lemma_within_cands(y, x);
    assert forall|f: Seq<u32>| #[trigger] rests(f, true) && within(f, x) implies within(f, y) by {
        assert(f.len() == 27) by {
            reveal(rests);
        }
        assert forall|c: int, e: int| 0 <= c < 81 && 0 <= e < 9 && #[trigger] cand(
            f,
            c,
            e,
        ) implies cand(y, c, e) by {
            lemma_cand(f, x, c, e);
            let (l, p) = (c / 27, c % 27);
            assert(y[9 * l + e] == s.b[e][l] && x[9 * l + e] == s0.b[e][l]);
            if e == d {
                lemma_other(l, p);
                let (m, q) = (other_lane(l, p), other_pos(l, p));
                lemma_cell_minirow(f, l, p, d);
                lemma_cell_minirow(f, m, q, d);
                assert(band_cell(l, p) == c);
                assert(kept_occ(x, l, d, occ[l] as u16));
                assert(kept_occ(x, m, d, occ[m] as u16));
                assert(bit32(s.b[d][l], p));
            }
        }
        lemma_within(f, y, x);
    }
    lemma_shrunk(s0, s);
    lemma_clean(s0, s);
    assert(s.synced()) by {
        assert forall|e: int, l: int| 0 <= e < 9 && 0 <= l < 6 implies views(
            #[trigger] s.b[e][l],
            y,
            l,
            e,
        ) by {
            assert(views(s0.b[e][l], x, l, e));
            reveal(views);
            assert forall|p: int| 0 <= p < 27 implies (#[trigger] bit32(s.b[e][l], p) <==> cand(
                y,
                band_cell(l, p),
                e,
            )) by {
                lemma_band_cell(l, p);
                let c = band_cell(l, p);
                let (h, hp) = (c / 27, c % 27);
                assert(bit32(s0.b[e][l], p) <==> cand(x, c, e));
                assert(y[9 * h + e] == s.b[e][h] && x[9 * h + e] == s0.b[e][h]);
                if e == d {
                    lemma_lanes(c, h);
                    lemma_band_pos(h, c);
                    lemma_other(l, p);
                    lemma_other(h, hp);
                    if l < 3 {
                        assert(l == h && p == hp);
                    } else {
                        lemma_lanes(c, l);
                        assert(other_lane(l, p) == h && other_pos(l, p) == hp);
                        assert(other_lane(h, hp) == l && other_pos(h, hp) == p);
                    }
                    assert(bit32(s.b[d][h], hp) <==> bit32(s0.b[d][h], hp) && bit16(
                        occ[h] as u16,
                        hp / 3,
                    ) && bit16(occ[other_lane(h, hp)] as u16, other_pos(h, hp) / 3));
                } else {
                    assert(s.b[e] == s0.b[e]);
                }
            }
        }
    }
    assert forall|g: Seq<u8>| is_grid(g) && #[trigger] admits(x, g) implies admits(y, g) by {
        reveal(admits);
        lemma_grid_facts(g);
        assert forall|c: int| 0 <= c < 81 implies cand(y, c, #[trigger] g[c] - 1) by {
            let e = g[c] - 1;
            let (h, hp) = (c / 27, c % 27);
            assert(cand(x, c, e));
            assert(y[9 * h + e] == s.b[e][h] && x[9 * h + e] == s0.b[e][h]);
            if e == d {
                lemma_lanes(c, h);
                lemma_band_pos(h, c);
                lemma_other(h, hp);
                let v = other_lane(h, hp);
                lemma_lanes(c, v);
                assert(sound_occ(x, h, d, occ[h] as u16));
                assert(sound_occ(x, v, d, occ[v] as u16));
                lemma_home_kept(g, h, d, occ[h] as u16, c);
                lemma_home_kept(g, v, d, occ[v] as u16, c);
                assert(bit32(s.b[d][h], hp));
            } else {
                assert(s.b[e] == s0.b[e]);
            }
        }
    }
    if x == y {
        assert forall|l: int| 0 <= l < 6 implies #[trigger] s.b[d][l] == s0.b[d][l] by {
            assert(views(s0.b[d][l], x, l, d));
            assert(views(s.b[d][l], y, l, d));
            lemma_same_view(s0.b[d][l], s.b[d][l], x, l, d);
        }
    }
}

/// A lane that a sound pattern empties leaves no grid.
proof fn lemma_emptied(s: State, d: int, l: int, occ: u16, n: u32)
    requires
        s.ok(),
        0 <= d < 9,
        0 <= l < 6,
        sound_occ(s.boards(), l, d, occ),
        forall|p: int| #[trigger]
            bit32(n, p) <==> bit32(s.b[d][l], p) && 0 <= p < 27 && bit16(occ, p / 3),
        n == 0,
    ensures
        dead(s.boards()),
{
    assert forall|g: Seq<u8>| is_grid(g) implies !#[trigger] admits(s.boards(), g) by {
        if admits(s.boards(), g) {
            assert(views(s.b[d][l], s.boards(), l, d));
            lemma_views(s.b[d][l], s.boards(), g, l, d);
            lemma_home(g, l, 0, d);
            let x = home(g, l, 0, d);
            assert(bit32(s.b[d][l], 9 * 0 + x));
            lemma_band_cell(l, x);
            assert(x / 9 == 0 && x % 9 == x);
            lemma_home_kept(g, l, d, occ, band_cell(l, x));
            assert(bit32(n, x));
            assert(!bit32(0u32, x));
        }
    }
}

/// Nothing rests where a digit has lost a lane.
proof fn lemma_emptied_rest(s: State, d: int, l: int, occ: u16, n: u32)
    requires
        s.ok(),
        0 <= d < 9,
        0 <= l < 6,
        kept_occ(s.boards(), l, d, occ),
        n == 0,
        forall|p: int| #[trigger]
            bit32(n, p) <==> bit32(s.b[d][l], p) && 0 <= p < 27 && bit16(occ, p / 3),
    ensures
        barren(s.boards(), true),
{
    let bs = s.boards();
    s.lemma_boards();
    assert forall|f: Seq<u32>| #[trigger] rests(f, true) implies !within(f, bs) by {
        if within(f, bs) {
            assert(reduced(f, f, l, d)) by {
                reveal(rests);
            }
            let y = lemma_line_place(f, l, d, 0);
            lemma_line_cell(l, 0, y);
            assert(band_cell(l, 9 * 0 + y) == line_cell(l, 0, y));
            lemma_cell_minirow(f, l, y, d);
            assert(f.len() == 27) by {
                reveal(rests);
            }
            lemma_cand_within(f, bs, l, y, d);
            assert(views(s.b[d][l], bs, l, d));
            reveal(views);
            assert(bit32(s.b[d][l], y));
            assert(bit16(occ, y / 3));
            assert(bit32(n, y));
            assert(!bit32(0u32, y));
        }
    }
}

/// What a word keeps of a pattern.
proof fn lemma_word_kept(o: u32, m: u32, n: u32)
    requires
        o <= BAND_ALL,
        forall|p: int| #[trigger]
            bit32(n, p) <==> bit32(o, p) && 0 <= p < 27 && bit16(m as u16, p / 3),
    ensures
        word_trimmed(o, m) <==> n != o,
        word_bare(o, m) <==> n == 0,
{
    if word_trimmed(o, m) {
        let p = choose|p: int| 0 <= p < 27 && #[trigger] bit32(o, p) && !bit16(m as u16, p / 3);
        assert(!bit32(n, p));
    } else {
        assert forall|p: int| 0 <= p < 32 implies bit32(n, p) == bit32(o, p) by {
            if bit32(o, p) {
                lemma_small32(o, p);
            }
        }
        lemma_ext32(n, o);
    }
    if n != 0 {
        let p = lemma_nonzero32(n);
        assert(bit32(n, p));
    } else {
        assert forall|p: int| 0 <= p < 27 && #[trigger] bit32(o, p) implies !bit16(
            m as u16,
            p / 3,
        ) by {
            assert(!bit32(n, p));
        }
    }
}

/// What the cardinality pass has done to the state.
pub open spec fn narrowed(s0: State, s: State) -> bool {
    &&& s.ok()
    &&& same_solved(s0, s)
    &&& within(s.boards(), s0.boards())
    &&& keeps(s0.boards(), s.boards())
    &&& spares(s0.boards(), s.boards(), true)
    &&& s == s0 || s.boards() != s0.boards()
    &&& changes_marked(s0, s)
    &&& lanes_due(s0, s)
    &&& s == s0 || (s.dirty_cells && s.tdirty)
}

/// A lane that changed has not changed back as candidates shrink.
proof fn lemma_still_changed(s0: State, s1: State, s: State, d: int, l: int)
    requires
        s0.ok(),
        s1.ok(),
        s.ok(),
        0 <= d < 9,
        0 <= l < 6,
        within(s1.boards(), s0.boards()),
        within(s.boards(), s1.boards()),
        s.b[d][l] == s0.b[d][l],
    ensures
        s1.b[d][l] == s0.b[d][l],
{
    s0.lemma_boards();
    s1.lemma_boards();
    s.lemma_boards();
    assert(views(s0.b[d][l], s0.boards(), l, d));
    assert(views(s1.b[d][l], s1.boards(), l, d));
    assert(views(s.b[d][l], s.boards(), l, d));
    reveal(views);
    let (x, y) = (s0.b[d][l], s1.b[d][l]);
    assert forall|p: int| 0 <= p < 32 implies bit32(x, p) == bit32(y, p) by {
        if 0 <= p < 27 {
            let c = band_cell(l, p);
            lemma_band_cell(l, p);
            assert(bit32(s0.b[d][l], p) <==> cand(s0.boards(), c, d));
            assert(bit32(s1.b[d][l], p) <==> cand(s1.boards(), c, d));
            assert(bit32(s.b[d][l], p) <==> cand(s.boards(), c, d));
            if cand(s1.boards(), c, d) {
                lemma_cand(s1.boards(), s0.boards(), c, d);
            }
            if cand(s.boards(), c, d) {
                lemma_cand(s.boards(), s1.boards(), c, d);
            }
        } else {
            if bit32(x, p) {
                lemma_small32(x, p);
            }
            if bit32(y, p) {
                lemma_small32(y, p);
            }
        }
    }
    lemma_ext32(x, y);
}

/// Passes compose.
proof fn lemma_narrowed(s0: State, s1: State, s: State)
    requires
        s0.ok(),
        narrowed(s0, s1),
        narrowed(s1, s),
    ensures
        narrowed(s0, s),
{
    s0.lemma_boards();
    s1.lemma_boards();
    s.lemma_boards();
    assert(lanes_due(s0, s)) by {
        assert forall|i: int| #[trigger] bit64(s.dirty, i) implies bit64(s0.dirty, i) || (0 <= i
            < 54 && s.b[i / 6][i % 6] != s0.b[i / 6][i % 6]) by {
            if !bit64(s0.dirty, i) {
                assert(0 <= i < 54);
                if s.b[i / 6][i % 6] == s0.b[i / 6][i % 6] {
                    lemma_still_changed(s0, s1, s, i / 6, i % 6);
                }
            }
        }
    }
    lemma_within_trans(s.boards(), s1.boards(), s0.boards());
    assert forall|g: Seq<u8>| is_grid(g) && #[trigger] admits(s0.boards(), g) implies admits(
        s.boards(),
        g,
    ) by {
        assert(admits(s1.boards(), g));
    }
    if s.boards() == s0.boards() && s1 != s0 {
        let (a, b, c) = (s0.boards(), s1.boards(), s.boards());
        assert forall|i: int| 0 <= i < a.len() implies a[i] == b[i] by {
            assert(crate::boards::sub32(b[i], a[i]));
            assert(crate::boards::sub32(c[i], b[i]));
            let (x, y) = (a[i], b[i]);
            assert forall|p: int| 0 <= p < 32 implies bit32(x, p) == bit32(y, p) by {}
            lemma_ext32(x, y);
        }
        assert(a =~= b);
    }
}

/// Lane `k` lost the cell at position `p`.
spec fn gone_at(nv: Lanes, v: Lanes, k: int, p: int) -> bool {
    0 <= k < 6 && 0 <= p < 27 && bit32(v[k], p) && !bit32(nv[k], p)
}

/// Lane `l` lost a cell, or a cell of it was lost in the other orientation.
spec fn lane_hit(nv: Lanes, v: Lanes, l: int) -> bool {
    nv[l] != v[l] || exists|k: int, p: int| #[trigger] gone_at(nv, v, k, p) && other_lane(k, p) == l
}

/// Clears from the lanes of one orientation what the other has lost: `row`
/// holds `v` cut down to `nv`, lane by lane.
fn mirror_all(nv: &Lanes, v: &Lanes, changed_lanes: u32, dirty: &mut u64, d: usize, t: &Tables) -> (row:
    Lanes)
    requires
        t.ok(),
        d < 9,
        forall|l: int| 0 <= l < 8 ==> #[trigger] v[l] <= BAND_ALL,
        forall|l: int| 0 <= l < 8 ==> #[trigger] nv[l] <= BAND_ALL,
        forall|l: int| #[trigger] bit32(changed_lanes, l) <==> 0 <= l < 6 && nv[l] != v[l],
    ensures
        forall|l: int| 0 <= l < 8 ==> #[trigger] row[l] <= BAND_ALL,
        forall|l: int, p: int|
            0 <= l < 6 ==> (#[trigger] bit32(row[l], p) <==> bit32(nv[l], p) && !(0 <= p < 27
                && bit32(v[other_lane(l, p)], other_pos(l, p)) && !bit32(
                nv[other_lane(l, p)],
                other_pos(l, p),
            ))),
        forall|i: int| bit64(*old(dirty), i) ==> #[trigger] bit64(*final(dirty), i),
        forall|i: int| #[trigger]
            bit64(*final(dirty), i) ==> bit64(*old(dirty), i) || (6 * d <= i < 6 * d + 6 && lane_hit(
                *nv,
                *v,
                i - 6 * d,
            )),
        forall|l: int|
            0 <= l < 6 && !#[trigger] bit64(*final(dirty), 6 * d + l) ==> row[l] == v[l],
{
    let ghost dirty0 = *dirty;
    let mut row: Lanes = *nv;
    let mut lane: usize = 0;
    proof {
        assert forall|l: int, p: int| 0 <= l < 6 && 0 <= p < 27 implies 0 <= #[trigger] other_lane(
            l,
            p,
        ) < 6 by {
            lemma_other(l, p);
        }
    }
    while lane < 6
        invariant
            lane <= 6,
            t.ok(),
            d < 9,
            forall|l: int| 0 <= l < 8 ==> #[trigger] v[l] <= BAND_ALL,
            forall|l: int| 0 <= l < 8 ==> #[trigger] nv[l] <= BAND_ALL,
            forall|l: int| 0 <= l < 8 ==> #[trigger] row[l] <= BAND_ALL,
            forall|l: int| #[trigger] bit32(changed_lanes, l) <==> 0 <= l < 6 && nv[l] != v[l],
            forall|l: int, p: int|
                0 <= l < 6 && 0 <= p < 27 ==> 0 <= #[trigger] other_lane(l, p) < 6,
            forall|l: int, p: int|
                0 <= l < 6 ==> (#[trigger] bit32(row[l], p) <==> bit32(nv[l], p) && !(0 <= p < 27
                    && other_lane(l, p) < lane && bit32(v[other_lane(l, p)], other_pos(l, p))
                    && !bit32(nv[other_lane(l, p)], other_pos(l, p)))),
            forall|i: int| bit64(dirty0, i) ==> #[trigger] bit64(*dirty, i),
            forall|i: int| #[trigger]
                bit64(*dirty, i) ==> bit64(dirty0, i) || (6 * d <= i < 6 * d + 6 && lane_hit(
                    *nv,
                    *v,
                    i - 6 * d,
                )),
            forall|l: int|
                0 <= l < 6 && !#[trigger] bit64(*dirty, 6 * d + l) ==> row[l] == nv[l] && (l < lane
                    ==> nv[l] == v[l]),
        decreases 6 - lane,
    {
        let ghost row1 = row;
        let ghost dirty1 = *dirty;
        proof {
            assert(bit32(changed_lanes, lane as int) <==> (changed_lanes >> (lane as u32)) & 1 == 1)
                by {
                reveal(bit32);
            }
        }
        if (changed_lanes >> (lane as u32)) & 1 == 1 {
            let gone = v[lane] & !nv[lane];
            proof {
                lemma_subset32(gone, v[lane as int]);
            }
            drop_mirrored(&mut row, dirty, d, lane, gone, t);
            let ghost dirty2 = *dirty;
            *dirty = *dirty | (1u64 << ((d * 6 + lane) as u64));
            proof {
                assert forall|i: int| #[trigger] bit64(*dirty, i) implies bit64(dirty0, i) || (6 * d
                    <= i < 6 * d + 6 && lane_hit(*nv, *v, i - 6 * d)) by {
                    let l = i - 6 * d;
                    if bit64(dirty2, i) && !bit64(dirty1, i) {
                        let p = choose|p: int| #[trigger]
                            bit32(gone, p) && other_lane(lane as int, p) == l;
                        lemma_small32(v[lane as int], p);
                        assert(gone_at(*nv, *v, lane as int, p));
                    }
                }
                assert forall|l: int, p: int| 0 <= l < 6 implies (#[trigger] bit32(row[l], p)
                    <==> bit32(nv[l], p) && !(0 <= p < 27 && other_lane(l, p) < lane + 1 && bit32(
                    v[other_lane(l, p)],
                    other_pos(l, p),
                ) && !bit32(nv[other_lane(l, p)], other_pos(l, p)))) by {
                    assert(bit32(row1[l], p) <==> bit32(nv[l], p) && !(0 <= p < 27 && other_lane(
                        l,
                        p,
                    ) < lane && bit32(v[other_lane(l, p)], other_pos(l, p)) && !bit32(
                        nv[other_lane(l, p)],
                        other_pos(l, p),
                    )));
                    assert(bit32(row[l], p) <==> bit32(row1[l], p) && !(0 <= p < 27 && other_lane(
                        l,
                        p,
                    ) == lane && bit32(gone, other_pos(l, p))));
                }
                assert forall|l: int| 0 <= l < 6 && !#[trigger] bit64(
                    *dirty,
                    6 * d + l,
                ) implies row[l] == nv[l] && (l < lane + 1 ==> nv[l] == v[l]) by {
                    assert(!bit64(dirty2, 6 * d + l));
                    assert(!bit64(dirty1, 6 * d + l));
                    assert(row[l] == row1[l]);
                    assert(l != lane);
                }
            }
        } else {
            proof {
                assert(nv[lane as int] == v[lane as int]);
            }
        }
        lane = lane + 1;
    }
    row
}

impl State {
    /// Cuts one digit down to its patterns in all lanes; false if that leaves
    /// a lane without cells.
    fn write_digit(&mut self, d: usize, occ: &Lanes, t: &Tables) -> (r: bool)
        requires
            old(self).ok(),
            t.ok(),
            d < 9,
            forall|l: int| 0 <= l < 8 ==> #[trigger] occ[l] <= 0x1FF,
            forall|l: int|
                0 <= l < 6 ==> sound_occ(
                    old(self).boards(),
                    l,
                    d as int,
                    #[trigger] occ[l] as u16,
                ),
            forall|l: int|
                0 <= l < 6 ==> kept_occ(
                    old(self).boards(),
                    l,
                    d as int,
                    #[trigger] occ[l] as u16,
                ),
        ensures
            !r ==> dead(old(self).boards()) && *final(self) == *old(self),
            !r ==> barren(old(self).boards(), true),
            !r <==> (exists|l: int|
                0 <= l < 6 && word_trimmed(#[trigger] old(self).b[d as int][l], occ[l])) && (exists|
                l: int,
            |
                0 <= l < 6 && word_bare(#[trigger] old(self).b[d as int][l], occ[l])),
            r ==> narrowed(*old(self), *final(self)),
            r ==> lanes_cut(old(self).b[d as int], final(self).b[d as int], *occ),
            r ==> forall|e: int|
                0 <= e < 9 && e != d ==> #[trigger] final(self).b[e] == old(self).b[e],
    {
        let ghost s0 = *self;
        let keep = gather(&t.minirow_expand, occ);
        let v: Lanes = self.b[d];
        let nv = and_lanes(&v, &keep);
        proof {
            assert forall|l: int| 0 <= l < 8 implies #[trigger] v[l] <= BAND_ALL by {
                assert(s0.b[d as int][l] <= BAND_ALL);
            }
            assert forall|l: int, p: int| 0 <= l < 8 implies (#[trigger] bit32(nv[l], p) <==> bit32(
                v[l],
                p,
            ) && 0 <= p < 27 && bit16(occ[l] as u16, p / 3)) by {
                assert(nv[l] == v[l] & keep[l]);
                assert(occ[l] <= 0x1FF);
                assert(keep[l] == t.minirow_expand[occ[l] as int]);
                reveal(Tables::ok);
                assert(bit32(t.minirow_expand[occ[l] as int], p) <==> 0 <= p < 27 && bit16(
                    (occ[l] as int) as u16,
                    p / 3,
                ));
            }
            assert forall|l: int| 0 <= l < 8 implies #[trigger] nv[l] <= BAND_ALL by {
                assert(nv[l] == v[l] & keep[l]);
                lemma_subset32(nv[l], v[l]);
                assert(v[l] <= BAND_ALL);
            }
            assert forall|l: int| 0 <= l < 6 implies (word_trimmed(
                #[trigger] s0.b[d as int][l],
                occ[l],
            ) <==> nv[l] != v[l]) && (word_bare(s0.b[d as int][l], occ[l]) <==> nv[l] == 0) by {
                assert(v[l] <= BAND_ALL);
                lemma_word_kept(v[l], occ[l], nv[l]);
            }
        }
        let changed_lanes = diff_lanes(&nv, &v) & 0x3F;
        proof {
            assert forall|l: int| #[trigger] bit32(changed_lanes, l) <==> 0 <= l < 6 && nv[l]
                != v[l] by {
                lemma_six_bits(l);
            }
        }
        if changed_lanes == 0 {
            proof {
                assert forall|l: int| 0 <= l < 6 implies !word_trimmed(
                    #[trigger] s0.b[d as int][l],
                    occ[l],
                ) by {
                    assert(!bit32(0u32, l));
                }
                assert forall|l: int, p: int| 0 <= l < 6 && 0 <= p < 27 && #[trigger] bit32(
                    v[l],
                    p,
                ) implies bit16(occ[l] as u16, p / 3) && bit16(
                    occ[other_lane(l, p)] as u16,
                    other_pos(l, p) / 3,
                ) by {
                    lemma_other(l, p);
                    let (m, q) = (other_lane(l, p), other_pos(l, p));
                    assert(!bit32(0u32, l) && !bit32(0u32, m));
                    assert(nv[l] == v[l] && nv[m] == v[m]);
                    assert(bit32(v[m], q)) by {
                        assert(views(s0.b[d as int][l], s0.boards(), l, d as int));
                        assert(views(s0.b[d as int][m], s0.boards(), m, d as int));
                        reveal(views);
                        assert(bit32(s0.b[d as int][l], p) <==> cand(
                            s0.boards(),
                            band_cell(l, p),
                            d as int,
                        ));
                        assert(bit32(s0.b[d as int][m], q) <==> cand(
                            s0.boards(),
                            band_cell(m, q),
                            d as int,
                        ));
                    }
                    assert(bit32(nv[l], p) && bit32(nv[m], q));
                }
            }
            return true;
        }
        let empty = zero_lanes(&nv) & 0x3F;
        proof {
            let l = lemma_nonzero32(changed_lanes);
            assert(bit32(changed_lanes, l));
            assert(word_trimmed(s0.b[d as int][l], occ[l]));
            assert forall|l: int| 0 <= l < 6 && empty == 0 implies !word_bare(
                #[trigger] s0.b[d as int][l],
                occ[l],
            ) by {
                lemma_six_bits(l);
                if nv[l] == 0 {
                    assert(bit32(empty, l));
                    assert(!bit32(0u32, l));
                }
            }
        }
        if empty != 0 {
            proof {
                let k = lemma_nonzero32(empty);
                assert(bit32(0x3Fu32, k));
                lemma_six_bits(k);
                assert(word_bare(s0.b[d as int][k], occ[k]));
                let l = lemma_nonzero32(empty);
                assert(bit32(0x3Fu32, l));
                lemma_six_bits(l);
                assert(nv[l] == 0);
                lemma_emptied(s0, d as int, l, occ[l] as u16, nv[l]);
                lemma_emptied_rest(s0, d as int, l, occ[l] as u16, nv[l]);
            }
            return false;
        }
        let mut dirty: u64 = self.dirty;
        let row = mirror_all(&nv, &v, changed_lanes, &mut dirty, d, t);
        self.b[d] = row;
        self.dirty = dirty;
        self.dirty_cells = true;
        self.tdirty = true;
        proof {
            assert(self.shape()) by {
                assert forall|e: int, l: int| 0 <= e < 9 && 0 <= l < 8 implies #[trigger] self.b[e][l]
                    <= BAND_ALL by {
                    assert(s0.b[e][l] <= BAND_ALL);
                }
            }
            assert(changes_marked(s0, *self)) by {
                assert forall|e: int, l: int|
                    0 <= e < 9 && 0 <= l < 6 && !#[trigger] bit64(self.dirty, 6 * e + l) implies !bit64(
                    s0.dirty,
                    6 * e + l,
                ) && self.b[e][l] == s0.b[e][l] by {
                    if e == d {
                        assert(row[l] == v[l]);
                    }
                }
            }
            assert(lanes_cut(s0.b[d as int], self.b[d as int], *occ)) by {
                assert forall|l: int, p: int| 0 <= l < 6 && 0 <= p < 27 implies (#[trigger] bit32(
                    self.b[d as int][l],
                    p,
                ) <==> bit32(s0.b[d as int][l], p) && bit16(occ[l] as u16, p / 3) && bit16(
                    occ[other_lane(l, p)] as u16,
                    other_pos(l, p) / 3,
                )) by {
                    lemma_other(l, p);
                    let (m, q) = (other_lane(l, p), other_pos(l, p));
                    assert(views(s0.b[d as int][l], s0.boards(), l, d as int));
                    assert(views(s0.b[d as int][m], s0.boards(), m, d as int));
                    assert(bit32(v[m], q) <==> bit32(v[l], p)) by {
                        reveal(views);
                        assert(bit32(s0.b[d as int][l], p) <==> cand(
                            s0.boards(),
                            band_cell(l, p),
                            d as int,
                        ));
                        assert(bit32(s0.b[d as int][m], q) <==> cand(
                            s0.boards(),
                            band_cell(m, q),
                            d as int,
                        ));
                    }
                    assert(bit32(row[l], p) <==> bit32(nv[l], p) && !(0 <= p < 27 && bit32(v[m], q)
                        && !bit32(nv[m], q)));
                    assert(bit32(nv[l], p) <==> bit32(v[l], p) && bit16(occ[l] as u16, p / 3));
                    assert(bit32(nv[m], q) <==> bit32(v[m], q) && bit16(occ[m] as u16, q / 3));
                }
            }
            lemma_digit_cut(s0, *self, d as int, *occ);
            assert(lanes_due(s0, *self)) by {
                assert forall|i: int| #[trigger] bit64(self.dirty, i) implies bit64(s0.dirty, i) || (
                0 <= i < 54 && self.b[i / 6][i % 6] != s0.b[i / 6][i % 6]) by {
                    if !bit64(s0.dirty, i) {
                        let l = i - 6 * d;
                        assert(i / 6 == d && i % 6 == l);
                        assert(lane_hit(nv, v, l));
                        let p = if nv[l] != v[l] {
                            let x = v[l] & !nv[l];
                            if x == 0 {
                                let (y, z) = (nv[l], v[l]);
                                assert forall|p: int| 0 <= p < 32 implies bit32(y, p) == bit32(
                                    z,
                                    p,
                                ) by {
                                    assert(bit32(nv[l], p) ==> bit32(v[l], p));
                                    assert(!bit32(x, p));
                                }
                                lemma_ext32(y, z);
                            }
                            let p = lemma_nonzero32(x);
                            assert(bit32(x, p));
                            assert(!bit32(nv[l], p) && !bit32(row[l], p));
                            p
                        } else {
                            let (k, z) = choose|k: int, z: int| #[trigger]
                                gone_at(nv, v, k, z) && other_lane(k, z) == l;
                            lemma_other(k, z);
                            let p = other_pos(k, z);
                            assert(views(s0.b[d as int][l], s0.boards(), l, d as int));
                            assert(views(s0.b[d as int][k], s0.boards(), k, d as int));
                            reveal(views);
                            assert(bit32(s0.b[d as int][l], p) <==> cand(
                                s0.boards(),
                                band_cell(l, p),
                                d as int,
                            ));
                            assert(bit32(s0.b[d as int][k], z) <==> cand(
                                s0.boards(),
                                band_cell(k, z),
                                d as int,
                            ));
                            assert(bit32(row[l], p) <==> bit32(nv[l], p) && !(0 <= p < 27 && bit32(
                                v[other_lane(l, p)],
                                other_pos(l, p),
                            ) && !bit32(nv[other_lane(l, p)], other_pos(l, p))));
                            p
                        };
                        assert(bit32(v[l], p) && !bit32(row[l], p));
                    }
                }
            }
            let l = lemma_nonzero32(changed_lanes);
            assert(bit32(changed_lanes, l));
            assert(self.b[d as int][l] != s0.b[d as int][l]) by {
                if row[l] == v[l] {
                    let (x, y) = (nv[l], v[l]);
                    assert forall|p: int| 0 <= p < 32 implies bit32(x, p) == bit32(y, p) by {
                        assert(bit32(row[l], p) ==> bit32(nv[l], p));
                        assert(bit32(nv[l], p) ==> bit32(v[l], p));
                    }
                    lemma_ext32(x, y);
                }
            }
        }
        true
    }
}

/// The six lanes as a set.
proof fn lemma_six_bits(i: int)
    ensures
        bit32(0x3Fu32, i) <==> 0 <= i < 6,
{
    reveal(bit32);
    if 0 <= i < 32 {
        let k = i as u32;
        assert(k < 32 ==> ((0x3Fu32 >> k) & 1 == 1 <==> k < 6)) by (bit_vector);
    }
}

/// The eight lanes as a set.
proof fn lemma_eight_bits(i: int)
    ensures
        bit32(0xFFu32, i) <==> 0 <= i < 8,
{
    reveal(bit32);
    if 0 <= i < 32 {
        let k = i as u32;
        assert(k < 32 ==> ((0xFFu32 >> k) & 1 == 1 <==> k < 8)) by (bit_vector);
    }
}

impl State {
    /// One cardinality pass over all lanes: a minirow that fewer than three
    /// digits can use is a contradiction (false); one that exactly three can
    /// use pins them, so that they leave the minirows linked to it.
    pub fn band_inference(&mut self, t: &Tables) -> (r: bool)
        requires
            old(self).ok(),
            t.ok(),
        ensures
            within(final(self).boards(), old(self).boards()),
            same_solved(*old(self), *final(self)),
            !r ==> dead(old(self).boards()) && barren(old(self).boards(), true),
            (exists|l: int, i: int|
                0 <= l < 6 && 0 <= i < 9 && #[trigger] reach(old(self).boards(), l, i) < 3) ==> !r
                && *final(self) == *old(self),
            (forall|l: int, i: int|
                0 <= l < 6 && 0 <= i < 9 ==> #[trigger] reach(old(self).boards(), l, i) >= 4) ==> r
                && *final(self) == *old(self),
            r ==> narrowed(*old(self), *final(self)),
            r <==> (forall|l: int, i: int|
                0 <= l < 6 && 0 <= i < 9 ==> #[trigger] reach(old(self).boards(), l, i) >= 3)
                && forall|d: int| 0 <= d < 9 ==> !#[trigger] stranded(old(self).boards(), d),
            r ==> cut_to_left(old(self).boards(), final(self).boards()),
            r ==> forall|l: int, i: int|
                0 <= l < 6 && 0 <= i < 9 && reach(old(self).boards(), l, i) == 3 ==> #[trigger]
                    settled_minirow(final(self).boards(), l, i),
    {
        let ghost s0 = *self;
        let ghost bs = self.boards();
        let mut occ: [[u32; 8]; 9] = [[0;8];9];
        let mut d: usize = 0;
        while d < 9
            invariant
                d <= 9,
                self.ok(),
                bs == self.boards(),
                forall|e: int, l: int| 0 <= e < 9 && 0 <= l < 8 ==> #[trigger] occ[e][l] <= 0x1FF,
                forall|e: int, l: int|
                    0 <= e < d && 0 <= l < 6 ==> sound_occ(bs, l, e, #[trigger] occ[e][l] as u16)
                        && kept_occ(bs, l, e, occ[e][l] as u16) && is_pattern(
                        occ[e][l] as u16,
                        self.b[e][l],
                    ),
                *self == s0,
            decreases 9 - d,
        {
            let ghost occ1 = occ;
            proof {
                assert forall|l: int| 0 <= l < 8 implies #[trigger] self.b[d as int][l]
                    <= BAND_ALL by {}
            }
            let s = shrink6(&self.b[d]);
            occ[d] = s;
            proof {
                assert forall|e: int, l: int| 0 <= e < 9 && 0 <= l < 8 implies #[trigger] occ[e][l]
                    <= 0x1FF by {
                    if e != d {
                        assert(occ[e] == occ1[e]);
                        assert(occ1[e][l] <= 0x1FF);
                    }
                }
                assert forall|e: int, l: int| 0 <= e < d + 1 && 0 <= l < 6 implies sound_occ(
                    bs,
                    l,
                    e,
                    #[trigger] occ[e][l] as u16,
                ) && kept_occ(bs, l, e, occ[e][l] as u16) && is_pattern(
                    occ[e][l] as u16,
                    self.b[e][l],
                ) by {
                    if e < d {
                        assert(occ[e] == occ1[e]);
                        assert(sound_occ(bs, l, e, occ1[e][l] as u16));
                    } else {
                        assert(s[l] <= 0x1FF);
                        assert(views(self.b[e][l], bs, l, e));
                        assert(is_pattern(s[l] as u16, self.b[e][l]));
                        assert forall|f: Seq<u32>, i: int| #[trigger]
                            rests(f, true) && within(f, bs) && #[trigger] has_minirow(
                                f,
                                l,
                                e,
                                i,
                            ) implies bit16(s[l] as u16, i) by {
                            assert(f.len() == 27) by {
                                reveal(rests);
                            }
                            self.lemma_boards();
                            lemma_cand_within(f, bs, l, 3 * i, e);
                            lemma_cand_within(f, bs, l, 3 * i + 1, e);
                            lemma_cand_within(f, bs, l, 3 * i + 2, e);
                            reveal(views);
                            assert(bit32(self.b[e][l], 3 * i) <==> cand(
                                bs,
                                band_cell(l, 3 * i),
                                e,
                            ));
                            assert(bit32(self.b[e][l], 3 * i + 1) <==> cand(
                                bs,
                                band_cell(l, 3 * i + 1),
                                e,
                            ));
                            assert(bit32(self.b[e][l], 3 * i + 2) <==> cand(
                                bs,
                                band_cell(l, 3 * i + 2),
                                e,
                            ));
                            assert(occupied(self.b[e][l], i));
                        }
                        assert forall|g: Seq<u8>| is_grid(g) && #[trigger] admits(
                            bs,
                            g,
                        ) implies fits(s[l] as u16, lay(g, l, e)) by {
                            lemma_views(self.b[e][l], bs, g, l, e);
                        }
                    }
                }
            }
            d = d + 1;
        }
        let ghost occ0 = occ@;
        proof {
            assert(sound_rows(bs, occ@));
            assert(rows_of(s0, occ0));
            assert forall|l: int, i: int| 0 <= l < 6 implies #[trigger] reach(bs, l, i) == at_lane(
                occ0,
                l,
                i,
                9,
            ) by {
                lemma_reach(s0, occ0, l, i);
            }
        }
        let (_, _, three, four) = tally_lanes(&occ);
        let full: Lanes = [0x1FF;8];
        let short = diff_lanes(&three, &full) & 0x3F;
        if short != 0 {
            proof {
                let l = lemma_nonzero32(short);
                lemma_six_bits(l);
                assert(three[l] != full[l]);
                let i = lemma_short(occ@, l, three[l]);
                lemma_lane_short(bs, occ@, l, i);
                assert(reach(bs, l, i) < 3);
                s0.lemma_boards();
                assert(within(bs, bs));
            }
            return false;
        }
        proof {
            lemma_low_masks32();
            assert forall|l: int, i: int| 0 <= l < 6 && 0 <= i < 9 implies #[trigger] reach(
                bs,
                l,
                i,
            ) >= 3 by {
                lemma_six_bits(l);
                assert(three[l] == full[l]) by {
                    if three[l] != full[l] {
                        assert(bit32(short, l));
                        assert(!bit32(0u32, l));
                    }
                }
                assert(bit32(three[l], i));
            }
        }
        let exact = and_not_lanes(&four, &three);
        proof {
            assert forall|l: int, i: int| 0 <= l < 6 && 0 <= i < 9 && reach(bs, l, i)
                == 3 implies #[trigger] bit32(exact[l], i) by {
                assert(exact[l] == three[l] & !four[l]);
                assert(bit32(three[l], i) && !bit32(four[l], i));
            }
        }
        let none = zero_lanes(&exact);
        if none == 0xFF {
            proof {
                assert forall|l: int, i: int| 0 <= l < 6 && 0 <= i < 9 && reach(bs, l, i)
                    == 3 implies #[trigger] settled_minirow(bs, l, i) by {
                    assert(bit32(exact[l], i));
                    lemma_eight_bits(l);
                    assert(bit32(none, l));
                    assert(!bit32(0u32, i));
                }
                assert forall|l: int, d: int, i: int|
                    0 <= l < 6 && 0 <= d < 9 && 0 <= i < 9 && #[trigger] has_minirow(
                        bs,
                        l,
                        d,
                        i,
                    ) implies left_over(bs, l, d, i, 9) by {
                    assert forall|j: int| 0 <= j < 9 implies #[trigger] reach(bs, l, j) != 3 by {
                        if reach(bs, l, j) == 3 {
                            assert(bit32(exact[l], j));
                            lemma_eight_bits(l);
                            assert(bit32(none, l));
                            assert(!bit32(0u32, j));
                        }
                    }
                    lemma_all_left(bs, l, d, i, 9);
                }
                lemma_nothing_lost(bs);
            }
            return true;
        }
        proof {
            assert forall|l: int, i: int| 0 <= l < 6 && #[trigger] bit32(exact[l], i) implies 0 <= i
                < 9 && at_lane(occ@, l, i, 9) == 3 by {
                assert(exact[l] == three[l] & !four[l]);
                assert(bit32(three[l], i) && !bit32(four[l], i));
                lemma_lane_low(occ@, l, i);
            }
        }
        let changed = pin_all(&mut occ, &exact, t, Ghost(bs));
        proof {
            assert(rows_left(bs, occ@)) by {
                assert forall|d: int, l: int, i: int|
                    0 <= d < 9 && 0 <= l < 6 && 0 <= i < 9 implies (#[trigger] bit32(
                    occ@[d][l],
                    i,
                ) <==> left_over(bs, l, d, i, 9)) by {
                    let o = occ0[d][l];
                    assert(o <= 0x1FF);
                    lemma_narrow(o);
                    assert(is_pattern(o as u16, s0.b[d][l]));
                    assert forall|j: int| 0 <= j < 9 implies (#[trigger] bit32(o, j)
                        <==> has_minirow(bs, l, d, j)) by {
                        lemma_lane_minirow(s0, d, l, j);
                        assert(bit16(o as u16, j) <==> occupied(s0.b[d][l], j));
                    }
                    assert forall|j: int| 0 <= j < 9 implies (#[trigger] bit32(exact[l], j)
                        <==> reach(bs, l, j) == 3) by {
                        assert(reach(bs, l, j) == at_lane(occ0, l, j, 9));
                    }
                    lemma_word_left(bs, l, d, o, exact[l], i, 9);
                }
            }
        }
        if !changed {
            proof {
                assert forall|l: int, d: int, i: int|
                    0 <= l < 6 && 0 <= d < 9 && 0 <= i < 9 && #[trigger] has_minirow(
                        bs,
                        l,
                        d,
                        i,
                    ) implies left_over(bs, l, d, i, 9) by {
                    lemma_lane_minirow(s0, d, l, i);
                    assert(occ0[d][l] <= 0x1FF);
                    lemma_narrow(occ0[d][l]);
                    assert(is_pattern(occ0[d][l] as u16, s0.b[d][l]));
                    assert(bit16(occ0[d][l] as u16, i) <==> occupied(s0.b[d][l], i));
                    assert(bit32(occ@[d][l], i));
                }
                lemma_nothing_lost(bs);
                assert forall|l: int, i: int| 0 <= l < 6 && 0 <= i < 9 && reach(bs, l, i)
                    == 3 implies #[trigger] settled_minirow(bs, l, i) by {
                    assert(bit32(exact[l], i));
                    lemma_settled_already(s0, occ@, l, i);
                }
            }
            return true;
        }
        proof {
            let l = choose|l: int| 0 <= l < 6 && #[trigger] exact[l] != 0;
            let i = lemma_nonzero32(exact[l]);
            assert(bit32(exact[l], i));
            assert(reach(bs, l, i) == 3);
        }
        let mut d: usize = 0;
        while d < 9
            invariant
                d <= 9,
                t.ok(),
                s0 == *old(self),
                s0.ok(),
                bs == s0.boards(),
                forall|l: int, i: int|
                    0 <= l < 6 && 0 <= i < 9 ==> #[trigger] reach(bs, l, i) >= 3,
                exists|l: int, i: int|
                    0 <= l < 6 && 0 <= i < 9 && #[trigger] reach(bs, l, i) == 3,
                narrowed(s0, *self),
                sound_rows(bs, occ@),
                rows_left(bs, occ@),
                forall|e: int| 0 <= e < d ==> !#[trigger] stranded(bs, e),
                forall|e: int|
                    0 <= e < d ==> lanes_cut(s0.b[e], self.b[e], #[trigger] occ@[e]),
                forall|e: int| d <= e < 9 ==> #[trigger] self.b[e] == s0.b[e],
            decreases 9 - d,
        {
            let ghost s1 = *self;
            proof {
                s1.lemma_boards();
                assert forall|l: int| 0 <= l < 8 implies #[trigger] occ[d as int][l] <= 0x1FF by {
                    assert(occ@[d as int][l] <= 0x1FF);
                }
                assert forall|l: int| 0 <= l < 6 implies sound_occ(
                    s1.boards(),
                    l,
                    d as int,
                    #[trigger] occ[d as int][l] as u16,
                ) by {
                    assert(sound_occ(bs, l, d as int, occ@[d as int][l] as u16));
                    assert forall|g: Seq<u8>| is_grid(g) && #[trigger] admits(
                        s1.boards(),
                        g,
                    ) implies fits(occ[d as int][l] as u16, lay(g, l, d as int)) by {
                        lemma_within_admits(s1.boards(), bs, g);
                    }
                }
                assert forall|l: int| 0 <= l < 6 implies kept_occ(
                    s1.boards(),
                    l,
                    d as int,
                    #[trigger] occ[d as int][l] as u16,
                ) by {
                    assert(kept_occ(bs, l, d as int, occ@[d as int][l] as u16));
                    lemma_kept_within(bs, s1.boards(), l, d as int, occ[d as int][l] as u16);
                }
            }
            proof {
                assert forall|l: int| 0 <= l < 6 implies #[trigger] occ@[d as int][l] <= 0x1FF by {}
                lemma_stranded(s0, occ@, d as int);
                assert(s1.b[d as int] == s0.b[d as int]);
                assert forall|l: int| 0 <= l < 6 implies #[trigger] s1.b[d as int][l]
                    == s0.b[d as int][l] by {}
            }
            if !self.write_digit(d, &occ[d], t) {
                proof {
                    assert(stranded(bs, d as int));
                    assert forall|g: Seq<u8>| is_grid(g) implies !#[trigger] admits(bs, g) by {
                        if admits(bs, g) {
                            assert(admits(s1.boards(), g));
                        }
                    }
                }
                return false;
            }
            proof {
                lemma_narrowed(s0, s1, *self);
                assert forall|e: int| 0 <= e < d + 1 implies lanes_cut(
                    s0.b[e],
                    self.b[e],
                    #[trigger] occ@[e],
                ) by {
                    if e < d {
                        assert(self.b[e] == s1.b[e]);
                        assert(lanes_cut(s0.b[e], s1.b[e], occ@[e]));
                    }
                }
            }
            d = d + 1;
        }
        proof {
            lemma_cut_to_left(s0, *self, occ@);
            assert forall|l: int, i: int| 0 <= l < 6 && 0 <= i < 9 && reach(bs, l, i)
                == 3 implies #[trigger] settled_minirow(self.boards(), l, i) by {
                assert(bit32(exact[l], i));
                lemma_settled(s0, *self, occ@, l, i);
            }
        }
        true
    }
}

/// What a lane counts lies below 9.
proof fn lemma_lane_low(occ: Seq<Lanes>, l: int, i: int)
    requires
        0 <= l < 8,
        forall|d: int, k: int| 0 <= d < 9 && 0 <= k < 8 ==> #[trigger] occ[d][k] <= 0x1FF,
        at_lane(occ, l, i, 9) >= 1,
    ensures
        0 <= i < 9,
{
    let f = |d: int| bit32(occ[d][l], i);
    let d = crate::bits::lemma_count_witness(f, 9);
    assert(occ[d][l] <= 0x1FF);
    lemma_low(occ[d][l], i);
}

/// A minirow that fewer than three patterns have.
proof fn lemma_short(occ: Seq<Lanes>, l: int, three: u32) -> (i: int)
    requires
        0 <= l < 8,
        forall|d: int, k: int| 0 <= d < 9 && 0 <= k < 8 ==> #[trigger] occ[d][k] <= 0x1FF,
        forall|i: int| #[trigger] bit32(three, i) <==> at_lane(occ, l, i, 9) >= 3,
        three != 0x1FF,
    ensures
        0 <= i < 9,
        at_lane(occ, l, i, 9) < 3,
{
    lemma_low_masks32();
    let x = three ^ 0x1FF;
    if x == 0 {
        assert forall|j: int| 0 <= j < 32 implies bit32(three, j) == bit32(0x1FFu32, j) by {
            assert(!bit32(x, j));
        }
        lemma_ext32(three, 0x1FF);
    }
    let i = lemma_nonzero32(x);
    assert(bit32(x, i));
    if !(0 <= i < 9) {
        assert(bit32(three, i));
        lemma_lane_low(occ, l, i);
    }
    i
}

} // verus!
