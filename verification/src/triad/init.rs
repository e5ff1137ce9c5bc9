//! Entering the clues into the state of the triad engine, and reading a
//! solution out of it.

use vstd::prelude::*;
use crate::bits::{
    bit16, bit32, bit64, group_bits16, group_bits32, group_bits64, lemma_ext16, lemma_low_masks16,
    lemma_subset16, lowest16, lowest32, lowest64, pop16, without_lowest32, without_lowest64,
    lemma_pop9, lemma_small9,
};
use crate::clue_scan::clue_masks;
use crate::grid::{clues_ok, is_grid, is_solution, lemma_grid_facts, peers, solutions};
use crate::triad::bands::{
    band_eliminate, lemma_barren_back, lemma_fixpoint_step, lemma_linked_below, lemma_step_refl,
    lemma_step_trans, step,
};
use crate::triad::boxes::{
    band_holds, barren, below, box_fixpoint, box_holds, box_ok, cfg_ok, keeps, lanes_in,
    lemma_all_kept, lemma_below_refl, lemma_below_trans, lemma_same_grids, min_ok, restriction_true,
    sub16, triad_row, within_band, Band, TState, corners,
};
use crate::triad::course::node;
use crate::triad::start::{
    bands_run, blank, boxes_run, clue_cells, entered, entry, left_in, lemma_bands_none,
    lemma_boxes_none, lemma_entered_one, lemma_entry, ruled_out, started,
};
use crate::triad::leaf::{box_lane, lemma_box_lane, spells};
use crate::triad::messages::{allowed, lemma_full16, triad_set};
use crate::triad::model::{
    cell_at, conf, config_elem, in_col, in_row, lemma_box_once, lemma_cell_at, lemma_conf_triad,
    lit, peer_box,
};
use crate::triad::search::at_rest;
use crate::tvec::{
    c16, c16_bytes, c8, is_control, is_selector, lemma_packed, pack4, quarter, selector_lane, ALL,
    C16, C8, CELLS_3X3,
};

verus! {

broadcast use {group_bits16, group_bits32, group_bits64};

/// Masks of the configurations that do not place a digit in the given triad
/// of the given box peer. The fourth row is padding.
pub const PEER_X_ELEM_TO_CONFIG_MASK: [[[u16; 8]; 4]; 3] = [
    [
        [0, ALL, ALL, ALL, 0, ALL, 0, 0],
        [ALL, 0, ALL, ALL, ALL, 0, 0, 0],
        [ALL, ALL, 0, 0, ALL, ALL, 0, 0],
        [0, 0, 0, 0, 0, 0, 0, 0],
    ],
    [
        [ALL, ALL, 0, ALL, ALL, 0, 0, 0],
        [0, ALL, ALL, 0, ALL, ALL, 0, 0],
        [ALL, 0, ALL, ALL, 0, ALL, 0, 0],
        [0, 0, 0, 0, 0, 0, 0, 0],
    ],
    [
        [ALL, 0, ALL, 0, ALL, ALL, 0, 0],
        [ALL, ALL, 0, ALL, 0, ALL, 0, 0],
        [0, ALL, ALL, ALL, ALL, 0, 0, 0],
        [0, 0, 0, 0, 0, 0, 0, 0],
    ],
];

/// A state in which nothing is known.
pub open spec fn fresh(s: TState) -> bool {
    &&& s.ok()
    &&& corners(s)
    &&& node(s) == blank()
    &&& forall|g: Seq<u8>| is_grid(g) ==> #[trigger] s.holds(g)
    &&& forall|i: int| 0 <= i < 6 ==> #[trigger] s.linked(i)
}

impl TState {
    /// The state in which nothing is known.
    pub fn new() -> (s: TState)
        ensures
            fresh(s),
    {
        let init = c8(&[ALL, ALL, ALL, ALL, ALL, ALL, 0, 0]);
        let s = TState {
            bands: [Band { configurations: init, eliminations: C8::zero() };6],
            boxen: [C16::all(ALL);9],
            asserted: [C16::all(0);9],
        };
        proof {
            lemma_low_masks16();
            let (a, b) = (node(s), blank());
            assert forall|i: int| 0 <= i < 6 implies a.cfg[i] == b.cfg[i] && a.pend[i]
                == b.pend[i] by {
                assert(a.cfg[i] =~= b.cfg[i]);
                assert(a.pend[i] =~= b.pend[i]);
            }
            assert forall|x: int| 0 <= x < 9 implies a.boxes[x] == b.boxes[x] && a.told[x]
                == b.told[x] by {
                assert(a.boxes[x] =~= b.boxes[x]);
                assert(a.told[x] =~= b.told[x]);
            }
            assert(a.cfg =~= b.cfg && a.pend =~= b.pend);
            assert(a.boxes =~= b.boxes && a.told =~= b.told);
            assert forall|x: int| 0 <= x < 9 implies box_ok(#[trigger] s.boxen[x].lanes@) by {}
            assert forall|i: int| 0 <= i < 6 implies cfg_ok(
                #[trigger] s.bands[i].configurations.lanes@,
            ) by {}
            assert forall|g: Seq<u8>| is_grid(g) implies #[trigger] s.holds(g) by {
                assert forall|x: int| 0 <= x < 9 implies box_holds(
                    #[trigger] s.boxen[x].lanes@,
                    g,
                    x,
                ) by {}
                assert forall|i: int| 0 <= i < 6 implies band_holds(
                    #[trigger] s.bands[i],
                    g,
                    i / 3,
                    i % 3,
                ) by {
                    assert forall|k: int, d: int|
                        0 <= d < 9 && #[trigger] conf(g, i / 3, i % 3, k, d) implies bit16(
                        s.bands[i].configurations.lanes[k],
                        d,
                    ) && !bit16(s.bands[i].eliminations.lanes[k], d) by {
                        assert(s.bands[i].configurations.lanes[k] == ALL);
                        assert(s.bands[i].eliminations.lanes[k] == 0);
                    }
                }
            }
            assert forall|i: int| 0 <= i < 6 implies #[trigger] s.linked(i) by {
                let cfg = s.bands[i].configurations.lanes@;
                assert forall|p: int| 0 <= p < 3 implies within_band(
                    #[trigger] s.boxen[peer_box(i / 3, i % 3, p)].lanes@,
                    cfg,
                    i / 3,
                    p,
                ) by {
                    let x = peer_box(i / 3, i % 3, p);
                    let t = triad_row(cfg, p);
                    assert(0 <= x < 9);
                    assert forall|e: int, d: int| 0 <= e < 3 && 0 <= d < 9 implies #[trigger] bit16(
                        t[e],
                        d,
                    ) by {
                        let (a, b) = ((e + 3 - p) % 3, 3 + (e + p + 1) % 3);
                        assert(cfg[a] == ALL && cfg[b] == ALL);
                        assert(t[e] == triad_set(cfg, p, e));
                    }
                    assert forall|lane: int, d: int|
                        0 <= lane < 16 && #[trigger] bit16(s.boxen[x].lanes@[lane], d) implies allowed(
                        t,
                        i / 3,
                        lane,
                        d,
                    ) by {
                        assert(s.boxen[x].lanes[lane] == ALL);
                        assert(0 <= d < 9);
                        let (r, c) = (lane / 4, lane % 4);
                        if r < 3 {
                            assert(bit16(t[r], d));
                            assert(bit16(t[(r + 1) % 3], d));
                        }
                        if c < 3 {
                            assert(bit16(t[c], d));
                            assert(bit16(t[(c + 1) % 3], d));
                        }
                    }
                }
            }
        }
        s
    }
}

/// What a clue of digit `v` in cell lane `i` eliminates from lane `j` of its
/// box: other digits from the cell, the digit from all other cells and from
/// the two negative triads of the cell.
pub open spec fn clue_drops(j: int, i: int, v: int, d: int) -> bool {
    if j == i {
        0 <= d < 9 && d != v
    } else if j / 4 < 3 && j % 4 < 3 {
        d == v
    } else {
        j != 15 && (j / 4 == i / 4 || j % 4 == i % 4) && d == v
    }
}

/// The elimination mask for entering a clue into its box.
fn cell_assignment_elims(value: usize, elem: usize) -> (r: C16)
    requires
        value < 9,
        elem < 12,
        elem % 4 < 3,
    ensures
        forall|j: int, d: int|
            0 <= j < 16 ==> (#[trigger] bit16(r.lanes[j], d) <==> clue_drops(
                j,
                elem as int,
                value as int,
                d,
            )),
{
    let bit = 1u16 << (value as u16);
    let mut out: [u16; 16] = [0;16];
    let mut j: usize = 0;
    proof {
        lemma_low_masks16();
    }
    while j < 15
        invariant
            j <= 15,
            value < 9,
            elem < 12,
            elem % 4 < 3,
            bit == 1u16 << (value as u16),
            forall|d: int| #[trigger] bit16(ALL, d) <==> 0 <= d < 9,
            forall|k: int, d: int|
                0 <= k < j ==> (#[trigger] bit16(out[k], d) <==> clue_drops(
                    k,
                    elem as int,
                    value as int,
                    d,
                )),
            forall|k: int| j <= k < 16 ==> #[trigger] out[k] == 0,
        decreases 15 - j,
    {
        let x: u16 = if j == elem {
            ALL ^ bit
        } else if j / 4 < 3 && j % 4 < 3 {
            bit
        } else if j / 4 == elem / 4 || j % 4 == elem % 4 {
            bit
        } else {
            0
        };
        out[j] = x;
        proof {
            assert forall|d: int| #[trigger] bit16(x, d) <==> clue_drops(
                j as int,
                elem as int,
                value as int,
                d,
            ) by {}
        }
        j = j + 1;
    }
    proof {
        assert forall|d: int| !#[trigger] bit16(out[15], d) by {}
    }
    C16 { lanes: out }
}

/// The mask table is what it is meant to be.
proof fn lemma_config_mask(p: int, e: int)
    requires
        0 <= p < 3,
        0 <= e < 3,
    ensures
        forall|k: int|
            0 <= k < 6 ==> #[trigger] PEER_X_ELEM_TO_CONFIG_MASK[p][e][k] == (if config_elem(k, p)
                == e {
                0u16
            } else {
                ALL
            }),
{
    assert forall|k: int| 0 <= k < 6 implies #[trigger] PEER_X_ELEM_TO_CONFIG_MASK[p][e][k] == (
    if config_elem(k, p) == e {
        0u16
    } else {
        ALL
    }) by {
        if p == 0 {
            if e == 0 {
            } else if e == 1 {
            } else {
            }
        } else if p == 1 {
            if e == 0 {
            } else if e == 1 {
            } else {
            }
        } else {
            if e == 0 {
            } else if e == 1 {
            } else {
            }
        }
    }
}

/// The lane of cell `c` holds nothing but the clue.
pub open spec fn clue_lane(s: TState, c: int, clue: u8) -> bool {
    forall|d: int| #[trigger]
        bit16(s.boxen[box_lane(c).0].lanes@[4 * box_lane(c).1 + box_lane(c).2], d) ==> d + 1 == clue
}

/// A clue lane stays one in lower states.
proof fn lemma_clue_lane_below(n: TState, o: TState, c: int, clue: u8)
    requires
        0 <= c < 81,
        below(n, o),
        clue_lane(o, c, clue),
    ensures
        clue_lane(n, c, clue),
{
    lemma_box_lane(c);
    let (x, r, q) = box_lane(c);
    assert(lanes_in(n.boxen[x].lanes@, o.boxen[x].lanes@));
    assert(sub16(n.boxen[x].lanes@[4 * r + q], o.boxen[x].lanes@[4 * r + q]));
}

/// A state with a clue lane keeps only grids with the clue.
proof fn lemma_clue_kept(s: TState, c: int, clue: u8, g: Seq<u8>)
    requires
        0 <= c < 81,
        clue_lane(s, c, clue),
        s.holds(g),
    ensures
        g[c] == clue,
        bit16(s.boxen[box_lane(c).0].lanes@[4 * box_lane(c).1 + box_lane(c).2], g[c] - 1),
{
    lemma_grid_facts(g);
    lemma_box_lane(c);
    let (x, r, q) = box_lane(c);
    assert(box_holds(s.boxen[x].lanes@, g, x));
    let lane = 4 * r + q;
    assert(lane / 4 == r && lane % 4 == q);
    assert(lit(g, x, lane, g[c] - 1));
}

/// What entering clue `v` at a cell leaves pending on a band.
proof fn lemma_clue_band(g: Seq<u8>, v: int, b: int, p: int, e: int, k: int, d: int)
    requires
        is_grid(g),
        0 <= v < 2,
        0 <= b < 3,
        0 <= p < 3,
        0 <= e < 3,
        0 <= d < 9,
        conf(g, v, b, k, d),
        crate::triad::model::in_triad(g, v, b, p, e, d),
    ensures
        PEER_X_ELEM_TO_CONFIG_MASK[p][e][k] == 0,
{
    lemma_conf_triad(g, v, b, k, p, e, d);
    lemma_config_mask(p, e);
}

/// Band `i` has pending, besides what it had, every configuration of digit
/// `v` that does not place it in triad `e` of peer `p`.
pub open spec fn pended(s: TState, n: TState, i: int, p: int, e: int, v: int) -> bool {
    forall|k: int, d: int|
        0 <= k < 8 ==> (#[trigger] bit16(n.bands[i].eliminations.lanes[k], d) <==> bit16(
            s.bands[i].eliminations.lanes[k],
            d,
        ) || (k < 6 && d == v && config_elem(k, p) != e))
}

/// Box `x` has lost what a clue of digit `v` in cell lane `i` drops, and
/// nothing else; other boxes are as they were.
pub open spec fn restricted(s: TState, n: TState, x: int, i: int, v: int) -> bool {
    &&& forall|y: int| 0 <= y < 9 && y != x ==> #[trigger] n.boxen[y] == s.boxen[y]
    &&& forall|j: int, d: int|
        0 <= j < 16 ==> (#[trigger] bit16(n.boxen[x].lanes[j], d) <==> bit16(
            s.boxen[x].lanes[j],
            d,
        ) && !clue_drops(j, i, v, d))
}

/// Adds to what is pending on a band the configurations of a digit that do
/// not place it in triad `e` of peer `p`.
fn pend_clue(state: &mut TState, band_idx: usize, p: usize, e: usize, value: usize)
    requires
        band_idx < 6,
        p < 3,
        e < 3,
        value < 9,
        old(state).ok(),
    ensures
        final(state).ok(),
        below(*final(state), *old(state)),
        final(state).boxen == old(state).boxen,
        final(state).asserted == old(state).asserted,
        pended(*old(state), *final(state), band_idx as int, p as int, e as int, value as int),
        forall|j: int|
            0 <= j < 6 && j != band_idx ==> #[trigger] final(state).bands[j] == old(state).bands[j],
        forall|i: int|
            0 <= i < 6 ==> #[trigger] final(state).bands[i].configurations
                == old(state).bands[i].configurations,
        forall|g: Seq<u8>| #[trigger]
            old(state).holds(g) && crate::triad::model::in_triad(
                g,
                band_idx as int / 3,
                band_idx as int % 3,
                p as int,
                e as int,
                value as int,
            ) ==> final(state).holds(g),
{
    let ghost s0 = *state;
    let ghost i = band_idx as int;
    let candidate = C8::all(1u16 << (value as u16));
    let band = state.bands[band_idx];
    let mask = c8(&PEER_X_ELEM_TO_CONFIG_MASK[p][e]).and(candidate);
    let eliminations = mask.or(band.eliminations);
    state.bands[band_idx] = Band { configurations: band.configurations, eliminations };
    proof {
        let s1 = *state;
        assert forall|x: int| 0 <= x < 9 implies box_ok(#[trigger] s1.boxen[x].lanes@) by {
            assert(box_ok(s0.boxen[x].lanes@));
        }
        assert forall|j: int| 0 <= j < 6 implies #[trigger] s1.bands[j].configurations
            == s0.bands[j].configurations by {}
        assert forall|j: int| 0 <= j < 6 implies cfg_ok(
            #[trigger] s1.bands[j].configurations.lanes@,
        ) by {
            assert(cfg_ok(s0.bands[j].configurations.lanes@));
        }
        assert forall|j: int| 0 <= j < 6 implies lanes_in(
            s0.bands[j].eliminations.lanes@,
            #[trigger] s1.bands[j].eliminations.lanes@,
        ) by {
            if j == i {
                assert forall|k: int| 0 <= k < 8 implies sub16(
                    #[trigger] s0.bands[j].eliminations.lanes@[k],
                    s1.bands[j].eliminations.lanes@[k],
                ) by {
                    assert(eliminations.lanes[k] == mask.lanes[k] | band.eliminations.lanes[k]);
                }
            }
        }
        assert(pended(s0, s1, i, p as int, e as int, value as int)) by {
            lemma_config_mask(p as int, e as int);
            lemma_low_masks16();
            assert forall|k: int, d: int| 0 <= k < 8 implies (#[trigger] bit16(
                s1.bands[i].eliminations.lanes[k],
                d,
            ) <==> bit16(s0.bands[i].eliminations.lanes[k], d) || (k < 6 && d == value && config_elem(
                k,
                p as int,
            ) != e)) by {
                assert(eliminations.lanes[k] == mask.lanes[k] | band.eliminations.lanes[k]);
                assert(mask.lanes[k] == PEER_X_ELEM_TO_CONFIG_MASK[p as int][e as int][k]
                    & candidate.lanes[k]);
                assert(candidate.lanes[k] == 1u16 << (value as u16));
                assert(!bit16(0u16, d));
                assert(bit16(ALL, d) <==> 0 <= d < 9);
            }
        }
        let (v, b) = (i / 3, i % 3);
        assert forall|g: Seq<u8>| #[trigger] s0.holds(g) && crate::triad::model::in_triad(
            g,
            v,
            b,
            p as int,
            e as int,
            value as int,
        ) implies s1.holds(g) by {
            assert forall|x: int| 0 <= x < 9 implies box_holds(#[trigger] s1.boxen[x].lanes@, g, x) by {
                assert(box_holds(s0.boxen[x].lanes@, g, x));
            }
            assert forall|j: int| 0 <= j < 6 implies band_holds(
                #[trigger] s1.bands[j],
                g,
                j / 3,
                j % 3,
            ) by {
                assert(band_holds(s0.bands[j], g, j / 3, j % 3));
                if j == i {
                    assert forall|k: int, d: int|
                        0 <= d < 9 && #[trigger] conf(g, v, b, k, d) implies bit16(
                        s1.bands[i].configurations.lanes[k],
                        d,
                    ) && !bit16(s1.bands[i].eliminations.lanes[k], d) by {
                        assert(eliminations.lanes[k] == mask.lanes[k] | band.eliminations.lanes[k]);
                        assert(mask.lanes[k] == PEER_X_ELEM_TO_CONFIG_MASK[p as int][e as int][k]
                            & candidate.lanes[k]);
                        if d == value {
                            lemma_clue_band(g, v, b, p as int, e as int, k, d);
                            assert(!bit16(0u16, d));
                        } else {
                            assert(candidate.lanes[k] == 1u16 << (value as u16));
                        }
                    }
                }
            }
        }
    }
}

/// Restricts the box of a clue, without drawing consequences.
fn restrict_clue(state: &mut TState, bx: usize, elem: usize, value: usize)
    requires
        bx < 9,
        elem < 12,
        elem % 4 < 3,
        value < 9,
        old(state).ok(),
    ensures
        final(state).ok(),
        below(*final(state), *old(state)),
        final(state).bands == old(state).bands,
        final(state).asserted == old(state).asserted,
        restricted(*old(state), *final(state), bx as int, elem as int, value as int),
        corners(*old(state)) ==> corners(*final(state)),
        forall|d: int| #[trigger]
            bit16(final(state).boxen[bx as int].lanes@[elem as int], d) ==> d == value,
        forall|g: Seq<u8>| #[trigger]
            old(state).holds(g) && g[cell_at(bx as int, elem as int / 4, elem as int % 4)] == value + 1
                ==> final(state).holds(g),
{
    let ghost s0 = *state;
    let ghost x = bx as int;
    let ghost i = elem as int;
    let ghost v = value as int;
    let elims = cell_assignment_elims(value, elem);
    let lanes = state.boxen[bx].and_not(elims);
    state.boxen[bx] = lanes;
    proof {
        let s1 = *state;
        let (l0, l1) = (s0.boxen[x].lanes@, lanes.lanes@);
        lemma_low_masks16();
        assert(box_ok(s0.boxen[x].lanes@));
        assert forall|j: int| 0 <= j < 16 implies #[trigger] l1[j] <= ALL && sub16(l1[j], l0[j]) by {
            assert(l1[j] == l0[j] & !elims.lanes[j]);
            assert forall|d: int| #[trigger] bit16(l1[j], d) implies bit16(l0[j], d) by {}
            lemma_subset16(l1[j], l0[j]);
            assert(l0[j] <= ALL);
        }
        assert(l1[15] == l0[15]) by {
            assert(l1[15] == l0[15] & !elims.lanes[15]);
            assert forall|d: int| 0 <= d < 16 implies bit16(l1[15], d) == bit16(l0[15], d) by {}
            lemma_ext16(l1[15], l0[15]);
        }
        assert forall|y: int| 0 <= y < 9 implies box_ok(#[trigger] s1.boxen[y].lanes@) by {
            assert(box_ok(s0.boxen[y].lanes@));
        }
        assert forall|j: int| 0 <= j < 6 implies cfg_ok(
            #[trigger] s1.bands[j].configurations.lanes@,
        ) by {
            assert(cfg_ok(s0.bands[j].configurations.lanes@));
        }
        assert(below(s1, s0)) by {
            assert forall|y: int| 0 <= y < 9 implies lanes_in(
                #[trigger] s1.boxen[y].lanes@,
                s0.boxen[y].lanes@,
            ) by {}
        }
        assert(restricted(s0, s1, x, i, v)) by {
            assert forall|j: int, d: int| 0 <= j < 16 implies (#[trigger] bit16(
                s1.boxen[x].lanes[j],
                d,
            ) <==> bit16(s0.boxen[x].lanes[j], d) && !clue_drops(j, i, v, d)) by {
                assert(l1[j] == l0[j] & !elims.lanes[j]);
                assert(bit16(elims.lanes[j], d) <==> clue_drops(j, i, v, d));
            }
        }
        assert forall|d: int| #[trigger] bit16(s1.boxen[x].lanes@[i], d) implies d == v by {
            assert(l1[i] == l0[i] & !elims.lanes[i]);
            assert(l0[i] <= ALL);
            lemma_small9(l0[i], d);
            assert(bit16(elims.lanes[i], d) <==> clue_drops(i, i, v, d));
        }
        assert forall|g: Seq<u8>| #[trigger] s0.holds(g) && g[cell_at(x, i / 4, i % 4)] == v + 1 implies s1.holds(
            g,
        ) by {
            assert forall|y: int| 0 <= y < 9 implies box_holds(#[trigger] s1.boxen[y].lanes@, g, y) by {
                assert(box_holds(s0.boxen[y].lanes@, g, y));
                if y == x {
                    assert forall|j: int, d: int| 0 <= j < 16 && 0 <= d < 9 && #[trigger] lit(
                        g,
                        x,
                        j,
                        d,
                    ) implies bit16(l1[j], d) by {
                        assert(l1[j] == l0[j] & !elims.lanes[j]);
                        assert(bit16(l0[j], d));
                        lemma_clue_drops(g, x, j, i, v, d);
                        assert(bit16(elims.lanes[j], d) <==> clue_drops(j, i, v, d));
                    }
                }
            }
            assert forall|j: int| 0 <= j < 6 implies band_holds(
                #[trigger] s1.bands[j],
                g,
                j / 3,
                j % 3,
            ) by {
                assert(band_holds(s0.bands[j], g, j / 3, j % 3));
            }
        }
    }
}

/// Entering a clue that the grid has drops no true literal.
proof fn lemma_clue_drops(g: Seq<u8>, x: int, j: int, i: int, v: int, d: int)
    requires
        is_grid(g),
        0 <= x < 9,
        0 <= j < 16,
        0 <= i < 12,
        i % 4 < 3,
        0 <= d < 9,
        g[cell_at(x, i / 4, i % 4)] == v + 1,
        lit(g, x, j, d),
    ensures
        !clue_drops(j, i, v, d),
{
    let (r, c) = (i / 4, i % 4);
    let (q, e) = (j / 4, j % 4);
    if j == i {
    } else if q < 3 && e < 3 {
        if d == v {
            lemma_box_once(g, x, r, c, q, e);
            assert(j == 4 * q + e && i == 4 * r + c);
        }
    } else if q < 3 {
        if q == r && d == v {
            assert(in_row(g, x, r, d)) by {
                if c == 0 {
                } else if c == 1 {
                } else {
                    assert(c == 2);
                }
            }
        }
    } else if e < 3 {
        if e == c && d == v {
            assert(in_col(g, x, c, d)) by {
                if r == 0 {
                } else if r == 1 {
                } else {
                    assert(r == 2);
                }
            }
        }
    }
}

/// The state after one clue: its box restricted, the configurations that miss
/// it pending on its two bands, and all else as it was.
pub open spec fn clue_placed(s: TState, n: TState, c: int, digit: u8) -> bool {
    let (x, r, q) = box_lane(c);
    &&& restricted(s, n, x, 4 * r + q, digit - 1)
    &&& pended(s, n, x / 3, x % 3, r, digit - 1)
    &&& pended(s, n, 3 + x % 3, x / 3, q, digit - 1)
    &&& forall|j: int|
        0 <= j < 6 && j != x / 3 && j != 3 + x % 3 ==> #[trigger] n.bands[j] == s.bands[j]
}

/// Enters one clue: restricts its box and leaves its configurations pending.
fn init_clue(state: &mut TState, cell: usize, digit: u8)
    requires
        cell < 81,
        1 <= digit <= 9,
        old(state).ok(),
    ensures
        final(state).ok(),
        below(*final(state), *old(state)),
        forall|i: int|
            0 <= i < 6 ==> #[trigger] final(state).bands[i].configurations
                == old(state).bands[i].configurations,
        clue_placed(*old(state), *final(state), cell as int, digit),
        final(state).asserted == old(state).asserted,
        corners(*old(state)) ==> corners(*final(state)),
        clue_lane(*final(state), cell as int, digit),
        forall|g: Seq<u8>| #[trigger]
            old(state).holds(g) && g[cell as int] == digit ==> final(state).holds(g),
{
    let ghost s0 = *state;
    let ghost c = cell as int;
    let value = (digit - 1) as usize;
    let box_i = cell / 27;
    let box_j = (cell % 9) / 3;
    let bx = box_i * 3 + box_j;
    let elem_i = (cell / 9) % 3;
    let elem_j = cell % 3;
    let elem = elem_i * 4 + elem_j;
    proof {
        lemma_box_lane(c);
        assert(box_lane(c) == (bx as int, elem_i as int, elem_j as int));
        assert(elem as int / 4 == elem_i && elem as int % 4 == elem_j);
    }
    restrict_clue(state, bx, elem, value);
    let ghost s1 = *state;
    pend_clue(state, box_i, box_j, elem_i, value);
    let ghost s2 = *state;
    pend_clue(state, 3 + box_j, box_i, elem_j, value);
    proof {
        let s3 = *state;
        lemma_below_trans(s2, s1, s0);
        lemma_below_trans(s3, s2, s0);
        assert(clue_placed(s0, s3, c, digit)) by {
            assert(bx as int / 3 == box_i && bx as int % 3 == box_j);
            assert(s3.boxen == s1.boxen && s1.bands == s0.bands);
            assert(s3.bands[box_i as int] == s2.bands[box_i as int]);
            assert(s2.bands[3 + box_j as int] == s1.bands[3 + box_j as int]);
            assert(pended(s1, s2, box_i as int, box_j as int, elem_i as int, digit - 1));
            assert(pended(s2, s3, 3 + box_j as int, box_i as int, elem_j as int, digit - 1));
        }
        assert forall|d: int| #[trigger] bit16(
            s3.boxen[box_lane(c).0].lanes@[4 * box_lane(c).1 + box_lane(c).2],
            d,
        ) implies d + 1 == digit by {
            assert(s3.boxen == s1.boxen);
            assert(bit16(s1.boxen[bx as int].lanes@[elem as int], d));
        }
        assert forall|g: Seq<u8>| #[trigger] s0.holds(g) && g[c] == digit implies s3.holds(g) by {
            assert(s1.holds(g));
            let (h, w) = (box_i as int, 3 + box_j as int);
            assert(h / 3 == 0 && h % 3 == h && w / 3 == 1 && w % 3 == box_j);
            assert(peer_box(0, h, box_j as int) == bx && peer_box(1, box_j as int, h) == bx);
            assert(in_row(g, bx as int, elem_i as int, value as int)) by {
                if elem_j == 0 {
                } else if elem_j == 1 {
                } else {
                    assert(elem_j == 2);
                }
            }
            assert(in_col(g, bx as int, elem_j as int, value as int)) by {
                if elem_i == 0 {
                } else if elem_i == 1 {
                } else {
                    assert(elem_i == 2);
                }
            }
            assert(s2.holds(g));
        }
        assert forall|i: int| 0 <= i < 6 implies #[trigger] s3.bands[i].configurations
            == s0.bands[i].configurations by {
            assert(s2.bands[i].configurations == s1.bands[i].configurations);
        }
    }
}

// ---------------------------------------------------------------------------
// Peer eliminations
// ---------------------------------------------------------------------------

/// A clue in row `r` has digit `d`.
pub open spec fn row_has(clues: Seq<u8>, r: int, d: int) -> bool {
    exists|c: int| 0 <= c < 81 && c / 9 == r && #[trigger] clues[c] == d + 1
}

/// A clue in column `q` has digit `d`.
pub open spec fn col_has(clues: Seq<u8>, q: int, d: int) -> bool {
    exists|c: int| 0 <= c < 81 && c % 9 == q && #[trigger] clues[c] == d + 1
}

/// The digit sets hold nothing but the clues of each row and column.
pub open spec fn digits_of(clues: Seq<u8>, rows: Seq<u16>, cols: Seq<u16>) -> bool {
    &&& rows.len() == 12
    &&& cols.len() == 12
    &&& forall|r: int, d: int| 0 <= r < 9 && #[trigger] bit16(rows[r], d) ==> row_has(clues, r, d)
    &&& forall|q: int, d: int| 0 <= q < 9 && #[trigger] bit16(cols[q], d) ==> col_has(clues, q, d)
}

/// Every clue has its lane to itself.
pub open spec fn clues_entered(s: TState, clues: Seq<u8>) -> bool {
    forall|c: int| 0 <= c < 81 && #[trigger] clues[c] != 0 ==> clue_lane(s, c, clues[c])
}

/// Shuffle control that copies entry `i` of three into every lane of matrix
/// row (or column) `i`.
fn build_bcast(by_row: bool) -> (t: [u8; 32])
    ensures
        forall|b: int|
            0 <= b < 32 ==> #[trigger] t[b] == 2 * (if by_row {
                (b / 2) / 4
            } else {
                (b / 2) % 4
            }) + b % 2,
{
    let mut t: [u8; 32] = [0;32];
    let mut b: usize = 0;
    while b < 32
        invariant
            b <= 32,
            forall|k: int|
                0 <= k < b ==> #[trigger] t[k] == 2 * (if by_row {
                    (k / 2) / 4
                } else {
                    (k / 2) % 4
                }) + k % 2,
        decreases 32 - b,
    {
        let lane = b / 2;
        let idx = if by_row {
            lane / 4
        } else {
            lane % 4
        };
        t[b] = (2 * idx + b % 2) as u8;
        b = b + 1;
    }
    t
}

/// Four digit sets spread over the rows or columns of a matrix.
fn spread4(a: u16, b: u16, c: u16, d: u16, by_row: bool) -> (r: C16)
    ensures
        forall|i: int|
            0 <= i < 16 ==> #[trigger] r.lanes[i] == seq![a, b, c, d][if by_row {
                i / 4
            } else {
                i % 4
            }],
{
    let bytes = build_bcast(by_row);
    let ctrl = c16_bytes(&bytes);
    let v = pack4(a, b, c, d);
    let s = C16::splat_u64(v);
    proof {
        lemma_packed(a, b, c, d);
        assert forall|i: int| 0 <= i < 16 implies is_selector(#[trigger] ctrl.lanes@[i]) && ctrl.lanes@[i]
            != 0xffff && selector_lane(ctrl.lanes@[i]) == (if by_row {
            i / 4
        } else {
            i % 4
        }) by {
            let idx: int = if by_row {
                i / 4
            } else {
                i % 4
            };
            assert(0 <= idx < 4);
            assert(bytes[2 * i] == 2 * idx) by {
                assert((2 * i) / 2 == i && (2 * i) % 2 == 0);
            }
            assert(bytes[2 * i + 1] == 2 * idx + 1) by {
                assert((2 * i + 1) / 2 == i && (2 * i + 1) % 2 == 1);
            }
            assert(ctrl.lanes[i] == 256 + 514 * idx);
        }
        assert(is_control(ctrl.lanes@));
    }
    let r = s.shuffle(ctrl);
    proof {
        assert forall|i: int| 0 <= i < 16 implies #[trigger] r.lanes[i] == seq![a, b, c, d][if by_row {
            i / 4
        } else {
            i % 4
        }] by {
            let idx: int = if by_row {
                i / 4
            } else {
                i % 4
            };
            assert(is_selector(ctrl.lanes@[i]));
            let j = 8 * (i / 8) + idx;
            assert(r.lanes[i] == s.lanes[j]);
            assert(j % 4 == idx);
            assert(s.lanes[j] == quarter(v, idx));
        }
    }
    r
}

/// Exactly one digit.
proof fn lemma_pop_single(m: u16, d: int)
    requires
        m <= ALL,
        bit16(m, d),
        forall|e: int| #[trigger] bit16(m, e) ==> e == d,
    ensures
        pop16(m) == 1,
{
    lemma_pop9(m);
    lemma_small9(m, d);
    let f = |i: int| bit16(m, i);
    crate::bits::lemma_count_some(f, 9, d);
    if crate::bits::count(f, 9) >= 2 {
        let e = crate::bits::lemma_count_second(f, 9, d);
        assert(bit16(m, e));
    }
}

/// Every box has lost, from its cells with more than one candidate, the
/// digits of their rows and columns, and nothing else.
pub open spec fn seeded(s: TState, n: TState, rows: Seq<u16>, cols: Seq<u16>) -> bool {
    forall|x: int, j: int, d: int|
        0 <= x < 9 && 0 <= j < 16 ==> (#[trigger] bit16(n.boxen[x].lanes[j], d) <==> bit16(
            s.boxen[x].lanes[j],
            d,
        ) && !(j / 4 < 3 && j % 4 < 3 && pop16(s.boxen[x].lanes[j]) != 1 && (bit16(
            rows[3 * (x / 3) + j / 4],
            d,
        ) || bit16(cols[3 * (x % 3) + j % 4], d))))
}

/// Removes from every box the digits that clues have placed in its rows and
/// columns. Lanes already down to one candidate are left alone.
fn seed_peer_eliminations(
    state: &mut TState,
    clues: &[u8; 81],
    row_digits: &[u16; 12],
    col_digits: &[u16; 12],
)
    requires
        old(state).ok(),
        clues_entered(*old(state), clues@),
        digits_of(clues@, row_digits@, col_digits@),
    ensures
        final(state).ok(),
        below(*final(state), *old(state)),
        keeps(*old(state), *final(state)),
        final(state).bands == old(state).bands,
        final(state).asserted == old(state).asserted,
        seeded(*old(state), *final(state), row_digits@, col_digits@),
        corners(*old(state)) ==> corners(*final(state)),
{
    let ghost s0 = *state;
    let cells_only = c16(&CELLS_3X3);
    let one = C16::all(1);
    let mut bx: usize = 0;
    proof {
        lemma_below_refl(s0);
    }
    while bx < 9
        invariant
            bx <= 9,
            s0 == *old(state),
            s0.ok(),
            clues_entered(s0, clues@),
            digits_of(clues@, row_digits@, col_digits@),
            cells_only.lanes == CELLS_3X3,
            forall|i: int| 0 <= i < 16 ==> #[trigger] one.lanes[i] == 1,
            state.ok(),
            corners(s0) ==> corners(*state),
            state.asserted == s0.asserted,
            below(*state, s0),
            keeps(s0, *state),
            state.bands == s0.bands,
            forall|x: int| bx <= x < 9 ==> #[trigger] state.boxen[x] == s0.boxen[x],
            forall|x: int, j: int, d: int|
                0 <= x < bx && 0 <= j < 16 ==> (#[trigger] bit16(state.boxen[x].lanes[j], d)
                    <==> bit16(s0.boxen[x].lanes[j], d) && !(j / 4 < 3 && j % 4 < 3 && pop16(
                    s0.boxen[x].lanes[j],
                ) != 1 && (bit16(row_digits@[3 * (x / 3) + j / 4], d) || bit16(
                    col_digits@[3 * (x % 3) + j % 4],
                    d,
                )))),
        decreases 9 - bx,
    {
        let rb = (bx / 3) * 3;
        let cb = (bx % 3) * 3;
        let across = spread4(
            row_digits[rb],
            row_digits[rb + 1],
            row_digits[rb + 2],
            row_digits[rb + 3],
            true,
        );
        let down = spread4(
            col_digits[cb],
            col_digits[cb + 1],
            col_digits[cb + 2],
            col_digits[cb + 3],
            false,
        );
        let spread = across.or(down);
        let cells = state.boxen[bx];
        let settled = cells.popcounts9().which_equal(one);
        let drop = spread.and(cells_only).and_not(settled);
        let lanes = cells.and_not(drop);
        let ghost s1 = *state;
        state.boxen[bx] = lanes;
        proof {
            let s2 = *state;
            let x = bx as int;
            let (l0, l1) = (cells.lanes@, lanes.lanes@);
            lemma_low_masks16();
            lemma_full16();
            assert(box_ok(s1.boxen[x].lanes@));
            assert forall|j: int| 0 <= j < 16 implies #[trigger] l1[j] <= ALL && sub16(
                l1[j],
                l0[j],
            ) by {
                assert(l1[j] == l0[j] & !drop.lanes[j]);
                assert forall|d: int| #[trigger] bit16(l1[j], d) implies bit16(l0[j], d) by {}
                lemma_subset16(l1[j], l0[j]);
                assert(l0[j] <= ALL);
            }
            assert forall|j: int, d: int|
                0 <= j < 16 && !(j / 4 < 3 && j % 4 < 3) implies !#[trigger] bit16(
                drop.lanes[j],
                d,
            ) by {
                assert(drop.lanes[j] == (spread.lanes[j] & CELLS_3X3[j]) & !settled.lanes[j]);
                assert(CELLS_3X3[j] == 0);
            }
            assert(l1[15] == l0[15]) by {
                assert(l1[15] == l0[15] & !drop.lanes[15]);
                assert forall|d: int| 0 <= d < 16 implies bit16(l1[15], d) == bit16(l0[15], d) by {}
                lemma_ext16(l1[15], l0[15]);
            }
            assert forall|y: int| 0 <= y < 9 implies box_ok(#[trigger] s2.boxen[y].lanes@) by {
                assert(box_ok(s1.boxen[y].lanes@));
            }
            assert forall|j: int| 0 <= j < 6 implies cfg_ok(
                #[trigger] s2.bands[j].configurations.lanes@,
            ) by {
                assert(cfg_ok(s1.bands[j].configurations.lanes@));
            }
            assert(below(s2, s1)) by {
                assert forall|y: int| 0 <= y < 9 implies lanes_in(
                    #[trigger] s2.boxen[y].lanes@,
                    s1.boxen[y].lanes@,
                ) by {}
            }
            lemma_below_trans(s2, s1, s0);
            assert forall|j: int, d: int| 0 <= j < 16 implies (#[trigger] bit16(
                s2.boxen[x].lanes[j],
                d,
            ) <==> bit16(s0.boxen[x].lanes[j], d) && !(j / 4 < 3 && j % 4 < 3 && pop16(
                s0.boxen[x].lanes[j],
            ) != 1 && (bit16(row_digits@[3 * (x / 3) + j / 4], d) || bit16(
                col_digits@[3 * (x % 3) + j % 4],
                d,
            )))) by {
                assert(l1[j] == l0[j] & !drop.lanes[j]);
                assert(l0[j] <= ALL);
                if bit16(l0[j], d) {
                    lemma_small9(l0[j], d);
                }
                if j / 4 < 3 && j % 4 < 3 {
                    assert(drop.lanes[j] == (spread.lanes[j] & CELLS_3X3[j]) & !settled.lanes[j]);
                    assert(spread.lanes[j] == across.lanes[j] | down.lanes[j]);
                    assert(across.lanes[j] == row_digits[rb + j / 4]);
                    assert(down.lanes[j] == col_digits[cb + j % 4]);
                    assert(CELLS_3X3[j] == ALL);
                    assert(!bit16(0u16, d));
                }
            }
            assert forall|g: Seq<u8>| #[trigger] s0.holds(g) implies s2.holds(g) by {
                assert(s1.holds(g));
                lemma_grid_facts(g);
                assert forall|y: int| 0 <= y < 9 implies box_holds(
                    #[trigger] s2.boxen[y].lanes@,
                    g,
                    y,
                ) by {
                    assert(box_holds(s1.boxen[y].lanes@, g, y));
                    if y == x {
                        assert forall|j: int, d: int| 0 <= j < 16 && 0 <= d < 9 && #[trigger] lit(
                            g,
                            x,
                            j,
                            d,
                        ) implies bit16(l1[j], d) by {
                            assert(l1[j] == l0[j] & !drop.lanes[j]);
                            assert(bit16(l0[j], d));
                            if j / 4 < 3 && j % 4 < 3 && bit16(drop.lanes[j], d) {
                                let (r, c) = (j / 4, j % 4);
                                assert(j == 4 * r + c);
                                assert(drop.lanes[j] == (spread.lanes[j] & CELLS_3X3[j])
                                    & !settled.lanes[j]);
                                assert(spread.lanes[j] == across.lanes[j] | down.lanes[j]);
                                assert(across.lanes[j] == row_digits[rb + r]);
                                assert(down.lanes[j] == col_digits[cb + c]);
                                lemma_seeded(s0, clues@, g, x, r, c, d, row_digits@, col_digits@);
                                assert(l0 == s0.boxen[x].lanes@);
                                assert(l0[j] <= ALL);
                                lemma_pop_single(l0[j], d);
                                assert(settled.lanes[j] == 0xffff);
                            }
                        }
                    }
                }
                assert forall|j: int| 0 <= j < 6 implies band_holds(
                    #[trigger] s2.bands[j],
                    g,
                    j / 3,
                    j % 3,
                ) by {
                    assert(band_holds(s1.bands[j], g, j / 3, j % 3));
                }
            }
        }
        bx = bx + 1;
    }
}

/// A kept grid's digit that a clue of the same row or column has is that
/// clue itself.
proof fn lemma_seeded(
    s: TState,
    clues: Seq<u8>,
    g: Seq<u8>,
    x: int,
    r: int,
    c: int,
    d: int,
    rows: Seq<u16>,
    cols: Seq<u16>,
)
    requires
        s.ok(),
        s.holds(g),
        clues_entered(s, clues),
        digits_of(clues, rows, cols),
        0 <= x < 9,
        0 <= r < 3,
        0 <= c < 3,
        0 <= d < 9,
        g[cell_at(x, r, c)] == d + 1,
        bit16(rows[3 * (x / 3) + r], d) || bit16(cols[3 * (x % 3) + c], d),
    ensures
        forall|e: int| #[trigger] bit16(s.boxen[x].lanes@[4 * r + c], e) ==> e == d,
{
    lemma_grid_facts(g);
    lemma_cell_at(x, r, c);
    crate::triad::leaf::lemma_box_lane_back(x, r, c);
    let a = cell_at(x, r, c);
    let b = if bit16(rows[3 * (x / 3) + r], d) {
        assert(row_has(clues, 3 * (x / 3) + r, d));
        choose|b: int| 0 <= b < 81 && b / 9 == 3 * (x / 3) + r && #[trigger] clues[b] == d + 1
    } else {
        assert(col_has(clues, 3 * (x % 3) + c, d));
        choose|b: int| 0 <= b < 81 && b % 9 == 3 * (x % 3) + c && #[trigger] clues[b] == d + 1
    };
    assert(clues[b] != 0);
    lemma_clue_kept(s, b, clues[b], g);
    if a != b {
        assert(peers(a, b));
    }
    assert(clue_lane(s, a, clues[a]));
    assert forall|e: int| #[trigger] bit16(s.boxen[x].lanes@[4 * r + c], e) implies e == d by {
        assert(bit16(s.boxen[box_lane(a).0].lanes@[4 * box_lane(a).1 + box_lane(a).2], e));
    }
}

// ---------------------------------------------------------------------------
// Initialization
// ---------------------------------------------------------------------------

/// Digit set `i` has gained digit `v`, and the others are as they were.
pub open spec fn noted(old_sets: Seq<u16>, new_sets: Seq<u16>, i: int, v: int) -> bool {
    &&& new_sets == old_sets.update(i, new_sets[i])
    &&& forall|d: int| #[trigger]
        bit16(new_sets[i], d) <==> bit16(old_sets[i], d) || d == v
}

/// Enters a clue and notes its digit for its row and column.
fn enter(
    state: &mut TState,
    clues: &[u8; 81],
    cell: usize,
    row_digits: &mut [u16; 12],
    col_digits: &mut [u16; 12],
)
    requires
        cell < 81,
        clues_ok(clues@),
        clues[cell as int] != 0,
        old(state).ok(),
        digits_of(clues@, old(row_digits)@, old(col_digits)@),
    ensures
        final(state).ok(),
        below(*final(state), *old(state)),
        forall|i: int|
            0 <= i < 6 ==> #[trigger] final(state).bands[i].configurations
                == old(state).bands[i].configurations,
        clue_placed(*old(state), *final(state), cell as int, clues[cell as int]),
        final(state).asserted == old(state).asserted,
        corners(*old(state)) ==> corners(*final(state)),
        clue_lane(*final(state), cell as int, clues[cell as int]),
        noted(old(row_digits)@, final(row_digits)@, cell as int / 9, clues[cell as int] - 1),
        noted(old(col_digits)@, final(col_digits)@, cell as int % 9, clues[cell as int] - 1),
        forall|g: Seq<u8>| #[trigger]
            old(state).holds(g) && g[cell as int] == clues[cell as int] ==> final(state).holds(g),
        digits_of(clues@, final(row_digits)@, final(col_digits)@),
{
    let digit = clues[cell];
    proof {
        assert(clues@[cell as int] <= 9);
    }
    init_clue(state, cell, digit);
    let bit = 1u16 << ((digit - 1) as u16);
    let row = cell / 9;
    let col = cell % 9;
    let ghost (r0, c0) = (row_digits@, col_digits@);
    row_digits[row] = row_digits[row] | bit;
    col_digits[col] = col_digits[col] | bit;
    proof {
        assert forall|r: int, d: int| 0 <= r < 9 && #[trigger] bit16(
            row_digits@[r],
            d,
        ) implies row_has(clues@, r, d) by {
            if bit16(r0[r], d) {
            } else {
                assert(r == row && d == digit - 1);
                assert(clues@[cell as int] == d + 1);
            }
        }
        assert forall|q: int, d: int| 0 <= q < 9 && #[trigger] bit16(
            col_digits@[q],
            d,
        ) implies col_has(clues@, q, d) by {
            if bit16(c0[q], d) {
            } else {
                assert(q == col && d == digit - 1);
                assert(clues@[cell as int] == d + 1);
            }
        }
    }
}

/// The state keeps every solution of the clues, and has learnt nothing about
/// configurations.
spec fn entering(s: TState, s0: TState, clues: Seq<u8>) -> bool {
    &&& s.ok()
    &&& corners(s)
    &&& below(s, s0)
    &&& forall|i: int|
        0 <= i < 6 ==> #[trigger] s.bands[i].configurations == s0.bands[i].configurations
    &&& forall|g: Seq<u8>| is_solution(g, clues) ==> #[trigger] s.holds(g)
}

proof fn lemma_entered(s: TState, n: TState, s0: TState, clues: Seq<u8>, c: int)
    requires
        entering(s, s0, clues),
        n.ok(),
        corners(n),
        below(n, s),
        forall|i: int|
            0 <= i < 6 ==> #[trigger] n.bands[i].configurations == s.bands[i].configurations,
        0 <= c < 81,
        clues[c] != 0,
        forall|g: Seq<u8>| #[trigger] s.holds(g) && g[c] == clues[c] ==> n.holds(g),
    ensures
        entering(n, s0, clues),
{
    lemma_below_trans(n, s, s0);
    assert forall|i: int| 0 <= i < 6 implies #[trigger] n.bands[i].configurations
        == s0.bands[i].configurations by {
        assert(n.bands[i].configurations == s.bands[i].configurations);
    }
    assert forall|g: Seq<u8>| is_solution(g, clues) implies #[trigger] n.holds(g) by {
        assert(s.holds(g));
        assert(g[c] == clues[c]);
    }
}

/// Enters the clues and propagates them to the fixpoint.
#[verifier::rlimit(40)]
pub fn init_and_propagate(state: &mut TState, clues: &[u8; 81]) -> (r: bool)
    requires
        clues_ok(clues@),
        fresh(*old(state)),
    ensures
        !r ==> solutions(clues@) == Set::<Seq<u8>>::empty(),
        r ==> at_rest(*final(state)) && final(state).grids() == solutions(clues@),
        !r <==> started(clues@) is None,
        r ==> started(clues@) == Some(node(*final(state))),
{
    let ghost s0 = *state;
    let ghost cs = clues@;
    let mut row_digits: [u16; 12] = [0;12];
    let mut col_digits: [u16; 12] = [0;12];
    let (mut lo, mut hi) = clue_masks(clues);
    let ghost mut done = Set::<int>::empty();
    proof {
        lemma_below_refl(s0);
        lemma_low_masks16();
        assert forall|x: int, j: int, d: int| 0 <= x < 9 && 0 <= j < 16 implies (#[trigger] bit16(
            s0.boxen[x].lanes[j],
            d,
        ) <==> left_in(cs, done, x, j, d)) by {
            assert(node(s0).boxes[x][j] == ALL);
        }
        assert forall|i: int, k: int, d: int| 0 <= i < 6 && 0 <= k < 8 implies (#[trigger] bit16(
            s0.bands[i].eliminations.lanes[k],
            d,
        ) <==> ruled_out(cs, done, i, k, d)) by {
            assert(node(s0).pend[i][k] == 0);
        }
        assert(entered(s0, cs, done, row_digits@, col_digits@));
        assert forall|c: int| done.contains(c) <==> 0 <= c < 64 && cs[c] != 0 && !bit64(lo, c) by {
            if 0 <= c < 64 && cs[c] != 0 {
                assert(bit64(lo, c));
            }
        }
    }
    while lo != 0
        invariant
            entered(*state, cs, done, row_digits@, col_digits@),
            forall|c: int| #[trigger]
                done.contains(c) <==> 0 <= c < 64 && cs[c] != 0 && !bit64(lo, c),
            cs == clues@,
            clues_ok(clues@),
            entering(*state, s0, cs),
            digits_of(cs, row_digits@, col_digits@),
            forall|c: int| #[trigger] bit64(lo, c) ==> 0 <= c < 64 && cs[c] != 0,
            forall|c: int|
                0 <= c < 64 && #[trigger] cs[c] != 0 && !bit64(lo, c) ==> clue_lane(
                    *state,
                    c,
                    cs[c],
                ),
        decreases lo,
    {
        let ghost s1 = *state;
        let ghost lo1 = lo;
        let ghost (rows1, cols1) = (row_digits@, col_digits@);
        let cell = lowest64(lo);
        enter(state, clues, cell, &mut row_digits, &mut col_digits);
        lo = without_lowest64(lo);
        proof {
            lemma_entered(s1, *state, s0, cs, cell as int);
            assert(1 <= cs[cell as int] <= 9);
            lemma_entered_one(
                s1,
                *state,
                cs,
                done,
                cell as int,
                rows1,
                cols1,
                row_digits@,
                col_digits@,
            );
            done = done.insert(cell as int);
            let t = choose|t: int|
                #![trigger bit64(lo1, t)]
                bit64(lo1, t) && (forall|j: int| 0 <= j < t ==> !bit64(lo1, j)) && (forall|i: int|
                    bit64(lo, i) <==> bit64(lo1, i) && i != t);
            assert(t == cell) by {
                assert(bit64(lo1, cell as int));
                if t < cell {
                    assert(!bit64(lo1, t));
                }
                if cell < t {
                    assert(!bit64(lo1, cell as int));
                }
            }
            assert forall|c: int| 0 <= c < 64 && #[trigger] cs[c] != 0 && !bit64(
                lo,
                c,
            ) implies clue_lane(*state, c, cs[c]) by {
                if c != cell {
                    assert(!bit64(lo1, c));
                    lemma_clue_lane_below(*state, s1, c, cs[c]);
                }
            }
        }
    }
    proof {
        assert forall|c: int| #[trigger] done.contains(c) <==> 0 <= c < 81 && cs[c] != 0 && (c < 64
            || !bit32(hi, c - 64)) by {
            if 64 <= c < 81 && cs[c] != 0 {
                assert(bit32(hi, c - 64));
            }
            assert(!bit64(0u64, c));
        }
    }
    while hi != 0
        invariant
            entered(*state, cs, done, row_digits@, col_digits@),
            forall|c: int| #[trigger]
                done.contains(c) <==> 0 <= c < 81 && cs[c] != 0 && (c < 64 || !bit32(hi, c - 64)),
            cs == clues@,
            clues_ok(clues@),
            entering(*state, s0, cs),
            digits_of(cs, row_digits@, col_digits@),
            forall|c: int| #[trigger] bit32(hi, c) ==> 0 <= c < 17 && cs[64 + c] != 0,
            forall|c: int| 0 <= c < 64 && #[trigger] cs[c] != 0 ==> clue_lane(*state, c, cs[c]),
            forall|c: int|
                64 <= c < 81 && #[trigger] cs[c] != 0 && !bit32(hi, c - 64) ==> clue_lane(
                    *state,
                    c,
                    cs[c],
                ),
        decreases hi,
    {
        let ghost s1 = *state;
        let ghost hi1 = hi;
        let ghost (rows1, cols1) = (row_digits@, col_digits@);
        let k = lowest32(hi);
        let cell = 64 + k;
        enter(state, clues, cell, &mut row_digits, &mut col_digits);
        hi = without_lowest32(hi);
        proof {
            lemma_entered(s1, *state, s0, cs, cell as int);
            assert(1 <= cs[cell as int] <= 9);
            lemma_entered_one(
                s1,
                *state,
                cs,
                done,
                cell as int,
                rows1,
                cols1,
                row_digits@,
                col_digits@,
            );
            done = done.insert(cell as int);
            let t = choose|t: int|
                #![trigger bit32(hi1, t)]
                bit32(hi1, t) && (forall|j: int| 0 <= j < t ==> !bit32(hi1, j)) && (forall|i: int|
                    bit32(hi, i) <==> bit32(hi1, i) && i != t);
            assert(t == k) by {
                assert(bit32(hi1, k as int));
                if t < k {
                    assert(!bit32(hi1, t));
                }
                if k < t {
                    assert(!bit32(hi1, k as int));
                }
            }
            assert forall|c: int| 0 <= c < 64 && #[trigger] cs[c] != 0 implies clue_lane(
                *state,
                c,
                cs[c],
            ) by {
                lemma_clue_lane_below(*state, s1, c, cs[c]);
            }
            assert forall|c: int| 64 <= c < 81 && #[trigger] cs[c] != 0 && !bit32(
                hi,
                c - 64,
            ) implies clue_lane(*state, c, cs[c]) by {
                if c != cell {
                    assert(!bit32(hi1, c - 64));
                    lemma_clue_lane_below(*state, s1, c, cs[c]);
                }
            }
        }
    }
    let ghost s1 = *state;
    proof {
        assert(clues_entered(s1, cs)) by {
            assert forall|c: int| 0 <= c < 81 && #[trigger] cs[c] != 0 implies clue_lane(
                s1,
                c,
                cs[c],
            ) by {
                if c >= 64 {
                    assert(!bit32(hi, c - 64));
                } else {
                    assert(!bit64(lo, c));
                }
            }
        }
    }
    seed_peer_eliminations(state, clues, &row_digits, &col_digits);
    let ghost s2 = *state;
    let ghost n2 = node(s2);
    proof {
        assert(done =~= clue_cells(cs)) by {
            assert forall|c: int| done.contains(c) <==> clue_cells(cs).contains(c) by {
                assert(!bit32(0u32, c - 64));
            }
        }
        assert(node(s1).cfg =~= node(s0).cfg) by {
            assert forall|i: int| 0 <= i < 6 implies node(s1).cfg[i] == node(s0).cfg[i] by {
                assert(s1.bands[i].configurations == s0.bands[i].configurations);
            }
        }
        lemma_entry(s1, s2, cs, row_digits@, col_digits@);
        assert(s2.grids() =~= solutions(cs)) by {
            assert forall|g: Seq<u8>| s2.grids().contains(g) == solutions(cs).contains(g) by {
                if is_solution(g, cs) {
                    assert(s1.holds(g));
                    assert(s2.holds(g));
                }
                if s2.holds(g) {
                    crate::triad::boxes::lemma_below_holds(s2, s1, g);
                    assert forall|c: int| 0 <= c < 81 && #[trigger] cs[c] != 0 implies g[c]
                        == cs[c] by {
                        assert(clue_lane(s1, c, cs[c]));
                        lemma_clue_kept(s1, c, cs[c], g);
                    }
                }
            }
        }
        lemma_step_refl(s2);
        assert forall|i: int| 0 <= i < 6 implies #[trigger] s2.linked(i) by {
            lemma_below_trans(s2, s1, s0);
            assert(s0.linked(i));
            assert(s1.bands[i].configurations == s0.bands[i].configurations);
            lemma_linked_below(s2, s0, i);
        }
    }
    // Drain each box before the bands run.
    let everything = C16::all(ALL);
    let mut bx: usize = 0;
    while bx < 9
        invariant
            bx <= 9,
            cs == clues@,
            forall|i: int| 0 <= i < 16 ==> #[trigger] everything.lanes[i] == ALL,
            s2.grids() == solutions(cs),
            state.ok(),
            corners(*state),
            step(s2, *state),
            n2 == entry(cs),
            boxes_run(n2, bx as nat) == Some(node(*state)),
            forall|x: int| 0 <= x < bx ==> min_ok(#[trigger] state.boxen[x].lanes@),
        decreases 9 - bx,
    {
        let ghost s3 = *state;
        proof {
            lemma_low_masks16();
            assert(restriction_true(s3, everything.lanes@, bx as int)) by {
                assert forall|g: Seq<u8>| #[trigger] s3.holds(g) implies box_holds(
                    everything.lanes@,
                    g,
                    bx as int,
                ) by {}
            }
            lemma_all_kept(s3, everything.lanes@, bx as int);
            assert forall|d: int| 0 <= d < 9 implies #[trigger] bit16(everything.lanes@[15], d) by {
                assert(everything.lanes[15] == ALL);
            }
        }
        proof {
            assert(everything.lanes@ =~= Seq::new(16, |j: int| ALL));
        }
        if !box_fixpoint(state, bx, everything) {
            proof {
                lemma_boxes_none(n2, (bx + 1) as nat, 9);
                lemma_barren_back(s3, s2);
                lemma_no_solutions(s2, cs);
            }
            return false;
        }
        proof {
            let s4 = *state;
            lemma_fixpoint_step(s3, s4, bx as int);
            lemma_step_trans(s2, s3, s4);
            assert forall|x: int| 0 <= x < bx + 1 implies min_ok(#[trigger] s4.boxen[x].lanes@) by {
                if x != bx {
                    assert(s4.boxen[x] == s3.boxen[x]);
                    assert(min_ok(s3.boxen[x].lanes@));
                }
            }
        }
        bx = bx + 1;
    }
    // One elimination per band: horizontal and vertical in turn, with the
    // inbound peer chosen so that the visits spread over the grid.
    let mut n: usize = 0;
    let ghost s5 = *state;
    let ghost n5 = node(s5);
    proof {
        lemma_step_refl(s5);
        assert forall|i: int| 0 <= i < 6 implies #[trigger] s5.linked(i) by {
            assert(s2.linked(i));
            assert(s5.linked(i) || s5.bands[i].configurations == s2.bands[i].configurations);
            if !s5.linked(i) {
                lemma_linked_below(s5, s2, i);
            }
        }
    }
    while n < 6
        invariant
            n <= 6,
            cs == clues@,
            s2.grids() == solutions(cs),
            step(s2, s5),
            step(s5, *state),
            state.ok(),
            corners(*state),
            boxes_run(entry(cs), 9) == Some(n5),
            bands_run(n5, n as nat) == Some(node(*state)),
            forall|i: int| 0 <= i < 6 && 2 * (i % 3) + i / 3 < n ==> #[trigger] state.resolved(i),
        decreases 6 - n,
    {
        let ghost s3 = *state;
        let band = n / 2;
        let vertical = n % 2;
        let i = 3 * vertical + band;
        if !band_eliminate(state, i, (band + 1) % 3) {
            proof {
                lemma_bands_none(n5, (n + 1) as nat, 6);
                lemma_step_trans(s2, s5, s3);
                lemma_barren_back(s3, s2);
                lemma_no_solutions(s2, cs);
            }
            return false;
        }
        proof {
            let s4 = *state;
            lemma_step_trans(s5, s3, s4);
            assert forall|j: int| 0 <= j < 6 && 2 * (j % 3) + j / 3 < n + 1 implies #[trigger] s4.resolved(
                j,
            ) by {
                if j != i {
                    assert(2 * (j % 3) + j / 3 != n);
                    assert(s3.resolved(j));
                }
            }
        }
        n = n + 1;
    }
    proof {
        let s6 = *state;
        lemma_step_trans(s2, s5, s6);
        lemma_same_grids(s6, s2);
        assert forall|x: int| 0 <= x < 9 implies min_ok(#[trigger] s6.boxen[x].lanes@) by {
            assert(s6.boxen[x] == s5.boxen[x] || min_ok(s6.boxen[x].lanes@));
            assert(min_ok(s5.boxen[x].lanes@));
        }
        assert forall|i: int| 0 <= i < 6 implies #[trigger] s6.linked(i) && s6.resolved(i) by {
            assert(s5.linked(i));
            assert(s6.linked(i) || s6.bands[i].configurations == s5.bands[i].configurations);
            if !s6.linked(i) {
                lemma_linked_below(s6, s5, i);
            }
            assert(2 * (i % 3) + i / 3 < 6);
            assert(s6.resolved(i));
        }
    }
    true
}

proof fn lemma_no_solutions(s: TState, clues: Seq<u8>)
    requires
        barren(s),
        s.grids() == solutions(clues),
    ensures
        solutions(clues) == Set::<Seq<u8>>::empty(),
{
    assert forall|g: Seq<u8>| !solutions(clues).contains(g) by {
        assert(!s.grids().contains(g)) by {
            assert(!s.holds(g));
        }
    }
    assert(solutions(clues) =~= Set::<Seq<u8>>::empty());
}

/// Writes out the grid that the boxes of a decided state spell.
pub fn extract_solution(state: &TState, out: &mut [u8; 81])
    requires
        state.ok(),
        exists|g: Seq<u8>| is_grid(g) && #[trigger] spells(*state, g),
    ensures
        forall|g: Seq<u8>| is_grid(g) && #[trigger] spells(*state, g) ==> final(out)@ == g,
{
    let ghost g0 = choose|g: Seq<u8>| is_grid(g) && #[trigger] spells(*state, g);
    proof {
        lemma_grid_facts(g0);
    }
    let mut cell: usize = 0;
    while cell < 81
        invariant
            cell <= 81,
            state.ok(),
            is_grid(g0),
            spells(*state, g0),
            forall|c: int| 0 <= c < cell ==> #[trigger] out[c] == g0[c],
        decreases 81 - cell,
    {
        let bx = (cell / 27) * 3 + (cell % 9) / 3;
        let r = (cell / 9) % 3;
        let q = cell % 3;
        let ghost c = cell as int;
        proof {
            lemma_grid_facts(g0);
            lemma_box_lane(c);
            assert(box_lane(c) == (bx as int, r as int, q as int));
            assert(bit16(state.boxen[bx as int].lanes@[4 * r + q], g0[c] - 1));
        }
        let rows = state.boxen[bx].extract_rows_u64();
        let row = rows[r];
        let x: u16 = if q == 0 {
            row as u16
        } else if q == 1 {
            (row >> 16) as u16
        } else {
            (row >> 32) as u16
        };
        proof {
            let l = state.boxen[bx as int].lanes;
            lemma_packed(l[4 * r as int], l[4 * r + 1], l[4 * r + 2], l[4 * r + 3]);
            assert(x == quarter(row, q as int));
            assert(x == l[4 * r + q]);
            if x == 0 {
                assert(!bit16(0u16, g0[c] - 1));
            }
            assert(box_ok(state.boxen[bx as int].lanes@));
            assert(x <= ALL);
        }
        let t = lowest16(x);
        proof {
            lemma_small9(x, t as int);
            assert(bit16(state.boxen[bx as int].lanes@[4 * r + q], t as int));
            assert(g0[cell_at(bx as int, r as int, q as int)] == t + 1);
        }
        out[cell] = t as u8 + 1;
        cell = cell + 1;
    }
    proof {
        assert(out@ =~= g0);
        assert forall|g: Seq<u8>| is_grid(g) && #[trigger] spells(*state, g) implies out@ == g by {
            lemma_grid_facts(g);
            assert forall|c: int| 0 <= c < 81 implies g[c] == g0[c] by {
                lemma_box_lane(c);
                let (x, r, q) = box_lane(c);
                assert(bit16(state.boxen[x].lanes@[4 * r + q], g[c] - 1));
            }
            assert(g =~= g0);
        }
    }
}

} // verus!
