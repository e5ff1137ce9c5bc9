//! The bands of the triad engine, and the exchange between bands and boxes
//! up to their mutual fixpoint.

use vstd::prelude::*;
use crate::bits::{
    bit16, group_bits16, lemma_low_masks16, lemma_nonzero16, lemma_subset16, lemma_total16, pop16,
    total16,
};
use crate::grid::{is_grid, lemma_grid_facts, peers};
use crate::triad::boxes::{
    band_holds, barren, below, box_fixpoint, corner_free, corners, box_holds, box_ok, cfg_ok, keeps,
    lanes_in, lemma_below_holds, lemma_below_refl, lemma_below_trans, lemma_lanes_trans,
    lemma_subset_lanes, lemma_all_kept, min_ok, restriction_true, sub16, touches_only, triad_row,
    within_band, Band, TState,
};
use crate::triad::course::{
    due, eliminated, forwarded, lanes_sum, lemma_leave_words, lemma_pin_words, limited, node,
    weight, without,
};
use crate::triad::messages::{
    allowed, configurations_to_positive_triads, lemma_full16, lemma_shift_tables,
    positive_triads_to_box_candidates, triad_set, TRIADS_SHIFT1_TO_CONFIG_ELIMS,
    TRIADS_SHIFT2_TO_CONFIG_ELIMS,
};
use crate::triad::model::{
    cell_at, conf, config_elem, in_col, in_row, in_triad, lemma_cell_at, lemma_conf_of,
    lemma_conf_triad, lemma_pop_three, lit, peer_box,
};
use crate::tvec::{c8, ALL, C16, C8};

verus! {

broadcast use group_bits16;

// ---------------------------------------------------------------------------
// Measure
// ---------------------------------------------------------------------------

/// Sum of all lanes: every step of the propagation lowers it.
pub open spec fn measure(s: TState) -> nat {
    weight(node(s))
}

proof fn lemma_lanes_total(a: Seq<u16>, b: Seq<u16>)
    requires
        lanes_in(a, b),
    ensures
        total16(a) <= total16(b),
        a != b ==> total16(a) < total16(b),
{
    assert forall|i: int| 0 <= i < a.len() implies #[trigger] a[i] <= b[i] by {
        assert(sub16(a[i], b[i]));
        lemma_subset16(a[i], b[i]);
    }
    lemma_total16(a, b);
    if a != b && (forall|i: int| 0 <= i < a.len() ==> #[trigger] a[i] == b[i]) {
        assert(a =~= b);
    }
}

proof fn lemma_lanes_sum(a: Seq<Seq<u16>>, b: Seq<Seq<u16>>)
    requires
        a.len() == b.len(),
        forall|x: int| 0 <= x < a.len() ==> lanes_in(#[trigger] a[x], b[x]),
    ensures
        lanes_sum(a) <= lanes_sum(b),
        (exists|x: int| 0 <= x < a.len() && #[trigger] a[x] != b[x]) ==> lanes_sum(a) < lanes_sum(b),
    decreases a.len(),
{
    if a.len() > 0 {
        let (p, q) = (a.drop_last(), b.drop_last());
        assert forall|x: int| 0 <= x < p.len() implies lanes_in(#[trigger] p[x], q[x]) by {
            assert(lanes_in(a[x], b[x]));
        }
        lemma_lanes_sum(p, q);
        assert(lanes_in(a[a.len() - 1], b[a.len() - 1]));
        lemma_lanes_total(a.last(), b.last());
        if exists|x: int| 0 <= x < a.len() && #[trigger] a[x] != b[x] {
            let x = choose|x: int| 0 <= x < a.len() && #[trigger] a[x] != b[x];
            if x < p.len() {
                assert(p[x] != q[x]);
            }
        }
    }
}

/// A lower state measures less, strictly so if a box or a band changed.
pub proof fn lemma_measure(n: TState, o: TState)
    requires
        below(n, o),
    ensures
        measure(n) <= measure(o),
        (exists|x: int| 0 <= x < 9 && #[trigger] n.boxen[x].lanes@ != o.boxen[x].lanes@) ==> measure(
            n,
        ) < measure(o),
        (exists|i: int|
            0 <= i < 6 && #[trigger] n.bands[i].configurations.lanes@
                != o.bands[i].configurations.lanes@) ==> measure(n) < measure(o),
{
    let (a, b) = (node(n), node(o));
    assert forall|x: int| 0 <= x < 9 implies lanes_in(#[trigger] a.boxes[x], b.boxes[x]) by {
        assert(lanes_in(n.boxen[x].lanes@, o.boxen[x].lanes@));
    }
    assert forall|i: int| 0 <= i < 6 implies lanes_in(#[trigger] a.cfg[i], b.cfg[i]) by {
        assert(lanes_in(n.bands[i].configurations.lanes@, o.bands[i].configurations.lanes@));
    }
    lemma_lanes_sum(a.boxes, b.boxes);
    lemma_lanes_sum(a.cfg, b.cfg);
    if exists|x: int| 0 <= x < 9 && #[trigger] n.boxen[x].lanes@ != o.boxen[x].lanes@ {
        let x = choose|x: int| 0 <= x < 9 && #[trigger] n.boxen[x].lanes@ != o.boxen[x].lanes@;
        assert(a.boxes[x] != b.boxes[x]);
    }
    if exists|i: int|
        0 <= i < 6 && #[trigger] n.bands[i].configurations.lanes@
            != o.bands[i].configurations.lanes@ {
        let i = choose|i: int|
            0 <= i < 6 && #[trigger] n.bands[i].configurations.lanes@
                != o.bands[i].configurations.lanes@;
        assert(a.cfg[i] != b.cfg[i]);
    }
}

// ---------------------------------------------------------------------------
// Steps
// ---------------------------------------------------------------------------

/// What every part of the propagation does to a state: nothing comes back,
/// no grid is lost, every box that changed meets its minimums, and every band
/// whose configurations changed has told its boxes.
pub open spec fn step(o: TState, n: TState) -> bool {
    &&& n.ok()
    &&& below(n, o)
    &&& keeps(o, n)
    &&& forall|x: int|
        0 <= x < 9 ==> #[trigger] n.boxen[x] == o.boxen[x] || min_ok(n.boxen[x].lanes@)
    &&& forall|i: int|
        0 <= i < 6 ==> n.linked(i) || #[trigger] n.bands[i].configurations
            == o.bands[i].configurations
}

/// No band has become unresolved.
pub open spec fn settles(o: TState, n: TState) -> bool {
    forall|i: int| 0 <= i < 6 && #[trigger] o.resolved(i) ==> n.resolved(i)
}

/// A band stays linked while its configurations stay and its boxes shrink.
pub proof fn lemma_linked_below(n: TState, o: TState, i: int)
    requires
        0 <= i < 6,
        below(n, o),
        o.linked(i),
        n.bands[i].configurations == o.bands[i].configurations,
    ensures
        n.linked(i),
{
    assert forall|p: int| 0 <= p < 3 implies within_band(
        #[trigger] n.boxen[peer_box(i / 3, i % 3, p)].lanes@,
        n.bands[i].configurations.lanes@,
        i / 3,
        p,
    ) by {
        let x = peer_box(i / 3, i % 3, p);
        assert(0 <= x < 9);
        assert(within_band(o.boxen[x].lanes@, o.bands[i].configurations.lanes@, i / 3, p));
        assert(lanes_in(n.boxen[x].lanes@, o.boxen[x].lanes@));
        assert forall|lane: int, d: int|
            0 <= lane < 16 && #[trigger] bit16(n.boxen[x].lanes@[lane], d) implies allowed(
            triad_row(n.bands[i].configurations.lanes@, p),
            i / 3,
            lane,
            d,
        ) by {
            assert(sub16(n.boxen[x].lanes@[lane], o.boxen[x].lanes@[lane]));
            assert(bit16(o.boxen[x].lanes@[lane], d));
        }
    }
}

pub proof fn lemma_step_trans(a: TState, b: TState, c: TState)
    requires
        step(a, b),
        step(b, c),
    ensures
        step(a, c),
{
    lemma_below_trans(c, b, a);
    assert forall|i: int| 0 <= i < 6 implies c.linked(i) || #[trigger] c.bands[i].configurations
        == a.bands[i].configurations by {
        assert(c.linked(i) || c.bands[i].configurations == b.bands[i].configurations);
        assert(b.linked(i) || b.bands[i].configurations == a.bands[i].configurations);
        if !c.linked(i) && b.linked(i) {
            lemma_linked_below(c, b, i);
        }
    }
    assert forall|x: int| 0 <= x < 9 implies #[trigger] c.boxen[x] == a.boxen[x] || min_ok(
        c.boxen[x].lanes@,
    ) by {
        assert(b.boxen[x] == a.boxen[x] || min_ok(b.boxen[x].lanes@));
    }
    assert forall|g: Seq<u8>| #[trigger] a.holds(g) implies c.holds(g) by {
        assert(b.holds(g));
    }
}

pub proof fn lemma_step_refl(a: TState)
    requires
        a.ok(),
    ensures
        step(a, a),
{
    lemma_below_refl(a);
}

/// A restriction stays true of lower states.
pub proof fn lemma_restriction_below(n: TState, o: TState, c: Seq<u16>, bx: int)
    requires
        below(n, o),
        restriction_true(o, c, bx),
    ensures
        restriction_true(n, c, bx),
{
    assert forall|g: Seq<u8>| #[trigger] n.holds(g) implies box_holds(c, g, bx) by {
        lemma_below_holds(n, o, g);
    }
}

// ---------------------------------------------------------------------------
// Triads under a set of configurations
// ---------------------------------------------------------------------------

/// A digit is in the set of a positive triad exactly when one of its
/// configurations places it there.
pub proof fn lemma_triad_set(cfg: Seq<u16>, p: int, e: int, d: int)
    requires
        0 <= p < 3,
        0 <= e < 3,
    ensures
        forall|k: int|
            0 <= k < 6 && config_elem(k, p) == e && #[trigger] bit16(cfg[k], d) ==> bit16(
                triad_set(cfg, p, e),
                d,
            ),
        bit16(triad_set(cfg, p, e), d) ==> exists|k: int|
            0 <= k < 6 && config_elem(k, p) == e && #[trigger] bit16(cfg[k], d),
{
    let (x, y) = ((e + 3 - p) % 3, 3 + (e + p + 1) % 3);
    assert(config_elem(x, p) == e && config_elem(y, p) == e);
    assert(0 <= x < 3 && 3 <= y < 6);
    assert forall|k: int| 0 <= k < 6 && config_elem(k, p) == e implies k == x || k == y by {}
    if bit16(triad_set(cfg, p, e), d) {
        if bit16(cfg[x], d) {
        } else {
            assert(bit16(cfg[y], d));
        }
    }
}

/// The configurations include all that the grid takes.
pub open spec fn cfg_holds(cfg: Seq<u16>, g: Seq<u8>, v: int, b: int) -> bool {
    forall|k: int, d: int| 0 <= d < 9 && #[trigger] conf(g, v, b, k, d) ==> bit16(cfg[k], d)
}

/// A digit's triad in a kept grid is possible under the band's
/// configurations.
pub proof fn lemma_possible(cfg: Seq<u16>, g: Seq<u8>, v: int, b: int, p: int, e: int, d: int)
    requires
        is_grid(g),
        0 <= v < 2,
        0 <= b < 3,
        0 <= p < 3,
        0 <= e < 3,
        0 <= d < 9,
        cfg_holds(cfg, g, v, b),
        in_triad(g, v, b, p, e, d),
    ensures
        bit16(triad_set(cfg, p, e), d),
{
    let k = lemma_conf_of(g, v, b, d);
    lemma_conf_triad(g, v, b, k, p, e, d);
    lemma_triad_set(cfg, p, e, d);
    assert(bit16(cfg[k], d));
}

/// The triad `e` of peer `p` has exactly three candidates left, `d` among
/// them.
pub open spec fn pins(cfg: Seq<u16>, p: int, e: int, d: int) -> bool {
    pop16(triad_set(cfg, p, e)) == 3 && bit16(triad_set(cfg, p, e), d)
}

/// Digit `d` is pinned in peer `p` to a triad other than that of
/// configuration `k`.
pub open spec fn elsewhere(cfg: Seq<u16>, p: int, k: int, d: int) -> bool {
    pins(cfg, p, (config_elem(k, p) + 1) % 3, d) || pins(cfg, p, (config_elem(k, p) + 2) % 3, d)
}

/// A pinned digit is in the triad.
proof fn lemma_pins_true(cfg: Seq<u16>, g: Seq<u8>, v: int, b: int, p: int, e: int, d: int)
    requires
        is_grid(g),
        0 <= v < 2,
        0 <= b < 3,
        0 <= p < 3,
        0 <= e < 3,
        0 <= d < 9,
        cfg_ok(cfg),
        cfg_holds(cfg, g, v, b),
        pins(cfg, p, e, d),
    ensures
        in_triad(g, v, b, p, e, d),
{
    lemma_grid_facts(g);
    let bx = peer_box(v, b, p);
    let m = triad_set(cfg, p, e);
    assert(0 <= bx < 9);
    let (x, y, z) = if v == 0 {
        (cell_at(bx, e, 0), cell_at(bx, e, 1), cell_at(bx, e, 2))
    } else {
        (cell_at(bx, 0, e), cell_at(bx, 1, e), cell_at(bx, 2, e))
    };
    if v == 0 {
        lemma_cell_at(bx, e, 0);
        lemma_cell_at(bx, e, 1);
        lemma_cell_at(bx, e, 2);
    } else {
        lemma_cell_at(bx, 0, e);
        lemma_cell_at(bx, 1, e);
        lemma_cell_at(bx, 2, e);
    }
    let (a, c, f) = (g[x] - 1, g[y] - 1, g[z] - 1);
    assert(a != c && a != f && c != f) by {
        assert(peers(x, y));
        assert(peers(x, z));
        assert(peers(y, z));
    }
    assert(in_triad(g, v, b, p, e, a) && in_triad(g, v, b, p, e, c) && in_triad(g, v, b, p, e, f));
    lemma_possible(cfg, g, v, b, p, e, a);
    lemma_possible(cfg, g, v, b, p, e, c);
    lemma_possible(cfg, g, v, b, p, e, f);
    assert(m <= ALL) by {
        lemma_triad_small(cfg, p, e);
    }
    lemma_pop_three(m, a, c, f);
}

proof fn lemma_triad_small(cfg: Seq<u16>, p: int, e: int)
    requires
        cfg_ok(cfg),
        0 <= p < 3,
        0 <= e < 3,
    ensures
        triad_set(cfg, p, e) <= ALL,
{
    let (x, y) = ((e + 3 - p) % 3, 3 + (e + p + 1) % 3);
    assert(cfg[x] <= ALL && cfg[y] <= ALL);
    lemma_low_masks16();
    let m = cfg[x] | cfg[y];
    assert forall|d: int| bit16(m, d) implies bit16(ALL, d) by {
        if bit16(cfg[x], d) {
            crate::bits::lemma_small9(cfg[x], d);
        } else {
            crate::bits::lemma_small9(cfg[y], d);
        }
    }
    lemma_subset16(m, ALL);
}

/// Triads with exactly three candidates hold all three digits: drops the
/// configurations that place one of them elsewhere.
#[verifier::rlimit(40)]
fn pin_triads(configurations: C8) -> (r: C8)
    requires
        cfg_ok(configurations.lanes@),
    ensures
        cfg_ok(r.lanes@),
        lanes_in(r.lanes@, configurations.lanes@),
        forall|k: int, d: int|
            0 <= k < 6 ==> (#[trigger] bit16(r.lanes[k], d) <==> bit16(configurations.lanes[k], d)
                && !elsewhere(configurations.lanes@, 0, k, d) && !elsewhere(
                configurations.lanes@,
                1,
                k,
                d,
            ) && !elsewhere(configurations.lanes@, 2, k, d)),
{
    let triads = configurations_to_positive_triads(configurations);
    let counts = triads.popcounts9();
    let asserting = triads.and(counts.which_equal(C16::all(3)));
    let lo = asserting.get_lo();
    let hi = asserting.get_hi();
    let ghost cfg = configurations.lanes@;
    proof {
        lemma_full16();
        assert forall|p: int, e: int, d: int| 0 <= p < 3 && 0 <= e < 3 implies (#[trigger] bit16(
            asserting.lanes[4 * p + e],
            d,
        ) <==> pins(cfg, p, e, d)) by {
            let i = 4 * p + e;
            assert(triads.lanes[4 * p + e] == triad_set(cfg, p, e));
            assert(counts.lanes[i] == pop16(triads.lanes[i]));
            assert(asserting.lanes[i] == triads.lanes[i] & (if counts.lanes[i] == 3 {
                0xffffu16
            } else {
                0u16
            }));
        }
        lemma_shift_tables(0);
        lemma_shift_tables(1);
        lemma_shift_tables(2);
    }
    let first = lo.rotate_cols();
    let third = hi.rotate_cols();
    let a1 = first.shuffle(c8(&TRIADS_SHIFT1_TO_CONFIG_ELIMS[0]));
    let a2 = first.shuffle(c8(&TRIADS_SHIFT2_TO_CONFIG_ELIMS[0]));
    let b1 = lo.shuffle(c8(&TRIADS_SHIFT1_TO_CONFIG_ELIMS[1]));
    let b2 = lo.shuffle(c8(&TRIADS_SHIFT2_TO_CONFIG_ELIMS[1]));
    let c1 = third.shuffle(c8(&TRIADS_SHIFT1_TO_CONFIG_ELIMS[2]));
    let c2 = third.shuffle(c8(&TRIADS_SHIFT2_TO_CONFIG_ELIMS[2]));
    let part = configurations.and_not(a1.or(a2).or(b1));
    let r = part.and_not(b2.or(c1).or(c2));
    proof {
        assert forall|k: int, d: int| 0 <= k < 6 implies (#[trigger] bit16(r.lanes[k], d) <==> bit16(
            cfg[k],
            d,
        ) && !elsewhere(cfg, 0, k, d) && !elsewhere(cfg, 1, k, d) && !elsewhere(cfg, 2, k, d)) by {
            let (x, y, z) = (config_elem(k, 0), config_elem(k, 1), config_elem(k, 2));
            assert(0 <= x < 3 && 0 <= y < 3 && 0 <= z < 3);
            let (x1, x2) = ((x + 1) % 3, (x + 2) % 3);
            let (y1, y2) = ((y + 1) % 3, (y + 2) % 3);
            let (z1, z2) = ((z + 1) % 3, (z + 2) % 3);
            assert(a1.lanes[k] == first.lanes[4 + x1]);
            assert(a2.lanes[k] == first.lanes[4 + x2]);
            assert(b1.lanes[k] == lo.lanes[4 + y1]);
            assert(b2.lanes[k] == lo.lanes[4 + y2]);
            assert(c1.lanes[k] == third.lanes[4 + z1]);
            assert(c2.lanes[k] == third.lanes[4 + z2]);
            assert(first.lanes[4 + x1] == asserting.lanes[4 * 0 + x1]);
            assert(first.lanes[4 + x2] == asserting.lanes[4 * 0 + x2]);
            assert(lo.lanes[4 + y1] == asserting.lanes[4 * 1 + y1]);
            assert(lo.lanes[4 + y2] == asserting.lanes[4 * 1 + y2]);
            assert(third.lanes[4 + z1] == asserting.lanes[4 * 2 + z1]);
            assert(third.lanes[4 + z2] == asserting.lanes[4 * 2 + z2]);
        }
        assert forall|k: int| 0 <= k < 8 implies #[trigger] r.lanes@[k] <= cfg[k] && sub16(
            r.lanes@[k],
            cfg[k],
        ) by {
            assert forall|d: int| #[trigger] bit16(r.lanes@[k], d) implies bit16(cfg[k], d) by {
                assert(bit16(part.lanes[k], d));
            }
            lemma_subset16(r.lanes@[k], cfg[k]);
        }
        assert forall|k: int| 0 <= k < 8 implies #[trigger] r.lanes@[k] <= ALL by {
            assert(cfg[k] <= ALL);
        }
        assert(r.lanes@[6] <= cfg[6] && r.lanes@[7] <= cfg[7]);
    }
    r
}

/// The positive triads of box peer `p`.
fn peer_triad(triads: C16, p: usize) -> (r: C8)
    requires
        p < 3,
        triads.lanes[3] == 0,
        triads.lanes[7] == 0,
        triads.lanes[11] == 0,
    ensures
        r.lanes[3] == 0,
        forall|e: int| 0 <= e < 3 ==> #[trigger] r.lanes[e] == triads.lanes[4 * p + e],
{
    if p == 0 {
        triads.get_lo()
    } else if p == 1 {
        triads.get_lo().rotate_cols()
    } else {
        triads.get_hi()
    }
}

/// The restriction that the band puts on its box peer `p`.
fn peer_candidates(configurations: C8, orientation: usize, p: usize) -> (r: C16)
    requires
        orientation < 2,
        p < 3,
    ensures
        forall|lane: int, d: int|
            0 <= lane < 16 ==> (#[trigger] bit16(r.lanes[lane], d) <==> allowed(
                triad_row(configurations.lanes@, p as int),
                orientation as int,
                lane,
                d,
            )),
{
    let triads = configurations_to_positive_triads(configurations);
    let t = peer_triad(triads, p);
    proof {
        let row = triad_row(configurations.lanes@, p as int);
        assert forall|e: int| 0 <= e < 3 implies #[trigger] t.lanes[e] == row[e] by {
            assert(triads.lanes[4 * p + e] == triad_set(configurations.lanes@, p as int, e));
        }
        assert forall|lane: int, d: int| 0 <= lane < 16 implies #[trigger] allowed(
            t.lanes@,
            orientation as int,
            lane,
            d,
        ) == allowed(row, orientation as int, lane, d) by {
            let (r, c) = (lane / 4, lane % 4);
            if r < 3 {
                assert(t.lanes@[r] == row[r]);
                assert(t.lanes@[(r + 1) % 3] == row[(r + 1) % 3]);
                assert(t.lanes@[(r + 2) % 3] == row[(r + 2) % 3]);
            }
            if c < 3 {
                assert(t.lanes@[c] == row[c]);
                assert(t.lanes@[(c + 1) % 3] == row[(c + 1) % 3]);
                assert(t.lanes@[(c + 2) % 3] == row[(c + 2) % 3]);
            }
        }
    }
    positive_triads_to_box_candidates(t, orientation)
}

/// What a band leaves to a box peer keeps every grid of the state.
proof fn lemma_candidates_true(s: TState, i: int, p: int, c: Seq<u16>)
    requires
        0 <= i < 6,
        0 <= p < 3,
        c.len() == 16,
        forall|lane: int, d: int|
            0 <= lane < 16 ==> (#[trigger] bit16(c[lane], d) <==> allowed(
                triad_row(s.bands[i].configurations.lanes@, p),
                i / 3,
                lane,
                d,
            )),
    ensures
        restriction_true(s, c, peer_box(i / 3, i % 3, p)),
{
    let (v, b) = (i / 3, i % 3);
    let bx = peer_box(v, b, p);
    let cfg = s.bands[i].configurations.lanes@;
    let t = triad_row(cfg, p);
    assert forall|g: Seq<u8>| #[trigger] s.holds(g) implies box_holds(c, g, bx) by {
        assert(band_holds(s.bands[i], g, i / 3, i % 3));
        assert(cfg_holds(cfg, g, v, b));
        assert forall|lane: int, d: int|
            0 <= lane < 16 && 0 <= d < 9 && #[trigger] lit(g, bx, lane, d) implies bit16(
            c[lane],
            d,
        ) by {
            let (r, q) = (lane / 4, lane % 4);
            let e = crate::triad::model::lemma_triad_of(g, v, b, p, d);
            lemma_possible(cfg, g, v, b, p, e, d);
            assert(bit16(t[e], d));
            if r < 3 && q < 3 {
                if v == 0 {
                    assert(in_row(g, bx, r, d));
                    assert(in_triad(g, v, b, p, r, d));
                } else {
                    assert(in_col(g, bx, q, d));
                    assert(in_triad(g, v, b, p, q, d));
                }
            } else if v == 0 && r < 3 {
                assert(!in_triad(g, v, b, p, r, d));
                assert(e == (r + 1) % 3 || e == (r + 2) % 3);
            } else if v != 0 && q < 3 {
                assert(!in_triad(g, v, b, p, q, d));
                assert(e == (q + 1) % 3 || e == (q + 2) % 3);
            }
            assert(allowed(t, v, lane, d));
        }
    }
}

// ---------------------------------------------------------------------------
// Exchange
// ---------------------------------------------------------------------------

/// Restricts a box to the given candidates and passes the consequences on.
/// Most restrictions change nothing and return at once.
fn box_restrict(state: &mut TState, box_idx: usize, candidates: C16, from_vertical: bool) -> (r: bool)
    requires
        box_idx < 9,
        old(state).ok(),
        restriction_true(*old(state), candidates.lanes@, box_idx as int),
    ensures
        !r ==> barren(*old(state)),
        r ==> {
            &&& step(*old(state), *final(state))
            &&& settles(*old(state), *final(state))
            &&& lanes_in(final(state).boxen[box_idx as int].lanes@, candidates.lanes@)
            &&& corners(*old(state)) && corner_free(candidates.lanes@) ==> corners(*final(state))
        },
        !r <==> limited(
            node(*old(state)),
            box_idx as int,
            candidates.lanes@,
            from_vertical,
        ) is None,
        r ==> limited(node(*old(state)), box_idx as int, candidates.lanes@, from_vertical) == Some(
            node(*final(state)),
        ),
    decreases measure(*old(state)), 1nat,
{
    let ghost s0 = *state;
    let narrow = state.boxen[box_idx].subset_of(candidates);
    proof {
        assert(node(s0).boxes[box_idx as int] == s0.boxen[box_idx as int].lanes@);
        lemma_subset_lanes(s0.boxen[box_idx as int].lanes@, candidates.lanes@);
    }
    if narrow {
        proof {
            lemma_step_refl(s0);
        }
        return true;
    }
    box_restrict_full(state, box_idx, candidates, from_vertical)
}

/// Restricts a box, runs it to its fixpoint, and lets its two bands know,
/// the one of the other orientation first.
fn box_restrict_full(
    state: &mut TState,
    box_idx: usize,
    candidates: C16,
    from_vertical: bool,
) -> (r: bool)
    requires
        box_idx < 9,
        old(state).ok(),
        restriction_true(*old(state), candidates.lanes@, box_idx as int),
        !lanes_in(old(state).boxen[box_idx as int].lanes@, candidates.lanes@),
    ensures
        !r ==> barren(*old(state)),
        r ==> {
            &&& step(*old(state), *final(state))
            &&& settles(*old(state), *final(state))
            &&& lanes_in(final(state).boxen[box_idx as int].lanes@, candidates.lanes@)
            &&& corners(*old(state)) && corner_free(candidates.lanes@) ==> corners(*final(state))
        },
        !r <==> limited(
            node(*old(state)),
            box_idx as int,
            candidates.lanes@,
            from_vertical,
        ) is None,
        r ==> limited(node(*old(state)), box_idx as int, candidates.lanes@, from_vertical) == Some(
            node(*final(state)),
        ),
    decreases measure(*old(state)), 0nat,
{
    let ghost s0 = *state;
    let ghost bx = box_idx as int;
    proof {
        lemma_all_kept(s0, candidates.lanes@, bx);
        assert(node(s0).boxes[bx] == s0.boxen[bx].lanes@);
    }
    if !box_fixpoint(state, box_idx, candidates) {
        return false;
    }
    let ghost s1 = *state;
    let box_i = box_idx / 3;
    let box_j = box_idx % 3;
    proof {
        assert(s1.boxen[bx].lanes@ != s0.boxen[bx].lanes@);
        lemma_measure(s1, s0);
        lemma_fixpoint_step(s0, s1, bx);
    }
    let (b1, p1, b2, p2) = if from_vertical {
        (box_i, box_j, 3 + box_j, box_i)
    } else {
        (3 + box_j, box_i, box_i, box_j)
    };
    if !band_eliminate(state, b1, p1) {
        proof {
            lemma_barren_back(s1, s0);
        }
        return false;
    }
    let ghost s2 = *state;
    proof {
        lemma_step_trans(s0, s1, s2);
        lemma_measure(s2, s1);
    }
    if !band_eliminate(state, b2, p2) {
        proof {
            lemma_barren_back(s2, s0);
        }
        return false;
    }
    proof {
        let s3 = *state;
        lemma_step_trans(s0, s2, s3);
        lemma_below_trans(s3, s2, s1);
        assert(lanes_in(s3.boxen[bx].lanes@, s1.boxen[bx].lanes@));
        lemma_lanes_trans(s3.boxen[bx].lanes@, s1.boxen[bx].lanes@, candidates.lanes@);
        assert forall|i: int| 0 <= i < 6 && #[trigger] s0.resolved(i) implies s3.resolved(i) by {
            if i != b1 && i != b2 {
                assert(s1.bands[i] == s0.bands[i]);
                assert(s1.resolved(i));
                assert(s2.resolved(i));
            } else if i == b1 {
                assert(s2.resolved(i));
            }
        }
    }
    true
}

/// The fixpoint of a box is a step, but for its two bands.
pub proof fn lemma_fixpoint_step(s0: TState, s1: TState, bx: int)
    requires
        0 <= bx < 9,
        s1.ok(),
        below(s1, s0),
        keeps(s0, s1),
        min_ok(s1.boxen[bx].lanes@),
        touches_only(s1, s0, bx),
    ensures
        step(s0, s1),
{
    assert forall|x: int| 0 <= x < 9 implies #[trigger] s1.boxen[x] == s0.boxen[x] || min_ok(
        s1.boxen[x].lanes@,
    ) by {}
}

/// If a later state keeps no grid, neither does an earlier one.
pub proof fn lemma_barren_back(n: TState, o: TState)
    requires
        keeps(o, n),
        barren(n),
    ensures
        barren(o),
{
    assert forall|g: Seq<u8>| !#[trigger] o.holds(g) by {
        if o.holds(g) {
            assert(n.holds(g));
        }
    }
}

/// Applies what is pending on a band. A band with nothing pending returns at
/// once.
pub fn band_eliminate(state: &mut TState, band_idx: usize, from_peer: usize) -> (r: bool)
    requires
        band_idx < 6,
        from_peer < 3,
        old(state).ok(),
    ensures
        !r ==> barren(*old(state)),
        r ==> {
            &&& step(*old(state), *final(state))
            &&& settles(*old(state), *final(state))
            &&& final(state).resolved(band_idx as int)
            &&& corners(*old(state)) ==> corners(*final(state))
        },
        !r <==> eliminated(node(*old(state)), band_idx as int, from_peer as int) is None,
        r ==> eliminated(node(*old(state)), band_idx as int, from_peer as int) == Some(
            node(*final(state)),
        ),
    decreases measure(*old(state)), 1nat,
{
    let ghost s0 = *state;
    let band = state.bands[band_idx];
    proof {
        assert(node(s0).cfg[band_idx as int] == band.configurations.lanes@);
        assert(node(s0).pend[band_idx as int] == band.eliminations.lanes@);
    }
    if !band.configurations.intersects(band.eliminations) {
        proof {
            assert(!due(node(s0), band_idx as int)) by {
                if due(node(s0), band_idx as int) {
                    let k = choose|k: int|
                        0 <= k < 8 && #[trigger] node(s0).cfg[band_idx as int][k] & node(
                            s0,
                        ).pend[band_idx as int][k] != 0;
                    assert(band.configurations.lanes[k] & band.eliminations.lanes[k] != 0);
                }
            }
            lemma_step_refl(s0);
            let (c, e) = (band.configurations.lanes, band.eliminations.lanes);
            assert forall|k: int, d: int| 0 <= k < 6 && #[trigger] bit16(c[k], d) implies !bit16(
                e[k],
                d,
            ) by {
                assert(c[k] & e[k] == 0);
                assert(!bit16(0u16, d));
                assert(bit16(c[k] & e[k], d) <==> bit16(c[k], d) && bit16(e[k], d));
            }
            assert(s0.resolved(band_idx as int));
        }
        return true;
    }
    proof {
        let k = choose|k: int|
            0 <= k < 8 && #[trigger] band.configurations.lanes[k] & band.eliminations.lanes[k] != 0;
        let d = lemma_nonzero16(band.configurations.lanes[k] & band.eliminations.lanes[k]);
        assert(bit16(s0.bands[band_idx as int].configurations.lanes[k], d));
        assert(node(s0).cfg[band_idx as int][k] & node(s0).pend[band_idx as int][k] != 0);
        assert(due(node(s0), band_idx as int));
    }
    band_eliminate_full(state, band_idx, from_peer)
}

/// The configurations `cfg` less the eliminations `elims`.
pub open spec fn applied_to(cfg: Seq<u16>, elims: Seq<u16>) -> Seq<u16> {
    Seq::new(8, |k: int| cfg[k] & !elims[k])
}

/// `out` is within `a`, and has no configuration that a triad of `a` with
/// exactly three candidates rules out.
pub open spec fn pinned_down(a: Seq<u16>, out: Seq<u16>) -> bool {
    forall|k: int, d: int|
        0 <= k < 6 && #[trigger] bit16(out[k], d) ==> bit16(a[k], d) && !elsewhere(a, 0, k, d)
            && !elsewhere(a, 1, k, d) && !elsewhere(a, 2, k, d)
}

/// Applies a band's pending eliminations, pins triads with three candidates,
/// and forwards the restrictions to the band's three boxes, returning to the
/// inbound one last.
fn band_eliminate_full(state: &mut TState, band_idx: usize, from_peer: usize) -> (r: bool)
    requires
        band_idx < 6,
        from_peer < 3,
        old(state).ok(),
        due(node(*old(state)), band_idx as int),
        exists|k: int, d: int|
            0 <= k < 8 && #[trigger] bit16(
                old(state).bands[band_idx as int].configurations.lanes[k],
                d,
            ) && bit16(old(state).bands[band_idx as int].eliminations.lanes[k], d),
    ensures
        !r ==> barren(*old(state)),
        r ==> {
            &&& step(*old(state), *final(state))
            &&& settles(*old(state), *final(state))
            &&& final(state).resolved(band_idx as int)
            &&& corners(*old(state)) ==> corners(*final(state))
            &&& pinned_down(
                applied_to(
                    old(state).bands[band_idx as int].configurations.lanes@,
                    old(state).bands[band_idx as int].eliminations.lanes@,
                ),
                final(state).bands[band_idx as int].configurations.lanes@,
            )
        },
        !r <==> eliminated(node(*old(state)), band_idx as int, from_peer as int) is None,
        r ==> eliminated(node(*old(state)), band_idx as int, from_peer as int) == Some(
            node(*final(state)),
        ),
    decreases measure(*old(state)), 0nat,
{
    let ghost s0 = *state;
    let ghost i = band_idx as int;
    let band = state.bands[band_idx];
    let applied = band.configurations.and_not(band.eliminations);
    proof {
        assert(cfg_ok(s0.bands[i].configurations.lanes@));
        lemma_applied(band, applied.lanes@);
    }
    let configurations = pin_triads(applied);
    state.bands[band_idx] = Band { configurations, eliminations: band.eliminations };
    let ghost s1 = *state;
    proof {
        lemma_pinned_state(s0, s1, i, applied.lanes@);
        let (k, d) = choose|k: int, d: int|
            0 <= k < 8 && #[trigger] bit16(s0.bands[i].configurations.lanes[k], d) && bit16(
                s0.bands[i].eliminations.lanes[k],
                d,
            );
        assert(applied.lanes[k] == band.configurations.lanes[k] & !band.eliminations.lanes[k]);
        assert(!bit16(applied.lanes[k], d));
        assert(sub16(configurations.lanes@[k], applied.lanes@[k]));
        assert(!bit16(s1.bands[i].configurations.lanes@[k], d));
        assert(s1.bands[i].configurations.lanes@ != s0.bands[i].configurations.lanes@);
        lemma_measure(s1, s0);
        let (n0, n1) = (node(s0), node(s1));
        assert(n0.cfg[i] == band.configurations.lanes@ && n0.pend[i] == band.eliminations.lanes@);
        assert(applied.lanes@ =~= without(n0.cfg[i], n0.pend[i]));
        lemma_pin_words(applied.lanes@, configurations.lanes@);
        assert(n1.cfg =~= n0.cfg.update(i, configurations.lanes@));
        assert(n1.pend =~= n0.pend);
        assert(n1.boxes =~= n0.boxes);
        assert(n1.told =~= n0.told);
        assert(n1.cfg[i] == configurations.lanes@);
        assert(s1.resolved(i)) by {
            assert forall|k: int, d: int| 0 <= k < 6 && #[trigger] bit16(
                s1.bands[i].configurations.lanes[k],
                d,
            ) implies !bit16(s1.bands[i].eliminations.lanes[k], d) by {
                assert(sub16(configurations.lanes@[k], applied.lanes@[k]));
                assert(bit16(applied.lanes[k], d));
            }
        }
    }
    if !band_forward(state, band_idx, from_peer) {
        proof {
            lemma_barren_back(s1, s0);
        }
        return false;
    }
    proof {
        let s2 = *state;
        lemma_below_trans(s2, s1, s0);
        let (c1, c2) = (s1.bands[i].configurations.lanes@, s2.bands[i].configurations.lanes@);
        assert(applied.lanes@ =~= applied_to(
            s0.bands[i].configurations.lanes@,
            s0.bands[i].eliminations.lanes@,
        ));
        assert forall|k: int, d: int| 0 <= k < 6 && #[trigger] bit16(c2[k], d) implies bit16(
            applied.lanes@[k],
            d,
        ) && !elsewhere(applied.lanes@, 0, k, d) && !elsewhere(applied.lanes@, 1, k, d)
            && !elsewhere(applied.lanes@, 2, k, d) by {
            assert(sub16(c2[k], c1[k]));
            assert(bit16(configurations.lanes[k], d));
        }
        assert forall|g: Seq<u8>| #[trigger] s0.holds(g) implies s2.holds(g) by {
            assert(s1.holds(g));
        }
        assert forall|x: int| 0 <= x < 9 implies #[trigger] s2.boxen[x] == s0.boxen[x] || min_ok(
            s2.boxen[x].lanes@,
        ) by {
            assert(s2.boxen[x] == s1.boxen[x] || min_ok(s2.boxen[x].lanes@));
        }
        assert forall|j: int| 0 <= j < 6 implies s2.linked(j)
            || #[trigger] s2.bands[j].configurations == s0.bands[j].configurations by {
            assert(s2.linked(j) || s2.bands[j].configurations == s1.bands[j].configurations);
            if j != i {
                assert(s1.bands[j] == s0.bands[j]);
            }
        }
        assert forall|j: int| 0 <= j < 6 && #[trigger] s0.resolved(j) implies s2.resolved(j) by {
            if j != i {
                assert(s1.bands[j] == s0.bands[j]);
                assert(s1.resolved(j));
            }
        }
    }
    true
}

/// Applying what is pending leaves configurations in range.
proof fn lemma_applied(band: Band, a: Seq<u16>)
    requires
        cfg_ok(band.configurations.lanes@),
        a.len() == 8,
        forall|k: int|
            0 <= k < 8 ==> #[trigger] a[k] == band.configurations.lanes[k]
                & !band.eliminations.lanes[k],
    ensures
        cfg_ok(a),
        lanes_in(a, band.configurations.lanes@),
{
    let c = band.configurations.lanes@;
    assert forall|k: int| 0 <= k < 8 implies #[trigger] a[k] <= c[k] && sub16(a[k], c[k]) by {
        assert(a[k] == c[k] & !band.eliminations.lanes[k]);
        assert forall|d: int| #[trigger] bit16(a[k], d) implies bit16(c[k], d) by {}
        lemma_subset16(a[k], c[k]);
    }
    assert forall|k: int| 0 <= k < 8 implies #[trigger] a[k] <= ALL by {
        assert(c[k] <= ALL);
    }
    assert(a[6] <= c[6] && a[7] <= c[7]);
}

/// Applying what is pending and pinning triads loses no grid.
proof fn lemma_pinned_state(s0: TState, s1: TState, i: int, a: Seq<u16>)
    requires
        s0.ok(),
        0 <= i < 6,
        a.len() == 8,
        cfg_ok(a),
        lanes_in(a, s0.bands[i].configurations.lanes@),
        forall|k: int|
            0 <= k < 8 ==> #[trigger] a[k] == s0.bands[i].configurations.lanes[k]
                & !s0.bands[i].eliminations.lanes[k],
        s1.boxen == s0.boxen,
        forall|j: int| 0 <= j < 6 && j != i ==> #[trigger] s1.bands[j] == s0.bands[j],
        s1.bands[i].eliminations == s0.bands[i].eliminations,
        cfg_ok(s1.bands[i].configurations.lanes@),
        lanes_in(s1.bands[i].configurations.lanes@, a),
        forall|k: int, d: int|
            0 <= k < 6 ==> (#[trigger] bit16(s1.bands[i].configurations.lanes[k], d) <==> bit16(
                a[k],
                d,
            ) && !elsewhere(a, 0, k, d) && !elsewhere(a, 1, k, d) && !elsewhere(a, 2, k, d)),
    ensures
        s1.ok(),
        below(s1, s0),
        keeps(s0, s1),
{
    lemma_lanes_trans(
        s1.bands[i].configurations.lanes@,
        a,
        s0.bands[i].configurations.lanes@,
    );
    assert forall|j: int| 0 <= j < 6 implies cfg_ok(#[trigger] s1.bands[j].configurations.lanes@) by {
        if j != i {
            assert(cfg_ok(s0.bands[j].configurations.lanes@));
        }
    }
    assert forall|x: int| 0 <= x < 9 implies box_ok(#[trigger] s1.boxen[x].lanes@) by {
        assert(box_ok(s0.boxen[x].lanes@));
    }
    assert forall|g: Seq<u8>| #[trigger] s0.holds(g) implies s1.holds(g) by {
        assert forall|x: int| 0 <= x < 9 implies box_holds(#[trigger] s1.boxen[x].lanes@, g, x) by {
            assert(box_holds(s0.boxen[x].lanes@, g, x));
        }
        assert forall|j: int| 0 <= j < 6 implies band_holds(
            #[trigger] s1.bands[j],
            g,
            j / 3,
            j % 3,
        ) by {
            assert(band_holds(s0.bands[j], g, j / 3, j % 3));
            if j == i {
                let (v, b) = (i / 3, i % 3);
                assert(cfg_holds(a, g, v, b)) by {
                    assert forall|k: int, d: int|
                        0 <= d < 9 && #[trigger] conf(g, v, b, k, d) implies bit16(a[k], d) by {
                        assert(a[k] == s0.bands[i].configurations.lanes[k]
                            & !s0.bands[i].eliminations.lanes[k]);
                    }
                }
                assert forall|k: int, d: int| 0 <= d < 9 && #[trigger] conf(g, v, b, k, d) implies
                bit16(s1.bands[i].configurations.lanes[k], d) && !bit16(
                    s1.bands[i].eliminations.lanes[k],
                    d,
                ) by {
                    assert(a[k] == s0.bands[i].configurations.lanes[k]
                        & !s0.bands[i].eliminations.lanes[k]);
                    assert(bit16(a[k], d));
                    lemma_not_elsewhere(a, g, v, b, 0, k, d);
                    lemma_not_elsewhere(a, g, v, b, 1, k, d);
                    lemma_not_elsewhere(a, g, v, b, 2, k, d);
                }
            }
        }
    }
}

/// The configuration that a digit takes in a kept grid is not ruled out by a
/// pinned triad.
proof fn lemma_not_elsewhere(a: Seq<u16>, g: Seq<u8>, v: int, b: int, p: int, k: int, d: int)
    requires
        is_grid(g),
        0 <= v < 2,
        0 <= b < 3,
        0 <= p < 3,
        0 <= d < 9,
        cfg_ok(a),
        cfg_holds(a, g, v, b),
        conf(g, v, b, k, d),
    ensures
        !elsewhere(a, p, k, d),
{
    let e = config_elem(k, p);
    let (f, h) = ((e + 1) % 3, (e + 2) % 3);
    assert(0 <= e < 3 && 0 <= f < 3 && 0 <= h < 3 && f != e && h != e);
    lemma_conf_triad(g, v, b, k, p, f, d);
    lemma_conf_triad(g, v, b, k, p, h, d);
    if pins(a, p, f, d) {
        lemma_pins_true(a, g, v, b, p, f, d);
    }
    if pins(a, p, h, d) {
        lemma_pins_true(a, g, v, b, p, h, d);
    }
}

/// Forwards a band's restrictions to its three boxes, the inbound one last.
fn band_forward(state: &mut TState, band_idx: usize, from_peer: usize) -> (r: bool)
    requires
        band_idx < 6,
        from_peer < 3,
        old(state).ok(),
    ensures
        !r ==> barren(*old(state)),
        r ==> {
            &&& step(*old(state), *final(state))
            &&& settles(*old(state), *final(state))
            &&& final(state).linked(band_idx as int)
            &&& corners(*old(state)) ==> corners(*final(state))
        },
        !r <==> forwarded(
            node(*old(state)),
            band_idx as int,
            from_peer as int,
            old(state).bands[band_idx as int].configurations.lanes@,
            0,
        ) is None,
        r ==> forwarded(
            node(*old(state)),
            band_idx as int,
            from_peer as int,
            old(state).bands[band_idx as int].configurations.lanes@,
            0,
        ) == Some(node(*final(state))),
    decreases measure(*old(state)), 2nat,
{
    let ghost s0 = *state;
    let ghost i = band_idx as int;
    let configurations = state.bands[band_idx].configurations;
    let ghost cfg = configurations.lanes@;
    let v = band_idx / 3;
    let b = band_idx % 3;
    let mut n: usize = 0;
    proof {
        lemma_step_refl(s0);
        lemma_measure(s0, s0);
    }
    while n < 3
        invariant
            n <= 3,
            band_idx < 6,
            from_peer < 3,
            i == band_idx,
            v == band_idx / 3,
            b == band_idx % 3,
            s0 == *old(state),
            s0.ok(),
            cfg == configurations.lanes@,
            configurations == s0.bands[i].configurations,
            step(s0, *state),
            settles(s0, *state),
            measure(*state) <= measure(s0),
            corners(s0) ==> corners(*state),
            forwarded(node(s0), i, from_peer as int, cfg, 0) == forwarded(
                node(*state),
                i,
                from_peer as int,
                cfg,
                n as nat,
            ),
            forall|p: int|
                0 <= p < 3 && (p + 2 - from_peer) % 3 < n ==> within_band(
                    #[trigger] state.boxen[peer_box(i / 3, i % 3, p)].lanes@,
                    cfg,
                    i / 3,
                    p,
                ),
        decreases 3 - n,
    {
        let p = (from_peer + 1 + n) % 3;
        let bx = if v == 0 {
            3 * b + p
        } else {
            3 * p + b
        };
        let candidates = peer_candidates(configurations, v, p);
        let ghost s1 = *state;
        proof {
            assert(bx == peer_box(i / 3, i % 3, p as int));
            lemma_leave_words(cfg, i / 3, p as int, candidates.lanes@);
            assert((v == 1) == (i / 3 == 1));
            assert(p as int == (from_peer as int + 1 + n) % 3);
            lemma_candidates_true(s0, i, p as int, candidates.lanes@);
            lemma_restriction_below(s1, s0, candidates.lanes@, bx as int);
            assert forall|d: int| 0 <= d < 9 implies #[trigger] bit16(
                candidates.lanes@[15],
                d,
            ) by {
                assert(bit16(candidates.lanes[15], d) <==> allowed(
                    triad_row(cfg, p as int),
                    v as int,
                    15,
                    d,
                ));
            }
        }
        if !box_restrict(state, bx, candidates, v == 1) {
            proof {
                lemma_barren_back(s1, s0);
            }
            return false;
        }
        proof {
            let s2 = *state;
            lemma_step_trans(s0, s1, s2);
            lemma_measure(s2, s1);
            assert forall|q: int| 0 <= q < 3 && (q + 2 - from_peer) % 3 < n + 1 implies within_band(
                #[trigger] s2.boxen[peer_box(i / 3, i % 3, q)].lanes@,
                cfg,
                i / 3,
                q,
            ) by {
                let x = peer_box(i / 3, i % 3, q);
                assert(0 <= x < 9);
                let l = s2.boxen[x].lanes@;
                assert forall|lane: int, d: int| 0 <= lane < 16 && #[trigger] bit16(
                    l[lane],
                    d,
                ) implies allowed(triad_row(cfg, q), i / 3, lane, d) by {
                    if q == p {
                        assert(lanes_in(l, candidates.lanes@));
                        assert(sub16(l[lane], candidates.lanes@[lane]));
                        assert(bit16(candidates.lanes[lane], d));
                    } else {
                        assert(lanes_in(s2.boxen[x].lanes@, s1.boxen[x].lanes@));
                        assert(sub16(l[lane], s1.boxen[x].lanes@[lane]));
                        assert(within_band(s1.boxen[x].lanes@, cfg, i / 3, q));
                        assert(bit16(s1.boxen[x].lanes@[lane], d));
                    }
                }
            }
        }
        n = n + 1;
    }
    proof {
        let s2 = *state;
        assert(s2.linked(i) || s2.bands[i].configurations == s0.bands[i].configurations);
        if s2.bands[i].configurations == s0.bands[i].configurations {
            assert forall|p: int| 0 <= p < 3 implies within_band(
                #[trigger] s2.boxen[peer_box(i / 3, i % 3, p)].lanes@,
                s2.bands[i].configurations.lanes@,
                i / 3,
                p,
            ) by {
                assert((p + 2 - from_peer) % 3 < 3);
            }
        }
    }
    true
}

} // verus!
