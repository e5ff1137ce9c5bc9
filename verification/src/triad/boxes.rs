//! A box of the triad engine: its literals, the assertions they force, and
//! the state of the whole grid.

use vstd::prelude::*;
use crate::bits::{
    bit16, group_bits16, lemma_ext16, lemma_low_masks16, lemma_nonzero16, lemma_subset16,
    lemma_total16, pop16, total16, lemma_small9,
};
use crate::grid::{is_grid, lemma_grid_facts};
use crate::triad::course::{
    box_run, fixed_box, lemma_elim_words, lemma_excl_words, meet, news, node, without,
};
use crate::triad::messages::{
    allowed, assertions_to_eliminations, col_asserts, eliminates, excludes, row_asserts, triad_set,
};
use crate::triad::model::{
    cell_at, conf, config_elem, in_col, in_row, lemma_box_once, lemma_cell_at, lemma_col_lit,
    lemma_conf_triad, lemma_pop_one, lemma_pop_six, lemma_row_lit, lit, peer_box,
};
use crate::tvec::{c16, col_peer_union, row_peer_union, ALL, C16, C8};

verus! {

broadcast use group_bits16;

/// Minimum candidates per lane: one for a cell, six for a negative triad,
/// because exactly three of nine digits are in a triad.
pub const BOX_MINIMUMS: [u16; 16] = [1, 1, 1, 6, 1, 1, 1, 6, 1, 1, 1, 6, 6, 6, 6, 0];

/// The configurations of one band.
#[derive(Clone, Copy)]
pub struct Band {
    /// Lanes 0..6: the digits still allowed to take that configuration.
    pub configurations: C8,
    /// Configuration eliminations that are yet to be applied.
    pub eliminations: C8,
}

/// The state of a search node.
#[derive(Clone, Copy)]
pub struct TState {
    /// Bands 0..3 are horizontal, 3..6 vertical.
    pub bands: [Band; 6],
    pub boxen: [C16; 9],
    /// Literals each box has asserted and drawn the consequences of.
    pub asserted: [C16; 9],
}

/// Word `x` has no bit that `y` lacks.
pub open spec fn sub16(x: u16, y: u16) -> bool {
    forall|d: int| #[trigger] bit16(x, d) ==> bit16(y, d)
}

/// Lane by lane no bit that `b` lacks.
pub open spec fn lanes_in(a: Seq<u16>, b: Seq<u16>) -> bool {
    a.len() == b.len() && forall|i: int| 0 <= i < a.len() ==> sub16(#[trigger] a[i], b[i])
}

/// Sixteen digit sets.
pub open spec fn box_ok(l: Seq<u16>) -> bool {
    l.len() == 16 && forall|i: int| 0 <= i < 16 ==> #[trigger] l[i] <= ALL
}

/// Six digit sets and two empty lanes.
pub open spec fn cfg_ok(c: Seq<u16>) -> bool {
    c.len() == 8 && c[6] == 0 && c[7] == 0 && forall|i: int| 0 <= i < 8 ==> #[trigger] c[i] <= ALL
}

/// The lanes keep every literal of box `bx` that is true in `g`.
pub open spec fn box_holds(l: Seq<u16>, g: Seq<u8>, bx: int) -> bool {
    forall|lane: int, d: int|
        0 <= lane < 16 && 0 <= d < 9 && #[trigger] lit(g, bx, lane, d) ==> bit16(l[lane], d)
}

/// The band keeps every configuration that its digits take in `g`.
pub open spec fn band_holds(band: Band, g: Seq<u8>, v: int, b: int) -> bool {
    forall|k: int, d: int|
        0 <= d < 9 && #[trigger] conf(g, v, b, k, d) ==> bit16(band.configurations.lanes[k], d)
            && !bit16(band.eliminations.lanes[k], d)
}

/// Every lane has at least its minimum of candidates.
pub open spec fn min_ok(l: Seq<u16>) -> bool {
    forall|i: int| 0 <= i < 16 ==> pop16(#[trigger] l[i]) >= BOX_MINIMUMS[i]
}

/// The positive triads of peer `p` under the configurations.
pub open spec fn triad_row(cfg: Seq<u16>, p: int) -> Seq<u16> {
    Seq::new(3, |e: int| triad_set(cfg, p, e))
}

/// The box lanes lie within what the configurations leave to peer `p`.
pub open spec fn within_band(l: Seq<u16>, cfg: Seq<u16>, v: int, p: int) -> bool {
    forall|lane: int, d: int|
        0 <= lane < 16 && #[trigger] bit16(l[lane], d) ==> allowed(triad_row(cfg, p), v, lane, d)
}

impl TState {
    /// Lanes in range.
    pub open spec fn ok(&self) -> bool {
        &&& forall|x: int| 0 <= x < 9 ==> box_ok(#[trigger] self.boxen[x].lanes@)
        &&& forall|i: int| 0 <= i < 6 ==> cfg_ok(#[trigger] self.bands[i].configurations.lanes@)
    }

    /// The state keeps grid `g`.
    pub open spec fn holds(&self, g: Seq<u8>) -> bool {
        &&& is_grid(g)
        &&& forall|x: int| 0 <= x < 9 ==> box_holds(#[trigger] self.boxen[x].lanes@, g, x)
        &&& forall|i: int| 0 <= i < 6 ==> band_holds(#[trigger] self.bands[i], g, i / 3, i % 3)
    }

    /// The grids that the state keeps.
    pub open spec fn grids(&self) -> Set<Seq<u8>> {
        Set::new(|g: Seq<u8>| self.holds(g))
    }

    /// Nothing is left to apply to band `i`.
    pub open spec fn resolved(&self, i: int) -> bool {
        forall|k: int, d: int|
            0 <= k < 6 && #[trigger] bit16(self.bands[i].configurations.lanes[k], d) ==> !bit16(
                self.bands[i].eliminations.lanes[k],
                d,
            )
    }

    /// The boxes of band `i` have been told of its configurations.
    pub open spec fn linked(&self, i: int) -> bool {
        forall|p: int|
            0 <= p < 3 ==> within_band(
                #[trigger] self.boxen[peer_box(i / 3, i % 3, p)].lanes@,
                self.bands[i].configurations.lanes@,
                i / 3,
                p,
            )
    }
}

/// The last lane of every box is full.
pub open spec fn corners(s: TState) -> bool {
    forall|x: int| 0 <= x < 9 ==> #[trigger] s.boxen[x].lanes@[15] == ALL
}

/// The restriction leaves the last lane alone.
pub open spec fn corner_free(c: Seq<u16>) -> bool {
    forall|d: int| 0 <= d < 9 ==> #[trigger] bit16(c[15], d)
}

/// State `n` has no candidate and no configuration that `o` lacks, and has
/// dropped none of its pending eliminations.
pub open spec fn below(n: TState, o: TState) -> bool {
    &&& forall|x: int| 0 <= x < 9 ==> lanes_in(#[trigger] n.boxen[x].lanes@, o.boxen[x].lanes@)
    &&& forall|i: int|
        0 <= i < 6 ==> lanes_in(
            #[trigger] n.bands[i].configurations.lanes@,
            o.bands[i].configurations.lanes@,
        )
    &&& forall|i: int|
        0 <= i < 6 ==> lanes_in(
            o.bands[i].eliminations.lanes@,
            #[trigger] n.bands[i].eliminations.lanes@,
        )
}

/// Every grid that `o` keeps is kept by `n`.
pub open spec fn keeps(o: TState, n: TState) -> bool {
    forall|g: Seq<u8>| #[trigger] o.holds(g) ==> n.holds(g)
}

/// The state keeps no grid.
pub open spec fn barren(s: TState) -> bool {
    forall|g: Seq<u8>| !#[trigger] s.holds(g)
}

pub proof fn lemma_lanes_trans(a: Seq<u16>, b: Seq<u16>, c: Seq<u16>)
    requires
        lanes_in(a, b),
        lanes_in(b, c),
    ensures
        lanes_in(a, c),
{
    assert forall|i: int| 0 <= i < a.len() implies sub16(#[trigger] a[i], c[i]) by {
        assert(sub16(a[i], b[i]));
        assert(sub16(b[i], c[i]));
    }
}

pub proof fn lemma_below_trans(a: TState, b: TState, c: TState)
    requires
        below(a, b),
        below(b, c),
    ensures
        below(a, c),
{
    assert forall|x: int| 0 <= x < 9 implies lanes_in(
        #[trigger] a.boxen[x].lanes@,
        c.boxen[x].lanes@,
    ) by {
        lemma_lanes_trans(a.boxen[x].lanes@, b.boxen[x].lanes@, c.boxen[x].lanes@);
    }
    assert forall|i: int| 0 <= i < 6 implies lanes_in(
        #[trigger] a.bands[i].configurations.lanes@,
        c.bands[i].configurations.lanes@,
    ) by {
        lemma_lanes_trans(
            a.bands[i].configurations.lanes@,
            b.bands[i].configurations.lanes@,
            c.bands[i].configurations.lanes@,
        );
    }
    assert forall|i: int| 0 <= i < 6 implies lanes_in(
        c.bands[i].eliminations.lanes@,
        #[trigger] a.bands[i].eliminations.lanes@,
    ) by {
        lemma_lanes_trans(
            c.bands[i].eliminations.lanes@,
            b.bands[i].eliminations.lanes@,
            a.bands[i].eliminations.lanes@,
        );
    }
}

pub proof fn lemma_below_refl(a: TState)
    ensures
        below(a, a),
{
}

/// A lower state keeps fewer grids.
pub proof fn lemma_below_holds(n: TState, o: TState, g: Seq<u8>)
    requires
        below(n, o),
        n.holds(g),
    ensures
        o.holds(g),
{
    assert forall|x: int| 0 <= x < 9 implies box_holds(#[trigger] o.boxen[x].lanes@, g, x) by {
        assert(lanes_in(n.boxen[x].lanes@, o.boxen[x].lanes@));
        assert(box_holds(n.boxen[x].lanes@, g, x));
        assert forall|lane: int, d: int|
            0 <= lane < 16 && 0 <= d < 9 && #[trigger] lit(g, x, lane, d) implies bit16(
            o.boxen[x].lanes@[lane],
            d,
        ) by {
            assert(sub16(n.boxen[x].lanes@[lane], o.boxen[x].lanes@[lane]));
        }
    }
    assert forall|i: int| 0 <= i < 6 implies band_holds(
        #[trigger] o.bands[i],
        g,
        i / 3,
        i % 3,
    ) by {
        let (p, q) = (n.bands[i], o.bands[i]);
        assert(lanes_in(n.bands[i].configurations.lanes@, o.bands[i].configurations.lanes@));
        assert(lanes_in(o.bands[i].eliminations.lanes@, n.bands[i].eliminations.lanes@));
        assert(band_holds(n.bands[i], g, i / 3, i % 3));
        assert forall|k: int, d: int| 0 <= d < 9 && #[trigger] conf(g, i / 3, i % 3, k, d) implies
        bit16(q.configurations.lanes[k], d) && !bit16(q.eliminations.lanes[k], d) by {
            assert(sub16(p.configurations.lanes@[k], q.configurations.lanes@[k]));
            assert(sub16(q.eliminations.lanes@[k], p.eliminations.lanes@[k]));
        }
    }
}

/// Propagation that keeps all grids leaves the set of grids as it is.
pub proof fn lemma_same_grids(n: TState, o: TState)
    requires
        below(n, o),
        keeps(o, n),
    ensures
        n.grids() == o.grids(),
{
    assert forall|g: Seq<u8>| n.grids().contains(g) == o.grids().contains(g) by {
        if n.holds(g) {
            lemma_below_holds(n, o, g);
        }
    }
    assert(n.grids() =~= o.grids());
}

// ---------------------------------------------------------------------------
// Assertions
// ---------------------------------------------------------------------------

/// Lane `i` is at its minimum.
pub open spec fn at_minimum(l: Seq<u16>, i: int) -> u16 {
    if pop16(l[i]) == BOX_MINIMUMS[i] {
        0xffff
    } else {
        0
    }
}

/// The literals that the lanes assert: everything in a lane at its minimum,
/// and what no other lane of the row, or none of the column, still holds.
pub open spec fn asserted_set(l: Seq<u16>) -> Seq<u16> {
    Seq::new(
        16,
        |i: int| l[i] & !((row_peer_union(l, i) & col_peer_union(l, i)) & !at_minimum(l, i)),
    )
}

/// A box that keeps a grid meets its minimums.
proof fn lemma_minimums(l: Seq<u16>, g: Seq<u8>, bx: int, i: int)
    requires
        is_grid(g),
        0 <= bx < 9,
        0 <= i < 16,
        box_ok(l),
        box_holds(l, g, bx),
    ensures
        pop16(l[i]) >= BOX_MINIMUMS[i],
{
    lemma_grid_facts(g);
    let (r, c) = (i / 4, i % 4);
    assert(l[i] <= ALL);
    if r < 3 && c < 3 {
        lemma_cell_at(bx, r, c);
        let d = g[cell_at(bx, r, c)] - 1;
        assert(lit(g, bx, i, d));
        lemma_pop_one(l[i], d);
    } else if r < 3 || c < 3 {
        let t = lemma_margin(l, g, bx, i);
    }
}

/// A margin lane that keeps a grid holds all digits but those of its triad.
proof fn lemma_margin(l: Seq<u16>, g: Seq<u8>, bx: int, i: int) -> (t: (int, int, int))
    requires
        is_grid(g),
        0 <= bx < 9,
        0 <= i < 15,
        i / 4 == 3 || i % 4 == 3,
        box_ok(l),
        box_holds(l, g, bx),
    ensures
        pop16(l[i]) >= 6,
        forall|d: int|
            #![trigger lit(g, bx, i, d)]
            0 <= d < 9 && !lit(g, bx, i, d) && bit16(l[i], d) ==> pop16(l[i]) >= 7,
{
    lemma_grid_facts(g);
    let (r, c) = (i / 4, i % 4);
    let (x, y, z) = if r < 3 {
        (cell_at(bx, r, 0), cell_at(bx, r, 1), cell_at(bx, r, 2))
    } else {
        (cell_at(bx, 0, c), cell_at(bx, 1, c), cell_at(bx, 2, c))
    };
    if r < 3 {
        lemma_cell_at(bx, r, 0);
        lemma_cell_at(bx, r, 1);
        lemma_cell_at(bx, r, 2);
    } else {
        lemma_cell_at(bx, 0, c);
        lemma_cell_at(bx, 1, c);
        lemma_cell_at(bx, 2, c);
    }
    let (a, b, e) = (g[x] - 1, g[y] - 1, g[z] - 1);
    assert(a != b && a != e && b != e) by {
        assert(crate::grid::peers(x, y));
        assert(crate::grid::peers(x, z));
        assert(crate::grid::peers(y, z));
    }
    assert(l[i] <= ALL);
    assert forall|d: int| 0 <= d < 9 && d != a && d != b && d != e implies #[trigger] bit16(
        l[i],
        d,
    ) by {
        assert(lit(g, bx, i, d));
    }
    lemma_pop_six(l[i], a, b, e);
    lemma_pop_six(l[i], b, a, e);
    lemma_pop_six(l[i], e, a, b);
    (a, b, e)
}

/// What a lane at its minimum holds is true in every grid that the box keeps.
proof fn lemma_minimum_true(l: Seq<u16>, g: Seq<u8>, bx: int, i: int, d: int)
    requires
        is_grid(g),
        0 <= bx < 9,
        0 <= i < 15,
        0 <= d < 9,
        box_ok(l),
        box_holds(l, g, bx),
        bit16(l[i], d),
        pop16(l[i]) == BOX_MINIMUMS[i],
    ensures
        lit(g, bx, i, d),
{
    lemma_grid_facts(g);
    let (r, c) = (i / 4, i % 4);
    assert(l[i] <= ALL);
    if r < 3 && c < 3 {
        lemma_cell_at(bx, r, c);
        let e = g[cell_at(bx, r, c)] - 1;
        assert(lit(g, bx, i, e));
        lemma_pop_one(l[i], e);
    } else {
        let t = lemma_margin(l, g, bx, i);
        assert(BOX_MINIMUMS[i] == 6);
    }
}

/// What no row peer holds is true in every grid that the box keeps.
proof fn lemma_row_lone_true(l: Seq<u16>, g: Seq<u8>, bx: int, i: int, d: int)
    requires
        is_grid(g),
        0 <= bx < 9,
        0 <= i < 15,
        0 <= d < 9,
        box_ok(l),
        box_holds(l, g, bx),
        !bit16(row_peer_union(l, i), d),
    ensures
        lit(g, bx, i, d),
{
    let r = i / 4;
    let (x, y, z) = (4 * r + (i + 1) % 4, 4 * r + (i + 2) % 4, 4 * r + (i + 3) % 4);
    assert(!bit16(l[x], d) && !bit16(l[y], d) && !bit16(l[z], d));
    if r < 3 {
        let w = lemma_row_lit(g, bx, r, d);
        assert(bit16(l[w], d));
    } else {
        assert(15 == x || 15 == y || 15 == z);
        assert(lit(g, bx, 15, d));
    }
}

/// What no column peer holds is true in every grid that the box keeps.
proof fn lemma_col_lone_true(l: Seq<u16>, g: Seq<u8>, bx: int, i: int, d: int)
    requires
        is_grid(g),
        0 <= bx < 9,
        0 <= i < 15,
        0 <= d < 9,
        box_ok(l),
        box_holds(l, g, bx),
        !bit16(col_peer_union(l, i), d),
    ensures
        lit(g, bx, i, d),
{
    let c = i % 4;
    let (x, y, z) = ((i + 4) % 16, (i + 8) % 16, (i + 12) % 16);
    assert(!bit16(l[x], d) && !bit16(l[y], d) && !bit16(l[z], d));
    if c < 3 {
        let w = lemma_col_lit(g, bx, c, d);
        assert(bit16(l[w], d));
    } else {
        assert(15 == x || 15 == y || 15 == z);
        assert(lit(g, bx, 15, d));
    }
}

/// Asserted literals are true in every grid that the box keeps.
proof fn lemma_assertion_true(l: Seq<u16>, g: Seq<u8>, bx: int, i: int, d: int)
    requires
        is_grid(g),
        0 <= bx < 9,
        0 <= i < 15,
        box_ok(l),
        box_holds(l, g, bx),
        bit16(asserted_set(l)[i], d),
    ensures
        0 <= d < 9,
        lit(g, bx, i, d),
{
    let (x, y, z) = (row_peer_union(l, i), col_peer_union(l, i), at_minimum(l, i));
    assert(bit16(l[i] & !((x & y) & !z), d));
    assert(bit16(l[i], d));
    assert(bit16(z, d) || !bit16(x, d) || !bit16(y, d));
    assert(l[i] <= ALL);
    lemma_small9(l[i], d);
    if bit16(z, d) {
        assert(!bit16(0u16, d));
        lemma_minimum_true(l, g, bx, i, d);
    } else if !bit16(x, d) {
        lemma_row_lone_true(l, g, bx, i, d);
    } else {
        lemma_col_lone_true(l, g, bx, i, d);
    }
}

/// Assertions that are true in `g`.
pub open spec fn all_true(a: Seq<u16>, g: Seq<u8>, bx: int) -> bool {
    forall|i: int, d: int|
        0 <= i < 15 && #[trigger] bit16(a[i], d) ==> 0 <= d < 9 && lit(g, bx, i, d)
}

/// True assertions eliminate no true literal.
proof fn lemma_elims_true(a: Seq<u16>, g: Seq<u8>, bx: int, lane: int, d: int)
    requires
        is_grid(g),
        0 <= bx < 9,
        0 <= lane < 16,
        0 <= d < 9,
        a.len() == 16,
        all_true(a, g, bx),
        lit(g, bx, lane, d),
    ensures
        !eliminates(a, lane, d),
{
    let (r, c) = (lane / 4, lane % 4);
    if r < 3 && c < 3 {
        if a[lane] != 0 {
            let e = lemma_nonzero16(a[lane]);
            assert(lit(g, bx, lane, e));
            assert(e == d);
        } else {
            assert forall|m: int|
                0 <= m < 12 && m % 4 < 3 implies !#[trigger] bit16(a[m], d) by {
                if bit16(a[m], d) {
                    assert(lit(g, bx, m, d));
                    lemma_box_once(g, bx, m / 4, m % 4, r, c);
                    assert(m == lane);
                    assert(!bit16(0u16, d));
                }
            }
            assert(!row_asserts(a, 0, d) && !row_asserts(a, 1, d) && !row_asserts(a, 2, d));
        }
    } else if r < 3 {
        if row_asserts(a, r, d) {
            let m = if bit16(a[4 * r], d) {
                4 * r
            } else if bit16(a[4 * r + 1], d) {
                4 * r + 1
            } else {
                4 * r + 2
            };
            assert(lit(g, bx, m, d));
            assert(m / 4 == r);
        }
    } else if c < 3 {
        if col_asserts(a, c, d) {
            let m = if bit16(a[c], d) {
                c
            } else if bit16(a[4 + c], d) {
                4 + c
            } else {
                8 + c
            };
            assert(lit(g, bx, m, d));
            assert(m % 4 == c);
        }
    }
}

/// True assertions exclude no configuration that the grid takes.
proof fn lemma_excludes_true(a: Seq<u16>, g: Seq<u8>, bx: int, v: int, k: int, d: int)
    requires
        is_grid(g),
        0 <= bx < 9,
        0 <= v < 2,
        0 <= d < 9,
        a.len() == 16,
        all_true(a, g, bx),
        conf(g, v, if v == 0 { bx / 3 } else { bx % 3 }, k, d),
    ensures
        !excludes(a, v, if v == 0 { bx % 3 } else { bx / 3 }, k, d),
{
    let (b, p) = if v == 0 {
        (bx / 3, bx % 3)
    } else {
        (bx % 3, bx / 3)
    };
    assert(peer_box(v, b, p) == bx);
    let e = config_elem(k, p);
    let (f, h) = ((e + 1) % 3, (e + 2) % 3);
    assert(0 <= e < 3);
    assert(f != e && h != e && 0 <= f < 3 && 0 <= h < 3);
    lemma_conf_triad(g, v, b, k, p, e, d);
    lemma_conf_triad(g, v, b, k, p, f, d);
    lemma_conf_triad(g, v, b, k, p, h, d);
    if v == 0 {
        if bit16(a[4 * e + 3], d) {
            let i = 4 * e + 3;
            assert(lit(g, bx, i, d));
            assert(i / 4 == e && i % 4 == 3);
        }
        lemma_row_asserts_true(a, g, bx, f, d);
        lemma_row_asserts_true(a, g, bx, h, d);
    } else {
        if bit16(a[12 + e], d) {
            let i = 12 + e;
            assert(lit(g, bx, i, d));
            assert(i / 4 == 3 && i % 4 == e);
        }
        lemma_col_asserts_true(a, g, bx, f, d);
        lemma_col_asserts_true(a, g, bx, h, d);
    }
}

proof fn lemma_row_asserts_true(a: Seq<u16>, g: Seq<u8>, bx: int, r: int, d: int)
    requires
        0 <= r < 3,
        all_true(a, g, bx),
        !in_row(g, bx, r, d),
    ensures
        !row_asserts(a, r, d),
{
    assert forall|c: int| 0 <= c < 3 implies !bit16(#[trigger] a[4 * r + c], d) by {
        let m = 4 * r + c;
        assert(m / 4 == r && m % 4 == c);
        if bit16(a[m], d) {
            assert(lit(g, bx, m, d));
        }
    }
    assert(!bit16(a[4 * r + 0], d));
}

proof fn lemma_col_asserts_true(a: Seq<u16>, g: Seq<u8>, bx: int, c: int, d: int)
    requires
        0 <= c < 3,
        all_true(a, g, bx),
        !in_col(g, bx, c, d),
    ensures
        !col_asserts(a, c, d),
{
    assert forall|r: int| 0 <= r < 3 implies !bit16(#[trigger] a[4 * r + c], d) by {
        let m = 4 * r + c;
        assert(m / 4 == r && m % 4 == c);
        if bit16(a[m], d) {
            assert(lit(g, bx, m, d));
        }
    }
    assert(!bit16(a[4 * 0 + c], d) && !bit16(a[4 * 1 + c], d) && !bit16(a[4 * 2 + c], d));
}

// ---------------------------------------------------------------------------
// The fixpoint of a box
// ---------------------------------------------------------------------------

/// The restriction `c` of box `bx` drops no true literal of a grid that the
/// state keeps.
pub open spec fn restriction_true(s: TState, c: Seq<u16>, bx: int) -> bool {
    forall|g: Seq<u8>| #[trigger] s.holds(g) ==> box_holds(c, g, bx)
}

/// The lanes to be eliminated hold no true literal.
spec fn spares(e: Seq<u16>, g: Seq<u8>, bx: int) -> bool {
    forall|lane: int, d: int|
        0 <= lane < 16 && 0 <= d < 9 && #[trigger] lit(g, bx, lane, d) ==> !bit16(e[lane], d)
}

/// The pending eliminations hold no configuration that the grid takes.
spec fn spares_band(e: Seq<u16>, g: Seq<u8>, v: int, b: int) -> bool {
    forall|k: int, d: int| 0 <= d < 9 && #[trigger] conf(g, v, b, k, d) ==> !bit16(e[k], d)
}

/// Dropping what a restriction lacks leaves what it shares.
proof fn lemma_meet(a: Seq<u16>, c: Seq<u16>, e: Seq<u16>)
    requires
        a.len() == 16,
        c.len() == 16,
        e.len() == 16,
        forall|i: int| 0 <= i < 16 ==> #[trigger] e[i] == a[i] & !c[i],
    ensures
        without(a, e) == meet(a, c),
{
    assert forall|i: int| 0 <= i < 16 implies without(a, e)[i] == meet(a, c)[i] by {
        assert(e[i] == a[i] & !c[i]);
        lemma_ext16(a[i] & !e[i], a[i] & c[i]);
    }
    assert(without(a, e) =~= meet(a, c));
}

proof fn lemma_minus(a: Seq<u16>, b: Seq<u16>)
    requires
        a.len() == 16,
        b.len() == 16,
        forall|i: int| 0 <= i < 16 ==> #[trigger] a[i] <= ALL,
    ensures
        total16(without(a, b)) <= total16(a),
        without(a, b) != a ==> total16(without(a, b)) < total16(a),
        forall|i: int| 0 <= i < 16 ==> #[trigger] without(a, b)[i] <= a[i],
        lanes_in(without(a, b), a),
{
    let m = without(a, b);
    assert forall|i: int| 0 <= i < 16 implies #[trigger] m[i] <= a[i] by {
        assert forall|d: int| bit16(m[i], d) implies bit16(a[i], d) by {}
        lemma_subset16(m[i], a[i]);
    }
    lemma_total16(m, a);
    if m != a {
        if forall|i: int| 0 <= i < 16 ==> #[trigger] m[i] == a[i] {
            assert(m =~= a);
        }
    }
}

proof fn lemma_and_not_zero(x: u16, y: u16)
    ensures
        x & !y == 0 <==> sub16(x, y),
{
    if x & !y == 0 {
        assert forall|d: int| #[trigger] bit16(x, d) implies bit16(y, d) by {
            if !bit16(y, d) {
                assert(bit16(x & !y, d));
                assert(!bit16(0u16, d));
            }
        }
    } else {
        let d = lemma_nonzero16(x & !y);
        assert(bit16(x, d) && !bit16(y, d));
    }
}

/// The lane-wise subset test and its meaning.
pub proof fn lemma_subset_lanes(a: Seq<u16>, b: Seq<u16>)
    requires
        a.len() == b.len(),
    ensures
        (forall|i: int| 0 <= i < a.len() ==> #[trigger] a[i] & !b[i] == 0) <==> lanes_in(a, b),
{
    assert forall|i: int| 0 <= i < a.len() implies (#[trigger] a[i] & !b[i] == 0 <==> sub16(
        a[i],
        b[i],
    )) by {
        lemma_and_not_zero(a[i], b[i]);
    }
    if lanes_in(a, b) {
        assert forall|i: int| 0 <= i < a.len() implies #[trigger] a[i] & !b[i] == 0 by {
            assert(sub16(a[i], b[i]));
        }
    }
}

/// State `n` differs from `o` in box `bx` and in what is pending on its two
/// bands, if at all.
pub open spec fn touches_only(n: TState, o: TState, bx: int) -> bool {
    &&& forall|x: int| 0 <= x < 9 && x != bx ==> #[trigger] n.boxen[x] == o.boxen[x]
    &&& forall|i: int|
        0 <= i < 6 ==> #[trigger] n.bands[i].configurations == o.bands[i].configurations
    &&& forall|i: int|
        0 <= i < 6 && i != bx / 3 && i != 3 + bx % 3 ==> #[trigger] n.bands[i] == o.bands[i]
}

/// The consequences of what box `bx` has asserted are drawn: they are gone
/// from the box, and its two bands have been told.
pub open spec fn box_drawn(s: TState, bx: int) -> bool {
    let a = s.asserted[bx].lanes@;
    &&& forall|i: int, d: int|
        0 <= i < 16 && #[trigger] eliminates(a, i, d) ==> !bit16(s.boxen[bx].lanes[i], d)
    &&& forall|k: int, d: int|
        0 <= k < 6 && #[trigger] excludes(a, 0, bx % 3, k, d) ==> bit16(
            s.bands[bx / 3].eliminations.lanes[k],
            d,
        )
    &&& forall|k: int, d: int|
        0 <= k < 6 && #[trigger] excludes(a, 1, bx / 3, k, d) ==> bit16(
            s.bands[3 + bx % 3].eliminations.lanes[k],
            d,
        )
}

/// Box `bx` is at its fixpoint: it has asserted all that its lanes assert.
pub open spec fn box_settled(s: TState, bx: int) -> bool {
    box_drawn(s, bx) && lanes_in(asserted_set(s.boxen[bx].lanes@), s.asserted[bx].lanes@)
}

/// The state has grid `g`, and so has the restriction `candidates` of box `bx`.
pub open spec fn kept_in(s: TState, candidates: Seq<u16>, g: Seq<u8>, bx: int) -> bool {
    s.holds(g) && box_holds(candidates, g, bx)
}

/// A restriction that drops nothing true keeps every grid.
pub proof fn lemma_all_kept(s: TState, candidates: Seq<u16>, bx: int)
    requires
        restriction_true(s, candidates, bx),
    ensures
        forall|g: Seq<u8>| #[trigger] s.holds(g) ==> kept_in(s, candidates, g, bx),
{
}

/// Restricts a box and runs its internal clauses to the fixpoint. The
/// messages that result are left pending on its two bands.
#[verifier::rlimit(80)]
pub fn box_fixpoint(state: &mut TState, box_idx: usize, candidates: C16) -> (r: bool)
    requires
        box_idx < 9,
        old(state).ok(),
    ensures
        !r ==> *final(state) == *old(state) && forall|g: Seq<u8>|
            !#[trigger] kept_in(*old(state), candidates.lanes@, g, box_idx as int),
        r ==> {
            &&& final(state).ok()
            &&& below(*final(state), *old(state))
            &&& forall|g: Seq<u8>| #[trigger]
                kept_in(*old(state), candidates.lanes@, g, box_idx as int)
                    ==> final(state).holds(g)
            &&& min_ok(final(state).boxen[box_idx as int].lanes@)
            &&& lanes_in(final(state).boxen[box_idx as int].lanes@, candidates.lanes@)
            &&& touches_only(*final(state), *old(state), box_idx as int)
            &&& box_drawn(*old(state), box_idx as int) ==> box_settled(
                *final(state),
                box_idx as int,
            )
            &&& corners(*old(state)) && corner_free(candidates.lanes@) ==> corners(*final(state))
        },
        !r <==> fixed_box(node(*old(state)), box_idx as int, candidates.lanes@) is None,
        r ==> fixed_box(node(*old(state)), box_idx as int, candidates.lanes@) == Some(
            node(*final(state)),
        ),
{
    let ghost s0 = *state;
    let ghost bx = box_idx as int;
    let box_i = box_idx / 3;
    let box_j = box_idx % 3;
    let box_minimums = c16(&BOX_MINIMUMS);
    let mut cells = state.boxen[box_idx];
    let mut eliminating = cells.and_not(candidates);
    let mut asserted = state.asserted[box_idx];
    let mut h_elims = state.bands[box_i].eliminations;
    let mut v_elims = state.bands[3 + box_j].eliminations;
    let ghost run = box_run(
        meet(s0.boxen[bx].lanes@, candidates.lanes@),
        s0.asserted[bx].lanes@,
        s0.bands[bx / 3].eliminations.lanes@,
        s0.bands[3 + bx % 3].eliminations.lanes@,
        bx,
    );
    proof {
        lemma_meet(s0.boxen[bx].lanes@, candidates.lanes@, eliminating.lanes@);
        assert(node(s0).boxes[bx] == s0.boxen[bx].lanes@);
        assert(node(s0).told[bx] == s0.asserted[bx].lanes@);
        assert(node(s0).pend[bx / 3] == s0.bands[bx / 3].eliminations.lanes@);
        assert(node(s0).pend[3 + bx % 3] == s0.bands[3 + bx % 3].eliminations.lanes@);
        lemma_low_masks16();
        assert(box_ok(s0.boxen[bx].lanes@));
        assert forall|g: Seq<u8>| #[trigger] kept_in(s0, candidates.lanes@, g, bx) implies box_holds(cells.lanes@, g, bx)
            && spares(eliminating.lanes@, g, bx) && spares_band(h_elims.lanes@, g, 0, bx / 3)
            && spares_band(v_elims.lanes@, g, 1, bx % 3) by {
            assert(box_holds(s0.boxen[bx].lanes@, g, bx));
            assert(box_holds(candidates.lanes@, g, bx));
            assert(band_holds(s0.bands[bx / 3], g, (bx / 3) / 3, (bx / 3) % 3));
            assert(band_holds(s0.bands[3 + bx % 3], g, (3 + bx % 3) / 3, (3 + bx % 3) % 3));
            assert((bx / 3) / 3 == 0 && (bx / 3) % 3 == bx / 3);
            assert((3 + bx % 3) / 3 == 1 && (3 + bx % 3) % 3 == bx % 3);
            assert forall|lane: int, d: int|
                0 <= lane < 16 && 0 <= d < 9 && #[trigger] lit(g, bx, lane, d) implies !bit16(
                eliminating.lanes@[lane],
                d,
            ) by {
                assert(eliminating.lanes[lane] == cells.lanes[lane] & !candidates.lanes[lane]);
            }
        }
    }
    loop
        invariant_except_break
            run == box_run(
                without(cells.lanes@, eliminating.lanes@),
                asserted.lanes@,
                h_elims.lanes@,
                v_elims.lanes@,
                bx,
            ),
            forall|g: Seq<u8>| #[trigger] kept_in(s0, candidates.lanes@, g, bx) ==> spares(eliminating.lanes@, g, bx),
        invariant
            box_i == box_idx / 3,
            box_j == box_idx % 3,
            box_idx < 9,
            bx == box_idx,
            s0 == *old(state),
            *state == s0,
            s0.ok(),
            run is None ==> fixed_box(node(s0), bx, candidates.lanes@) is None,
            box_minimums.lanes == BOX_MINIMUMS,
            box_ok(cells.lanes@),
            lanes_in(cells.lanes@, s0.boxen[bx].lanes@),
            s0.boxen[bx].lanes@[15] == ALL && corner_free(candidates.lanes@) ==> {
                &&& cells.lanes[15] == ALL
                &&& forall|d: int| 0 <= d < 9 ==> !#[trigger] bit16(eliminating.lanes[15], d)
            },
            forall|lane: int, d: int|
                0 <= lane < 16 && #[trigger] bit16(cells.lanes[lane], d) && !bit16(
                    eliminating.lanes[lane],
                    d,
                ) ==> bit16(candidates.lanes[lane], d),
            lanes_in(s0.bands[bx / 3].eliminations.lanes@, h_elims.lanes@),
            lanes_in(s0.bands[3 + bx % 3].eliminations.lanes@, v_elims.lanes@),
            box_drawn(s0, bx) ==> {
                &&& forall|i: int, d: int|
                    0 <= i < 16 && #[trigger] eliminates(asserted.lanes@, i, d) && bit16(
                        cells.lanes[i],
                        d,
                    ) ==> bit16(eliminating.lanes[i], d)
                &&& forall|k: int, d: int|
                    0 <= k < 6 && #[trigger] excludes(asserted.lanes@, 0, bx % 3, k, d) ==> bit16(
                        h_elims.lanes[k],
                        d,
                    )
                &&& forall|k: int, d: int|
                    0 <= k < 6 && #[trigger] excludes(asserted.lanes@, 1, bx / 3, k, d) ==> bit16(
                        v_elims.lanes[k],
                        d,
                    )
            },
            forall|g: Seq<u8>| #[trigger]
                kept_in(s0, candidates.lanes@, g, bx) ==> box_holds(cells.lanes@, g, bx) && spares_band(
                    h_elims.lanes@,
                    g,
                    0,
                    bx / 3,
                ) && spares_band(v_elims.lanes@, g, 1, bx % 3),
        ensures
            run == Some((cells.lanes@, asserted.lanes@, h_elims.lanes@, v_elims.lanes@)),
            min_ok(cells.lanes@),
            lanes_in(cells.lanes@, candidates.lanes@),
            lanes_in(asserted_set(cells.lanes@), asserted.lanes@),
            box_drawn(s0, bx) ==> forall|i: int, d: int|
                0 <= i < 16 && #[trigger] eliminates(asserted.lanes@, i, d) ==> !bit16(
                    cells.lanes[i],
                    d,
                ),
        decreases
                total16(without(cells.lanes@, eliminating.lanes@)),
                news(without(cells.lanes@, eliminating.lanes@), asserted.lanes@),
    {
        let ghost l0 = cells.lanes@;
        let ghost e0 = eliminating.lanes@;
        let ghost done0 = asserted.lanes@;
        cells = cells.and_not(eliminating);
        let ghost l = cells.lanes@;
        proof {
            lemma_low_masks16();
            lemma_minus(l0, e0);
            assert(l =~= without(l0, e0));
            assert forall|i: int| 0 <= i < 16 implies #[trigger] l[i] <= ALL by {
                assert(l0[i] <= ALL);
                assert(without(l0, e0)[i] <= l0[i]);
            }
            if s0.boxen[bx].lanes@[15] == ALL && corner_free(candidates.lanes@) {
                assert forall|d: int| 0 <= d < 16 implies bit16(l[15], d) == bit16(ALL, d) by {
                    assert(l[15] == l0[15] & !e0[15]);
                }
                lemma_ext16(l[15], ALL);
            }
            lemma_lanes_trans(l, l0, s0.boxen[bx].lanes@);
            assert forall|g: Seq<u8>| #[trigger] kept_in(s0, candidates.lanes@, g, bx) implies box_holds(l, g, bx) by {
                assert(box_holds(l0, g, bx) && spares(e0, g, bx));
                assert forall|lane: int, d: int|
                    0 <= lane < 16 && 0 <= d < 9 && #[trigger] lit(g, bx, lane, d) implies bit16(
                    l[lane],
                    d,
                ) by {
                    assert(l[lane] == l0[lane] & !e0[lane]);
                    assert(bit16(l0[lane], d) && !bit16(e0[lane], d));
                }
            }
            assert(lanes_in(l, candidates.lanes@)) by {
                assert forall|i: int| 0 <= i < 16 implies sub16(
                    #[trigger] l[i],
                    candidates.lanes@[i],
                ) by {
                    assert(l[i] == l0[i] & !e0[i]);
                }
            }
        }
        let counts = cells.popcounts9();
        if counts.any_less_than(box_minimums) {
            proof {
                let i = choose|i: int|
                    0 <= i < 16 && #[trigger] counts.lanes[i] < box_minimums.lanes[i];
                assert(pop16(l[i]) < BOX_MINIMUMS[i]);
                assert(!min_ok(l));
                assert forall|g: Seq<u8>| !#[trigger] kept_in(s0, candidates.lanes@, g, bx) by {
                    if kept_in(s0, candidates.lanes@, g, bx) {
                        assert(box_holds(l, g, bx));
                        lemma_minimums(l, g, bx, i);
                    }
                }
            }
            return false;
        }
        proof {
            assert forall|i: int| 0 <= i < 16 implies pop16(#[trigger] l[i]) >= BOX_MINIMUMS[i] by {
                assert(counts.lanes[i] >= box_minimums.lanes[i]);
            }
        }
        let triggered = counts.which_equal(box_minimums);
        let row_peers = cells.row_peers();
        let col_peers = cells.col_peers();
        let assertions = cells.and_not(row_peers.and(col_peers).and_not(triggered));
        proof {
            assert(assertions.lanes@ =~= asserted_set(l)) by {
                assert forall|i: int| 0 <= i < 16 implies #[trigger] assertions.lanes@[i]
                    == asserted_set(l)[i] by {
                    assert(triggered.lanes[i] == at_minimum(l, i)) by {
                        assert(counts.lanes[i] == pop16(l[i]));
                    }
                }
            }
        }
        if assertions.subset_of(asserted) {
            proof {
                lemma_subset_lanes(assertions.lanes@, asserted.lanes@);
                if box_drawn(s0, bx) {
                    assert forall|i: int, d: int|
                        0 <= i < 16 && #[trigger] eliminates(asserted.lanes@, i, d) implies !bit16(
                        cells.lanes[i],
                        d,
                    ) by {
                        assert(l[i] == l0[i] & !e0[i]);
                    }
                }
            }
            break ;
        }
        asserted = assertions;
        proof {
            lemma_subset_lanes(assertions.lanes@, done0);
            assert(!lanes_in(asserted_set(l), done0));
        }
        let ghost h1 = h_elims.lanes@;
        let ghost v1 = v_elims.lanes@;
        proof {
            assert forall|i: int| 0 <= i < 16 implies #[trigger] assertions.lanes[i] <= 0x1FF by {
                let x = assertions.lanes[i];
                assert forall|d: int| bit16(x, d) implies bit16(l[i], d) by {}
                lemma_subset16(x, l[i]);
            }
        }
        assertions_to_eliminations(
            assertions,
            box_i,
            box_j,
            &mut eliminating,
            &mut h_elims,
            &mut v_elims,
        );
        proof {
            let a = assertions.lanes@;
            assert forall|d: int| 0 <= d < 9 implies !#[trigger] bit16(
                eliminating.lanes[15],
                d,
            ) by {
                assert(!eliminates(a, 15, d));
            }
            assert(lanes_in(h1, h_elims.lanes@)) by {
                lemma_grown(h1, h_elims.lanes@);
            }
            assert(lanes_in(v1, v_elims.lanes@)) by {
                lemma_grown(v1, v_elims.lanes@);
            }
            lemma_lanes_trans(s0.bands[bx / 3].eliminations.lanes@, h1, h_elims.lanes@);
            lemma_lanes_trans(s0.bands[3 + bx % 3].eliminations.lanes@, v1, v_elims.lanes@);
            assert forall|g: Seq<u8>| #[trigger] kept_in(s0, candidates.lanes@, g, bx) implies box_holds(l, g, bx)
                && spares_band(h_elims.lanes@, g, 0, bx / 3) && spares_band(
                v_elims.lanes@,
                g,
                1,
                bx % 3,
            ) && spares(eliminating.lanes@, g, bx) by {
                assert(spares_band(h1, g, 0, bx / 3) && spares_band(v1, g, 1, bx % 3));
                assert forall|i: int, d: int| 0 <= i < 15 && #[trigger] bit16(a[i], d) implies 0 <= d
                    < 9 && lit(g, bx, i, d) by {
                    lemma_assertion_true(l, g, bx, i, d);
                }
                assert(all_true(a, g, bx));
                assert forall|lane: int, d: int|
                    0 <= lane < 16 && 0 <= d < 9 && #[trigger] lit(g, bx, lane, d) implies !bit16(
                    eliminating.lanes@[lane],
                    d,
                ) by {
                    lemma_elims_true(a, g, bx, lane, d);
                }
                assert forall|k: int, d: int|
                    0 <= d < 9 && #[trigger] conf(g, 0, bx / 3, k, d) implies !bit16(
                    h_elims.lanes@[k],
                    d,
                ) by {
                    lemma_excludes_true(a, g, bx, 0, k, d);
                    assert(!bit16(h1[k], d));
                }
                assert forall|k: int, d: int|
                    0 <= d < 9 && #[trigger] conf(g, 1, bx % 3, k, d) implies !bit16(
                    v_elims.lanes@[k],
                    d,
                ) by {
                    lemma_excludes_true(a, g, bx, 1, k, d);
                    assert(!bit16(v1[k], d));
                }
            }
            let m2 = without(l, eliminating.lanes@);
            lemma_minus(l, eliminating.lanes@);
            lemma_elim_words(a, eliminating.lanes@);
            lemma_excl_words(a, 0, bx % 3, h1, h_elims.lanes@);
            lemma_excl_words(a, 1, bx / 3, v1, v_elims.lanes@);
            if m2 == l {
                assert forall|i: int| 0 <= i < 16 implies sub16(#[trigger] a[i], a[i]) by {}
                assert(lanes_in(a, a));
                assert(news(m2, asserted.lanes@) == 0);
            }
        }
    }
    state.boxen[box_idx] = cells;
    state.asserted[box_idx] = asserted;
    let h_band = Band {
        configurations: state.bands[box_i].configurations,
        eliminations: h_elims,
    };
    state.bands[box_i] = h_band;
    let v_band = Band {
        configurations: state.bands[3 + box_j].configurations,
        eliminations: v_elims,
    };
    state.bands[3 + box_j] = v_band;
    proof {
        let s1 = *state;
        let (n0, n1) = (node(s0), node(s1));
        assert(n1.cfg =~= n0.cfg);
        assert(n1.boxes =~= n0.boxes.update(bx, cells.lanes@));
        assert(n1.told =~= n0.told.update(bx, asserted.lanes@));
        assert(n1.pend =~= n0.pend.update(bx / 3, h_elims.lanes@).update(
            3 + bx % 3,
            v_elims.lanes@,
        ));
        assert forall|i: int| 0 <= i < 6 implies #[trigger] s1.bands[i].configurations
            == s0.bands[i].configurations by {}
        assert forall|x: int| 0 <= x < 9 implies box_ok(#[trigger] s1.boxen[x].lanes@) by {
            if x != bx {
                assert(s1.boxen[x] == s0.boxen[x]);
                assert(box_ok(s0.boxen[x].lanes@));
            }
        }
        assert forall|i: int| 0 <= i < 6 implies cfg_ok(
            #[trigger] s1.bands[i].configurations.lanes@,
        ) by {
            assert(cfg_ok(s0.bands[i].configurations.lanes@));
        }
        assert forall|g: Seq<u8>| #[trigger] kept_in(s0, candidates.lanes@, g, bx) implies s1.holds(g) by {
            assert forall|x: int| 0 <= x < 9 implies box_holds(#[trigger] s1.boxen[x].lanes@, g, x) by {
                if x != bx {
                    assert(box_holds(s0.boxen[x].lanes@, g, x));
                }
            }
            assert forall|i: int| 0 <= i < 6 implies band_holds(
                #[trigger] s1.bands[i],
                g,
                i / 3,
                i % 3,
            ) by {
                assert(band_holds(s0.bands[i], g, i / 3, i % 3));
                if i == bx / 3 {
                    assert(spares_band(h_elims.lanes@, g, 0, bx / 3));
                } else if i == 3 + bx % 3 {
                    assert(spares_band(v_elims.lanes@, g, 1, bx % 3));
                }
            }
        }
    }
    true
}

/// Lanes that only gain bits.
proof fn lemma_grown(a: Seq<u16>, b: Seq<u16>)
    requires
        a.len() == 8,
        b.len() == 8,
        forall|k: int, d: int| 0 <= k < 8 && #[trigger] bit16(a[k], d) ==> bit16(b[k], d),
    ensures
        lanes_in(a, b),
{
}

} // verus!
