//! Counting configurations: when a band is undecided, and why a state with
//! all bands decided spells out exactly one grid.

use vstd::prelude::*;
use crate::bits::{
    bit16, count, group_bits16, lemma_count_lone, lemma_count_mono, lemma_count_some,
    lemma_count_witness, lemma_low_masks16, pop16, lemma_pop9,
};
use crate::grid::{
    box_of, is_grid, lemma_grid_facts, lemma_only, lemma_onto_is_injective, peers, reaches,
};
use crate::triad::bands::lemma_triad_set;
use crate::triad::boxes::{
    band_holds, box_holds, box_ok, cfg_ok, min_ok, triad_row, within_band, TState, BOX_MINIMUMS,
    corners,
};
use crate::triad::messages::{allowed, triad_set};
use crate::triad::model::{
    cell_at, conf, config_elem, in_col, in_row, lemma_cell_at, lemma_col_of, lemma_config_once,
    lemma_config_range, lemma_row_of, lit, peer_box,
};
use crate::tvec::{lanes_total, ALL};

verus! {

broadcast use group_bits16;

/// How many of the first `n` lanes hold digit `d`.
pub open spec fn lanes_with(v: Seq<u16>, d: int, n: nat) -> nat {
    count(|k: int| bit16(v[k], d), n)
}

/// The sum of `f` below `n`.
spec fn sum_to(f: spec_fn(int) -> int, n: nat) -> int
    decreases n,
{
    if n == 0 {
        0
    } else {
        sum_to(f, (n - 1) as nat) + f(n - 1)
    }
}

proof fn lemma_sum_add(f: spec_fn(int) -> int, h: spec_fn(int) -> int, p: spec_fn(int) -> bool, m: nat)
    requires
        forall|d: int| 0 <= d < m ==> #[trigger] f(d) == h(d) + if p(d) {
            1int
        } else {
            0
        },
    ensures
        sum_to(f, m) == sum_to(h, m) + count(p, m),
    decreases m,
{
    if m > 0 {
        lemma_sum_add(f, h, p, (m - 1) as nat);
        assert(f(m - 1) == h(m - 1) + if p(m - 1) {
            1int
        } else {
            0
        });
    }
}

proof fn lemma_sum_le(f: spec_fn(int) -> int, h: spec_fn(int) -> int, m: nat)
    requires
        forall|d: int| 0 <= d < m ==> #[trigger] f(d) <= h(d),
    ensures
        sum_to(f, m) <= sum_to(h, m),
    decreases m,
{
    if m > 0 {
        lemma_sum_le(f, h, (m - 1) as nat);
        assert(f(m - 1) <= h(m - 1));
    }
}

/// Bounds that the sum attains are attained everywhere.
proof fn lemma_sum_tight(f: spec_fn(int) -> int, h: spec_fn(int) -> int, m: nat, d: int)
    requires
        forall|x: int| 0 <= x < m ==> #[trigger] f(x) <= h(x),
        sum_to(f, m) >= sum_to(h, m),
        0 <= d < m,
    ensures
        f(d) == h(d),
    decreases m,
{
    lemma_sum_le(f, h, (m - 1) as nat);
    assert(f(m - 1) <= h(m - 1));
    if d < m - 1 {
        lemma_sum_tight(f, h, (m - 1) as nat, d);
    }
}

proof fn lemma_sum_scaled(f: spec_fn(int) -> int, c: int, m: nat)
    ensures
        sum_to(|d: int| c * f(d), m) == c * sum_to(f, m),
    decreases m,
{
    if m > 0 {
        lemma_sum_scaled(f, c, (m - 1) as nat);
        let (x, y) = (sum_to(f, (m - 1) as nat), f(m - 1));
        assert(c * (x + y) == c * x + c * y) by (nonlinear_arith);
    } else {
        assert(c * 0 == 0) by (nonlinear_arith);
    }
}

proof fn lemma_sum_const(c: int, m: nat)
    ensures
        sum_to(|d: int| c, m) == c * m,
    decreases m,
{
    if m > 0 {
        lemma_sum_const(c, (m - 1) as nat);
        assert(c * (m - 1) + c == c * m) by (nonlinear_arith);
    } else {
        assert(c * 0 == 0) by (nonlinear_arith);
    }
}

/// Counting the digits lane by lane or the lanes digit by digit is the same.
proof fn lemma_double_count(v: Seq<u16>, n: nat)
    requires
        n <= v.len(),
        forall|k: int| 0 <= k < v.len() ==> #[trigger] v[k] <= ALL,
    ensures
        lanes_total(v, n) == sum_to(|d: int| lanes_with(v, d, n) as int, 9),
    decreases n,
{
    let f = |d: int| lanes_with(v, d, n) as int;
    if n == 0 {
        let z = |d: int| 0int;
        lemma_sum_const(0, 9);
        lemma_sum_le(f, z, 9);
        lemma_sum_le(z, f, 9);
    } else {
        lemma_double_count(v, (n - 1) as nat);
        let h = |d: int| lanes_with(v, d, (n - 1) as nat) as int;
        assert(v[n - 1] <= ALL);
        let p = |d: int| bit16(v[n - 1], d);
        lemma_pop9(v[n - 1]);
        assert forall|d: int| 0 <= d < 9 implies #[trigger] f(d) == h(d) + if p(d) {
            1int
        } else {
            0
        } by {}
        lemma_sum_add(f, h, p, 9);
    }
}

/// The two padding lanes of a band count nothing.
proof fn lemma_six_lanes(cfg: Seq<u16>, d: int)
    requires
        cfg_ok(cfg),
    ensures
        lanes_with(cfg, d, 8) == lanes_with(cfg, d, 6),
{
    reveal_with_fuel(count, 3);
    assert(!bit16(cfg[6], d) && !bit16(cfg[7], d));
}

/// A band with ten configurations or more has a digit with two or more.
pub proof fn lemma_undecided_digit(cfg: Seq<u16>) -> (d: int)
    requires
        cfg_ok(cfg),
        lanes_total(cfg, 8) >= 10,
    ensures
        0 <= d < 9,
        lanes_with(cfg, d, 6) >= 2,
{
    let f = |d: int| lanes_with(cfg, d, 8) as int;
    lemma_double_count(cfg, 8);
    if forall|d: int| 0 <= d < 9 ==> #[trigger] lanes_with(cfg, d, 6) < 2 {
        let h = |d: int| 1int;
        assert forall|d: int| 0 <= d < 9 implies #[trigger] f(d) <= h(d) by {
            lemma_six_lanes(cfg, d);
            assert(lanes_with(cfg, d, 6) < 2);
        }
        lemma_sum_le(f, h, 9);
        lemma_sum_const(1, 9);
    }
    choose|d: int| 0 <= d < 9 && #[trigger] lanes_with(cfg, d, 6) >= 2
}

/// The negative triads of a box peer, by element.
pub open spec fn margins(l: Seq<u16>, v: int) -> Seq<u16> {
    if v == 0 {
        seq![l[3], l[7], l[11]]
    } else {
        seq![l[12], l[13], l[14]]
    }
}

/// Lane of the negative triad `e`.
pub open spec fn margin_lane(v: int, e: int) -> int {
    if v == 0 {
        4 * e + 3
    } else {
        12 + e
    }
}

/// A digit is in at most twice as many negative triads as it has
/// configurations.
proof fn lemma_margin_bound(cfg: Seq<u16>, m: Seq<u16>, p: int, d: int)
    requires
        cfg_ok(cfg),
        0 <= p < 3,
        m.len() == 3,
        forall|e: int|
            0 <= e < 3 && #[trigger] bit16(m[e], d) ==> bit16(triad_set(cfg, p, (e + 1) % 3), d)
                || bit16(triad_set(cfg, p, (e + 2) % 3), d),
    ensures
        lanes_with(m, d, 3) <= 2 * lanes_with(cfg, d, 6),
        lanes_with(m, d, 3) <= 3,
{
    let f = |e: int| bit16(m[e], d);
    let h = |k: int| bit16(cfg[k], d);
    lemma_count_mono(f, f, 3);
    let kd = lanes_with(cfg, d, 6);
    if kd == 0 {
        if lanes_with(m, d, 3) >= 1 {
            let e = lemma_count_witness(f, 3);
            assert(bit16(m[e], d));
            lemma_triad_set(cfg, p, (e + 1) % 3, d);
            lemma_triad_set(cfg, p, (e + 2) % 3, d);
            let x = if bit16(triad_set(cfg, p, (e + 1) % 3), d) {
                (e + 1) % 3
            } else {
                (e + 2) % 3
            };
            let k = choose|k: int|
                0 <= k < 6 && config_elem(k, p) == x && #[trigger] bit16(cfg[k], d);
            lemma_count_some(h, 6, k);
        }
    } else if kd == 1 {
        let k = lemma_count_witness(h, 6);
        assert(h(k));
        let e = config_elem(k, p);
        lemma_config_range(k, p);
        lemma_triad_set(cfg, p, (e + 1) % 3, d);
        lemma_triad_set(cfg, p, (e + 2) % 3, d);
        assert(!bit16(m[e], d)) by {
            if bit16(m[e], d) {
                let x = if bit16(triad_set(cfg, p, (e + 1) % 3), d) {
                    (e + 1) % 3
                } else {
                    (e + 2) % 3
                };
                let j = choose|j: int|
                    0 <= j < 6 && config_elem(j, p) == x && #[trigger] bit16(cfg[j], d);
                assert(h(j));
                assert(j != k);
                lemma_count_lone(h, 6, k, j);
            }
        }
        reveal_with_fuel(count, 4);
        assert(!f(e));
    }
}

/// In a decided band with met minimums every digit has exactly one
/// configuration, and the negative triads hold exactly what they should.
pub proof fn lemma_band_fixed(cfg: Seq<u16>, l: Seq<u16>, v: int, p: int)
    requires
        cfg_ok(cfg),
        lanes_total(cfg, 8) <= 9,
        0 <= v < 2,
        0 <= p < 3,
        box_ok(l),
        min_ok(l),
        within_band(l, cfg, v, p),
    ensures
        forall|d: int| 0 <= d < 9 ==> #[trigger] lanes_with(cfg, d, 6) == 1,
        forall|k: int, e: int, d: int|
            0 <= k < 6 && 0 <= d < 9 && #[trigger] bit16(cfg[k], d) && 0 <= e < 3 ==> (
            #[trigger] bit16(l[margin_lane(v, e)], d) <==> e != config_elem(k, p)),
{
    let m = margins(l, v);
    let t = triad_row(cfg, p);
    assert forall|e: int| 0 <= e < 3 implies #[trigger] m[e] == l[margin_lane(v, e)] && m[e] <= ALL
        && pop16(m[e]) >= 6 by {
        let i = margin_lane(v, e);
        assert(m[e] == l[i]);
        assert(l[i] <= ALL);
        assert(pop16(l[i]) >= BOX_MINIMUMS[i]);
        assert(BOX_MINIMUMS[i] == 6);
    }
    assert forall|e: int, d: int| 0 <= e < 3 && #[trigger] bit16(m[e], d) implies bit16(
        triad_set(cfg, p, (e + 1) % 3),
        d,
    ) || bit16(triad_set(cfg, p, (e + 2) % 3), d) by {
        let i = margin_lane(v, e);
        assert(bit16(l[i], d));
        assert(allowed(t, v, i, d));
        assert(i / 4 == e || v != 0);
        assert(i % 4 == e || v == 0);
    }
    let f = |d: int| lanes_with(m, d, 3) as int;
    let h = |d: int| lanes_with(cfg, d, 6) as int;
    let h8 = |d: int| lanes_with(cfg, d, 8) as int;
    let h2 = |d: int| 2 * h(d);
    lemma_double_count(m, 3);
    lemma_double_count(cfg, 8);
    reveal_with_fuel(lanes_total, 4);
    assert(m[0] == l[margin_lane(v, 0)] && m[1] == l[margin_lane(v, 1)] && m[2] == l[margin_lane(
        v,
        2,
    )]);
    assert(sum_to(f, 9) >= 18);
    assert forall|d: int| 0 <= d < 9 implies #[trigger] h(d) <= h8(d) by {
        lemma_six_lanes(cfg, d);
    }
    lemma_sum_le(h, h8, 9);
    lemma_sum_scaled(h, 2, 9);
    assert(sum_to(h2, 9) == 2 * sum_to(h, 9));
    assert forall|d: int| 0 <= d < 9 implies #[trigger] f(d) <= h2(d) by {
        lemma_margin_bound(cfg, m, p, d);
    }
    lemma_sum_le(f, h2, 9);
    assert(sum_to(h, 9) == 9);
    let one = |d: int| 1int;
    lemma_sum_const(1, 9);
    assert forall|d: int| 0 <= d < 9 implies #[trigger] h(d) <= one(d) && f(d) == h2(d) by {
        lemma_sum_tight(f, h2, 9, d);
        lemma_margin_bound(cfg, m, p, d);
    }
    assert forall|d: int| 0 <= d < 9 implies #[trigger] lanes_with(cfg, d, 6) == 1 by {
        lemma_sum_tight(h, one, 9, d);
    }
    assert forall|k: int, e: int, d: int|
        0 <= k < 6 && 0 <= d < 9 && #[trigger] bit16(cfg[k], d) && 0 <= e < 3 implies (
    #[trigger] bit16(l[margin_lane(v, e)], d) <==> e != config_elem(k, p)) by {
        let x = config_elem(k, p);
        lemma_config_range(k, p);
        assert(lanes_with(cfg, d, 6) == 1);
        assert(h(d) == 1 && f(d) == h2(d));
        assert(lanes_with(m, d, 3) == 2);
        let q = |j: int| bit16(cfg[j], d);
        let s = |j: int| bit16(m[j], d);
        assert(!bit16(m[x], d)) by {
            if bit16(m[x], d) {
                lemma_triad_set(cfg, p, (x + 1) % 3, d);
                lemma_triad_set(cfg, p, (x + 2) % 3, d);
                let y = if bit16(triad_set(cfg, p, (x + 1) % 3), d) {
                    (x + 1) % 3
                } else {
                    (x + 2) % 3
                };
                let j = choose|j: int|
                    0 <= j < 6 && config_elem(j, p) == y && #[trigger] bit16(cfg[j], d);
                assert(q(j) && q(k));
                lemma_count_lone(q, 6, k, j);
            }
        }
        assert(m[e] == l[margin_lane(v, e)]);
        if e != x && !bit16(m[e], d) {
            reveal_with_fuel(count, 4);
            assert(!s(e) && !s(x));
            assert(count(s, 3) <= 1);
        }
    }
}

// ---------------------------------------------------------------------------
// The grid of a decided state
// ---------------------------------------------------------------------------

/// Nothing is left to decide or to pass on.
pub open spec fn decided(s: TState) -> bool {
    &&& s.ok()
    &&& corners(s)
    &&& forall|x: int| 0 <= x < 9 ==> min_ok(#[trigger] s.boxen[x].lanes@)
    &&& forall|i: int|
        0 <= i < 6 ==> #[trigger] s.linked(i) && s.resolved(i) && lanes_total(
            s.bands[i].configurations.lanes@,
            8,
        ) <= 9
}

/// The configuration of digit `d` in band `i`.
spec fn config_of(s: TState, i: int, d: int) -> int {
    choose|k: int| 0 <= k < 6 && #[trigger] bit16(s.bands[i].configurations.lanes@[k], d)
}

/// Row of digit `d` in box `x`.
spec fn row_in(s: TState, x: int, d: int) -> int {
    config_elem(config_of(s, x / 3, d), x % 3)
}

/// Column of digit `d` in box `x`.
spec fn col_in(s: TState, x: int, d: int) -> int {
    config_elem(config_of(s, 3 + x % 3, d), x / 3)
}

/// The only configuration of a digit in a decided band.
proof fn lemma_config_of(s: TState, i: int, d: int)
    requires
        decided(s),
        0 <= i < 6,
        0 <= d < 9,
    ensures
        0 <= config_of(s, i, d) < 6,
        bit16(s.bands[i].configurations.lanes@[config_of(s, i, d)], d),
        forall|k: int|
            0 <= k < 6 && #[trigger] bit16(s.bands[i].configurations.lanes@[k], d) ==> k
                == config_of(s, i, d),
{
    let cfg = s.bands[i].configurations.lanes@;
    let x = peer_box(i / 3, i % 3, 0);
    assert(0 <= x < 9);
    assert(s.linked(i));
    assert(cfg_ok(cfg));
    assert(within_band(s.boxen[peer_box(i / 3, i % 3, 0)].lanes@, cfg, i / 3, 0));
    assert(box_ok(s.boxen[x].lanes@) && min_ok(s.boxen[x].lanes@));
    lemma_band_fixed(cfg, s.boxen[x].lanes@, i / 3, 0);
    assert(lanes_with(cfg, d, 6) == 1);
    let q = |k: int| bit16(cfg[k], d);
    let w = lemma_count_witness(q, 6);
    assert(bit16(cfg[w], d));
    let k0 = config_of(s, i, d);
    assert forall|k: int| 0 <= k < 6 && #[trigger] bit16(cfg[k], d) implies k == k0 by {
        if k != k0 {
            assert(q(k) && q(k0));
            lemma_count_lone(q, 6, k0, k);
        }
    }
}

/// A digit in a cell lane has its position there.
proof fn lemma_position(s: TState, x: int, r: int, c: int, d: int)
    requires
        decided(s),
        0 <= x < 9,
        0 <= r < 3,
        0 <= c < 3,
        0 <= d < 9,
        bit16(s.boxen[x].lanes@[4 * r + c], d),
    ensures
        row_in(s, x, d) == r,
        col_in(s, x, d) == c,
{
    let (bi, bj) = (x / 3, x % 3);
    let lane = 4 * r + c;
    let l = s.boxen[x].lanes@;
    assert(lane / 4 == r && lane % 4 == c);
    let h = s.bands[bi].configurations.lanes@;
    let v = s.bands[3 + bj].configurations.lanes@;
    assert(s.linked(bi) && s.linked(3 + bj));
    assert(bi / 3 == 0 && bi % 3 == bi && (3 + bj) / 3 == 1 && (3 + bj) % 3 == bj);
    assert(peer_box(0, bi, bj) == x && peer_box(1, bj, bi) == x);
    assert(within_band(s.boxen[peer_box(0, bi, bj)].lanes@, h, 0, bj));
    assert(within_band(s.boxen[peer_box(1, bj, bi)].lanes@, v, 1, bi));
    assert(allowed(triad_row(h, bj), 0, lane, d));
    assert(allowed(triad_row(v, bi), 1, lane, d));
    assert(bit16(triad_set(h, bj, r), d));
    assert(bit16(triad_set(v, bi, c), d));
    lemma_triad_set(h, bj, r, d);
    lemma_triad_set(v, bi, c, d);
    lemma_config_of(s, bi, d);
    lemma_config_of(s, 3 + bj, d);
}

/// Position of a digit in its box, as one number.
spec fn position(s: TState, x: int) -> spec_fn(int) -> int {
    |d: int| 3 * row_in(s, x, d) + col_in(s, x, d)
}

/// Lane `i` holds a digit.
spec fn filled(l: Seq<u16>, i: int) -> bool {
    exists|d: int| 0 <= d < 9 && #[trigger] bit16(l[i], d)
}

/// Different digits have different positions in a box, and every cell lane
/// holds exactly the digit of its position.
proof fn lemma_cells_single(s: TState, x: int)
    requires
        decided(s),
        0 <= x < 9,
    ensures
        forall|r: int, c: int, d: int|
            0 <= r < 3 && 0 <= c < 3 && 0 <= d < 9 ==> (#[trigger] bit16(
                s.boxen[x].lanes@[4 * r + c],
                d,
            ) <==> row_in(s, x, d) == r && col_in(s, x, d) == c),
        forall|a: int, b: int|
            0 <= a < 9 && 0 <= b < 9 && #[trigger] position(s, x)(a) == #[trigger] position(s, x)(b)
                ==> a == b,
        forall|r: int, c: int|
            0 <= r < 3 && 0 <= c < 3 ==> #[trigger] filled(s.boxen[x].lanes@, 4 * r + c),
{
    let f = position(s, x);
    let l = s.boxen[x].lanes@;
    assert(box_ok(l) && min_ok(l));
    assert forall|d: int| 0 <= d < 9 implies 0 <= #[trigger] f(d) < 9 && 0 <= row_in(s, x, d) < 3
        && 0 <= col_in(s, x, d) < 3 by {
        lemma_config_of(s, x / 3, d);
        lemma_config_of(s, 3 + x % 3, d);
        lemma_config_range(config_of(s, x / 3, d), x % 3);
        lemma_config_range(config_of(s, 3 + x % 3, d), x / 3);
    }
    assert forall|r: int, c: int| 0 <= r < 3 && 0 <= c < 3 implies #[trigger] filled(
        l,
        4 * r + c,
    ) by {
        let i = 4 * r + c;
        assert(l[i] <= ALL);
        assert(pop16(l[i]) >= BOX_MINIMUMS[i]);
        assert(BOX_MINIMUMS[i] == 1);
        let q = |d: int| bit16(l[i], d);
        lemma_pop9(l[i]);
        let d = lemma_count_witness(q, 9);
        assert(bit16(l[i], d));
    }
    assert forall|y: int| 0 <= y < 9 implies #[trigger] reaches(f, 9, y) by {
        let (r, c) = (y / 3, y % 3);
        assert(filled(l, 4 * r + c));
        let d = choose|d: int| 0 <= d < 9 && #[trigger] bit16(l[4 * r + c], d);
        lemma_position(s, x, r, c, d);
        assert(f(d) == y);
    }
    assert forall|a: int, b: int| 0 <= a < 9 && 0 <= b < 9 && #[trigger] f(a) == #[trigger] f(
        b,
    ) implies a == b by {
        if a != b {
            lemma_onto_is_injective(f, 9, a, b);
        }
    }
    assert forall|r: int, c: int, d: int| 0 <= r < 3 && 0 <= c < 3 && 0 <= d < 9 implies (
    #[trigger] bit16(l[4 * r + c], d) <==> row_in(s, x, d) == r && col_in(s, x, d) == c) by {
        if bit16(l[4 * r + c], d) {
            lemma_position(s, x, r, c, d);
        }
        if row_in(s, x, d) == r && col_in(s, x, d) == c {
            assert(filled(l, 4 * r + c));
            let e = choose|e: int| 0 <= e < 9 && #[trigger] bit16(l[4 * r + c], e);
            lemma_position(s, x, r, c, e);
            assert(f(d) == f(e));
        }
    }
}

/// Box, row and column of a cell.
pub open spec fn box_lane(c: int) -> (int, int, int) {
    (3 * (c / 27) + (c % 9) / 3, (c / 9) % 3, c % 3)
}

pub proof fn lemma_box_lane(c: int)
    requires
        0 <= c < 81,
    ensures
        0 <= box_lane(c).0 < 9,
        0 <= box_lane(c).1 < 3,
        0 <= box_lane(c).2 < 3,
        cell_at(box_lane(c).0, box_lane(c).1, box_lane(c).2) == c,
        box_lane(c).0 == box_of(c),
        box_lane(c).0 / 3 == c / 27,
        box_lane(c).0 % 3 == (c % 9) / 3,
{
    assert(c / 27 == (c / 9) / 3);
    assert((c % 9) % 3 == c % 3);
}

pub proof fn lemma_box_lane_back(x: int, r: int, c: int)
    requires
        0 <= x < 9,
        0 <= r < 3,
        0 <= c < 3,
    ensures
        box_lane(cell_at(x, r, c)) == (x, r, c),
{
    lemma_cell_at(x, r, c);
    let e = cell_at(x, r, c);
    assert(e / 27 == x / 3);
    assert((e / 9) % 3 == r);
    assert(e % 3 == c);
}

/// The digit of a cell in a decided state.
spec fn digit_of(s: TState, c: int) -> int {
    let (x, r, q) = box_lane(c);
    choose|d: int| 0 <= d < 9 && #[trigger] bit16(s.boxen[x].lanes@[4 * r + q], d)
}

/// The boxes spell out grid `g`.
pub open spec fn spells(s: TState, g: Seq<u8>) -> bool {
    &&& g.len() == 81
    &&& forall|x: int, r: int, c: int, d: int|
        0 <= x < 9 && 0 <= r < 3 && 0 <= c < 3 && 0 <= d < 9 ==> (#[trigger] bit16(
            s.boxen[x].lanes@[4 * r + c],
            d,
        ) <==> g[cell_at(x, r, c)] == d + 1)
}

proof fn lemma_spelled(s: TState) -> (g: Seq<u8>)
    requires
        decided(s),
    ensures
        spells(s, g),
        forall|c: int| 0 <= c < 81 ==> 1 <= #[trigger] g[c] <= 9,
        forall|c: int|
            0 <= c < 81 ==> {
                &&& row_in(s, box_lane(c).0, #[trigger] g[c] - 1) == box_lane(c).1
                &&& col_in(s, box_lane(c).0, g[c] - 1) == box_lane(c).2
            },
{
    let g = Seq::new(81, |c: int| (digit_of(s, c) + 1) as u8);
    assert forall|c: int| 0 <= c < 81 implies 1 <= #[trigger] g[c] <= 9 && row_in(
        s,
        box_lane(c).0,
        g[c] - 1,
    ) == box_lane(c).1 && col_in(s, box_lane(c).0, g[c] - 1) == box_lane(c).2 by {
        lemma_box_lane(c);
        let (x, r, q) = box_lane(c);
        lemma_cells_single(s, x);
        let d = digit_of(s, c);
        assert(filled(s.boxen[x].lanes@, 4 * r + q));
        assert(0 <= d < 9 && bit16(s.boxen[x].lanes@[4 * r + q], d));
        assert(g[c] == d + 1);
    }
    assert forall|x: int, r: int, c: int, d: int|
        0 <= x < 9 && 0 <= r < 3 && 0 <= c < 3 && 0 <= d < 9 implies (#[trigger] bit16(
        s.boxen[x].lanes@[4 * r + c],
        d,
    ) <==> g[cell_at(x, r, c)] == d + 1) by {
        let e = cell_at(x, r, c);
        lemma_cell_at(x, r, c);
        lemma_box_lane_back(x, r, c);
        lemma_cells_single(s, x);
        let y = g[e] - 1;
        assert(row_in(s, x, y) == r && col_in(s, x, y) == c);
        if bit16(s.boxen[x].lanes@[4 * r + c], d) {
            assert(position(s, x)(d) == position(s, x)(y));
        }
    }
    g
}

/// A configuration gives different peers different elements.
proof fn lemma_config_spread(k: int, p: int, q: int)
    requires
        0 <= k < 6,
        0 <= p < 3,
        0 <= q < 3,
        p != q,
    ensures
        config_elem(k, p) != config_elem(k, q),
{
}

proof fn lemma_spelled_grid(s: TState, g: Seq<u8>)
    requires
        decided(s),
        g.len() == 81,
        forall|c: int| 0 <= c < 81 ==> 1 <= #[trigger] g[c] <= 9,
        forall|c: int|
            0 <= c < 81 ==> {
                &&& row_in(s, box_lane(c).0, #[trigger] g[c] - 1) == box_lane(c).1
                &&& col_in(s, box_lane(c).0, g[c] - 1) == box_lane(c).2
            },
    ensures
        is_grid(g),
{
    assert forall|a: int, b: int| 0 <= a < 81 && 0 <= b < 81 && peers(a, b) implies #[trigger] g[a]
        != #[trigger] g[b] by {
        if g[a] == g[b] {
            let d = g[a] - 1;
            lemma_box_lane(a);
            lemma_box_lane(b);
            let (x, r, c) = box_lane(a);
            let (y, q, e) = box_lane(b);
            assert(row_in(s, x, d) == r && col_in(s, x, d) == c);
            assert(row_in(s, y, d) == q && col_in(s, y, d) == e);
            if x == y {
                assert(r == q && c == e);
                assert(a == b);
            } else if a / 9 == b / 9 {
                assert(a / 27 == b / 27) by {
                    assert(a / 27 == (a / 9) / 3 && b / 27 == (b / 9) / 3);
                }
                assert(x / 3 == y / 3);
                lemma_config_of(s, x / 3, d);
                lemma_config_spread(config_of(s, x / 3, d), x % 3, y % 3);
            } else {
                assert(a % 9 == b % 9);
                assert(x % 3 == y % 3);
                assert(c == e) by {
                    assert((a % 9) % 3 == a % 3 && (b % 9) % 3 == b % 3);
                }
                lemma_config_of(s, 3 + x % 3, d);
                lemma_config_spread(config_of(s, 3 + x % 3, d), x / 3, y / 3);
            }
        }
    }
    reveal(is_grid);
}

/// In the spelled grid a digit is in the row and column of its box that its
/// configurations say.
proof fn lemma_spelled_triads(s: TState, g: Seq<u8>, x: int, d: int)
    requires
        decided(s),
        spells(s, g),
        is_grid(g),
        0 <= x < 9,
        0 <= d < 9,
    ensures
        forall|r: int| 0 <= r < 3 ==> (#[trigger] in_row(g, x, r, d) <==> row_in(s, x, d) == r),
        forall|c: int| 0 <= c < 3 ==> (#[trigger] in_col(g, x, c, d) <==> col_in(s, x, d) == c),
{
    lemma_cells_single(s, x);
    lemma_config_of(s, x / 3, d);
    lemma_config_of(s, 3 + x % 3, d);
    lemma_config_range(config_of(s, x / 3, d), x % 3);
    lemma_config_range(config_of(s, 3 + x % 3, d), x / 3);
    let (r0, c0) = (row_in(s, x, d), col_in(s, x, d));
    assert(bit16(s.boxen[x].lanes@[4 * r0 + c0], d));
    assert(g[cell_at(x, r0, c0)] == d + 1);
    let rr = lemma_row_of(g, x, d);
    let cc = lemma_col_of(g, x, d);
    assert(in_row(g, x, r0, d)) by {
        if c0 == 0 {
        } else if c0 == 1 {
        } else {
            assert(c0 == 2);
        }
    }
    assert(in_col(g, x, c0, d)) by {
        if r0 == 0 {
        } else if r0 == 1 {
        } else {
            assert(r0 == 2);
        }
    }
}

/// The boxes of a decided state keep the grid that they spell.
proof fn lemma_spelled_boxes(s: TState, g: Seq<u8>, x: int)
    requires
        decided(s),
        spells(s, g),
        is_grid(g),
        0 <= x < 9,
    ensures
        box_holds(s.boxen[x].lanes@, g, x),
{
    let l = s.boxen[x].lanes@;
    let (bi, bj) = (x / 3, x % 3);
    assert(box_ok(l) && min_ok(l));
    assert(bi / 3 == 0 && bi % 3 == bi && (3 + bj) / 3 == 1 && (3 + bj) % 3 == bj);
    assert(peer_box(0, bi, bj) == x && peer_box(1, bj, bi) == x);
    let h = s.bands[bi].configurations.lanes@;
    let v = s.bands[3 + bj].configurations.lanes@;
    assert(s.linked(bi) && s.linked(3 + bj));
    assert(cfg_ok(h) && cfg_ok(v));
    assert(within_band(s.boxen[peer_box(0, bi, bj)].lanes@, h, 0, bj));
    assert(within_band(s.boxen[peer_box(1, bj, bi)].lanes@, v, 1, bi));
    lemma_band_fixed(h, l, 0, bj);
    lemma_band_fixed(v, l, 1, bi);
    lemma_low_masks16();
    assert forall|lane: int, d: int|
        0 <= lane < 16 && 0 <= d < 9 && #[trigger] lit(g, x, lane, d) implies bit16(l[lane], d) by {
        let (r, c) = (lane / 4, lane % 4);
        assert(lane == 4 * r + c);
        lemma_spelled_triads(s, g, x, d);
        lemma_config_of(s, bi, d);
        lemma_config_of(s, 3 + bj, d);
        if r < 3 && c < 3 {
            assert(bit16(s.boxen[x].lanes@[4 * r + c], d) <==> g[cell_at(x, r, c)] == d + 1);
        } else if r < 3 {
            assert(row_in(s, x, d) != r);
            assert(margin_lane(0, r) == lane);
            assert(bit16(h[config_of(s, bi, d)], d));
            assert(bit16(l[margin_lane(0, r)], d));
        } else if c < 3 {
            assert(col_in(s, x, d) != c);
            assert(margin_lane(1, c) == lane);
            assert(bit16(v[config_of(s, 3 + bj, d)], d));
            assert(bit16(l[margin_lane(1, c)], d));
        } else {
            assert(s.boxen[x].lanes@[15] == ALL);
        }
    }
}

/// The bands of a decided state keep the grid that the boxes spell.
proof fn lemma_spelled_bands(s: TState, g: Seq<u8>, i: int)
    requires
        decided(s),
        spells(s, g),
        is_grid(g),
        0 <= i < 6,
    ensures
        band_holds(s.bands[i], g, i / 3, i % 3),
{
    let (v, b) = (i / 3, i % 3);
    let cfg = s.bands[i].configurations.lanes@;
    assert(s.resolved(i)) by {
        assert(s.linked(i));
    }
    assert forall|k: int, d: int| 0 <= d < 9 && #[trigger] conf(g, v, b, k, d) implies bit16(
        s.bands[i].configurations.lanes[k],
        d,
    ) && !bit16(s.bands[i].eliminations.lanes[k], d) by {
        let k0 = config_of(s, i, d);
        lemma_config_of(s, i, d);
        lemma_config_range(k, 0);
        lemma_config_range(k, 1);
        let (x, y) = (peer_box(v, b, 0), peer_box(v, b, 1));
        assert(0 <= x < 9 && 0 <= y < 9);
        lemma_spelled_triads(s, g, x, d);
        lemma_spelled_triads(s, g, y, d);
        if v == 0 {
            assert(x / 3 == b && x % 3 == 0 && y / 3 == b && y % 3 == 1);
            assert(in_row(g, x, config_elem(k, 0), d) && in_row(g, y, config_elem(k, 1), d));
        } else {
            assert(x % 3 == b && x / 3 == 0 && y % 3 == b && y / 3 == 1);
            assert(in_col(g, x, config_elem(k, 0), d) && in_col(g, y, config_elem(k, 1), d));
        }
        lemma_config_once(k, k0);
        assert(bit16(cfg[k], d));
    }
}

/// A decided state keeps exactly one grid, the one that its boxes spell.
pub proof fn lemma_decided(s: TState) -> (g: Seq<u8>)
    requires
        decided(s),
    ensures
        spells(s, g),
        is_grid(g),
        s.grids().contains(g),
        s.grids().len() == 1,
{
    let g = lemma_spelled(s);
    lemma_spelled_grid(s, g);
    lemma_grid_facts(g);
    assert forall|x: int| 0 <= x < 9 implies box_holds(#[trigger] s.boxen[x].lanes@, g, x) by {
        lemma_spelled_boxes(s, g, x);
    }
    assert forall|i: int| 0 <= i < 6 implies band_holds(#[trigger] s.bands[i], g, i / 3, i % 3) by {
        lemma_spelled_bands(s, g, i);
    }
    assert forall|h: Seq<u8>| #[trigger] s.grids().contains(h) implies h == g by {
        lemma_grid_facts(h);
        assert forall|c: int| 0 <= c < 81 implies h[c] == g[c] by {
            lemma_box_lane(c);
            let (x, r, q) = box_lane(c);
            assert(box_holds(s.boxen[x].lanes@, h, x));
            let lane = 4 * r + q;
            assert(lane / 4 == r && lane % 4 == q);
            let d = h[c] - 1;
            assert(lit(h, x, lane, d));
            assert(bit16(s.boxen[x].lanes@[4 * r + q], d));
        }
        assert(h =~= g);
    }
    lemma_only(s.grids(), g);
    g
}

} // verus!
