//! Depth-first search over the states of the triad engine. A branch commits a
//! digit to its lowest remaining configuration in a band, or rules that
//! configuration out.

use vstd::prelude::*;
use crate::bits::{
    bit16, count, group_bits16, lemma_count_second, lemma_count_witness, lemma_nonzero16,
};
use crate::grid::{capped, grids, lemma_none, lemma_split};
use crate::triad::bands::{
    band_eliminate, lemma_linked_below, lemma_measure, measure, settles, step,
};
use crate::triad::boxes::{
    band_holds, barren, below, box_holds, box_ok, cfg_ok, corners, lemma_same_grids, min_ok, sub16,
    Band, TState,
};
use crate::triad::course::{join, node, Node};
use crate::triad::leaf::{decided, lanes_with, lemma_decided, lemma_undecided_digit, spells};
use crate::triad::model::{
    conf, lemma_conf_of,
};
use crate::triad::order::{
    all_fixed, branched, leading, lemma_branch_words, lemma_leading, lemma_smallest, sought,
};
use crate::tvec::{
    adjusted, band_config_counts, c8, cleared_at, is_control, is_selector, lanes_total, least_at,
    selector_lane, C8, S0, S1, S2, S3, S4, S5, XX,
};

verus! {

broadcast use group_bits16;

/// No band is left to branch on.
pub const NONE: u32 = 0xFFFF_FFFF;

/// Rotates the six configuration lanes.
pub const CONFIG_ROTATE: [u16; 8] = [S1, S2, S3, S4, S5, S0, XX, XX];

/// The mask names one digit in all six configuration lanes, a digit with two
/// configurations or more, and with `pair` exactly two.
pub open spec fn names_digit(cfg: Seq<u16>, mask: Seq<u16>, pair: bool, v: int) -> bool {
    &&& 0 <= v < 9
    &&& forall|k: int, d: int| 0 <= k < 6 ==> (#[trigger] bit16(mask[k], d) <==> d == v)
    &&& forall|k: int, d: int| 6 <= k < 8 ==> !#[trigger] bit16(mask[k], d)
    &&& lanes_with(cfg, v, 6) >= 2
    &&& pair <==> lanes_with(cfg, v, 6) == 2
}

/// How a digit with `n` configurations ranks: two before three before more.
pub open spec fn rank(n: nat) -> int {
    if n == 2 {
        0
    } else if n == 3 {
        1
    } else {
        2
    }
}

/// Digit `v` is the first of the best rank among those with two
/// configurations or more.
pub open spec fn preferred(cfg: Seq<u16>, v: int) -> bool {
    forall|d: int|
        0 <= d < 9 && #[trigger] lanes_with(cfg, d, 6) >= 2 ==> rank(lanes_with(cfg, v, 6)) < rank(
            lanes_with(cfg, d, 6),
        ) || (rank(lanes_with(cfg, v, 6)) == rank(lanes_with(cfg, d, 6)) && v <= d)
}

/// Band `b` is the first of the undecided bands with the fewest
/// configurations.
pub open spec fn first_smallest(s: TState, b: int) -> bool {
    &&& 0 <= b < 6
    &&& lanes_total(s.bands[b].configurations.lanes@, 8) > 9
    &&& forall|i: int|
        0 <= i < 6 && lanes_total(#[trigger] s.bands[i].configurations.lanes@, 8) > 9 ==> {
            &&& lanes_total(s.bands[b].configurations.lanes@, 8) <= lanes_total(
                s.bands[i].configurations.lanes@,
                8,
            )
            &&& i < b ==> lanes_total(s.bands[b].configurations.lanes@, 8) < lanes_total(
                s.bands[i].configurations.lanes@,
                8,
            )
        }
}

/// How many of the `n` lanes from lane `i` on, cyclically, hold digit `d`.
spec fn run_with(cfg: Seq<u16>, i: int, d: int, n: nat) -> nat {
    count(|j: int| bit16(cfg[(i + j) % 6], d), n)
}

/// All six lanes from any lane on are all six lanes.
proof fn lemma_full_run(cfg: Seq<u16>, i: int, d: int)
    requires
        0 <= i < 6,
    ensures
        run_with(cfg, i, d, 6) == lanes_with(cfg, d, 6),
{
    reveal_with_fuel(count, 7);
    if i == 0 {
    } else if i == 1 {
    } else if i == 2 {
    } else if i == 3 {
    } else if i == 4 {
    } else {
        assert(i == 5);
    }
}

/// The lanes of `v` hold exactly the digits that `n` lanes or more of `cfg`
/// hold, counting from each lane over the next `m`.
spec fn at_least(cfg: Seq<u16>, v: Seq<u16>, n: nat, m: nat) -> bool {
    &&& forall|i: int, d: int|
        0 <= i < 6 ==> (#[trigger] bit16(v[i], d) <==> run_with(cfg, i, d, m) >= n)
    &&& forall|i: int, d: int| 6 <= i < 8 ==> !#[trigger] bit16(v[i], d)
}

/// Digits by how many configurations they have: at least two, three, four.
fn config_ladder(configurations: C8) -> (r: (C8, C8, C8))
    requires
        cfg_ok(configurations.lanes@),
    ensures
        forall|i: int, d: int|
            0 <= i < 6 ==> (#[trigger] bit16(r.0.lanes[i], d) <==> lanes_with(
                configurations.lanes@,
                d,
                6,
            ) >= 2),
        forall|i: int, d: int|
            0 <= i < 6 ==> (#[trigger] bit16(r.1.lanes[i], d) <==> lanes_with(
                configurations.lanes@,
                d,
                6,
            ) >= 3),
        forall|i: int, d: int|
            0 <= i < 6 ==> (#[trigger] bit16(r.2.lanes[i], d) <==> lanes_with(
                configurations.lanes@,
                d,
                6,
            ) >= 4),
        forall|i: int, d: int| 6 <= i < 8 ==> !(#[trigger] bit16(r.0.lanes[i], d)),
        forall|i: int, d: int| 6 <= i < 8 ==> !(#[trigger] bit16(r.1.lanes[i], d)),
        forall|i: int, d: int| 6 <= i < 8 ==> !(#[trigger] bit16(r.2.lanes[i], d)),
{
    let ctrl = c8(&CONFIG_ROTATE);
    let ghost cfg = configurations.lanes@;
    proof {
        assert forall|i: int| 0 <= i < 8 implies is_selector(#[trigger] CONFIG_ROTATE@[i]) by {}
        assert(is_control(ctrl.lanes@));
    }
    let mut one = configurations;
    let mut two = C8::zero();
    let mut three = C8::zero();
    let mut four = C8::zero();
    let mut rotated = configurations;
    let mut n: usize = 1;
    proof {
        reveal_with_fuel(count, 2);
        assert(at_least(cfg, one.lanes@, 1, 1));
        assert(at_least(cfg, two.lanes@, 2, 1));
        assert(at_least(cfg, three.lanes@, 3, 1));
        assert(at_least(cfg, four.lanes@, 4, 1));
    }
    while n < 6
        invariant
            1 <= n <= 6,
            cfg == configurations.lanes@,
            cfg_ok(cfg),
            ctrl.lanes == CONFIG_ROTATE,
            is_control(ctrl.lanes@),
            forall|i: int| 0 <= i < 6 ==> #[trigger] rotated.lanes[i] == cfg[(i + n - 1) % 6],
            at_least(cfg, one.lanes@, 1, n as nat),
            at_least(cfg, two.lanes@, 2, n as nat),
            at_least(cfg, three.lanes@, 3, n as nat),
            at_least(cfg, four.lanes@, 4, n as nat),
        decreases 6 - n,
    {
        let ghost (o0, t0, h0, f0) = (one.lanes@, two.lanes@, three.lanes@, four.lanes@);
        let ghost r0 = rotated.lanes@;
        rotated = rotated.shuffle(ctrl);
        four = four.or(three.and(rotated));
        three = three.or(two.and(rotated));
        two = two.or(one.and(rotated));
        one = one.or(rotated);
        proof {
            let r1 = rotated.lanes@;
            assert forall|i: int| 0 <= i < 6 implies #[trigger] r1[i] == cfg[(i + n) % 6] by {
                assert(selector_lane(CONFIG_ROTATE[i]) == (i + 1) % 6 && CONFIG_ROTATE[i] != XX);
                assert(r1[i] == r0[(i + 1) % 6]);
                assert(r0[(i + 1) % 6] == cfg[((i + 1) % 6 + n - 1) % 6]);
                assert(((i + 1) % 6 + n - 1) % 6 == (i + n) % 6);
            }
            assert(r1[6] == 0 && r1[7] == 0);
            let m = (n + 1) as nat;
            assert forall|i: int, d: int| 0 <= i < 6 implies #[trigger] run_with(cfg, i, d, m)
                == run_with(cfg, i, d, n as nat) + if bit16(r1[i], d) {
                1nat
            } else {
                0nat
            } by {
                assert(r1[i] == cfg[(i + n) % 6]);
            }
            assert forall|i: int, d: int| 0 <= i < 6 implies (#[trigger] bit16(four.lanes@[i], d)
                <==> run_with(cfg, i, d, m) >= 4) by {
                assert(four.lanes[i] == f0[i] | (h0[i] & r1[i]));
                assert(bit16(f0[i], d) <==> run_with(cfg, i, d, n as nat) >= 4);
                assert(bit16(h0[i], d) <==> run_with(cfg, i, d, n as nat) >= 3);
            }
            assert forall|i: int, d: int| 0 <= i < 6 implies (#[trigger] bit16(three.lanes@[i], d)
                <==> run_with(cfg, i, d, m) >= 3) by {
                assert(three.lanes[i] == h0[i] | (t0[i] & r1[i]));
                assert(bit16(h0[i], d) <==> run_with(cfg, i, d, n as nat) >= 3);
                assert(bit16(t0[i], d) <==> run_with(cfg, i, d, n as nat) >= 2);
            }
            assert forall|i: int, d: int| 0 <= i < 6 implies (#[trigger] bit16(two.lanes@[i], d)
                <==> run_with(cfg, i, d, m) >= 2) by {
                assert(two.lanes[i] == t0[i] | (o0[i] & r1[i]));
                assert(bit16(t0[i], d) <==> run_with(cfg, i, d, n as nat) >= 2);
                assert(bit16(o0[i], d) <==> run_with(cfg, i, d, n as nat) >= 1);
            }
            assert forall|i: int, d: int| 0 <= i < 6 implies (#[trigger] bit16(one.lanes@[i], d)
                <==> run_with(cfg, i, d, m) >= 1) by {
                assert(one.lanes[i] == o0[i] | r1[i]);
                assert(bit16(o0[i], d) <==> run_with(cfg, i, d, n as nat) >= 1);
            }
            assert forall|i: int, d: int| 6 <= i < 8 implies !(#[trigger] bit16(four.lanes@[i], d)) by {
                assert(four.lanes[i] == f0[i] | (h0[i] & r1[i]));
                assert(!bit16(f0[i], d) && !bit16(h0[i], d));
            }
            assert forall|i: int, d: int| 6 <= i < 8 implies !(#[trigger] bit16(
                three.lanes@[i],
                d,
            )) by {
                assert(three.lanes[i] == h0[i] | (t0[i] & r1[i]));
                assert(!bit16(h0[i], d) && !bit16(t0[i], d));
            }
            assert forall|i: int, d: int| 6 <= i < 8 implies !(#[trigger] bit16(two.lanes@[i], d)) by {
                assert(two.lanes[i] == t0[i] | (o0[i] & r1[i]));
                assert(!bit16(t0[i], d) && !bit16(o0[i], d));
            }
            assert forall|i: int, d: int| 6 <= i < 8 implies !(#[trigger] bit16(one.lanes@[i], d)) by {
                assert(one.lanes[i] == o0[i] | r1[i]);
                assert(!bit16(o0[i], d));
                assert(!bit16(0u16, d));
            }
        }
        n = n + 1;
    }
    proof {
        assert forall|i: int, d: int| 0 <= i < 6 implies #[trigger] run_with(cfg, i, d, 6)
            == lanes_with(cfg, d, 6) by {
            lemma_full_run(cfg, i, d);
        }
    }
    (two, three, four)
}

/// The lowest digit of a vector whose six lanes agree.
proof fn lemma_lowest_named(w: Seq<u16>, mask: Seq<u16>, p: spec_fn(int) -> bool) -> (v: int)
    requires
        w.len() == 8,
        forall|i: int, d: int| 0 <= i < 6 ==> (#[trigger] bit16(w[i], d) <==> p(d)),
        forall|i: int, d: int| 6 <= i < 8 ==> !#[trigger] bit16(w[i], d),
        exists|i: int| 0 <= i < 8 && #[trigger] w[i] != 0,
        forall|i: int, d: int|
            0 <= i < 8 ==> (#[trigger] bit16(mask[i], d) <==> bit16(w[i], d) && forall|e: int|
                0 <= e < d ==> !bit16(w[i], e)),
    ensures
        p(v),
        0 <= v < 16,
        forall|e: int| 0 <= e < v ==> !#[trigger] p(e),
        forall|k: int, d: int| 0 <= k < 6 ==> (#[trigger] bit16(mask[k], d) <==> d == v),
        forall|k: int, d: int| 6 <= k < 8 ==> !#[trigger] bit16(mask[k], d),
{
    let i = choose|i: int| 0 <= i < 8 && #[trigger] w[i] != 0;
    let x = lemma_nonzero16(w[i]);
    assert(i < 6);
    assert(p(x));
    assert(bit16(w[0], x));
    let v = lemma_nonzero16(w[0]);
    assert(p(v));
    assert forall|k: int, d: int| 0 <= k < 6 implies (#[trigger] bit16(mask[k], d) <==> d == v) by {
        if bit16(mask[k], d) {
            assert(p(d));
            assert(bit16(w[0], d));
            assert(bit16(w[k], v));
            if v < d {
                assert(0 <= v < d && bit16(w[k], v));
            }
            if d < v {
                assert(0 <= d < v && bit16(w[0], d));
            }
        }
        if d == v {
            assert(bit16(w[k], v));
            assert forall|e: int| 0 <= e < v implies !bit16(w[k], e) by {
                if bit16(w[k], e) {
                    assert(p(e));
                    assert(bit16(w[0], e));
                }
            }
        }
    }
    assert(bit16(mask[0], v));
    assert forall|e: int| 0 <= e < v implies !#[trigger] p(e) by {
        assert(!bit16(w[0], e));
    }
    v
}

/// Chooses the undecided band with the fewest configurations, then a digit in
/// it with the fewest, preferring two, then three, then more. Returns the
/// band, the digit as a mask in every configuration lane, and whether it has
/// exactly two configurations; or [`NONE`] with an empty mask.
pub fn choose_band_and_value(state: &TState) -> (r: (u32, C8, bool))
    requires
        state.ok(),
    ensures
        r.0 == NONE <==> forall|i: int|
            0 <= i < 6 ==> lanes_total(#[trigger] state.bands[i].configurations.lanes@, 8) <= 9,
        r.0 == NONE ==> !r.2 && forall|k: int| 0 <= k < 8 ==> #[trigger] r.1.lanes[k] == 0,
        r.0 != NONE ==> first_smallest(*state, r.0 as int) && exists|v: int| #[trigger]
            names_digit(state.bands[r.0 as int].configurations.lanes@, r.1.lanes@, r.2, v)
                && preferred(state.bands[r.0 as int].configurations.lanes@, v),
{
    let counts = band_config_counts(
        [
            state.bands[0].configurations,
            state.bands[1].configurations,
            state.bands[2].configurations,
            state.bands[3].configurations,
            state.bands[4].configurations,
            state.bands[5].configurations,
        ],
    );
    proof {
        assert forall|i: int| 0 <= i < 6 implies #[trigger] counts.lanes[i] == lanes_total(
            state.bands[i].configurations.lanes@,
            8,
        ) by {}
    }
    // A decided band has nine configurations, one per digit, so subtracting
    // ten puts every decided band above every undecided one.
    let config_minpos = counts.minpos_after_sub(10);
    let ghost t = choose|t: int| #[trigger]
        least_at(counts.lanes@, 10, t) && config_minpos == 65536 * t + adjusted(
            counts.lanes[t],
            10,
        );
    if (config_minpos % 65536) / 256 != 0 {
        proof {
            assert forall|i: int| 0 <= i < 6 implies lanes_total(
                #[trigger] state.bands[i].configurations.lanes@,
                8,
            ) <= 9 by {
                assert(counts.lanes[i] == lanes_total(state.bands[i].configurations.lanes@, 8));
                assert(adjusted(counts.lanes@[t], 10) <= adjusted(counts.lanes@[i], 10));
                lemma_total_bound(state.bands[i].configurations.lanes@, 8);
            }
        }
        return (NONE, C8::zero(), false);
    }
    let best_band = config_minpos / 65536;
    proof {
        assert(best_band == t);
        assert(adjusted(counts.lanes[t], 10) < 256);
        assert(t < 6);
        assert(counts.lanes[t] >= 10);
        assert(lanes_total(state.bands[t].configurations.lanes@, 8) >= 10);
        assert(first_smallest(*state, t)) by {
            assert forall|i: int|
                0 <= i < 6 && lanes_total(
                    #[trigger] state.bands[i].configurations.lanes@,
                    8,
                ) > 9 implies {
                &&& lanes_total(state.bands[t].configurations.lanes@, 8) <= lanes_total(
                    state.bands[i].configurations.lanes@,
                    8,
                )
                &&& i < t ==> lanes_total(state.bands[t].configurations.lanes@, 8) < lanes_total(
                    state.bands[i].configurations.lanes@,
                    8,
                )
            } by {
                assert(counts.lanes[i] == lanes_total(state.bands[i].configurations.lanes@, 8));
                assert(adjusted(counts.lanes@[t], 10) <= adjusted(counts.lanes@[i], 10));
            }
        }
    }
    let configurations = state.bands[best_band as usize].configurations;
    let ghost cfg = configurations.lanes@;
    proof {
        assert(cfg_ok(state.bands[t].configurations.lanes@));
        let x = lemma_undecided_digit(cfg);
    }
    let (two, three, four) = config_ladder(configurations);
    let only_two = two.and_not(three);
    let only_three = three.and_not(four);
    proof {
        assert forall|i: int, d: int| 0 <= i < 6 implies (#[trigger] bit16(only_two.lanes@[i], d)
            <==> lanes_with(cfg, d, 6) == 2) by {
            assert(only_two.lanes[i] == two.lanes[i] & !three.lanes[i]);
            assert(bit16(two.lanes[i], d) <==> lanes_with(cfg, d, 6) >= 2);
            assert(bit16(three.lanes[i], d) <==> lanes_with(cfg, d, 6) >= 3);
        }
        assert forall|i: int, d: int| 0 <= i < 6 implies (#[trigger] bit16(only_three.lanes@[i], d)
            <==> lanes_with(cfg, d, 6) == 3) by {
            assert(only_three.lanes[i] == three.lanes[i] & !four.lanes[i]);
            assert(bit16(three.lanes[i], d) <==> lanes_with(cfg, d, 6) >= 3);
            assert(bit16(four.lanes[i], d) <==> lanes_with(cfg, d, 6) >= 4);
        }
        assert forall|i: int, d: int| 6 <= i < 8 implies !(#[trigger] bit16(
            only_two.lanes@[i],
            d,
        )) by {
            assert(only_two.lanes[i] == two.lanes[i] & !three.lanes[i]);
            assert(!bit16(two.lanes[i], d));
        }
        assert forall|i: int, d: int| 6 <= i < 8 implies !(#[trigger] bit16(
            only_three.lanes@[i],
            d,
        )) by {
            assert(only_three.lanes[i] == three.lanes[i] & !four.lanes[i]);
            assert(!bit16(three.lanes[i], d));
        }
    }
    let (mask, pair) = if !only_two.all_zero() {
        (only_two.low_bit_per_lane(), true)
    } else if !only_three.all_zero() {
        (only_three.low_bit_per_lane(), false)
    } else {
        (four.low_bit_per_lane(), false)
    };
    let ghost in_two = |d: int| lanes_with(cfg, d, 6) == 2;
    let ghost in_three = |d: int| lanes_with(cfg, d, 6) == 3;
    let ghost in_more = |d: int| lanes_with(cfg, d, 6) >= 4;
    let ghost v = if pair {
        lemma_lowest_named(only_two.lanes@, mask.lanes@, in_two)
    } else if exists|i: int| 0 <= i < 8 && #[trigger] only_three.lanes@[i] != 0 {
        lemma_lowest_named(only_three.lanes@, mask.lanes@, in_three)
    } else {
        let x = lemma_undecided_digit(cfg);
        assert(!bit16(0u16, x));
        assert(only_two.lanes[0] == 0 && only_three.lanes[0] == 0);
        assert(bit16(only_two.lanes@[0], x) <==> lanes_with(cfg, x, 6) == 2);
        assert(bit16(only_three.lanes@[0], x) <==> lanes_with(cfg, x, 6) == 3);
        assert(bit16(four.lanes[0], x));
        assert(four.lanes@[0] != 0);
        lemma_lowest_named(four.lanes@, mask.lanes@, in_more)
    };
    let r = (best_band, mask, pair);
    proof {
        lemma_digit_range(cfg, v);
        assert(preferred(cfg, v)) by {
            assert forall|d: int| 0 <= d < 9 && #[trigger] lanes_with(cfg, d, 6) >= 2 implies rank(
                lanes_with(cfg, v, 6),
            ) < rank(lanes_with(cfg, d, 6)) || (rank(lanes_with(cfg, v, 6)) == rank(
                lanes_with(cfg, d, 6),
            ) && v <= d) by {
                assert(bit16(only_two.lanes@[0], d) <==> lanes_with(cfg, d, 6) == 2);
                assert(bit16(only_three.lanes@[0], d) <==> lanes_with(cfg, d, 6) == 3);
                assert(!bit16(0u16, d));
                assert(in_two(d) <==> lanes_with(cfg, d, 6) == 2);
                assert(in_three(d) <==> lanes_with(cfg, d, 6) == 3);
                assert(in_more(d) <==> lanes_with(cfg, d, 6) >= 4);
            }
        }
        assert(names_digit(state.bands[r.0 as int].configurations.lanes@, r.1.lanes@, r.2, v));
    }
    r
}

/// A digit with a configuration is one of nine.
proof fn lemma_digit_range(cfg: Seq<u16>, v: int)
    requires
        cfg_ok(cfg),
        lanes_with(cfg, v, 6) >= 1,
    ensures
        0 <= v < 9,
{
    let q = |k: int| bit16(cfg[k], v);
    let k = lemma_count_witness(q, 6);
    assert(cfg[k] <= 0x1FF);
    crate::bits::lemma_small9(cfg[k], v);
}

proof fn lemma_total_bound(v: Seq<u16>, n: nat)
    ensures
        lanes_total(v, n) <= 16 * n,
    decreases n,
{
    if n > 0 {
        lemma_total_bound(v, (n - 1) as nat);
        let f = |i: int| bit16(v[n - 1], i);
        crate::bits::lemma_count_mono(f, f, 16);
    }
}

// ---------------------------------------------------------------------------
// Search
// ---------------------------------------------------------------------------

/// The propagation has come to rest.
pub open spec fn at_rest(s: TState) -> bool {
    &&& s.ok()
    &&& corners(s)
    &&& forall|x: int| 0 <= x < 9 ==> min_ok(#[trigger] s.boxen[x].lanes@)
    &&& forall|i: int| 0 <= i < 6 ==> #[trigger] s.linked(i) && s.resolved(i)
}

/// After a step from a state that is at rest but for one band, if that band
/// is resolved, the state is at rest.
pub proof fn lemma_at_rest(o: TState, n: TState, i: int)
    requires
        0 <= i < 6,
        step(o, n),
        settles(o, n),
        n.resolved(i),
        corners(n),
        forall|x: int| 0 <= x < 9 ==> min_ok(#[trigger] o.boxen[x].lanes@),
        forall|j: int| 0 <= j < 6 ==> #[trigger] o.linked(j),
        forall|j: int| 0 <= j < 6 && j != i ==> #[trigger] o.resolved(j),
    ensures
        at_rest(n),
{
    assert forall|x: int| 0 <= x < 9 implies min_ok(#[trigger] n.boxen[x].lanes@) by {
        assert(n.boxen[x] == o.boxen[x] || min_ok(n.boxen[x].lanes@));
        assert(min_ok(o.boxen[x].lanes@));
    }
    assert forall|j: int| 0 <= j < 6 implies #[trigger] n.linked(j) && n.resolved(j) by {
        assert(o.linked(j));
        assert(n.linked(j) || n.bands[j].configurations == o.bands[j].configurations);
        if !n.linked(j) {
            lemma_linked_below(n, o, j);
        }
        if j != i {
            assert(o.resolved(j));
        }
    }
}

/// A state at rest with no band left to branch on is decided.
proof fn lemma_all_decided(s: TState)
    requires
        at_rest(s),
        forall|i: int|
            0 <= i < 6 ==> lanes_total(#[trigger] s.bands[i].configurations.lanes@, 8) <= 9,
    ensures
        decided(s),
{
}

/// The running totals of a search.
pub struct Solver {
    pub limit: u64,
    pub num_solutions: u64,
    /// The state of the solution with which the limit was reached.
    pub solution: TState,
}

/// The state spells out a member of `set`.
pub open spec fn spells_one(s: TState, set: Set<Seq<u8>>) -> bool {
    s.ok() && exists|g: Seq<u8>| #[trigger] set.contains(g) && spells(s, g)
}

/// Between `a` and `b` the search went through `n` solutions, all in `set`.
pub open spec fn tallied(a: Solver, b: Solver, n: int, set: Set<Seq<u8>>) -> bool {
    &&& b.limit == a.limit
    &&& b.num_solutions == capped(a.num_solutions + n, a.limit as int)
    &&& b.num_solutions == b.limit && a.num_solutions < a.limit ==> spells_one(b.solution, set)
}

/// The search from `a` to `b` went as `r` says: it counted so many, and if
/// it reached the limit, it stopped at that leaf.
pub open spec fn reached(a: Solver, b: Solver, r: (int, Option<Node>)) -> bool {
    &&& b.num_solutions == r.0
    &&& a.num_solutions < a.limit && b.num_solutions == b.limit ==> r.1 == Some(node(b.solution))
    &&& b.num_solutions < b.limit ==> r.1 is None
}

proof fn lemma_tallied_sub(a: Solver, b: Solver, n: int, s: Set<Seq<u8>>, t: Set<Seq<u8>>)
    requires
        tallied(a, b, n, s),
        s.subset_of(t),
    ensures
        tallied(a, b, n, t),
{
    if spells_one(b.solution, s) {
        let g = choose|g: Seq<u8>| #[trigger] s.contains(g) && spells(b.solution, g);
        assert(t.contains(g));
    }
}

/// Pending eliminations added to one band.
spec fn with_pending(s: TState, n: TState, i: int, e: Seq<u16>) -> bool {
    &&& n.boxen == s.boxen
    &&& n.asserted == s.asserted
    &&& forall|j: int| 0 <= j < 6 && j != i ==> #[trigger] n.bands[j] == s.bands[j]
    &&& n.bands[i].configurations == s.bands[i].configurations
    &&& forall|k: int|
        0 <= k < 8 ==> #[trigger] n.bands[i].eliminations.lanes[k]
            == s.bands[i].eliminations.lanes[k] | e[k]
}

/// Added eliminations, lane by lane.
proof fn lemma_pending_node(s: TState, n: TState, i: int, e: Seq<u16>)
    requires
        0 <= i < 6,
        e.len() == 8,
        with_pending(s, n, i, e),
    ensures
        node(n) == (Node { pend: node(s).pend.update(i, join(node(s).pend[i], e)), ..node(s) }),
{
    let (a, b) = (node(s), node(n));
    assert(b.boxes =~= a.boxes);
    assert(b.told =~= a.told);
    assert(b.cfg =~= a.cfg) by {
        assert forall|j: int| 0 <= j < 6 implies b.cfg[j] == a.cfg[j] by {
            assert(n.bands[j].configurations == s.bands[j].configurations);
        }
    }
    assert(n.bands[i].eliminations.lanes@ =~= join(a.pend[i], e)) by {
        assert forall|k: int| 0 <= k < 8 implies n.bands[i].eliminations.lanes@[k] == join(
            a.pend[i],
            e,
        )[k] by {
            assert(n.bands[i].eliminations.lanes[k] == s.bands[i].eliminations.lanes[k] | e[k]);
        }
    }
    assert(b.pend =~= a.pend.update(i, join(a.pend[i], e))) by {
        assert forall|j: int| 0 <= j < 6 && j != i implies b.pend[j] == a.pend[j] by {
            assert(n.bands[j] == s.bands[j]);
        }
    }
}

/// The grids left by added eliminations are those that take no eliminated
/// configuration.
proof fn lemma_pending(s: TState, n: TState, i: int, e: Seq<u16>)
    requires
        s.ok(),
        0 <= i < 6,
        e.len() == 8,
        with_pending(s, n, i, e),
    ensures
        n.ok(),
        below(n, s),
        forall|g: Seq<u8>| #[trigger]
            n.holds(g) <==> s.holds(g) && forall|k: int, d: int|
                0 <= d < 9 && #[trigger] conf(g, i / 3, i % 3, k, d) ==> !bit16(e[k], d),
{
    assert forall|x: int| 0 <= x < 9 implies box_ok(#[trigger] n.boxen[x].lanes@) by {
        assert(box_ok(s.boxen[x].lanes@));
    }
    assert forall|j: int| 0 <= j < 6 implies cfg_ok(#[trigger] n.bands[j].configurations.lanes@) by {
        assert(cfg_ok(s.bands[j].configurations.lanes@));
    }
    assert(below(n, s)) by {
        assert forall|j: int| 0 <= j < 6 implies crate::triad::boxes::lanes_in(
            s.bands[j].eliminations.lanes@,
            #[trigger] n.bands[j].eliminations.lanes@,
        ) by {
            if j == i {
                assert forall|k: int| 0 <= k < 8 implies sub16(
                    #[trigger] s.bands[j].eliminations.lanes@[k],
                    n.bands[j].eliminations.lanes@[k],
                ) by {
                    assert(n.bands[i].eliminations.lanes[k] == s.bands[i].eliminations.lanes[k]
                        | e[k]);
                }
            }
        }
    }
    let (v, b) = (i / 3, i % 3);
    assert forall|g: Seq<u8>| #[trigger] n.holds(g) implies s.holds(g) && forall|k: int, d: int|
        0 <= d < 9 && #[trigger] conf(g, v, b, k, d) ==> !bit16(e[k], d) by {
        crate::triad::boxes::lemma_below_holds(n, s, g);
        assert(band_holds(n.bands[i], g, i / 3, i % 3));
        assert forall|k: int, d: int| 0 <= d < 9 && #[trigger] conf(g, v, b, k, d) implies !bit16(
            e[k],
            d,
        ) by {
            assert(n.bands[i].eliminations.lanes[k] == s.bands[i].eliminations.lanes[k] | e[k]);
        }
    }
    assert forall|g: Seq<u8>|
        s.holds(g) && (forall|k: int, d: int|
            0 <= d < 9 && #[trigger] conf(g, v, b, k, d) ==> !bit16(e[k], d)) implies #[trigger] n.holds(
        g,
    ) by {
        assert forall|x: int| 0 <= x < 9 implies box_holds(#[trigger] n.boxen[x].lanes@, g, x) by {
            assert(box_holds(s.boxen[x].lanes@, g, x));
        }
        assert forall|j: int| 0 <= j < 6 implies band_holds(
            #[trigger] n.bands[j],
            g,
            j / 3,
            j % 3,
        ) by {
            assert(band_holds(s.bands[j], g, j / 3, j % 3));
            if j == i {
                assert forall|k: int, d: int| 0 <= d < 9 && #[trigger] conf(g, v, b, k, d) implies
                bit16(n.bands[i].configurations.lanes[k], d) && !bit16(
                    n.bands[i].eliminations.lanes[k],
                    d,
                ) by {
                    assert(n.bands[i].eliminations.lanes[k] == s.bands[i].eliminations.lanes[k]
                        | e[k]);
                }
            }
        }
    }
}

/// The two sets of eliminations of a branch: the lowest configuration of the
/// digit, and the others.
pub open spec fn splits(cfg: Seq<u16>, v: int, low: Seq<u16>, rest: Seq<u16>, t: int) -> bool {
    &&& 0 <= t < 6
    &&& bit16(cfg[t], v)
    &&& forall|k: int| 0 <= k < t ==> !bit16(#[trigger] cfg[k], v)
    &&& low.len() == 8
    &&& rest.len() == 8
    &&& forall|k: int, d: int|
        0 <= k < 8 ==> (#[trigger] bit16(low[k], d) <==> k == t && d == v)
    &&& forall|k: int, d: int|
        0 <= k < 8 ==> (#[trigger] bit16(rest[k], d) <==> k != t && k < 6 && d == v && bit16(
            cfg[k],
            v,
        ))
}

/// Either child keeps exactly the grids that the other gives up.
proof fn lemma_children(
    s: TState,
    x: TState,
    y: TState,
    i: int,
    v: int,
    low: Seq<u16>,
    rest: Seq<u16>,
    t: int,
)
    requires
        s.ok(),
        0 <= i < 6,
        0 <= v < 9,
        splits(s.bands[i].configurations.lanes@, v, low, rest, t),
        with_pending(s, x, i, low),
        with_pending(s, y, i, rest),
    ensures
        s.grids().len() == x.grids().len() + y.grids().len(),
        x.grids().subset_of(s.grids()),
        y.grids().subset_of(s.grids()),
{
    lemma_pending(s, x, i, low);
    lemma_pending(s, y, i, rest);
    let cfg = s.bands[i].configurations.lanes@;
    assert forall|g: Seq<u8>| #[trigger] s.grids().contains(g) <==> x.grids().contains(g)
        || y.grids().contains(g) by {
        if s.holds(g) {
            let k0 = lemma_conf_of(g, i / 3, i % 3, v);
            assert(band_holds(s.bands[i], g, i / 3, i % 3));
            assert(bit16(cfg[k0], v));
            if k0 == t {
                assert forall|k: int, d: int| 0 <= d < 9 && #[trigger] conf(
                    g,
                    i / 3,
                    i % 3,
                    k,
                    d,
                ) implies !bit16(rest[k], d) by {}
                assert(y.holds(g));
            } else {
                assert forall|k: int, d: int| 0 <= d < 9 && #[trigger] conf(
                    g,
                    i / 3,
                    i % 3,
                    k,
                    d,
                ) implies !bit16(low[k], d) by {}
                assert(x.holds(g));
            }
        }
    }
    assert forall|g: Seq<u8>| !(#[trigger] x.grids().contains(g) && y.grids().contains(g)) by {
        if x.holds(g) && y.holds(g) {
            let k0 = lemma_conf_of(g, i / 3, i % 3, v);
            assert(band_holds(s.bands[i], g, i / 3, i % 3));
            assert(bit16(cfg[k0], v));
            assert(!bit16(low[k0], v) && !bit16(rest[k0], v));
        }
    }
    assert(s.grids().subset_of(grids()));
    lemma_split(s.grids(), x.grids(), y.grids());
}

/// A child in which the eliminations have been applied measures less.
proof fn lemma_child_measure(s: TState, c: TState, n: TState, i: int, e: Seq<u16>, k: int, d: int)
    requires
        s.ok(),
        0 <= i < 6,
        e.len() == 8,
        with_pending(s, c, i, e),
        step(c, n),
        n.resolved(i),
        0 <= k < 6,
        bit16(e[k], d),
        bit16(s.bands[i].configurations.lanes@[k], d),
    ensures
        measure(n) < measure(s),
{
    lemma_pending(s, c, i, e);
    crate::triad::boxes::lemma_below_trans(n, c, s);
    assert(crate::triad::boxes::lanes_in(
        c.bands[i].eliminations.lanes@,
        n.bands[i].eliminations.lanes@,
    ));
    assert(sub16(c.bands[i].eliminations.lanes@[k], n.bands[i].eliminations.lanes@[k]));
    assert(c.bands[i].eliminations.lanes[k] == s.bands[i].eliminations.lanes[k] | e[k]);
    assert(bit16(c.bands[i].eliminations.lanes@[k], d));
    assert(bit16(n.bands[i].eliminations.lanes@[k], d));
    assert(!bit16(n.bands[i].configurations.lanes@[k], d)) by {
        if bit16(n.bands[i].configurations.lanes@[k], d) {
            assert(bit16(n.bands[i].configurations.lanes[k], d));
        }
    }
    assert(n.bands[i].configurations.lanes@ != s.bands[i].configurations.lanes@);
    lemma_measure(n, s);
}

/// The eliminations that a branch on the named digit makes.
fn branch_elims(configurations: C8, value_mask: C8, pair: bool) -> (r: (C8, C8))
    requires
        cfg_ok(configurations.lanes@),
        exists|v: int| #[trigger]
            names_digit(configurations.lanes@, value_mask.lanes@, pair, v),
    ensures
        forall|v: int| #[trigger]
            names_digit(configurations.lanes@, value_mask.lanes@, pair, v) ==> exists|t: int|
                #[trigger]
                splits(configurations.lanes@, v, r.0.lanes@, r.1.lanes@, t),
{
    let ghost cfg = configurations.lanes@;
    let ghost v = choose|v: int| #[trigger] names_digit(cfg, value_mask.lanes@, pair, v);
    let value_configurations = configurations.and(value_mask);
    let assignment_elims = value_configurations.clear_low_bit();
    let negation_elims = value_configurations.xor(assignment_elims);
    proof {
        let w = value_configurations.lanes@;
        let rest = assignment_elims.lanes@;
        let low = negation_elims.lanes@;
        assert forall|k: int, d: int| 0 <= k < 8 implies (#[trigger] bit16(w[k], d) <==> k < 6 && d
            == v && bit16(cfg[k], v)) by {
            assert(w[k] == cfg[k] & value_mask.lanes[k]);
            if k < 6 {
                assert(bit16(value_mask.lanes@[k], d) <==> d == v);
            } else {
                assert(!bit16(value_mask.lanes@[k], d));
            }
        }
        let q = |k: int| bit16(cfg[k], v);
        let k1 = lemma_count_witness(q, 6);
        assert(bit16(w[k1], v));
        assert(!bit16(0u16, v));
        assert(value_configurations.lanes[k1] != 0);
        let t = choose|t: int| #[trigger] cleared_at(w, rest, t);
        let x = lemma_nonzero16(w[t]);
        assert(t < 6 && x == v);
        assert forall|d: int| !#[trigger] bit16(rest[t], d) by {
            if bit16(rest[t], d) {
                let e = choose|e: int| 0 <= e < d && bit16(w[t], e);
                assert(d == v && e == v);
            }
        }
        assert forall|k: int, d: int| 0 <= k < 8 implies (#[trigger] bit16(rest[k], d) <==> k != t
            && k < 6 && d == v && bit16(cfg[k], v)) by {
            if k != t {
                assert(rest[k] == w[k]);
            }
        }
        assert forall|k: int, d: int| 0 <= k < 8 implies (#[trigger] bit16(low[k], d) <==> k == t && d
            == v) by {
            assert(low[k] == w[k] ^ rest[k]);
            assert(bit16(w[k], d) <==> k < 6 && d == v && bit16(cfg[k], v));
            assert(bit16(rest[k], d) <==> k != t && k < 6 && d == v && bit16(cfg[k], v));
        }
    }
    let r = (negation_elims, assignment_elims);
    proof {
        let t = choose|t: int| #[trigger]
            cleared_at(value_configurations.lanes@, assignment_elims.lanes@, t);
        assert forall|k: int| 0 <= k < t implies !bit16(#[trigger] cfg[k], v) by {
            assert(value_configurations.lanes@[k] == 0);
            assert(!bit16(0u16, v));
            assert(bit16(value_mask.lanes@[k], v));
        }
        assert(splits(cfg, v, r.0.lanes@, r.1.lanes@, t));
        assert forall|u: int| #[trigger] names_digit(cfg, value_mask.lanes@, pair, u) implies u
            == v by {
            assert(bit16(value_mask.lanes@[0], u));
        }
    }
    r
}

/// Adds pending eliminations to a band.
fn add_pending(state: &mut TState, band_idx: usize, elims: C8)
    requires
        band_idx < 6,
    ensures
        with_pending(*old(state), *final(state), band_idx as int, elims.lanes@),
{
    let band = state.bands[band_idx];
    state.bands[band_idx] = Band {
        configurations: band.configurations,
        eliminations: band.eliminations.or(elims),
    };
}

impl Solver {
    /// Branches on a digit of a band.
    fn branch_on_band_and_value(
        &mut self,
        band_idx: usize,
        value_mask: C8,
        pair: bool,
        state: &mut TState,
    )
        requires
            band_idx < 6,
            at_rest(*old(state)),
            old(self).num_solutions < old(self).limit,
            exists|v: int| #[trigger]
                names_digit(
                    old(state).bands[band_idx as int].configurations.lanes@,
                    value_mask.lanes@,
                    pair,
                    v,
                ),
        ensures
            tallied(
                *old(self),
                *final(self),
                old(state).grids().len() as int,
                old(state).grids(),
            ),
            forall|v: int| #[trigger]
                names_digit(
                    old(state).bands[band_idx as int].configurations.lanes@,
                    value_mask.lanes@,
                    pair,
                    v,
                ) ==> reached(
                    *old(self),
                    *final(self),
                    branched(
                        node(*old(state)),
                        band_idx as int,
                        v,
                        old(self).num_solutions as int,
                        old(self).limit as int,
                    ),
                ),
        decreases measure(*old(state)), 0nat,
    {
        let ghost s0 = *state;
        let ghost me0 = *self;
        let ghost i = band_idx as int;
        let ghost cfg = s0.bands[i].configurations.lanes@;
        proof {
            assert(cfg_ok(s0.bands[i].configurations.lanes@));
        }
        let (negation_elims, assignment_elims) = branch_elims(
            state.bands[band_idx].configurations,
            value_mask,
            pair,
        );
        let ghost low = negation_elims.lanes@;
        let ghost rest = assignment_elims.lanes@;
        let ghost v = choose|v: int| #[trigger] names_digit(cfg, value_mask.lanes@, pair, v);
        let ghost t = choose|t: int| #[trigger] splits(cfg, v, low, rest, t);
        let ghost q = |k: int| bit16(cfg[k], v);
        let ghost u = lemma_count_second(q, 6, t);
        let ghost n0 = node(s0);
        proof {
            assert(q(u));
            assert(bit16(low[t], v) && bit16(rest[u], v));
            lemma_branch_words(cfg, v, low, rest, t);
            assert(n0.cfg[i] == cfg);
            assert forall|w: int| #[trigger] names_digit(cfg, value_mask.lanes@, pair, w) implies w
                == v by {
                assert(bit16(value_mask.lanes@[0], w));
            }
        }
        // With two configurations both children are commitments, and the
        // higher one is tried first; otherwise the commitment goes first.
        let (first, second) = if pair {
            (negation_elims, assignment_elims)
        } else {
            (assignment_elims, negation_elims)
        };
        let ghost (k1, k2) = if pair {
            (t, u)
        } else {
            (u, t)
        };
        let mut copy = *state;
        add_pending(&mut copy, band_idx, first);
        let ghost c1 = copy;
        let mut rest_state = *state;
        add_pending(&mut rest_state, band_idx, second);
        let ghost c2 = rest_state;
        proof {
            lemma_pending(s0, c1, i, first.lanes@);
            lemma_pending(s0, c2, i, second.lanes@);
            lemma_pending_node(s0, c1, i, first.lanes@);
            lemma_pending_node(s0, c2, i, second.lanes@);
            if pair {
                lemma_children(s0, c1, c2, i, v, low, rest, t);
            } else {
                lemma_children(s0, c2, c1, i, v, low, rest, t);
            }
            lemma_pending_rest(s0, c1, i, first.lanes@);
            lemma_pending_rest(s0, c2, i, second.lanes@);
        }
        if band_eliminate(&mut copy, band_idx, 0) {
            proof {
                lemma_same_grids(copy, c1);
                lemma_at_rest(c1, copy, i);
                lemma_child_measure(s0, c1, copy, i, first.lanes@, k1, v);
            }
            self.count_solutions(&mut copy);
            proof {
                lemma_tallied_sub(
                    me0,
                    *self,
                    c1.grids().len() as int,
                    c1.grids(),
                    s0.grids(),
                );
            }
            if self.num_solutions == self.limit {
                return;
            }
        } else {
            proof {
                lemma_barren_count(c1);
            }
        }
        let ghost me1 = *self;
        if band_eliminate(&mut rest_state, band_idx, 0) {
            proof {
                lemma_same_grids(rest_state, c2);
                lemma_at_rest(c2, rest_state, i);
                lemma_child_measure(s0, c2, rest_state, i, second.lanes@, k2, v);
            }
            self.count_solutions(&mut rest_state);
            proof {
                lemma_tallied_sub(
                    me1,
                    *self,
                    c2.grids().len() as int,
                    c2.grids(),
                    s0.grids(),
                );
            }
        } else {
            proof {
                lemma_barren_count(c2);
            }
        }
    }

    /// Counts the solutions below a state that is at rest.
    pub fn count_solutions(&mut self, state: &mut TState)
        requires
            at_rest(*old(state)),
            old(self).num_solutions < old(self).limit,
        ensures
            tallied(
                *old(self),
                *final(self),
                old(state).grids().len() as int,
                old(state).grids(),
            ),
            reached(
                *old(self),
                *final(self),
                sought(
                    node(*old(state)),
                    old(self).num_solutions as int,
                    old(self).limit as int,
                ),
            ),
        decreases measure(*old(state)), 1nat,
    {
        let ghost s = *state;
        let (band, value_mask, pair) = choose_band_and_value(state);
        if band == NONE {
            // All bands decided: this is a solution.
            proof {
                lemma_all_decided(s);
                assert(all_fixed(node(s))) by {
                    assert forall|i: int| 0 <= i < 6 implies lanes_total(
                        #[trigger] node(s).cfg[i],
                        8,
                    ) <= 9 by {
                        assert(node(s).cfg[i] == s.bands[i].configurations.lanes@);
                    }
                }
                let g = lemma_decided(s);
                assert(spells_one(s, s.grids()));
            }
            self.num_solutions = self.num_solutions + 1;
            if self.num_solutions == self.limit {
                self.solution = *state;
            }
        } else {
            proof {
                let i = band as int;
                let cfg = s.bands[i].configurations.lanes@;
                lemma_smallest(s, i);
                assert(node(s).cfg[i] == cfg);
                let v = choose|v: int| #[trigger]
                    names_digit(cfg, value_mask.lanes@, pair, v) && preferred(cfg, v);
                assert(leading(cfg, v));
                lemma_leading(cfg, v);
            }
            self.branch_on_band_and_value(band as usize, value_mask, pair, state);
        }
    }
}

/// A state that keeps no grid counts none.
proof fn lemma_barren_count(s: TState)
    requires
        barren(s),
    ensures
        s.grids().len() == 0,
{
    lemma_none(s.grids());
}

/// Added eliminations disturb nothing but the band they are pending on.
proof fn lemma_pending_rest(s: TState, n: TState, i: int, e: Seq<u16>)
    requires
        at_rest(s),
        0 <= i < 6,
        e.len() == 8,
        with_pending(s, n, i, e),
    ensures
        corners(n),
        forall|x: int| 0 <= x < 9 ==> min_ok(#[trigger] n.boxen[x].lanes@),
        forall|j: int| 0 <= j < 6 ==> #[trigger] n.linked(j),
        forall|j: int| 0 <= j < 6 && j != i ==> #[trigger] n.resolved(j),
{
    lemma_pending(s, n, i, e);
    assert forall|x: int| 0 <= x < 9 implies min_ok(#[trigger] n.boxen[x].lanes@) by {
        assert(min_ok(s.boxen[x].lanes@));
    }
    assert forall|j: int| 0 <= j < 6 implies #[trigger] n.linked(j) by {
        assert(s.linked(j));
        assert(n.bands[j].configurations == s.bands[j].configurations);
        lemma_linked_below(n, s, j);
    }
    assert forall|j: int| 0 <= j < 6 && j != i implies #[trigger] n.resolved(j) by {
        assert(s.linked(j) && s.resolved(j));
        assert(n.bands[j] == s.bands[j]);
    }
}

} // verus!
