//! The messages between the boxes and the bands of the triad engine: shuffle
//! tables and what they come to.

use vstd::prelude::*;
use crate::bits::{bit16, group_bits16, lemma_low_masks16, lemma_nonzero16};
use crate::triad::model::config_elem;
use crate::tvec::{
    c16, c8, is_control, is_selector, selector_lane, ALL, C16, C8, CELLS_3X3, S0, S1, S2, S3, S4,
    S5, S6, XX,
};

verus! {

broadcast use group_bits16;

/// Turns a box's triads (lanes 4..7) into a configuration message, per box
/// peer: every configuration lane takes the triad where the configuration
/// places the digit.
pub const TRIADS_SHIFT0_TO_CONFIG_ELIMS: [[u16; 8]; 3] = [
    [S4, S5, S6, S6, S4, S5, XX, XX],
    [S5, S6, S4, S5, S6, S4, XX, XX],
    [S6, S4, S5, S4, S5, S6, XX, XX],
];

/// The same with the triad after the one where the configuration places the
/// digit.
pub const TRIADS_SHIFT1_TO_CONFIG_ELIMS: [[u16; 8]; 3] = [
    [S5, S6, S4, S4, S5, S6, XX, XX],
    [S6, S4, S5, S6, S4, S5, XX, XX],
    [S4, S5, S6, S5, S6, S4, XX, XX],
];

/// The same with the triad before it.
pub const TRIADS_SHIFT2_TO_CONFIG_ELIMS: [[u16; 8]; 3] = [
    [S6, S4, S5, S5, S6, S4, XX, XX],
    [S4, S5, S6, S4, S5, S6, XX, XX],
    [S5, S6, S4, S6, S4, S5, XX, XX],
];

/// Two shuffles, united, turn a configuration vector (in both halves) into
/// the matrix of positive triads: each triad of each peer is possible under
/// exactly two configurations.
pub const SHUFFLE_CONFIGS_TO_TRIADS: [[u16; 16]; 2] = [
    [S0, S1, S2, XX, S2, S0, S1, XX, S1, S2, S0, XX, XX, XX, XX, XX],
    [S4, S5, S3, XX, S5, S3, S4, XX, S3, S4, S5, XX, XX, XX, XX, XX],
];

/// Two shuffles, united, turn one peer's positive triads (lanes 0..3, with a
/// full set in lane 3) into a box restriction: cells limited to their triad,
/// negative triads to the union of the two other triads.
pub const POS_TRIADS_TO_CANDIDATES: [[[u16; 16]; 2]; 2] = [
    [
        [S0, S0, S0, S1, S1, S1, S1, S2, S2, S2, S2, S0, S3, S3, S3, S3],
        [S0, S0, S0, S2, S1, S1, S1, S0, S2, S2, S2, S1, S3, S3, S3, S3],
    ],
    [
        [S0, S1, S2, S3, S0, S1, S2, S3, S0, S1, S2, S3, S1, S2, S0, S3],
        [S0, S1, S2, S3, S0, S1, S2, S3, S0, S1, S2, S3, S2, S0, S1, S3],
    ],
];

/// A full set in lane 3.
pub const LANE3_ALL: [u16; 8] = [0, 0, 0, ALL, 0, 0, 0, 0];

/// A word with all bits set.
pub proof fn lemma_full16()
    ensures
        forall|i: int| #[trigger] bit16(0xffff, i) <==> 0 <= i < 16,
{
    assert(0xffffu16 == !0u16) by (bit_vector);
    assert forall|i: int| #[trigger] bit16(0xffff, i) <==> 0 <= i < 16 by {
        assert(bit16(!0u16, i) <==> 0 <= i < 16 && !bit16(0, i));
    }
}

/// Lane `k` of the shift table's row takes the triad `shift` places after the
/// element of configuration `k` in peer `p`.
pub open spec fn shifts_by(row: Seq<u16>, p: int, shift: int) -> bool {
    &&& row.len() == 8
    &&& is_control(row)
    &&& forall|k: int|
        0 <= k < 6 ==> #[trigger] row[k] != XX && selector_lane(row[k]) == 4 + (config_elem(k, p)
            + shift) % 3
    &&& row[6] == XX
    &&& row[7] == XX
}

/// The shift tables are what they are meant to be.
pub proof fn lemma_shift_tables(p: int)
    requires
        0 <= p < 3,
    ensures
        shifts_by(TRIADS_SHIFT0_TO_CONFIG_ELIMS[p]@, p, 0),
        shifts_by(TRIADS_SHIFT1_TO_CONFIG_ELIMS[p]@, p, 1),
        shifts_by(TRIADS_SHIFT2_TO_CONFIG_ELIMS[p]@, p, 2),
{
    assert forall|i: int| 0 <= i < 8 implies is_selector(
        #[trigger] TRIADS_SHIFT0_TO_CONFIG_ELIMS[p]@[i],
    ) by {}
    assert forall|i: int| 0 <= i < 8 implies is_selector(
        #[trigger] TRIADS_SHIFT1_TO_CONFIG_ELIMS[p]@[i],
    ) by {}
    assert forall|i: int| 0 <= i < 8 implies is_selector(
        #[trigger] TRIADS_SHIFT2_TO_CONFIG_ELIMS[p]@[i],
    ) by {}
}

/// Lane of the positive triad `e` of peer `p`: the union of the two
/// configurations that place the digit there.
pub open spec fn triad_set(cfg: Seq<u16>, p: int, e: int) -> u16 {
    cfg[(e + 3 - p) % 3] | cfg[3 + (e + p + 1) % 3]
}

/// Turns a band's configurations into its matrix of positive triads (rows are
/// box peers, columns are elements).
pub fn configurations_to_positive_triads(configurations: C8) -> (t: C16)
    ensures
        forall|p: int, e: int|
            0 <= p < 3 && 0 <= e < 3 ==> #[trigger] t.lanes[4 * p + e] == triad_set(
                configurations.lanes@,
                p,
                e,
            ),
        t.lanes[3] == 0,
        t.lanes[7] == 0,
        t.lanes[11] == 0,
        forall|i: int| 12 <= i < 16 ==> #[trigger] t.lanes[i] == 0,
{
    proof {
        let (a, b) = (SHUFFLE_CONFIGS_TO_TRIADS[0]@, SHUFFLE_CONFIGS_TO_TRIADS[1]@);
        assert forall|i: int| 0 <= i < 16 implies is_selector(#[trigger] a[i]) by {}
        assert forall|i: int| 0 <= i < 16 implies is_selector(#[trigger] b[i]) by {}
    }
    let tmp = C16::from_parts(configurations, configurations);
    let first = tmp.shuffle(c16(&SHUFFLE_CONFIGS_TO_TRIADS[0]));
    let second = tmp.shuffle(c16(&SHUFFLE_CONFIGS_TO_TRIADS[1]));
    let t = first.or(second);
    proof {
        let cfg = configurations.lanes@;
        let (a, b) = (SHUFFLE_CONFIGS_TO_TRIADS[0]@, SHUFFLE_CONFIGS_TO_TRIADS[1]@);
        assert forall|p: int, e: int| 0 <= p < 3 && 0 <= e < 3 implies #[trigger] t.lanes[4 * p + e]
            == triad_set(cfg, p, e) by {
            let i = 4 * p + e;
            assert(selector_lane(a[i]) == (e + 3 - p) % 3 && a[i] != XX);
            assert(selector_lane(b[i]) == 3 + (e + p + 1) % 3 && b[i] != XX);
            assert(first.lanes[i] == cfg[(e + 3 - p) % 3]);
            assert(second.lanes[i] == cfg[3 + (e + p + 1) % 3]);
        }
        assert(0u16 | 0u16 == 0u16) by (bit_vector);
        assert forall|i: int| 12 <= i < 16 implies #[trigger] t.lanes[i] == 0 by {
            assert(a[i] == XX && b[i] == XX);
        }
        assert(t.lanes[3] == 0 && t.lanes[7] == 0 && t.lanes[11] == 0);
    }
    t
}

/// What the positive triads `t` (by element) of a box peer leave to digit `d`
/// in a lane of the box.
pub open spec fn allowed(t: Seq<u16>, v: int, lane: int, d: int) -> bool {
    let r = lane / 4;
    let c = lane % 4;
    if r < 3 && c < 3 {
        bit16(t[if v == 0 { r } else { c }], d)
    } else if v == 0 && r < 3 {
        bit16(t[(r + 1) % 3], d) || bit16(t[(r + 2) % 3], d)
    } else if v != 0 && c < 3 {
        bit16(t[(c + 1) % 3], d) || bit16(t[(c + 2) % 3], d)
    } else {
        0 <= d < 9
    }
}

/// Turns one box peer's positive triads (lanes 0..3) into the box
/// restriction for the orientation.
pub fn positive_triads_to_box_candidates(triads: C8, orientation: usize) -> (r: C16)
    requires
        orientation < 2,
        triads.lanes[3] == 0,
    ensures
        forall|lane: int, d: int|
            0 <= lane < 16 ==> (#[trigger] bit16(r.lanes[lane], d) <==> allowed(
                triads.lanes@,
                orientation as int,
                lane,
                d,
            )),
{
    proof {
        let (a, b) = (
            POS_TRIADS_TO_CANDIDATES[orientation as int][0]@,
            POS_TRIADS_TO_CANDIDATES[orientation as int][1]@,
        );
        assert forall|i: int| 0 <= i < 16 implies is_selector(#[trigger] a[i]) by {}
        assert forall|i: int| 0 <= i < 16 implies is_selector(#[trigger] b[i]) by {}
    }
    let with_all = triads.or(c8(&LANE3_ALL));
    let tmp = C16::from_parts(with_all, with_all);
    let first = tmp.shuffle(c16(&POS_TRIADS_TO_CANDIDATES[orientation][0]));
    let second = tmp.shuffle(c16(&POS_TRIADS_TO_CANDIDATES[orientation][1]));
    let r = first.or(second);
    proof {
        lemma_low_masks16();
        let t = triads.lanes@;
        let v = orientation as int;
        let (a, b) = (POS_TRIADS_TO_CANDIDATES[v][0]@, POS_TRIADS_TO_CANDIDATES[v][1]@);
        assert forall|k: int, d: int| 0 <= k < 3 implies (#[trigger] bit16(with_all.lanes[k], d)
            <==> bit16(t[k], d)) by {
            assert(LANE3_ALL[k] == 0);
            assert(with_all.lanes[k] == t[k] | 0);
        }
        assert forall|d: int| #[trigger] bit16(with_all.lanes[3], d) <==> 0 <= d < 9 by {
            assert(with_all.lanes[3] == 0u16 | ALL);
        }
        assert forall|lane: int, d: int| 0 <= lane < 16 implies (#[trigger] bit16(
            r.lanes[lane],
            d,
        ) <==> allowed(t, v, lane, d)) by {
            let (x, y) = (selector_lane(a[lane]), selector_lane(b[lane]));
            assert(a[lane] != XX && b[lane] != XX && 0 <= x < 4 && 0 <= y < 4);
            assert(first.lanes[lane] == with_all.lanes[x]);
            assert(second.lanes[lane] == with_all.lanes[y]);
            assert(bit16(r.lanes[lane], d) <==> bit16(with_all.lanes[x], d) || bit16(
                with_all.lanes[y],
                d,
            ));
        }
    }
    r
}

/// Some cell of row `r` asserts digit `d`.
pub open spec fn row_asserts(a: Seq<u16>, r: int, d: int) -> bool {
    bit16(a[4 * r], d) || bit16(a[4 * r + 1], d) || bit16(a[4 * r + 2], d)
}

/// Some cell of column `c` asserts digit `d`.
pub open spec fn col_asserts(a: Seq<u16>, c: int, d: int) -> bool {
    bit16(a[c], d) || bit16(a[4 + c], d) || bit16(a[8 + c], d)
}

/// Some cell asserts digit `d`.
pub open spec fn box_asserts(a: Seq<u16>, d: int) -> bool {
    row_asserts(a, 0, d) || row_asserts(a, 1, d) || row_asserts(a, 2, d)
}

/// What the assertions `a` eliminate from a lane of their box: everything
/// else from an asserted cell, asserted digits from the other cells, and
/// digits asserted in a triad from its negation.
pub open spec fn eliminates(a: Seq<u16>, lane: int, d: int) -> bool {
    let r = lane / 4;
    let c = lane % 4;
    if r < 3 && c < 3 {
        if a[lane] != 0 {
            0 <= d < 16 && !bit16(a[lane], d)
        } else {
            box_asserts(a, d)
        }
    } else if r < 3 {
        row_asserts(a, r, d)
    } else if c < 3 {
        col_asserts(a, c, d)
    } else {
        false
    }
}

/// What the assertions `a` eliminate from a band: a digit asserted not to be
/// in a triad excludes the configurations that place it there, a digit
/// asserted in a triad those that place it elsewhere.
pub open spec fn excludes(a: Seq<u16>, v: int, p: int, k: int, d: int) -> bool {
    let e = config_elem(k, p);
    if v == 0 {
        bit16(a[4 * e + 3], d) || row_asserts(a, (e + 1) % 3, d) || row_asserts(a, (e + 2) % 3, d)
    } else {
        bit16(a[12 + e], d) || col_asserts(a, (e + 1) % 3, d) || col_asserts(a, (e + 2) % 3, d)
    }
}

/// Two rows of a shift table side by side: the first for the low half, the
/// second for the high half.
fn pair16(t: &[[u16; 8]; 3], lo: usize, hi: usize) -> (r: C16)
    requires
        lo < 3,
        hi < 3,
    ensures
        forall|i: int|
            0 <= i < 16 ==> #[trigger] r.lanes[i] == (if i < 8 {
                t[lo as int][i]
            } else {
                t[hi as int][i - 8]
            }),
{
    C16::from_parts(c8(&t[lo]), c8(&t[hi]))
}

/// Turns asserted literals into further eliminations in the box and messages
/// to its two bands.
#[verifier::rlimit(60)]
pub fn assertions_to_eliminations(
    assertions: C16,
    box_i: usize,
    box_j: usize,
    box_eliminations: &mut C16,
    h_band_eliminations: &mut C8,
    v_band_eliminations: &mut C8,
)
    requires
        box_i < 3,
        box_j < 3,
        forall|i: int| 0 <= i < 16 ==> #[trigger] assertions.lanes[i] <= 0x1FF,
    ensures
        forall|i: int, d: int|
            0 <= i < 16 ==> (#[trigger] bit16(final(box_eliminations).lanes[i], d) <==> eliminates(
                assertions.lanes@,
                i,
                d,
            )),
        forall|k: int, d: int|
            0 <= k < 8 ==> (#[trigger] bit16(final(h_band_eliminations).lanes[k], d) <==> bit16(
                old(h_band_eliminations).lanes[k],
                d,
            ) || (k < 6 && excludes(assertions.lanes@, 0, box_j as int, k, d))),
        forall|k: int, d: int|
            0 <= k < 8 ==> (#[trigger] bit16(final(v_band_eliminations).lanes[k], d) <==> bit16(
                old(v_band_eliminations).lanes[k],
                d,
            ) || (k < 6 && excludes(assertions.lanes@, 1, box_i as int, k, d))),
{
    let cell_assertions_only = assertions.and(c16(&CELLS_3X3));
    let t = cell_assertions_only.or(cell_assertions_only.shift_rows_up2());
    let across_rows = t.or(t.shift_rows_up1());
    let whole = cell_assertions_only.box_and_column_unions();
    let nonzero = cell_assertions_only.which_nonzero();
    // The cells eliminate an asserted digit everywhere in the box; margins
    // pick up rows and columns; asserted cells eliminate all bits.
    let new_box_elims = whole.or(across_rows).or(nonzero);
    // The asserted candidate itself stays in its own cell.
    *box_eliminations = new_box_elims.xor(cell_assertions_only);
    let ghost a = assertions.lanes@;
    proof {
        lemma_low_masks16();
        lemma_full16();
        lemma_cells_only(a, cell_assertions_only.lanes@);
        lemma_across(
            a,
            cell_assertions_only.lanes@,
            t.lanes@,
            across_rows.lanes@,
            whole.lanes@,
            nonzero.lanes@,
            new_box_elims.lanes@,
        );
        let co = cell_assertions_only.lanes@;
        assert forall|i: int, d: int| 0 <= i < 16 implies (#[trigger] bit16(
            box_eliminations.lanes[i],
            d,
        ) <==> eliminates(a, i, d)) by {
            assert(box_eliminations.lanes[i] == new_box_elims.lanes[i] ^ co[i]);
            assert(bit16(box_eliminations.lanes[i], d) <==> bit16(new_box_elims.lanes[i], d)
                != bit16(co[i], d));
        }
    }
    let hv_neg = assertions.triad_message();
    let hv_pos = new_box_elims.triad_message();
    let ctrl0 = pair16(&TRIADS_SHIFT0_TO_CONFIG_ELIMS, box_j, box_i);
    let ctrl1 = pair16(&TRIADS_SHIFT1_TO_CONFIG_ELIMS, box_j, box_i);
    let ctrl2 = pair16(&TRIADS_SHIFT2_TO_CONFIG_ELIMS, box_j, box_i);
    proof {
        lemma_shift_tables(box_i as int);
        lemma_shift_tables(box_j as int);
        lemma_pair_control(
            ctrl0.lanes@,
            TRIADS_SHIFT0_TO_CONFIG_ELIMS[box_j as int]@,
            TRIADS_SHIFT0_TO_CONFIG_ELIMS[box_i as int]@,
        );
        lemma_pair_control(
            ctrl1.lanes@,
            TRIADS_SHIFT1_TO_CONFIG_ELIMS[box_j as int]@,
            TRIADS_SHIFT1_TO_CONFIG_ELIMS[box_i as int]@,
        );
        lemma_pair_control(
            ctrl2.lanes@,
            TRIADS_SHIFT2_TO_CONFIG_ELIMS[box_j as int]@,
            TRIADS_SHIFT2_TO_CONFIG_ELIMS[box_i as int]@,
        );
    }
    let e0 = hv_neg.shuffle(ctrl0);
    let e1 = hv_pos.shuffle(ctrl1);
    let e2 = hv_pos.shuffle(ctrl2);
    let new_elims = e0.or(e1).or(e2);
    let ghost h0 = h_band_eliminations.lanes@;
    let ghost v0 = v_band_eliminations.lanes@;
    *h_band_eliminations = h_band_eliminations.or(new_elims.get_lo());
    *v_band_eliminations = v_band_eliminations.or(new_elims.get_hi());
    proof {
        let nb = new_box_elims.lanes@;
        assert forall|k: int, d: int| 6 <= k < 8 implies (#[trigger] bit16(
            h_band_eliminations.lanes[k],
            d,
        ) <==> bit16(h0[k], d)) by {
            assert(e0.lanes[k] == 0 && e1.lanes[k] == 0 && e2.lanes[k] == 0);
            assert(h_band_eliminations.lanes[k] == h0[k] | new_elims.lanes[k]);
        }
        assert forall|k: int, d: int| 0 <= k < 6 implies (#[trigger] bit16(
            h_band_eliminations.lanes[k],
            d,
        ) <==> bit16(h0[k], d) || excludes(a, 0, box_j as int, k, d)) by {
            let e = config_elem(k, box_j as int);
            assert(0 <= e < 3);
            assert(e0.lanes[k] == hv_neg.lanes[4 + e]);
            assert(e1.lanes[k] == hv_pos.lanes[4 + (e + 1) % 3]);
            assert(e2.lanes[k] == hv_pos.lanes[4 + (e + 2) % 3]);
            assert(hv_neg.lanes[4 + e] == a[4 * e + 3]);
            assert(hv_pos.lanes[4 + (e + 1) % 3] == nb[4 * ((e + 1) % 3) + 3]);
            assert(hv_pos.lanes[4 + (e + 2) % 3] == nb[4 * ((e + 2) % 3) + 3]);
            assert(h_band_eliminations.lanes[k] == h0[k] | new_elims.lanes[k]);
        }
        assert forall|k: int, d: int| 6 <= k < 8 implies (#[trigger] bit16(
            v_band_eliminations.lanes[k],
            d,
        ) <==> bit16(v0[k], d)) by {
            assert(e0.lanes[8 + k] == 0 && e1.lanes[8 + k] == 0 && e2.lanes[8 + k] == 0);
            assert(v_band_eliminations.lanes[k] == v0[k] | new_elims.lanes[8 + k]);
        }
        assert forall|k: int, d: int| 0 <= k < 6 implies (#[trigger] bit16(
            v_band_eliminations.lanes[k],
            d,
        ) <==> bit16(v0[k], d) || excludes(a, 1, box_i as int, k, d)) by {
            let e = config_elem(k, box_i as int);
            assert(0 <= e < 3);
            assert(e0.lanes[8 + k] == hv_neg.lanes[8 + 4 + e]);
            assert(e1.lanes[8 + k] == hv_pos.lanes[8 + 4 + (e + 1) % 3]);
            assert(e2.lanes[8 + k] == hv_pos.lanes[8 + 4 + (e + 2) % 3]);
            assert(hv_neg.lanes[12 + e] == a[12 + e]);
            assert(hv_pos.lanes[12 + (e + 1) % 3] == nb[12 + (e + 1) % 3]);
            assert(hv_pos.lanes[12 + (e + 2) % 3] == nb[12 + (e + 2) % 3]);
            assert(v_band_eliminations.lanes[k] == v0[k] | new_elims.lanes[8 + k]);
        }
    }
}

proof fn lemma_pair_control(c: Seq<u16>, lo: Seq<u16>, hi: Seq<u16>)
    requires
        c.len() == 16,
        lo.len() == 8,
        hi.len() == 8,
        is_control(lo),
        is_control(hi),
        forall|i: int|
            0 <= i < 16 ==> #[trigger] c[i] == (if i < 8 {
                lo[i]
            } else {
                hi[i - 8]
            }),
    ensures
        is_control(c),
{
    assert forall|i: int| 0 <= i < 16 implies is_selector(#[trigger] c[i]) by {
        if i < 8 {
            assert(is_selector(lo[i]));
        } else {
            assert(is_selector(hi[i - 8]));
        }
    }
}

/// The cell part of the assertions.
proof fn lemma_cells_only(a: Seq<u16>, co: Seq<u16>)
    requires
        a.len() == 16,
        co.len() == 16,
        forall|i: int| 0 <= i < 16 ==> #[trigger] a[i] <= 0x1FF,
        forall|i: int| 0 <= i < 16 ==> #[trigger] co[i] == a[i] & CELLS_3X3[i],
    ensures
        forall|i: int, d: int|
            0 <= i < 16 ==> (#[trigger] bit16(co[i], d) <==> i / 4 < 3 && i % 4 < 3 && bit16(
                a[i],
                d,
            )),
        forall|i: int|
            0 <= i < 16 && i / 4 < 3 && i % 4 < 3 ==> (#[trigger] co[i] != 0 <==> a[i] != 0),
        forall|i: int|
            0 <= i < 16 && !(i / 4 < 3 && i % 4 < 3) ==> #[trigger] co[i] == 0,
{
    lemma_low_masks16();
    assert forall|i: int, d: int| 0 <= i < 16 implies (#[trigger] bit16(co[i], d) <==> i / 4 < 3 && i
        % 4 < 3 && bit16(a[i], d)) by {
        assert(co[i] == a[i] & CELLS_3X3[i]);
        if i / 4 < 3 && i % 4 < 3 {
            assert(CELLS_3X3[i] == ALL);
            if bit16(a[i], d) {
                crate::bits::lemma_small9(a[i], d);
            }
        } else {
            assert(CELLS_3X3[i] == 0);
        }
    }
    assert forall|i: int| 0 <= i < 16 && i / 4 < 3 && i % 4 < 3 implies (#[trigger] co[i] != 0
        <==> a[i] != 0) by {
        if co[i] != 0 {
            let d = lemma_nonzero16(co[i]);
            assert(bit16(a[i], d));
            assert(!bit16(0u16, d));
        }
        if a[i] != 0 {
            let d = lemma_nonzero16(a[i]);
            assert(bit16(co[i], d));
            assert(!bit16(0u16, d));
        }
    }
    assert forall|i: int| 0 <= i < 16 && !(i / 4 < 3 && i % 4 < 3) implies #[trigger] co[i] == 0 by {
        if co[i] != 0 {
            let d = lemma_nonzero16(co[i]);
        }
    }
}

/// The unions that the eliminations are made of, before the asserted
/// candidates are put back.
proof fn lemma_across(
    a: Seq<u16>,
    co: Seq<u16>,
    t: Seq<u16>,
    across: Seq<u16>,
    whole: Seq<u16>,
    nonzero: Seq<u16>,
    nb: Seq<u16>,
)
    requires
        a.len() == 16,
        co.len() == 16,
        t.len() == 16,
        across.len() == 16,
        forall|i: int, d: int|
            0 <= i < 16 ==> (#[trigger] bit16(co[i], d) <==> i / 4 < 3 && i % 4 < 3 && bit16(
                a[i],
                d,
            )),
        forall|i: int|
            0 <= i < 16 && i / 4 < 3 && i % 4 < 3 ==> (#[trigger] co[i] != 0 <==> a[i] != 0),
        forall|i: int|
            0 <= i < 16 && !(i / 4 < 3 && i % 4 < 3) ==> #[trigger] co[i] == 0,
        forall|i: int|
            0 <= i < 16 ==> #[trigger] t[i] == co[i] | (if i % 4 < 2 {
                0u16
            } else {
                co[i - 2]
            }),
        forall|i: int|
            0 <= i < 16 ==> #[trigger] across[i] == t[i] | (if i % 4 == 0 {
                0u16
            } else {
                t[i - 1]
            }),
        forall|i: int|
            0 <= i < 16 ==> #[trigger] whole[i] == (if i / 4 == 3 {
                crate::tvec::col_union(co, i % 4)
            } else if i % 4 == 3 {
                0
            } else {
                crate::tvec::col_union(co, 0) | crate::tvec::col_union(co, 1)
                    | crate::tvec::col_union(co, 2)
            }),
        forall|i: int|
            0 <= i < 16 ==> #[trigger] nonzero[i] == (if co[i] != 0 {
                0xffffu16
            } else {
                0u16
            }),
        forall|i: int|
            0 <= i < 16 ==> #[trigger] nb[i] == whole[i] | across[i] | nonzero[i],
    ensures
        forall|i: int, d: int|
            0 <= i < 16 ==> (#[trigger] bit16(nb[i], d) <==> if i / 4 < 3 && i % 4 < 3 {
                if a[i] != 0 {
                    0 <= d < 16
                } else {
                    box_asserts(a, d)
                }
            } else {
                eliminates(a, i, d)
            }),
{
    lemma_full16();
    assert forall|c: int, d: int| 0 <= c < 4 implies (#[trigger] bit16(
        crate::tvec::col_union(co, c),
        d,
    ) <==> c < 3 && col_asserts(a, c, d)) by {
        assert(bit16(co[c], d) <==> c < 3 && bit16(a[c], d));
        assert(bit16(co[4 + c], d) <==> c < 3 && bit16(a[4 + c], d));
        assert(bit16(co[8 + c], d) <==> c < 3 && bit16(a[8 + c], d));
        assert(!bit16(co[12 + c], d));
    }
    assert forall|i: int, d: int| 0 <= i < 16 implies (#[trigger] bit16(across[i], d) <==> {
        let r = i / 4;
        let c = i % 4;
        r < 3 && (bit16(a[4 * r], d) || (c >= 1 && bit16(a[4 * r + 1], d)) || (c >= 2 && bit16(
            a[4 * r + 2],
            d,
        )))
    }) by {
        let r = i / 4;
        let c = i % 4;
        assert(i == 4 * r + c);
        assert(across[i] == t[i] | (if c == 0 {
            0u16
        } else {
            t[i - 1]
        }));
        assert(t[i] == co[i] | (if c < 2 {
            0u16
        } else {
            co[i - 2]
        }));
        if c > 0 {
            assert((i - 1) % 4 == c - 1);
            assert(t[i - 1] == co[i - 1] | (if c - 1 < 2 {
                0u16
            } else {
                co[i - 3]
            }));
        }
    }
    assert forall|i: int, d: int| 0 <= i < 16 implies (#[trigger] bit16(nb[i], d) <==> if i / 4 < 3
        && i % 4 < 3 {
        if a[i] != 0 {
            0 <= d < 16
        } else {
            box_asserts(a, d)
        }
    } else {
        eliminates(a, i, d)
    }) by {
        let r = i / 4;
        let c = i % 4;
        assert(i == 4 * r + c);
        assert(nb[i] == whole[i] | across[i] | nonzero[i]);
        assert(bit16(nb[i], d) <==> bit16(whole[i], d) || bit16(across[i], d) || bit16(
            nonzero[i],
            d,
        ));
        if r == 3 {
            assert(co[i] == 0);
            assert(whole[i] == crate::tvec::col_union(co, c));
        } else if c == 3 {
            assert(co[i] == 0);
            assert(whole[i] == 0);
        } else {
            assert(bit16(whole[i], d) <==> col_asserts(a, 0, d) || col_asserts(a, 1, d)
                || col_asserts(a, 2, d));
        }
    }
}

} // verus!
