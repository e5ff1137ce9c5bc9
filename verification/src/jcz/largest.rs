//! Boards that have a stable part have a largest one: the union of stable boards
//! is stable.

use vstd::prelude::*;
use crate::bits::{bit32, group_bits32, lemma_low_masks32, lemma_subset32, total32};
use crate::boards::{boards_ok, lemma_within_total, sub32, within};
use crate::jcz::closure::{
    closed_self, column_clear, has_candidate, is_closure, keeps_stable, lemma_fits_mono,
    lemma_in_band, lemma_lone_col_mono, lemma_pinned_mono, lone_col, lone_digit, pinned, stable,
};
use crate::jcz::course::{closed_boards, closes_to};
use crate::jcz::tables::near;
use crate::minirow::{fits_cells, in_perm, supported, BAND_ALL};

verus! {

broadcast use group_bits32;

/// The candidates of both boards.
pub open spec fn united(u: Seq<u32>, v: Seq<u32>) -> Seq<u32> {
    Seq::new(27, |i: int| u[i] | v[i])
}

/// Both boards lie within their union.
proof fn lemma_united(u: Seq<u32>, v: Seq<u32>)
    requires
        boards_ok(u),
        boards_ok(v),
    ensures
        boards_ok(united(u, v)),
        within(u, united(u, v)),
        within(v, united(u, v)),
        forall|i: int, p: int|
            0 <= i < 27 ==> (#[trigger] bit32(united(u, v)[i], p) <==> bit32(u[i], p) || bit32(
                v[i],
                p,
            )),
{
    let j = united(u, v);
    assert forall|i: int| 0 <= i < 27 implies #[trigger] j[i] <= BAND_ALL by {
        lemma_low_masks32();
        assert forall|p: int| bit32(j[i], p) implies bit32(BAND_ALL, p) by {
            if bit32(u[i], p) {
                lemma_in_band(u[i], p);
            } else {
                lemma_in_band(v[i], p);
            }
        }
        lemma_subset32(j[i], BAND_ALL);
    }
    assert forall|i: int| 0 <= i < 27 implies sub32(#[trigger] u[i], j[i]) by {}
    assert forall|i: int| 0 <= i < 27 implies sub32(#[trigger] v[i], j[i]) by {}
}

/// The union of closed words is closed.
proof fn lemma_united_closed(x: u32, y: u32)
    requires
        supported(x),
        closed_self(x),
        closed_self(y),
    ensures
        supported(x | y),
        closed_self(x | y),
{
    let m = x | y;
    assert(sub32(x, m) && sub32(y, m));
    let k = choose|k: int| #[trigger] fits_cells(x, k);
    lemma_fits_mono(x, m, k);
    assert forall|p: int| #[trigger] bit32(m, p) implies exists|k: int| #[trigger]
        fits_cells(m, k) && in_perm(k, p / 3) by {
        if bit32(x, p) {
            let k = choose|k: int| #[trigger] fits_cells(x, k) && in_perm(k, p / 3);
            lemma_fits_mono(x, m, k);
        } else {
            let k = choose|k: int| #[trigger] fits_cells(y, k) && in_perm(k, p / 3);
            lemma_fits_mono(y, m, k);
        }
    }
}

/// Where the union claims a column, both boards do.
proof fn lemma_united_clear(u: Seq<u32>, v: Seq<u32>, b: int, d: int, b2: int)
    requires
        boards_ok(u),
        boards_ok(v),
        0 <= b < 3,
        0 <= d < 9,
        0 <= b2 < 3,
        supported(u[9 * b + d]),
        supported(v[9 * b + d]),
        column_clear(u, b, d, b2),
        column_clear(v, b, d, b2),
    ensures
        column_clear(united(u, v), b, d, b2),
{
    let j = united(u, v);
    lemma_united(u, v);
    assert forall|q: int| 0 <= q < 27 && lone_col(j[9 * b + d], q % 9) implies !#[trigger] bit32(
        j[9 * b2 + d],
        q,
    ) by {
        assert(sub32(u[9 * b + d], j[9 * b + d]) && sub32(v[9 * b + d], j[9 * b + d]));
        lemma_lone_col_mono(u[9 * b + d], j[9 * b + d], q % 9);
        lemma_lone_col_mono(v[9 * b + d], j[9 * b + d], q % 9);
        assert(!bit32(u[9 * b2 + d], q) && !bit32(v[9 * b2 + d], q));
    }
}

/// What stable boards say of one cell.
pub proof fn lemma_stable_cell(u: Seq<u32>, b: int, d: int, p: int)
    requires
        stable(u),
        0 <= b < 3,
        0 <= d < 9,
        0 <= p < 27,
    ensures
        boards_ok(u),
        supported(u[9 * b + d]),
        has_candidate(u, b, p),
        bit32(u[9 * b + d], p) ==> (pinned(u[9 * b + d], p) <==> lone_digit(u, b, d, p)),
{
    reveal(stable);
    assert(bit32(u[9 * b + d], p) ==> (pinned(u[9 * b + d], p) <==> lone_digit(u, b, d, p)));
}

/// In the union of stable boards a digit is pinned exactly if it is alone.
proof fn lemma_united_pins(u: Seq<u32>, v: Seq<u32>, b: int, d: int, p: int)
    requires
        stable(u),
        stable(v),
        0 <= b < 3,
        0 <= d < 9,
        0 <= p < 27,
    ensures
        pinned(united(u, v)[9 * b + d], p) ==> lone_digit(united(u, v), b, d, p),
        lone_digit(united(u, v), b, d, p) ==> pinned(united(u, v)[9 * b + d], p),
        has_candidate(united(u, v), b, p),
{
    let j = united(u, v);
    let i = 9 * b + d;
    lemma_stable_cell(u, b, d, p);
    lemma_stable_cell(v, b, d, p);
    lemma_united(u, v);
    assert(sub32(u[i], j[i]) && sub32(v[i], j[i]));
    let e0 = choose|e: int| 0 <= e < 9 && bit32(#[trigger] u[9 * b + e], p);
    let f0 = choose|e: int| 0 <= e < 9 && bit32(#[trigger] v[9 * b + e], p);
    assert(bit32(j[9 * b + e0], p) && bit32(j[9 * b + f0], p));
    if pinned(j[i], p) {
        lemma_pinned_mono(u[i], j[i], p);
        lemma_pinned_mono(v[i], j[i], p);
        assert(lone_digit(u, b, d, p) && lone_digit(v, b, d, p));
        assert forall|e: int| 0 <= e < 9 && e != d implies !bit32(#[trigger] j[9 * b + e], p) by {
            assert(!bit32(u[9 * b + e], p) && !bit32(v[9 * b + e], p));
        }
    }
    if lone_digit(j, b, d, p) {
        assert(e0 == d && f0 == d);
        assert forall|e: int| 0 <= e < 9 && e != d implies !bit32(#[trigger] u[9 * b + e], p)
            && !bit32(v[9 * b + e], p) by {
            assert(!bit32(j[9 * b + e], p));
        }
        assert(lone_digit(u, b, d, p) && lone_digit(v, b, d, p));
        assert(pinned(u[i], p) && pinned(v[i], p));
        assert forall|q: int| 0 <= q < 27 && near(q, p) && #[trigger] bit32(j[i], q) implies q == p by {
            if bit32(u[i], q) {
            } else {
                assert(bit32(v[i], q));
            }
        }
    }
}

/// The union of stable boards is stable.
proof fn lemma_united_stable(u: Seq<u32>, v: Seq<u32>)
    requires
        stable(u),
        stable(v),
    ensures
        stable(united(u, v)),
{
    let j = united(u, v);
    lemma_stable_cell(u, 0, 0, 0);
    lemma_stable_cell(v, 0, 0, 0);
    lemma_united(u, v);
    assert forall|i: int| 0 <= i < 27 implies supported(#[trigger] j[i]) && closed_self(j[i]) by {
        assert(supported(u[i]) && closed_self(u[i]) && closed_self(v[i])) by {
            reveal(stable);
        }
        lemma_united_closed(u[i], v[i]);
    }
    assert forall|b: int, d: int, b2: int|
        0 <= b < 3 && 0 <= d < 9 && 0 <= b2 < 3 && b2 != b implies #[trigger] column_clear(
        j,
        b,
        d,
        b2,
    ) by {
        lemma_stable_cell(u, b, d, 0);
        lemma_stable_cell(v, b, d, 0);
        assert(column_clear(u, b, d, b2) && column_clear(v, b, d, b2)) by {
            reveal(stable);
        }
        lemma_united_clear(u, v, b, d, b2);
    }
    assert forall|b: int, d: int, p: int|
        0 <= b < 3 && 0 <= d < 9 && 0 <= p < 27 && bit32(j[9 * b + d], p) implies (pinned(
        j[9 * b + d],
        p,
    ) <==> #[trigger] lone_digit(j, b, d, p)) by {
        lemma_united_pins(u, v, b, d, p);
    }
    assert forall|b: int, p: int| 0 <= b < 3 && 0 <= p < 27 implies #[trigger] has_candidate(
        j,
        b,
        p,
    ) by {
        lemma_united_pins(u, v, b, 0, p);
    }
    reveal(stable);
}

/// A largest stable part, from any stable part.
proof fn lemma_grow(a: Seq<u32>, v: Seq<u32>) -> (w: Seq<u32>)
    requires
        stable(v),
        within(v, a),
    ensures
        is_closure(w, a),
    decreases total32(a) - total32(v),
{
    if keeps_stable(a, v) {
        v
    } else {
        let x = choose|x: Seq<u32>| stable(x) && #[trigger] within(x, a) && !within(x, v);
        let u = united(v, x);
        lemma_stable_cell(v, 0, 0, 0);
        lemma_stable_cell(x, 0, 0, 0);
        lemma_united(v, x);
        lemma_united_stable(v, x);
        assert(within(u, a)) by {
            assert forall|i: int| 0 <= i < 27 implies sub32(#[trigger] u[i], a[i]) by {
                assert(sub32(v[i], a[i]) && sub32(x[i], a[i]));
                assert forall|p: int| #[trigger] bit32(u[i], p) implies bit32(a[i], p) by {
                    assert(bit32(v[i], p) || bit32(x[i], p));
                }
            }
        }
        let i = choose|i: int| 0 <= i < 27 && !sub32(#[trigger] x[i], v[i]);
        assert(v[i] != u[i]) by {
            assert(sub32(x[i], u[i]));
        }
        lemma_within_total(v, u);
        lemma_within_total(u, a);
        lemma_grow(a, u)
    }
}

/// Boards with a stable part have a closure.
pub proof fn lemma_closed(a: Seq<u32>, v: Seq<u32>)
    requires
        stable(v),
        within(v, a),
    ensures
        closed_boards(a) is Some,
{
    let w = lemma_grow(a, v);
    lemma_within_total(w, a);
    assert(closes_to(w, a));
}

} // verus!
