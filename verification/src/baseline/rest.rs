//! What the rules of the baseline engine leave of the candidates: the sets of
//! candidates from which nothing more can be drawn.

use vstd::prelude::*;
use crate::baseline::cells::{cells_ok, narrower, only, sub_cell};
use crate::baseline::tables::{box_rest_cell, in_unit, int_cell, line_rest_cell};
use crate::bits::{bit16, group_bits16, lemma_nonzero16};
use crate::grid::{lemma_unit_cells, lemma_units_of, peers, unit_cell, unit_index};

verus! {

broadcast use group_bits16;

/// Some cell of unit `u` can hold `d` only.
pub open spec fn placed_in(cand: Seq<u16>, u: int, d: int) -> bool {
    exists|c: int| 0 <= c < 81 && #[trigger] in_unit(u, c) && only(cand[c], d)
}

/// Unit `u` has a cell for digit `d` alone, or two places for it.
pub open spec fn seated(cand: Seq<u16>, u: int, d: int) -> bool {
    placed_in(cand, u, d) || exists|i: int, j: int|
        0 <= i < j < 9 && bit16(cand[#[trigger] unit_cell(u, i)], d) && bit16(
            cand[#[trigger] unit_cell(u, j)],
            d,
        )
}

/// There is nothing to draw from singles: the peers of a cell with one
/// candidate lack it, and no unit has a hidden single.
pub open spec fn singles_drawn(cand: Seq<u16>) -> bool {
    &&& forall|c: int, d: int, x: int|
        0 <= c < 81 && 0 <= x < 81 && #[trigger] only(cand[c], d) && #[trigger] peers(c, x)
            ==> !bit16(cand[x], d)
    &&& forall|u: int, d: int| 0 <= u < 27 && 0 <= d < 9 ==> #[trigger] seated(cand, u, d)
}

/// The three cells of intersection `k` have a place for `d`.
pub open spec fn in_crossing(cand: Seq<u16>, k: int, d: int) -> bool {
    exists|n: int| 0 <= n < 3 && bit16(cand[#[trigger] int_cell(k, n)], d)
}

/// The rest of the box of intersection `k` has a place for `d`.
pub open spec fn in_box_rest(cand: Seq<u16>, k: int, d: int) -> bool {
    exists|j: int| 0 <= j < 6 && bit16(cand[#[trigger] box_rest_cell(k, j)], d)
}

/// The rest of the line of intersection `k` has a place for `d`.
pub open spec fn in_line_rest(cand: Seq<u16>, k: int, d: int) -> bool {
    exists|j: int| 0 <= j < 6 && bit16(cand[#[trigger] line_rest_cell(k, j)], d)
}

/// Candidates in range from which singles draw nothing.
#[verifier::opaque]
pub open spec fn rests(f: Seq<u16>) -> bool {
    cells_ok(f) && singles_drawn(f)
}

/// Whatever rests within `a` lies within `b`.
pub open spec fn spares(a: Seq<u16>, b: Seq<u16>) -> bool {
    forall|f: Seq<u16>| #[trigger] rests(f) && narrower(f, a) ==> narrower(f, b)
}

/// Nothing rests within `a`: the rules refute it.
pub open spec fn refuted(a: Seq<u16>) -> bool {
    forall|f: Seq<u16>| #[trigger] rests(f) ==> !narrower(f, a)
}

pub proof fn lemma_refuted_back(a: Seq<u16>, b: Seq<u16>)
    requires
        spares(a, b),
        refuted(b),
    ensures
        refuted(a),
{
}

/// A cell with one candidate keeps it.
pub proof fn lemma_only_narrower(a: Seq<u16>, b: Seq<u16>, c: int, d: int)
    requires
        0 <= c < 81,
        cells_ok(b),
        narrower(b, a),
        only(a[c], d),
    ensures
        only(b[c], d),
{
    assert(sub_cell(b[c], a[c]));
    assert(b[c] != 0);
    let e = lemma_nonzero16(b[c]);
    assert(bit16(a[c], e));
}

/// Candidates that nothing at rest has may leave a cell.
pub proof fn lemma_spare_cell(a: Seq<u16>, p: int, m: u16)
    requires
        a.len() == 81,
        0 <= p < 81,
        forall|f: Seq<u16>| #[trigger]
            rests(f) && narrower(f, a) ==> sub_cell(f[p], m),
    ensures
        spares(a, a.update(p, m)),
{
    let b = a.update(p, m);
    assert forall|f: Seq<u16>| #[trigger] rests(f) && narrower(f, a) implies narrower(
        f,
        b,
    ) by {
        assert forall|x: int| 0 <= x < f.len() implies sub_cell(#[trigger] f[x], b[x]) by {
            assert(sub_cell(f[x], a[x]));
        }
    }
}

/// The digit of a cell with one candidate may leave a peer.
pub proof fn lemma_spare_peer(a: Seq<u16>, c: int, d: int, p: int, m: u16)
    requires
        a.len() == 81,
        0 <= c < 81,
        0 <= p < 81,
        peers(c, p),
        only(a[c], d),
        forall|e: int| #[trigger] bit16(a[p], e) && e != d ==> bit16(m, e),
    ensures
        spares(a, a.update(p, m)),
{
    assert forall|f: Seq<u16>| #[trigger] rests(f) && narrower(f, a) implies sub_cell(
        f[p],
        m,
    ) by {
        reveal(rests);
        lemma_only_narrower(a, f, c, d);
        assert(sub_cell(f[p], a[p]));
        assert(!bit16(f[p], d));
    }
    lemma_spare_cell(a, p, m);
}

/// Two peers cannot have the same digit alone.
pub proof fn lemma_refuted_clash(a: Seq<u16>, c: int, p: int, d: int)
    requires
        0 <= c < 81,
        0 <= p < 81,
        peers(c, p),
        only(a[c], d),
        only(a[p], d),
    ensures
        refuted(a),
{
    assert forall|f: Seq<u16>| #[trigger] rests(f) implies !narrower(f, a) by {
        if narrower(f, a) {
            reveal(rests);
            lemma_only_narrower(a, f, c, d);
            lemma_only_narrower(a, f, p, d);
            assert(bit16(f[p], d));
        }
    }
}

/// A digit seated in a unit has a place there.
proof fn lemma_seat(f: Seq<u16>, u: int, d: int) -> (i: int)
    requires
        0 <= u < 27,
        seated(f, u, d),
    ensures
        0 <= i < 9,
        bit16(f[unit_cell(u, i)], d),
{
    if placed_in(f, u, d) {
        let c = choose|c: int| 0 <= c < 81 && #[trigger] in_unit(u, c) && only(f[c], d);
        lemma_units_of(c);
        assert(bit16(f[c], d));
        unit_index(u, c)
    } else {
        let (i, j) = choose|i: int, j: int|
            0 <= i < j < 9 && bit16(f[#[trigger] unit_cell(u, i)], d) && bit16(
                f[#[trigger] unit_cell(u, j)],
                d,
            );
        i
    }
}

/// A unit needs a place for each digit.
pub proof fn lemma_refuted_place(a: Seq<u16>, u: int, d: int)
    requires
        a.len() == 81,
        0 <= u < 27,
        0 <= d < 9,
        forall|i: int| 0 <= i < 9 ==> !bit16(a[#[trigger] unit_cell(u, i)], d),
    ensures
        refuted(a),
{
    assert forall|f: Seq<u16>| #[trigger] rests(f) implies !narrower(f, a) by {
        if narrower(f, a) {
            reveal(rests);
            assert(seated(f, u, d));
            let i = lemma_seat(f, u, d);
            lemma_unit_cells(u, i, if i == 0 { 1 } else { 0 });
            assert(sub_cell(f[unit_cell(u, i)], a[unit_cell(u, i)]));
        }
    }
}

/// A digit with one place in a unit of `a` may be entered there in `b`.
pub proof fn lemma_spare_hidden(a: Seq<u16>, b: Seq<u16>, u: int, i0: int, d: int)
    requires
        a.len() == 81,
        b.len() == 81,
        0 <= u < 27,
        0 <= i0 < 9,
        0 <= d < 9,
        spares(a, b),
        forall|i: int|
            0 <= i < 9 && i != i0 ==> !bit16(a[#[trigger] unit_cell(u, i)], d),
    ensures
        spares(a, b.update(unit_cell(u, i0), 1u16 << (d as u16))),
{
    let c = unit_cell(u, i0);
    let m = 1u16 << (d as u16);
    lemma_unit_cells(u, i0, if i0 == 0 { 1 } else { 0 });
    assert forall|f: Seq<u16>| #[trigger] rests(f) && narrower(f, a) implies narrower(
        f,
        b.update(c, m),
    ) by {
        reveal(rests);
        assert forall|i: int| 0 <= i < 9 && i != i0 implies !bit16(
            f[#[trigger] unit_cell(u, i)],
            d,
        ) by {
            lemma_unit_cells(u, i, i0);
            assert(sub_cell(f[unit_cell(u, i)], a[unit_cell(u, i)]));
            assert(!bit16(a[unit_cell(u, i)], d));
        }
        assert(seated(f, u, d));
        assert(placed_in(f, u, d)) by {
            if !placed_in(f, u, d) {
                let (i, j) = choose|i: int, j: int|
                    0 <= i < j < 9 && bit16(f[#[trigger] unit_cell(u, i)], d) && bit16(
                        f[#[trigger] unit_cell(u, j)],
                        d,
                    );
                assert(i == i0 && j == i0);
            }
        }
        let x = choose|x: int| 0 <= x < 81 && #[trigger] in_unit(u, x) && only(f[x], d);
        lemma_units_of(x);
        assert(bit16(f[unit_cell(u, unit_index(u, x))], d));
        assert(x == c);
        assert forall|y: int| 0 <= y < f.len() implies sub_cell(
            #[trigger] f[y],
            b.update(c, m)[y],
        ) by {
            assert(sub_cell(f[y], b[y]));
            if y == c {
                assert forall|e: int| #[trigger] bit16(f[y], e) implies bit16(m, e) by {
                    assert(e == d);
                }
            }
        }
    }
}

/// What two resting sets share decides: the largest within `a` is unique.
pub proof fn lemma_rest_unique(a: Seq<u16>, f: Seq<u16>, g: Seq<u16>)
    requires
        rests(f),
        rests(g),
        narrower(f, a),
        narrower(g, a),
        spares(a, f),
        spares(a, g),
    ensures
        f == g,
{
    assert(narrower(f, g) && narrower(g, f));
    assert forall|c: int| 0 <= c < f.len() implies f[c] == g[c] by {
        assert(sub_cell(f[c], g[c]) && sub_cell(g[c], f[c]));
        crate::bits::lemma_ext16(f[c], g[c]);
    }
    assert(f =~= g);
}

} // verus!
