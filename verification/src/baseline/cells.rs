//! Candidate sets per cell, and the grids that they admit.

use vstd::prelude::*;
use crate::bits::{
    bit16, count, group_bits16, lemma_count_mono, lemma_nonzero16, lemma_small9, lemma_subset16,
    lemma_total16, total16, without_lowest16,
};
use crate::grid::{
    is_grid, lemma_grid_facts, lemma_none, lemma_only, lemma_unit_has, peers, unit_cell,
};

verus! {

broadcast use group_bits16;

/// 81 sets of digits, none of them empty.
pub open spec fn cells_ok(cand: Seq<u16>) -> bool {
    cand.len() == 81 && forall|c: int| 0 <= c < 81 ==> #[trigger] cand[c] != 0 && cand[c] <= 0x1FF
}

/// Every cell of `g` holds one of the cell's candidates.
#[verifier::opaque]
pub open spec fn admits(cand: Seq<u16>, g: Seq<u8>) -> bool {
    forall|c: int| 0 <= c < 81 ==> bit16(cand[c], #[trigger] g[c] - 1)
}

/// The complete grids that the candidates admit.
pub open spec fn cell_solutions(cand: Seq<u16>) -> Set<Seq<u8>> {
    Set::new(|g: Seq<u8>| is_grid(g) && admits(cand, g))
}

/// `m` holds `d` and nothing else.
pub open spec fn only(m: u16, d: int) -> bool {
    forall|e: int| #[trigger] bit16(m, e) <==> e == d
}

/// `m` holds exactly one digit.
pub open spec fn single(m: u16) -> bool {
    exists|d: int| #[trigger] only(m, d)
}

/// `x` has no digit that `y` lacks.
pub open spec fn sub_cell(x: u16, y: u16) -> bool {
    forall|d: int| #[trigger] bit16(x, d) ==> bit16(y, d)
}

/// No cell of `a` has a candidate that it lacks in `b`.
pub open spec fn narrower(a: Seq<u16>, b: Seq<u16>) -> bool {
    a.len() == b.len() && forall|c: int| 0 <= c < a.len() ==> sub_cell(#[trigger] a[c], b[c])
}

/// Every grid that `a` admits is admitted by `b`.
pub open spec fn keeps(a: Seq<u16>, b: Seq<u16>) -> bool {
    forall|g: Seq<u8>| is_grid(g) && #[trigger] admits(a, g) ==> admits(b, g)
}

/// No grid is admitted.
pub open spec fn dead(cand: Seq<u16>) -> bool {
    forall|g: Seq<u8>| is_grid(g) ==> !#[trigger] admits(cand, g)
}

/// Number of cells with more than one candidate.
pub open spec fn multi(cand: Seq<u16>) -> nat {
    count(|c: int| !single(cand[c]), 81)
}

pub proof fn lemma_narrower_trans(a: Seq<u16>, b: Seq<u16>, c: Seq<u16>)
    requires
        narrower(a, b),
        narrower(b, c),
    ensures
        narrower(a, c),
{
    assert forall|i: int| 0 <= i < a.len() implies sub_cell(#[trigger] a[i], c[i]) by {
        assert(sub_cell(a[i], b[i]));
        assert(sub_cell(b[i], c[i]));
    }
}

pub proof fn lemma_narrower_admits(a: Seq<u16>, b: Seq<u16>, g: Seq<u8>)
    requires
        a.len() == 81,
        narrower(a, b),
        admits(a, g),
    ensures
        admits(b, g),
{
    reveal(admits);
    assert forall|c: int| 0 <= c < 81 implies bit16(b[c], #[trigger] g[c] - 1) by {
        assert(sub_cell(a[c], b[c]));
        assert(bit16(a[c], g[c] - 1));
    }
}

pub proof fn lemma_same_cells(a: Seq<u16>, b: Seq<u16>)
    requires
        b.len() == 81,
        narrower(b, a),
        keeps(a, b),
    ensures
        cell_solutions(a) == cell_solutions(b),
{
    assert forall|g: Seq<u8>| cell_solutions(b).contains(g) implies cell_solutions(a).contains(g) by {
        lemma_narrower_admits(b, a, g);
    }
    assert(cell_solutions(a) =~= cell_solutions(b));
}

pub proof fn lemma_dead_cells(a: Seq<u16>)
    requires
        dead(a),
    ensures
        cell_solutions(a).len() == 0,
{
    lemma_none(cell_solutions(a));
}

/// If later candidates admit nothing, neither do earlier ones.
pub proof fn lemma_dead_back(a: Seq<u16>, b: Seq<u16>)
    requires
        keeps(a, b),
        dead(b),
    ensures
        dead(a),
{
    assert forall|g: Seq<u8>| is_grid(g) implies !#[trigger] admits(a, g) by {
        if admits(a, g) {
            assert(admits(b, g));
        }
    }
}

pub proof fn lemma_narrower_total(a: Seq<u16>, b: Seq<u16>)
    requires
        narrower(a, b),
    ensures
        total16(a) <= total16(b),
        (exists|c: int| 0 <= c < a.len() && #[trigger] a[c] != b[c]) ==> total16(a) < total16(b),
{
    assert forall|i: int| 0 <= i < a.len() implies #[trigger] a[i] <= b[i] by {
        assert(sub_cell(a[i], b[i]));
        lemma_subset16(a[i], b[i]);
    }
    lemma_total16(a, b);
}

/// Replacing one cell's candidates keeps a grid whose digit stays.
pub proof fn lemma_update_admits(a: Seq<u16>, c: int, m: u16, g: Seq<u8>)
    requires
        a.len() == 81,
        0 <= c < 81,
        admits(a, g),
        bit16(m, g[c] - 1),
    ensures
        admits(a.update(c, m), g),
{
    reveal(admits);
    let b = a.update(c, m);
    assert forall|x: int| 0 <= x < 81 implies bit16(b[x], #[trigger] g[x] - 1) by {
        assert(bit16(a[x], g[x] - 1));
    }
}

/// Shrinking one cell.
pub proof fn lemma_update_narrower(a: Seq<u16>, c: int, m: u16)
    requires
        0 <= c < a.len(),
        sub_cell(m, a[c]),
    ensures
        narrower(a.update(c, m), a),
{
    let b = a.update(c, m);
    assert forall|i: int| 0 <= i < b.len() implies sub_cell(#[trigger] b[i], a[i]) by {}
}

/// What a grid holds at a cell with one candidate.
pub proof fn lemma_only_digit(cand: Seq<u16>, g: Seq<u8>, c: int, d: int)
    requires
        0 <= c < 81,
        admits(cand, g),
        only(cand[c], d),
    ensures
        g[c] == d + 1,
{
    reveal(admits);
    assert(bit16(cand[c], g[c] - 1));
}

/// A cell that goes from several candidates to one makes one cell fewer with
/// several.
pub proof fn lemma_multi_update(cand: Seq<u16>, c: int, m: u16)
    requires
        cand.len() == 81,
        0 <= c < 81,
        !single(cand[c]),
    ensures
        single(m) ==> multi(cand.update(c, m)) + 1 == multi(cand),
        !single(m) ==> multi(cand.update(c, m)) == multi(cand),
{
    let b = cand.update(c, m);
    let f = |x: int| !single(cand[x]);
    let h = |x: int| !single(b[x]);
    if single(m) {
        assert forall|x: int| 0 <= x < 81 implies (h(x) <==> #[trigger] f(x) && x != c) by {
            if x != c {
                assert(b[x] == cand[x]);
            }
        }
        crate::bits::lemma_count_drop(h, f, 81, c);
    } else {
        assert forall|x: int| 0 <= x < 81 && f(x) implies #[trigger] h(x) by {
            if x != c {
                assert(b[x] == cand[x]);
            }
        }
        assert forall|x: int| 0 <= x < 81 && h(x) implies #[trigger] f(x) by {
            if x != c {
                assert(b[x] == cand[x]);
            }
        }
        lemma_count_mono(f, h, 81);
        lemma_count_mono(h, f, 81);
    }
}

/// Narrower candidates have no more cells with several.
pub proof fn lemma_multi_narrower(a: Seq<u16>, b: Seq<u16>)
    requires
        cells_ok(a),
        narrower(a, b),
        b.len() == 81,
    ensures
        multi(a) <= multi(b) <= 81,
{
    let f = |x: int| !single(a[x]);
    let h = |x: int| !single(b[x]);
    assert forall|x: int| 0 <= x < 81 && f(x) implies #[trigger] h(x) by {
        if single(b[x]) {
            let d = choose|d: int| #[trigger] only(b[x], d);
            assert(sub_cell(a[x], b[x]));
            assert(a[x] != 0);
            let e = lemma_nonzero16(a[x]);
            assert(only(a[x], d));
        }
    }
    lemma_count_mono(f, h, 81);
    lemma_count_mono(h, h, 81);
}

/// Whether a set that is not empty has exactly one digit.
pub fn is_single(m: u16) -> (r: bool)
    requires
        m != 0,
    ensures
        r <==> single(m),
{
    let rest = without_lowest16(m);
    proof {
        let t = choose|t: int|
            #![trigger bit16(m, t)]
            bit16(m, t) && (forall|j: int| 0 <= j < t ==> !bit16(m, j)) && (forall|i: int|
                bit16(rest, i) <==> bit16(m, i) && i != t);
        assert(bit16(m, t));
        if rest == 0 {
            assert forall|e: int| #[trigger] bit16(m, e) <==> e == t by {
                if bit16(m, e) && e != t {
                    assert(bit16(rest, e));
                    assert(!bit16(0u16, e));
                }
            }
            assert(only(m, t));
        } else {
            let e = lemma_nonzero16(rest);
            assert(bit16(m, e) && e != t);
            if single(m) {
                let d = choose|d: int| #[trigger] only(m, d);
                assert(bit16(m, t) <==> t == d);
                assert(bit16(m, e) <==> e == d);
            }
        }
    }
    rest == 0
}

/// A unit in which no cell can hold `d` admits no grid.
pub proof fn lemma_no_place(cand: Seq<u16>, u: int, d: int)
    requires
        0 <= u < 27,
        0 <= d < 9,
        forall|i: int| 0 <= i < 9 ==> !bit16(cand[#[trigger] unit_cell(u, i)], d),
    ensures
        dead(cand),
{
    assert forall|g: Seq<u8>| is_grid(g) implies !#[trigger] admits(cand, g) by {
        if admits(cand, g) {
            let i = lemma_unit_has(g, u, d + 1);
            reveal(admits);
            assert(bit16(cand[unit_cell(u, i)], g[unit_cell(u, i)] - 1));
        }
    }
}

/// Two peers with the same only candidate admit no grid.
pub proof fn lemma_clash(cand: Seq<u16>, a: int, b: int, d: int)
    requires
        0 <= a < 81,
        0 <= b < 81,
        peers(a, b),
        only(cand[a], d),
        only(cand[b], d),
    ensures
        dead(cand),
{
    assert forall|g: Seq<u8>| is_grid(g) implies !#[trigger] admits(cand, g) by {
        if admits(cand, g) {
            lemma_only_digit(cand, g, a, d);
            lemma_only_digit(cand, g, b, d);
            lemma_grid_facts(g);
        }
    }
}

/// Candidates with one digit per cell that no peer shares spell out exactly
/// one grid.
pub proof fn lemma_cells_leaf(cand: Seq<u16>) -> (g: Seq<u8>)
    requires
        cells_ok(cand),
        forall|c: int| 0 <= c < 81 ==> single(#[trigger] cand[c]),
        forall|a: int, b: int, d: int|
            0 <= a < 81 && 0 <= b < 81 && peers(a, b) && only(#[trigger] cand[a], d) ==> !(
            #[trigger] bit16(cand[b], d)),
    ensures
        is_grid(g),
        forall|c: int| 0 <= c < 81 ==> only(cand[c], #[trigger] g[c] - 1),
        cell_solutions(cand).contains(g),
        cell_solutions(cand).len() == 1,
{
    let dig = |c: int| choose|d: int| #[trigger] only(cand[c], d);
    let g = Seq::new(81, |c: int| (dig(c) + 1) as u8);
    assert forall|c: int| 0 <= c < 81 implies only(cand[c], #[trigger] g[c] - 1) && 1 <= g[c]
        <= 9 by {
        assert(single(cand[c]));
        assert(only(cand[c], dig(c)));
        assert(bit16(cand[c], dig(c)));
        lemma_small9(cand[c], dig(c));
    }
    assert forall|a: int, b: int| 0 <= a < 81 && 0 <= b < 81 && peers(a, b) implies #[trigger] g[a]
        != #[trigger] g[b] by {
        assert(only(cand[a], g[a] - 1));
        assert(bit16(cand[b], g[b] - 1));
    }
    assert(is_grid(g)) by {
        reveal(is_grid);
    }
    assert(admits(cand, g)) by {
        reveal(admits);
    }
    assert forall|h: Seq<u8>| #[trigger] cell_solutions(cand).contains(h) implies h == g by {
        lemma_grid_facts(h);
        assert forall|c: int| 0 <= c < 81 implies h[c] == g[c] by {
            assert(only(cand[c], g[c] - 1));
            lemma_only_digit(cand, h, c, g[c] - 1);
        }
        assert(h =~= g);
    }
    lemma_only(cell_solutions(cand), g);
    g
}

} // verus!
