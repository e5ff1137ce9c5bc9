//! Boards at rest: candidates from which singles and the permutations of
//! digits over bands and stacks draw nothing more, and the largest such
//! boards within given ones.

use vstd::prelude::*;
use crate::bits::{bit32, count, group_bits32, lemma_count_some, lemma_ext32, total32};
use crate::boards::{boards_ok, cand, cands, digits_at, encodes, placed, sub32, within};
use crate::grid::{is_grid, lemma_grid_facts, peers, settled_as};
use crate::layout::{
    band_pos, closed_off, has_minirow, in_band, laid, lemma_cand_within, lemma_grid_reduced,
    lemma_grid_settled, lemma_line_cell, lemma_through_within, line_cell, lone, placeable, reach,
    reduced, settled_minirow, through,
};
use crate::minirow::{perm_box, BAND_ALL};

verus! {

broadcast use group_bits32;

/// Digit `d` is the only candidate of cell `c`.
pub open spec fn sole(bs: Seq<u32>, c: int, d: int) -> bool {
    &&& cand(bs, c, d)
    &&& forall|e: int| 0 <= e < 9 && #[trigger] cand(bs, c, e) ==> e == d
}

/// Some digit is a candidate of cell `c`.
pub open spec fn filled(bs: Seq<u32>, c: int) -> bool {
    exists|d: int| 0 <= d < 9 && #[trigger] cand(bs, c, d)
}

/// Minirow `i` of band `bi` can be used by three digits or more, and by just
/// three only if they use no minirow linked to it.
pub open spec fn counted(bs: Seq<u32>, bi: int, i: int) -> bool {
    &&& reach(bs, bi, i) >= 3
    &&& reach(bs, bi, i) == 3 ==> settled_minirow(bs, bi, i)
}

/// The rules draw nothing from the boards: every cell has a candidate, one
/// alone has left the peers, a lone place of a digit in a row or column has
/// no other candidate, and every digit lies in its permutations over every
/// band and stack. With `pins`, minirows are counted too.
#[verifier::opaque]
pub open spec fn rests(f: Seq<u32>, pins: bool) -> bool {
    &&& f.len() == 27
    &&& forall|c: int| 0 <= c < 81 ==> #[trigger] filled(f, c)
    &&& forall|c: int, d: int, x: int|
        0 <= c < 81 && 0 <= x < 81 && 0 <= d < 9 && #[trigger] sole(f, c, d) && #[trigger] peers(
            c,
            x,
        ) ==> !cand(f, x, d)
    &&& forall|bi: int, d: int, l: int, x: int|
        0 <= bi < 6 && 0 <= d < 9 && 0 <= l < 3 && 0 <= x < 9 && #[trigger] lone(f, bi, d, l, x)
            ==> sole(f, line_cell(bi, l, x), d)
    &&& forall|bi: int, d: int| 0 <= bi < 6 && 0 <= d < 9 ==> #[trigger] reduced(f, f, bi, d)
    &&& pins ==> forall|bi: int, i: int| 0 <= bi < 6 && 0 <= i < 9 ==> #[trigger] counted(f, bi, i)
}

/// Assignments: pairs of a cell and a digit.
pub open spec fn met(f: Seq<u32>, asks: Set<(int, int)>) -> bool {
    forall|c: int, d: int| #[trigger] asks.contains((c, d)) ==> sole(f, c, d)
}

/// `f` is at rest within the boards and makes the assignments.
pub open spec fn nests(f: Seq<u32>, bs: Seq<u32>, asks: Set<(int, int)>, pins: bool) -> bool {
    rests(f, pins) && within(f, bs) && met(f, asks)
}

/// The same boards at rest make the assignments within `a` and within `b`.
pub open spec fn same_nests(
    a: Seq<u32>,
    p: Set<(int, int)>,
    b: Seq<u32>,
    q: Set<(int, int)>,
    pins: bool,
) -> bool {
    forall|f: Seq<u32>| #[trigger] nests(f, a, p, pins) <==> nests(f, b, q, pins)
}

/// The rules refute the boards with the assignments.
pub open spec fn refuted(bs: Seq<u32>, asks: Set<(int, int)>, pins: bool) -> bool {
    forall|f: Seq<u32>| !#[trigger] nests(f, bs, asks, pins)
}

/// Whatever rests within `a` lies within `b`.
pub open spec fn spares(a: Seq<u32>, b: Seq<u32>, pins: bool) -> bool {
    forall|f: Seq<u32>| #[trigger] rests(f, pins) && within(f, a) ==> within(f, b)
}

/// Nothing rests within the boards.
pub open spec fn barren(bs: Seq<u32>, pins: bool) -> bool {
    forall|f: Seq<u32>| #[trigger] rests(f, pins) ==> !within(f, bs)
}

/// Whatever rests within the boards has digit `d` alone at cell `c`.
pub open spec fn forced(bs: Seq<u32>, c: int, d: int) -> bool {
    forall|f: Seq<u32>| #[trigger] rests(f, false) && within(f, bs) ==> sole(f, c, d)
}

/// `f` is the largest part of the boards at rest that makes the assignments.
pub open spec fn closes_to(
    bs: Seq<u32>,
    asks: Set<(int, int)>,
    pins: bool,
    f: Seq<u32>,
) -> bool {
    nests(f, bs, asks, pins) && forall|h: Seq<u32>| #[trigger] nests(h, bs, asks, pins) ==> within(
        h,
        f,
    )
}

/// That part, or `None` if there is none.
pub open spec fn closed_part(bs: Seq<u32>, asks: Set<(int, int)>, pins: bool) -> Option<Seq<u32>> {
    if exists|f: Seq<u32>| closes_to(bs, asks, pins, f) {
        Some(choose|f: Seq<u32>| closes_to(bs, asks, pins, f))
    } else {
        None
    }
}

// ---------------------------------------------------------------------------
// Search
// ---------------------------------------------------------------------------

/// How many candidates cell `c` has.
pub open spec fn choices(bs: Seq<u32>, c: int) -> nat {
    digits_at(bs, c / 27, c % 27, 9)
}

/// Cell `c` has the fewest candidates of those with several, and is the first
/// such cell.
pub open spec fn first_fewest(bs: Seq<u32>, c: int) -> bool {
    &&& 0 <= c < 81
    &&& choices(bs, c) >= 2
    &&& forall|x: int|
        0 <= x < 81 && #[trigger] choices(bs, x) >= 2 ==> choices(bs, c) <= choices(bs, x) && (x < c
            ==> choices(bs, c) < choices(bs, x))
}

/// No cell has several candidates.
pub open spec fn decided(bs: Seq<u32>) -> bool {
    forall|c: int| 0 <= c < 81 ==> #[trigger] choices(bs, c) < 2
}

/// The grid that decided boards spell out.
pub open spec fn spelled(bs: Seq<u32>) -> Seq<u8> {
    choose|g: Seq<u8>| is_grid(g) && #[trigger] encodes(bs, g)
}

/// The first grid that a search finds within the boards: the first cell with
/// the fewest of several candidates is branched on, its digits in increasing
/// order.
pub open spec fn first_leaf(bs: Seq<u32>, pins: bool) -> Option<Seq<u8>>
    decreases total32(bs), 11nat,
{
    if decided(bs) {
        Some(spelled(bs))
    } else {
        first_leaf_from(bs, choose|c: int| first_fewest(bs, c), 0, pins)
    }
}

/// The first grid found with a digit from `d` on in cell `c`.
pub open spec fn first_leaf_from(bs: Seq<u32>, c: int, d: nat, pins: bool) -> Option<Seq<u8>>
    decreases total32(bs), (10 - d) as nat,
{
    if d >= 9 {
        None
    } else if !cand(bs, c, d as int) {
        first_leaf_from(bs, c, d + 1, pins)
    } else {
        match closed_part(bs, set![(c, d as int)], pins) {
            None => first_leaf_from(bs, c, d + 1, pins),
            Some(f) => if total32(f) < total32(bs) {
                let found = first_leaf(f, pins);
                if found is Some {
                    found
                } else {
                    first_leaf_from(bs, c, d + 1, pins)
                }
            } else {
                None
            },
        }
    }
}

/// Boards with every candidate.
pub open spec fn full_boards() -> Seq<u32> {
    Seq::new(27, |i: int| BAND_ALL)
}

/// The clues as assignments.
pub open spec fn clue_asks(clues: Seq<u8>) -> Set<(int, int)> {
    Set::new(|p: (int, int)| 0 <= p.0 < 81 && clues[p.0] != 0 && p.1 == clues[p.0] - 1)
}

/// The first solution that a search from the clues finds.
pub open spec fn first_found(clues: Seq<u8>, pins: bool) -> Option<Seq<u8>> {
    match closed_part(full_boards(), clue_asks(clues), pins) {
        None => None,
        Some(f) => first_leaf(f, pins),
    }
}

// ---------------------------------------------------------------------------
// Lemmas
// ---------------------------------------------------------------------------

/// What rests with pins also rests without.
pub proof fn lemma_rests_more(f: Seq<u32>)
    requires
        rests(f, true),
    ensures
        rests(f, false),
{
    reveal(rests);
}

pub proof fn lemma_cand(a: Seq<u32>, b: Seq<u32>, c: int, d: int)
    requires
        within(a, b),
        a.len() == 27,
        0 <= c < 81,
        0 <= d < 9,
        cand(a, c, d),
    ensures
        cand(b, c, d),
{
    assert(sub32(a[9 * (c / 27) + d], b[9 * (c / 27) + d]));
}

/// Boards whose candidates are among those of `b`, with no bit beyond.
pub proof fn lemma_within(a: Seq<u32>, b: Seq<u32>, s: Seq<u32>)
    requires
        a.len() == 27,
        b.len() == 27,
        within(a, s),
        boards_ok(s),
        forall|c: int, d: int|
            0 <= c < 81 && 0 <= d < 9 && #[trigger] cand(a, c, d) ==> cand(b, c, d),
    ensures
        within(a, b),
{
    assert forall|i: int| 0 <= i < 27 implies sub32(#[trigger] a[i], b[i]) by {
        assert forall|p: int| #[trigger] bit32(a[i], p) implies bit32(b[i], p) by {
            assert(sub32(a[i], s[i]));
            assert(bit32(s[i], p));
            assert(s[i] <= BAND_ALL);
            crate::bits::lemma_small32(s[i], p);
            let (c, d) = (27 * (i / 9) + p, i % 9);
            assert(c / 27 == i / 9 && c % 27 == p);
            assert(9 * (c / 27) + d == i);
            assert(cand(a, c, d));
            assert(cand(b, c, d));
        }
    }
}

/// A cell with nothing but `d` within which something is filled has it.
pub proof fn lemma_sole(f: Seq<u32>, bs: Seq<u32>, c: int, d: int, pins: bool)
    requires
        rests(f, pins),
        within(f, bs),
        0 <= c < 81,
        0 <= d < 9,
        forall|e: int| 0 <= e < 9 && #[trigger] cand(bs, c, e) ==> e == d,
    ensures
        sole(f, c, d),
{
    reveal(rests);
    assert(filled(f, c));
    let e = choose|e: int| 0 <= e < 9 && #[trigger] cand(f, c, e);
    lemma_cand(f, bs, c, e);
    assert forall|x: int| 0 <= x < 9 && #[trigger] cand(f, c, x) implies x == d by {
        lemma_cand(f, bs, c, x);
    }
}

/// Placing a digit is making an assignment.
pub proof fn lemma_placed_nests(
    a: Seq<u32>,
    b: Seq<u32>,
    c: int,
    d: int,
    p: Set<(int, int)>,
    q: Set<(int, int)>,
    pins: bool,
)
    requires
        0 <= c < 81,
        0 <= d < 9,
        boards_ok(a),
        boards_ok(b),
        within(b, a),
        placed(a, b, c, d),
        forall|x: int, e: int| #[trigger]
            p.contains((x, e)) <==> q.contains((x, e)) || (x == c && e == d),
    ensures
        same_nests(a, p, b, q, pins),
{
    assert forall|f: Seq<u32>| #[trigger] nests(f, a, p, pins) <==> nests(f, b, q, pins) by {
        if nests(f, a, p, pins) {
            assert(p.contains((c, d)));
            assert(f.len() == 27) by {
                reveal(rests);
            }
            assert forall|x: int, e: int| 0 <= x < 81 && 0 <= e < 9 && #[trigger] cand(
                f,
                x,
                e,
            ) implies cand(b, x, e) by {
                lemma_cand(f, a, x, e);
                reveal(rests);
                assert(sole(f, c, d));
                if e == d && peers(c, x) {
                    assert(!cand(f, x, d));
                }
            }
            lemma_within(f, b, a);
            assert forall|x: int, e: int| #[trigger] q.contains((x, e)) implies sole(f, x, e) by {
                assert(p.contains((x, e)));
            }
        }
        if nests(f, b, q, pins) {
            crate::boards::lemma_within_trans(f, b, a);
            lemma_sole(f, b, c, d, pins);
            assert forall|x: int, e: int| #[trigger] p.contains((x, e)) implies sole(f, x, e) by {
                if !(x == c && e == d) {
                    assert(q.contains((x, e)));
                }
            }
        }
    }
}

/// An assignment to a cell that has nothing else changes nothing.
pub proof fn lemma_held_nests(
    a: Seq<u32>,
    c: int,
    d: int,
    p: Set<(int, int)>,
    q: Set<(int, int)>,
    pins: bool,
)
    requires
        0 <= c < 81,
        0 <= d < 9,
        forall|e: int| 0 <= e < 9 && #[trigger] cand(a, c, e) ==> e == d,
        forall|x: int, e: int| #[trigger]
            p.contains((x, e)) <==> q.contains((x, e)) || (x == c && e == d),
    ensures
        same_nests(a, p, a, q, pins),
{
    assert forall|f: Seq<u32>| #[trigger] nests(f, a, p, pins) <==> nests(f, a, q, pins) by {
        if nests(f, a, p, pins) {
            assert forall|x: int, e: int| #[trigger] q.contains((x, e)) implies sole(f, x, e) by {
                assert(p.contains((x, e)));
            }
        }
        if nests(f, a, q, pins) {
            lemma_sole(f, a, c, d, pins);
            assert forall|x: int, e: int| #[trigger] p.contains((x, e)) implies sole(f, x, e) by {
                if !(x == c && e == d) {
                    assert(q.contains((x, e)));
                }
            }
        }
    }
}

/// An assignment that is no candidate is refuted.
pub proof fn lemma_missing_refuted(
    a: Seq<u32>,
    c: int,
    d: int,
    p: Set<(int, int)>,
    pins: bool,
)
    requires
        0 <= c < 81,
        0 <= d < 9,
        !cand(a, c, d),
        p.contains((c, d)),
    ensures
        refuted(a, p, pins),
{
    assert forall|f: Seq<u32>| !#[trigger] nests(f, a, p, pins) by {
        if nests(f, a, p, pins) {
            assert(f.len() == 27) by {
                reveal(rests);
            }
            lemma_cand(f, a, c, d);
        }
    }
}

/// A step that spares what rests, and asks for what is forced.
pub proof fn lemma_step_nests(a: Seq<u32>, b: Seq<u32>, q: Set<(int, int)>, pins: bool)
    requires
        within(b, a),
        spares(a, b, pins),
        forall|c: int, d: int| #[trigger] q.contains((c, d)) ==> forced(b, c, d),
    ensures
        same_nests(a, Set::<(int, int)>::empty(), b, q, pins),
{
    let none = Set::<(int, int)>::empty();
    assert forall|f: Seq<u32>| #[trigger] nests(f, a, none, pins) <==> nests(f, b, q, pins) by {
        if nests(f, a, none, pins) {
            if pins {
                lemma_rests_more(f);
            }
            assert(rests(f, false) && within(f, b));
            assert forall|c: int, d: int| #[trigger] q.contains((c, d)) implies sole(f, c, d) by {
                assert(forced(b, c, d));
            }
        }
        if nests(f, b, q, pins) {
            crate::boards::lemma_within_trans(f, b, a);
            assert forall|c: int, d: int| #[trigger] none.contains((c, d)) implies sole(
                f,
                c,
                d,
            ) by {}
        }
    }
}

pub proof fn lemma_nests_trans(
    a: Seq<u32>,
    p: Set<(int, int)>,
    b: Seq<u32>,
    q: Set<(int, int)>,
    c: Seq<u32>,
    r: Set<(int, int)>,
    pins: bool,
)
    requires
        same_nests(a, p, b, q, pins),
        same_nests(b, q, c, r, pins),
    ensures
        same_nests(a, p, c, r, pins),
{
    assert forall|f: Seq<u32>| #[trigger] nests(f, a, p, pins) <==> nests(f, c, r, pins) by {
        assert(nests(f, a, p, pins) <==> nests(f, b, q, pins));
        assert(nests(f, b, q, pins) <==> nests(f, c, r, pins));
    }
}

pub proof fn lemma_refuted_back(
    a: Seq<u32>,
    p: Set<(int, int)>,
    b: Seq<u32>,
    q: Set<(int, int)>,
    pins: bool,
)
    requires
        same_nests(a, p, b, q, pins),
        refuted(b, q, pins),
    ensures
        refuted(a, p, pins),
{
    assert forall|f: Seq<u32>| !#[trigger] nests(f, a, p, pins) by {
        assert(!nests(f, b, q, pins));
    }
}

pub proof fn lemma_barren_refuted(a: Seq<u32>, p: Set<(int, int)>, pins: bool)
    requires
        barren(a, pins),
    ensures
        refuted(a, p, pins),
{
}

pub proof fn lemma_barren_more(a: Seq<u32>)
    requires
        barren(a, false),
    ensures
        barren(a, true),
{
    assert forall|f: Seq<u32>| #[trigger] rests(f, true) implies !within(f, a) by {
        lemma_rests_more(f);
    }
}

pub proof fn lemma_spares_more(a: Seq<u32>, b: Seq<u32>)
    requires
        spares(a, b, false),
    ensures
        spares(a, b, true),
{
    assert forall|f: Seq<u32>| #[trigger] rests(f, true) && within(f, a) implies within(f, b) by {
        lemma_rests_more(f);
    }
}

/// A digit cut down to its permutations over a band.
pub proof fn lemma_spares_cut(a: Seq<u32>, b: Seq<u32>, bi: int, d: int)
    requires
        0 <= bi < 6,
        0 <= d < 9,
        boards_ok(a),
        b.len() == 27,
        closed_off(a, b, bi, d),
    ensures
        spares(a, b, false),
{
    assert forall|f: Seq<u32>| #[trigger] rests(f, false) && within(f, a) implies within(f, b) by {
        reveal(rests);
        lemma_through_within(f, a, bi, d);
        assert(reduced(f, f, bi, d));
        assert forall|x: int, e: int| 0 <= x < 81 && 0 <= e < 9 && #[trigger] cand(
            f,
            x,
            e,
        ) implies cand(b, x, e) by {
            lemma_cand(f, a, x, e);
            if e == d && in_band(bi, x) {
                assert(laid(f, bi, d, band_pos(bi, x) / 3));
            }
        }
        lemma_within(f, b, a);
    }
}

/// A digit without a permutation over a band.
pub proof fn lemma_barren_band(a: Seq<u32>, bi: int, d: int)
    requires
        0 <= bi < 6,
        0 <= d < 9,
        a.len() == 27,
        !placeable(a, bi, d),
    ensures
        barren(a, false),
{
    assert forall|f: Seq<u32>| #[trigger] rests(f, false) implies !within(f, a) by {
        if within(f, a) {
            reveal(rests);
            lemma_through_within(f, a, bi, d);
            assert(reduced(f, f, bi, d));
        }
    }
}

/// A cell without candidates.
pub proof fn lemma_barren_cell(a: Seq<u32>, c: int)
    requires
        0 <= c < 81,
        !filled(a, c),
    ensures
        barren(a, false),
{
    assert forall|f: Seq<u32>| #[trigger] rests(f, false) implies !within(f, a) by {
        if within(f, a) {
            reveal(rests);
            assert(filled(f, c));
            let d = choose|d: int| 0 <= d < 9 && #[trigger] cand(f, c, d);
            lemma_cand(f, a, c, d);
        }
    }
}

/// Where alone a digit can go on a line, it is forced.
pub proof fn lemma_forced_line(a: Seq<u32>, bi: int, d: int, l: int, x: int)
    requires
        0 <= bi < 6,
        0 <= d < 9,
        0 <= l < 3,
        0 <= x < 9,
        a.len() == 27,
        forall|y: int| 0 <= y < 9 && #[trigger] cand(a, line_cell(bi, l, y), d) ==> y == x,
    ensures
        forced(a, line_cell(bi, l, x), d),
{
    assert forall|f: Seq<u32>| #[trigger] rests(f, false) && within(f, a) implies sole(
        f,
        line_cell(bi, l, x),
        d,
    ) by {
        reveal(rests);
        assert(reduced(f, f, bi, d));
        let y = lemma_line_place(f, bi, d, l);
        assert forall|z: int| 0 <= z < 9 && #[trigger] cand(f, line_cell(bi, l, z), d) implies z
            == x by {
            lemma_line_cell(bi, l, z);
            lemma_cand_within(f, a, bi, 9 * l + z, d);
        }
        assert(y == x);
        assert(lone(f, bi, d, l, x));
    }
}

/// A digit with a permutation over a band has a place on every line of it.
pub proof fn lemma_line_place(f: Seq<u32>, bi: int, d: int, l: int) -> (y: int)
    requires
        0 <= bi < 6,
        0 <= d < 9,
        0 <= l < 3,
        placeable(f, bi, d),
    ensures
        0 <= y < 9,
        cand(f, line_cell(bi, l, y), d),
{
    let k = choose|k: int| #[trigger] through(f, bi, d, k);
    let y = 3 * perm_box(k, l);
    let i = 3 * l + perm_box(k, l);
    assert(has_minirow(f, bi, d, i)) by {
        if l == 0 {
        } else if l == 1 {
        } else {
            assert(l == 2);
        }
    }
    assert(3 * i == 9 * l + y);
    lemma_line_cell(bi, l, y);
    lemma_line_cell(bi, l, y + 1);
    lemma_line_cell(bi, l, y + 2);
    if cand(f, line_cell(bi, l, y), d) {
        y
    } else if cand(f, line_cell(bi, l, y + 1), d) {
        y + 1
    } else {
        y + 2
    }
}

/// The only candidate of a cell is forced.
pub proof fn lemma_forced_sole(a: Seq<u32>, c: int, d: int)
    requires
        0 <= c < 81,
        0 <= d < 9,
        sole(a, c, d),
    ensures
        forced(a, c, d),
{
    assert forall|f: Seq<u32>| #[trigger] rests(f, false) && within(f, a) implies sole(
        f,
        c,
        d,
    ) by {
        lemma_sole(f, a, c, d, false);
    }
}

/// The largest part is unique.
pub proof fn lemma_closed_part(bs: Seq<u32>, asks: Set<(int, int)>, pins: bool, f: Seq<u32>)
    requires
        closes_to(bs, asks, pins, f),
    ensures
        closed_part(bs, asks, pins) == Some(f),
{
    let g = choose|f: Seq<u32>| closes_to(bs, asks, pins, f);
    assert(closes_to(bs, asks, pins, g));
    assert(within(f, g) && within(g, f));
    assert(f.len() == g.len());
    assert forall|i: int| 0 <= i < f.len() implies f[i] == g[i] by {
        assert(sub32(f[i], g[i]) && sub32(g[i], f[i]));
        lemma_ext32(f[i], g[i]);
    }
    assert(f =~= g);
}

/// Refuted boards have no part at rest.
pub proof fn lemma_no_part(bs: Seq<u32>, asks: Set<(int, int)>, pins: bool)
    requires
        refuted(bs, asks, pins),
    ensures
        closed_part(bs, asks, pins) is None,
{
    if exists|f: Seq<u32>| closes_to(bs, asks, pins, f) {
        let f = choose|f: Seq<u32>| closes_to(bs, asks, pins, f);
        assert(nests(f, bs, asks, pins));
    }
}

/// Boards at rest with the same nests are the largest part.
pub proof fn lemma_closes(
    a: Seq<u32>,
    p: Set<(int, int)>,
    b: Seq<u32>,
    pins: bool,
)
    requires
        same_nests(a, p, b, Set::<(int, int)>::empty(), pins),
        rests(b, pins),
    ensures
        closes_to(a, p, pins, b),
{
    let none = Set::<(int, int)>::empty();
    assert(within(b, b)) by {
        assert forall|i: int| 0 <= i < b.len() implies sub32(#[trigger] b[i], b[i]) by {}
    }
    assert forall|c: int, d: int| #[trigger] none.contains((c, d)) implies sole(b, c, d) by {}
    assert(nests(b, b, none, pins));
    assert(nests(b, a, p, pins));
    assert forall|h: Seq<u32>| #[trigger] nests(h, a, p, pins) implies within(h, b) by {
        assert(nests(h, b, none, pins));
    }
}

/// Boards that spell out a grid are at rest.
pub proof fn lemma_grid_rests(bs: Seq<u32>, g: Seq<u8>, pins: bool)
    requires
        bs.len() == 27,
        is_grid(g),
        encodes(bs, g),
    ensures
        rests(bs, pins),
{
    reveal(rests);
    lemma_grid_facts(g);
    assert forall|c: int| 0 <= c < 81 implies #[trigger] filled(bs, c) by {
        assert(1 <= g[c] <= 9);
        assert(cand(bs, c, g[c] - 1));
    }
    assert forall|c: int, d: int, x: int|
        0 <= c < 81 && 0 <= x < 81 && 0 <= d < 9 && #[trigger] sole(bs, c, d) && #[trigger] peers(
            c,
            x,
        ) implies !cand(bs, x, d) by {
        assert(g[c] == d + 1);
        assert(g[c] != g[x]);
    }
    assert forall|bi: int, d: int, l: int, x: int|
        0 <= bi < 6 && 0 <= d < 9 && 0 <= l < 3 && 0 <= x < 9 && #[trigger] lone(
            bs,
            bi,
            d,
            l,
            x,
        ) implies sole(bs, line_cell(bi, l, x), d) by {
        let c = line_cell(bi, l, x);
        assert(0 <= c < 81);
        assert(g[c] == d + 1);
    }
    assert forall|bi: int, d: int| 0 <= bi < 6 && 0 <= d < 9 implies #[trigger] reduced(
        bs,
        bs,
        bi,
        d,
    ) by {
        lemma_grid_reduced(bs, g, bi, d);
    }
    assert forall|bi: int, i: int| 0 <= bi < 6 && 0 <= i < 9 implies #[trigger] counted(
        bs,
        bi,
        i,
    ) by {
        lemma_grid_settled(bs, g, bi, i);
    }
}

/// The first cell with the fewest candidates is unique.
pub proof fn lemma_fewest(bs: Seq<u32>, c: int)
    requires
        first_fewest(bs, c),
    ensures
        !decided(bs),
        c == choose|c: int| first_fewest(bs, c),
{
    let e = choose|c: int| first_fewest(bs, c);
    assert(first_fewest(bs, e));
    assert(choices(bs, c) >= 2 && choices(bs, e) >= 2);
}

/// Digits that a cell lacks are passed over.
pub proof fn lemma_leaf_over(bs: Seq<u32>, c: int, a: nat, b: nat, pins: bool)
    requires
        a <= b <= 9,
        forall|d: int| a <= d < b ==> !#[trigger] cand(bs, c, d),
    ensures
        first_leaf_from(bs, c, a, pins) == first_leaf_from(bs, c, b, pins),
    decreases b - a,
{
    if a < b {
        assert(!cand(bs, c, a as int));
        lemma_leaf_over(bs, c, a + 1, b, pins);
    }
}

/// Boards that spell out a grid are decided, and spell out just that one.
pub proof fn lemma_spelled(bs: Seq<u32>, g: Seq<u8>)
    requires
        is_grid(g),
        encodes(bs, g),
    ensures
        decided(bs),
        spelled(bs) == g,
{
    lemma_grid_facts(g);
    assert forall|c: int| 0 <= c < 81 implies #[trigger] choices(bs, c) < 2 by {
        let f = |e: int| bit32(bs[9 * (c / 27) + e], c % 27);
        if crate::bits::count(f, 9) >= 2 {
            let a = crate::bits::lemma_count_witness(f, 9);
            let b = crate::bits::lemma_count_second(f, 9, a);
            assert(cand(bs, c, a) && cand(bs, c, b));
        }
    }
    let h = spelled(bs);
    assert(is_grid(h) && encodes(bs, h));
    lemma_grid_facts(h);
    assert forall|c: int| 0 <= c < 81 implies h[c] == g[c] by {
        assert(cand(bs, c, g[c] - 1));
    }
    assert(h =~= g);
}

/// A cell settled on a digit has no other.
pub proof fn lemma_settled_lone(bs: Seq<u32>, c: int, d: int, bi: int, l: int, x: int)
    requires
        settled_as(cands(bs), c, d),
        0 <= c < 81,
        0 <= bi < 6,
        0 <= l < 3,
        0 <= x < 9,
        lone(bs, bi, d, l, x),
        exists|y: int| 0 <= y < 9 && c == #[trigger] line_cell(bi, l, y),
    ensures
        sole(bs, line_cell(bi, l, x), d),
{
    let y = choose|y: int| 0 <= y < 9 && c == #[trigger] line_cell(bi, l, y);
    if y != x {
        crate::layout::lemma_line_peers(bi, l, y, x);
        assert(!cands(bs)(line_cell(bi, l, x), d));
    }
    assert forall|e: int| 0 <= e < 9 && #[trigger] cand(bs, c, e) implies e == d by {
        assert(cands(bs)(c, e));
    }
}

/// A cell stays settled as candidates shrink.
pub proof fn lemma_settled_within(a: Seq<u32>, b: Seq<u32>, c: int, d: int)
    requires
        0 <= c < 81,
        b.len() == 27,
        within(b, a),
        settled_as(cands(a), c, d),
    ensures
        settled_as(cands(b), c, d),
{
    assert forall|e: int| 0 <= e < 9 && e != d implies !#[trigger] cands(b)(c, e) by {
        assert(!cands(a)(c, e));
        if cand(b, c, e) {
            lemma_cand(b, a, c, e);
        }
    }
    assert forall|x: int| 0 <= x < 81 && peers(c, x) implies !#[trigger] cands(b)(x, d) by {
        assert(!cands(a)(x, d));
        if cand(b, x, d) {
            lemma_cand(b, a, x, d);
        }
    }
}

/// A cell without candidates is empty.
pub proof fn lemma_unfilled(bs: Seq<u32>, b: int, p: int)
    requires
        0 <= b < 3,
        0 <= p < 27,
        digits_at(bs, b, p, 9) == 0,
    ensures
        barren(bs, false),
{
    let c = 27 * b + p;
    assert(c / 27 == b && c % 27 == p);
    let f = |e: int| bit32(bs[9 * b + e], p);
    if filled(bs, c) {
        let d = choose|d: int| 0 <= d < 9 && #[trigger] cand(bs, c, d);
        assert(f(d));
        lemma_count_some(f, 9, d);
    }
    lemma_barren_cell(bs, c);
}

/// Boards that stay spare what rests within them.
pub proof fn lemma_unchanged(bs: Seq<u32>, pins: bool)
    ensures
        spares(bs, bs, pins),
{
}

} // verus!
