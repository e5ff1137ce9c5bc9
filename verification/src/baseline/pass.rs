//! One pass over the marked intersections: which candidates the locked ones
//! remove.

use vstd::prelude::*;
use crate::baseline::cells::cells_ok;
use crate::baseline::rest::{in_box_rest, in_crossing, in_line_rest, placed_in};
use crate::baseline::tables::{
    box_rest_cell, int_box, int_line, lemma_box_rest, lemma_box_rest_covers, lemma_line_rest,
    lemma_line_rest_covers, line_rest_cell, on_line,
};
use crate::bits::{bit16, group_bits16, lemma_ext16};
use crate::grid::box_of;

verus! {

broadcast use group_bits16;

/// In `base`, digit `d` has no cell of its own in the box or on the line of
/// intersection `k`.
pub open spec fn unplaced(base: Seq<u16>, k: int, d: int) -> bool {
    !placed_in(base, 18 + int_box(k), d) && !placed_in(base, int_line(k), d)
}

/// Within the box of intersection `k`, digit `d` is confined to it.
pub open spec fn pointing(cand: Seq<u16>, base: Seq<u16>, k: int, d: int) -> bool {
    in_crossing(cand, k, d) && unplaced(base, k, d) && !in_box_rest(cand, k, d)
}

/// On the line of intersection `k`, digit `d` is confined to it.
pub open spec fn claiming(cand: Seq<u16>, base: Seq<u16>, k: int, d: int) -> bool {
    in_crossing(cand, k, d) && unplaced(base, k, d) && !in_line_rest(cand, k, d)
}

/// A visit of intersection `k`: digits that point leave the rest of the line,
/// digits that claim leave the rest of the box.
pub open spec fn visited(cand: Seq<u16>, base: Seq<u16>, k: int, next: Seq<u16>) -> bool {
    &&& next.len() == 81
    &&& forall|x: int, d: int|
        0 <= x < 81 ==> (#[trigger] bit16(next[x], d) <==> {
            &&& bit16(cand[x], d)
            &&& !(on_line(k, x) && box_of(x) != int_box(k) && pointing(cand, base, k, d))
            &&& !(box_of(x) == int_box(k) && !on_line(k, x) && claiming(cand, base, k, d))
        })
}

/// The candidates after a visit of intersection `k`.
pub open spec fn visit(cand: Seq<u16>, base: Seq<u16>, k: int) -> Seq<u16> {
    choose|next: Seq<u16>| visited(cand, base, k, next)
}

/// The candidates after the marked ones of the first `n` intersections were
/// visited in order; `None` if that leaves a cell without any.
pub open spec fn passed(base: Seq<u16>, marks: Set<int>, n: nat) -> Option<Seq<u16>>
    decreases n,
{
    if n == 0 {
        Some(base)
    } else {
        match passed(base, marks, (n - 1) as nat) {
            None => None,
            Some(cand) => if marks.contains(n - 1) {
                let next = visit(cand, base, n - 1);
                if cells_ok(next) {
                    Some(next)
                } else {
                    None
                }
            } else {
                Some(cand)
            },
        }
    }
}

/// Unmarked intersections are passed over.
pub proof fn lemma_passed_over(base: Seq<u16>, marks: Set<int>, n: nat, m: nat)
    requires
        n <= m,
        forall|k: int| n <= k < m ==> !#[trigger] marks.contains(k),
    ensures
        passed(base, marks, m) == passed(base, marks, n),
    decreases m,
{
    if n < m {
        assert(!marks.contains(m - 1));
        lemma_passed_over(base, marks, n, (m - 1) as nat);
    }
}

/// After a failure nothing more comes.
pub proof fn lemma_passed_none(base: Seq<u16>, marks: Set<int>, n: nat, m: nat)
    requires
        n <= m,
        passed(base, marks, n) is None,
    ensures
        passed(base, marks, m) is None,
    decreases m,
{
    if n < m {
        lemma_passed_none(base, marks, n, (m - 1) as nat);
    }
}

/// `p` leaves the rest of the line of intersection `k`, `c` the rest of its
/// box.
pub open spec fn struck(cand: Seq<u16>, k: int, p: u16, c: u16) -> Seq<u16> {
    Seq::new(
        81,
        |x: int|
            if on_line(k, x) && box_of(x) != int_box(k) {
                cand[x] & !p
            } else if box_of(x) == int_box(k) && !on_line(k, x) {
                cand[x] & !c
            } else {
                cand[x]
            },
    )
}

/// `p` and `c` are the digits that point and that claim.
pub open spec fn masks_of(cand: Seq<u16>, base: Seq<u16>, k: int, p: u16, c: u16) -> bool {
    &&& forall|d: int| #[trigger] bit16(p, d) <==> pointing(cand, base, k, d)
    &&& forall|d: int| #[trigger] bit16(c, d) <==> claiming(cand, base, k, d)
}

/// A visit strikes what points and what claims.
pub proof fn lemma_visit(cand: Seq<u16>, base: Seq<u16>, k: int, p: u16, c: u16)
    requires
        cand.len() == 81,
        masks_of(cand, base, k, p, c),
    ensures
        visit(cand, base, k) == struck(cand, k, p, c),
{
    let next = struck(cand, k, p, c);
    assert forall|x: int, d: int| 0 <= x < 81 implies (#[trigger] bit16(next[x], d) <==> {
        &&& bit16(cand[x], d)
        &&& !(on_line(k, x) && box_of(x) != int_box(k) && pointing(cand, base, k, d))
        &&& !(box_of(x) == int_box(k) && !on_line(k, x) && claiming(cand, base, k, d))
    }) by {
        assert(bit16(p, d) <==> pointing(cand, base, k, d));
        assert(bit16(c, d) <==> claiming(cand, base, k, d));
        if bit16(next[x], d) {
            assert(0 <= d < 16);
        }
        if bit16(cand[x], d) {
            assert(0 <= d < 16);
        }
    }
    assert(visited(cand, base, k, next));
    let other = visit(cand, base, k);
    assert(visited(cand, base, k, other));
    assert forall|x: int| 0 <= x < 81 implies other[x] == next[x] by {
        assert forall|d: int| 0 <= d < 16 implies bit16(other[x], d) == bit16(next[x], d) by {}
        lemma_ext16(other[x], next[x]);
    }
    assert(other =~= next);
}

/// `x` is among the first `n` of `cells`.
pub open spec fn among(cells: Seq<u8>, n: int, x: int) -> bool {
    exists|j: int| 0 <= j < n && #[trigger] cells[j] == x
}

/// `b` is `a` without `bits` in the first `n` of `cells`.
pub open spec fn dropped(a: Seq<u16>, b: Seq<u16>, cells: Seq<u8>, n: int, bits: u16) -> bool {
    forall|x: int, d: int|
        0 <= x < 81 ==> (#[trigger] bit16(b[x], d) <==> bit16(a[x], d) && !(bit16(bits, d)
            && among(cells, n, x)))
}

/// Dropping digits from the rest of the line, or of the box, strikes them.
pub proof fn lemma_struck(a: Seq<u16>, b: Seq<u16>, cells: Seq<u8>, k: int, bits: u16, line: bool)
    requires
        a.len() == 81,
        b.len() == 81,
        0 <= k < 54,
        forall|j: int|
            0 <= j < 6 ==> #[trigger] cells[j] == if line {
                line_rest_cell(k, j)
            } else {
                box_rest_cell(k, j)
            },
        dropped(a, b, cells, 6, bits),
    ensures
        line ==> b == struck(a, k, bits, 0),
        !line ==> b == struck(a, k, 0, bits),
{
    let next = if line {
        struck(a, k, bits, 0)
    } else {
        struck(a, k, 0, bits)
    };
    assert forall|x: int| 0 <= x < 81 implies b[x] == next[x] by {
        if on_line(k, x) && box_of(x) != int_box(k) {
            let j = lemma_line_rest_covers(k, x);
            if line {
                assert(cells[j] == x);
            }
        }
        if box_of(x) == int_box(k) && !on_line(k, x) {
            let j = lemma_box_rest_covers(k, x);
            if !line {
                assert(cells[j] == x);
            }
        }
        if among(cells, 6, x) {
            let j = choose|j: int| 0 <= j < 6 && #[trigger] cells[j] == x;
            if line {
                lemma_line_rest(k, j);
            } else {
                lemma_box_rest(k, j);
            }
        }
        assert forall|d: int| 0 <= d < 16 implies bit16(b[x], d) == bit16(next[x], d) by {
            assert(!bit16(0u16, d));
        }
        lemma_ext16(b[x], next[x]);
    }
    assert(b =~= next);
}

/// Digits that are nowhere in the cells leave no trace.
pub proof fn lemma_dropped_none(a: Seq<u16>, cells: Seq<u8>, rest: u16, bits: u16)
    requires
        bits & rest == 0,
        forall|j: int, d: int|
            0 <= j < 6 && #[trigger] bit16(a[cells[j] as int], d) ==> bit16(rest, d),
    ensures
        dropped(a, a, cells, 6, bits),
{
    assert forall|x: int, d: int| 0 <= x < 81 implies (#[trigger] bit16(a[x], d) <==> bit16(
        a[x],
        d,
    ) && !(bit16(bits, d) && among(cells, 6, x))) by {
        if bit16(a[x], d) && bit16(bits, d) && among(cells, 6, x) {
            let j = choose|j: int| 0 <= j < 6 && #[trigger] cells[j] == x;
            assert(bit16(a[cells[j] as int], d));
            assert(bit16(bits & rest, d));
            assert(!bit16(0u16, d));
        }
    }
}

/// Line and box are struck one after the other.
pub proof fn lemma_struck_both(a: Seq<u16>, k: int, p: u16, c: u16)
    requires
        a.len() == 81,
    ensures
        struck(struck(a, k, p, 0), k, 0, c) == struck(a, k, p, c),
{
    let b = struck(struck(a, k, p, 0), k, 0, c);
    let next = struck(a, k, p, c);
    assert forall|x: int| 0 <= x < 81 implies b[x] == next[x] by {
        assert forall|d: int| 0 <= d < 16 implies bit16(b[x], d) == bit16(next[x], d) by {
            assert(!bit16(0u16, d));
        }
        lemma_ext16(b[x], next[x]);
    }
    assert(b =~= next);
}

/// A cell with nothing but struck digits is left empty.
pub proof fn lemma_struck_empty(a: Seq<u16>, k: int, p: u16, c: u16, j: int, line: bool)
    requires
        a.len() == 81,
        0 <= k < 54,
        0 <= j < 6,
        line ==> forall|d: int| #[trigger] bit16(a[line_rest_cell(k, j)], d) ==> bit16(p, d),
        !line ==> forall|d: int| #[trigger] bit16(a[box_rest_cell(k, j)], d) ==> bit16(c, d),
    ensures
        !cells_ok(struck(a, k, p, c)),
{
    let x = if line {
        line_rest_cell(k, j)
    } else {
        box_rest_cell(k, j)
    };
    lemma_line_rest(k, j);
    lemma_box_rest(k, j);
    let m = struck(a, k, p, c)[x];
    assert forall|d: int| 0 <= d < 16 implies bit16(m, d) == bit16(0u16, d) by {
        assert(!bit16(0u16, d));
        if bit16(m, d) {
            assert(bit16(a[x], d));
        }
    }
    lemma_ext16(m, 0);
}

} // verus!
