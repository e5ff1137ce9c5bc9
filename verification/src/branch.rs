//! Branching on a cell: the grids split by the digit the cell holds.

use vstd::prelude::*;
use crate::grid::{grids, lemma_none, lemma_split};

verus! {

/// The grids of `s` that hold digit `d` (counted from 0) at cell `c`.
pub open spec fn holding(s: Set<Seq<u8>>, c: int, d: int) -> Set<Seq<u8>> {
    Set::new(|g: Seq<u8>| s.contains(g) && g[c] == d + 1)
}

/// Digit `d` is one of `digits[j..n]`.
pub open spec fn listed(digits: Seq<u8>, j: int, n: int, d: int) -> bool {
    exists|k: int| j <= k < n && #[trigger] digits[k] == d
}

/// The grids of `s` that hold one of `digits[j..n]` at cell `c`.
pub open spec fn holding_any(s: Set<Seq<u8>>, c: int, digits: Seq<u8>, j: int, n: int) -> Set<
    Seq<u8>,
> {
    Set::new(|g: Seq<u8>| s.contains(g) && listed(digits, j, n, g[c] - 1))
}

/// The first `n` digits of the list, in increasing order, all below 9.
pub open spec fn ascending(digits: Seq<u8>, n: int) -> bool {
    &&& 0 <= n <= digits.len()
    &&& forall|j: int| 0 <= j < n ==> #[trigger] digits[j] < 9
    &&& forall|j: int, k: int| 0 <= j < k < n ==> #[trigger] digits[j] < #[trigger] digits[k]
}

/// Splitting off the first digit of a list splits the grids.
pub proof fn lemma_branch(s: Set<Seq<u8>>, c: int, digits: Seq<u8>, j: int, n: int)
    requires
        s.subset_of(grids()),
        ascending(digits, n),
        0 <= j < n,
    ensures
        holding_any(s, c, digits, j, n).len() == holding(s, c, digits[j] as int).len()
            + holding_any(s, c, digits, j + 1, n).len(),
{
    let d = digits[j] as int;
    let (a, x, y) = (
        holding_any(s, c, digits, j, n),
        holding(s, c, d),
        holding_any(s, c, digits, j + 1, n),
    );
    assert forall|g: Seq<u8>| #[trigger] a.contains(g) <==> x.contains(g) || y.contains(g) by {
        let e = g[c] - 1;
        if listed(digits, j, n, e) {
            let k = choose|k: int| j <= k < n && #[trigger] digits[k] == e;
            if k != j {
                assert(listed(digits, j + 1, n, e));
            }
        }
        if e == d {
            assert(listed(digits, j, n, e));
        }
    }
    assert forall|g: Seq<u8>| !(#[trigger] x.contains(g) && y.contains(g)) by {
        let e = g[c] - 1;
        if e == d && listed(digits, j + 1, n, e) {
            let k = choose|k: int| j + 1 <= k < n && #[trigger] digits[k] == e;
            assert(digits[j] < digits[k]);
        }
    }
    assert(a.subset_of(grids())) by {
        assert forall|g: Seq<u8>| a.contains(g) implies grids().contains(g) by {
            assert(s.contains(g));
        }
    }
    lemma_split(a, x, y);
}

/// The whole list splits the grids completely.
pub proof fn lemma_branch_all(s: Set<Seq<u8>>, c: int, digits: Seq<u8>, n: int)
    requires
        forall|g: Seq<u8>| #[trigger] s.contains(g) ==> listed(digits, 0, n, g[c] - 1),
    ensures
        holding_any(s, c, digits, 0, n) == s,
{
    assert(holding_any(s, c, digits, 0, n) =~= s);
}

/// Nothing is left behind the list.
pub proof fn lemma_branch_end(s: Set<Seq<u8>>, c: int, digits: Seq<u8>, n: int)
    ensures
        holding_any(s, c, digits, n, n).len() == 0,
{
    lemma_none(holding_any(s, c, digits, n, n));
}

} // verus!
