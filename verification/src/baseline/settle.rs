//! What full propagation makes of the candidates: singles to the fixpoint,
//! then a pass of locked candidates, until neither moves.

use vstd::prelude::*;
use crate::baseline::cells::{narrower, single};
use crate::baseline::pass::passed;
use crate::baseline::rest::{lemma_rest_unique, refuted, rests, spares};
use crate::baseline::state::same_crossing;
use crate::bits::total16;

verus! {

/// `f` is what singles leave of `a`: the largest set within it from which
/// they draw nothing more.
pub open spec fn closes_to(a: Seq<u16>, f: Seq<u16>) -> bool {
    rests(f) && narrower(f, a) && spares(a, f)
}

/// What singles leave of `a`; `None` if they refute it.
pub open spec fn closed_cells(a: Seq<u16>) -> Option<Seq<u16>> {
    if exists|f: Seq<u16>| closes_to(a, f) {
        Some(choose|f: Seq<u16>| closes_to(a, f))
    } else {
        None
    }
}

/// Every cell has one candidate.
pub open spec fn all_single(f: Seq<u16>) -> bool {
    forall|c: int| 0 <= c < 81 ==> single(#[trigger] f[c])
}

/// The intersections with a cell that changed.
pub open spec fn crossed(a: Seq<u16>, b: Seq<u16>) -> Set<int> {
    Set::new(|k: int| 0 <= k < 54 && !same_crossing(a, b, k))
}

/// Every intersection.
pub open spec fn every_mark() -> Set<int> {
    Set::new(|k: int| 0 <= k < 54)
}

/// What full propagation leaves of the candidates, with the intersections
/// still marked; `None` if it refutes them.
pub open spec fn settled(cand: Seq<u16>, marks: Set<int>) -> Option<(Seq<u16>, Set<int>)>
    decreases total16(cand),
{
    match closed_cells(cand) {
        None => None,
        Some(f) => {
            let due = marks.union(crossed(cand, f));
            if all_single(f) || due == Set::<int>::empty() {
                Some((f, due))
            } else {
                match passed(f, due, 54) {
                    None => None,
                    Some(g) => if g == f {
                        Some((f, Set::<int>::empty()))
                    } else if total16(g) < total16(cand) {
                        settled(g, crossed(f, g))
                    } else {
                        None
                    },
                }
            }
        },
    }
}

pub proof fn lemma_closes_to(a: Seq<u16>, f: Seq<u16>)
    requires
        closes_to(a, f),
    ensures
        closed_cells(a) == Some(f),
{
    let g = choose|g: Seq<u16>| closes_to(a, g);
    lemma_rest_unique(a, f, g);
}

pub proof fn lemma_closes_not(a: Seq<u16>)
    requires
        refuted(a),
    ensures
        closed_cells(a) is None,
{
    if exists|f: Seq<u16>| closes_to(a, f) {
        let f = choose|f: Seq<u16>| closes_to(a, f);
        assert(rests(f));
    }
}

} // verus!
