//! The order in which the triad engine searches: which band and digit it
//! branches on, which child comes first, and which leaf it stops at.

use vstd::prelude::*;
use crate::bits::{bit16, group_bits16, lemma_ext16};
use crate::grid::is_grid;
use crate::triad::boxes::TState;
use crate::triad::course::{eliminated, join, node, weight, Node};
use crate::triad::leaf::{lanes_with, spells};
use crate::triad::model::cell_at;
use crate::triad::search::{first_smallest, preferred, splits};
use crate::tvec::lanes_total;

verus! {

broadcast use group_bits16;

/// Band `b` is the first of the undecided bands with the fewest
/// configurations.
pub open spec fn smallest(n: Node, b: int) -> bool {
    &&& 0 <= b < 6
    &&& lanes_total(n.cfg[b], 8) > 9
    &&& forall|i: int|
        0 <= i < 6 && lanes_total(#[trigger] n.cfg[i], 8) > 9 ==> {
            &&& lanes_total(n.cfg[b], 8) <= lanes_total(n.cfg[i], 8)
            &&& i < b ==> lanes_total(n.cfg[b], 8) < lanes_total(n.cfg[i], 8)
        }
}

/// Every band is decided.
pub open spec fn all_fixed(n: Node) -> bool {
    forall|i: int| 0 <= i < 6 ==> lanes_total(#[trigger] n.cfg[i], 8) <= 9
}

/// Digit `v` is the one to branch on.
pub open spec fn leading(cfg: Seq<u16>, v: int) -> bool {
    0 <= v < 9 && lanes_with(cfg, v, 6) >= 2 && preferred(cfg, v)
}

/// Configuration `t` is the lowest of digit `v`.
pub open spec fn lowest(cfg: Seq<u16>, v: int, t: int) -> bool {
    &&& 0 <= t < 6
    &&& bit16(cfg[t], v)
    &&& forall|k: int| 0 <= k < t ==> !bit16(#[trigger] cfg[k], v)
}

/// The lowest configuration of digit `v` ruled out.
pub open spec fn low_words(cfg: Seq<u16>, v: int) -> Seq<u16> {
    let t = choose|t: int| lowest(cfg, v, t);
    Seq::new(
        8,
        |k: int|
            if k == t {
                1u16 << (v as u16)
            } else {
                0
            },
    )
}

/// All other configurations of digit `v` ruled out.
pub open spec fn rest_words(cfg: Seq<u16>, v: int) -> Seq<u16> {
    let t = choose|t: int| lowest(cfg, v, t);
    Seq::new(
        8,
        |k: int|
            if k != t && k < 6 {
                cfg[k] & (1u16 << (v as u16))
            } else {
                0
            },
    )
}

/// The child with `e` ruled out in band `i`, propagated.
pub open spec fn child(n: Node, i: int, e: Seq<u16>) -> Option<Node> {
    eliminated(Node { pend: n.pend.update(i, join(n.pend[i], e)), ..n }, i, 0)
}

/// A search below `n` with `have` solutions so far: how many there are then,
/// up to `limit`, and the leaf with which the limit was reached.
pub open spec fn sought(n: Node, have: int, limit: int) -> (int, Option<Node>)
    decreases weight(n), 1nat,
{
    if all_fixed(n) {
        (
            have + 1,
            if have + 1 == limit {
                Some(n)
            } else {
                None
            },
        )
    } else {
        let i = choose|i: int| smallest(n, i);
        branched(n, i, choose|v: int| leading(n.cfg[i], v), have, limit)
    }
}

/// A search below `n` that branches on digit `v` of band `i`. With two
/// configurations the higher one is tried first, otherwise the lowest.
pub open spec fn branched(n: Node, i: int, v: int, have: int, limit: int) -> (int, Option<Node>)
    decreases weight(n), 0nat,
{
    let pair = lanes_with(n.cfg[i], v, 6) == 2;
    let (low, rest) = (low_words(n.cfg[i], v), rest_words(n.cfg[i], v));
    let first = child(
        n,
        i,
        if pair {
            low
        } else {
            rest
        },
    );
    let after = if first is Some && weight(first->0) < weight(n) {
        sought(first->0, have, limit)
    } else {
        (have, None)
    };
    let second = child(
        n,
        i,
        if pair {
            rest
        } else {
            low
        },
    );
    if after.0 != limit && second is Some && weight(second->0) < weight(n) {
        sought(second->0, after.0, limit)
    } else {
        after
    }
}

/// The boxes spell out grid `g`.
pub open spec fn node_spells(n: Node, g: Seq<u8>) -> bool {
    &&& g.len() == 81
    &&& forall|x: int, r: int, c: int, d: int|
        0 <= x < 9 && 0 <= r < 3 && 0 <= c < 3 && 0 <= d < 9 ==> (#[trigger] bit16(
            n.boxes[x][4 * r + c],
            d,
        ) <==> g[cell_at(x, r, c)] == d + 1)
}

/// The grid that a leaf spells.
pub open spec fn node_grid(n: Node) -> Seq<u8> {
    choose|g: Seq<u8>| is_grid(g) && #[trigger] node_spells(n, g)
}

/// The band that is chosen is the one.
pub proof fn lemma_smallest(s: TState, b: int)
    requires
        first_smallest(s, b),
    ensures
        !all_fixed(node(s)),
        b == choose|i: int| smallest(node(s), i),
{
    let n = node(s);
    assert(smallest(n, b)) by {
        assert(n.cfg[b] == s.bands[b].configurations.lanes@);
        assert forall|i: int| 0 <= i < 6 && lanes_total(#[trigger] n.cfg[i], 8) > 9 implies {
            &&& lanes_total(n.cfg[b], 8) <= lanes_total(n.cfg[i], 8)
            &&& i < b ==> lanes_total(n.cfg[b], 8) < lanes_total(n.cfg[i], 8)
        } by {
            assert(n.cfg[i] == s.bands[i].configurations.lanes@);
        }
    }
    let c = choose|i: int| smallest(n, i);
    assert(smallest(n, c));
    assert(lanes_total(n.cfg[b], 8) > 9 && lanes_total(n.cfg[c], 8) > 9);
}

/// The digit that is chosen is the one.
pub proof fn lemma_leading(cfg: Seq<u16>, v: int)
    requires
        leading(cfg, v),
    ensures
        v == choose|v: int| leading(cfg, v),
{
    let w = choose|v: int| leading(cfg, v);
    assert(leading(cfg, w));
    assert(lanes_with(cfg, v, 6) >= 2 && lanes_with(cfg, w, 6) >= 2);
}

/// The eliminations of a branch are these words.
pub proof fn lemma_branch_words(cfg: Seq<u16>, v: int, low: Seq<u16>, rest: Seq<u16>, t: int)
    requires
        0 <= v < 9,
        splits(cfg, v, low, rest, t),
    ensures
        low == low_words(cfg, v),
        rest == rest_words(cfg, v),
{
    assert(lowest(cfg, v, t)) by {
        assert forall|k: int| 0 <= k < t implies !bit16(#[trigger] cfg[k], v) by {}
    }
    let u = choose|t: int| lowest(cfg, v, t);
    assert(lowest(cfg, v, u));
    assert(u == t) by {
        if u < t {
            assert(!bit16(cfg[u], v));
        }
        if t < u {
            assert(!bit16(cfg[t], v));
        }
    }
    assert forall|k: int| 0 <= k < 8 implies low[k] == low_words(cfg, v)[k] && rest[k]
        == rest_words(cfg, v)[k] by {
        assert forall|d: int| 0 <= d < 16 implies bit16(low[k], d) == bit16(
            low_words(cfg, v)[k],
            d,
        ) by {
            assert(!bit16(0u16, d));
        }
        lemma_ext16(low[k], low_words(cfg, v)[k]);
        assert forall|d: int| 0 <= d < 16 implies bit16(rest[k], d) == bit16(
            rest_words(cfg, v)[k],
            d,
        ) by {
            assert(!bit16(0u16, d));
        }
        lemma_ext16(rest[k], rest_words(cfg, v)[k]);
    }
    assert(low =~= low_words(cfg, v));
    assert(rest =~= rest_words(cfg, v));
}

/// A leaf spells one grid.
pub proof fn lemma_node_grid(s: TState, g: Seq<u8>)
    requires
        is_grid(g),
        spells(s, g),
    ensures
        node_grid(node(s)) == g,
{
    let n = node(s);
    assert(node_spells(n, g)) by {
        assert forall|x: int, r: int, c: int, d: int|
            0 <= x < 9 && 0 <= r < 3 && 0 <= c < 3 && 0 <= d < 9 implies (#[trigger] bit16(
            n.boxes[x][4 * r + c],
            d,
        ) <==> g[cell_at(x, r, c)] == d + 1) by {
            assert(bit16(s.boxen[x].lanes@[4 * r + c], d) <==> g[cell_at(x, r, c)] == d + 1);
        }
    }
    let h = node_grid(n);
    assert(is_grid(h) && node_spells(n, h));
    crate::grid::lemma_grid_facts(g);
    crate::grid::lemma_grid_facts(h);
    assert forall|c: int| 0 <= c < 81 implies h[c] == g[c] by {
        crate::triad::leaf::lemma_box_lane(c);
        let (x, r, q) = crate::triad::leaf::box_lane(c);
        let d = g[c] - 1;
        assert(g[cell_at(x, r, q)] == d + 1);
        assert(bit16(n.boxes[x][4 * r + q], d));
    }
    assert(h =~= g);
}

} // verus!
