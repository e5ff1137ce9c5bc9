//! The propagation of the triad engine as a function of the state it starts
//! from: what each box and each band makes of its messages, and in which
//! order they pass them on.

use vstd::prelude::*;
use crate::bits::{bit16, group_bits16, lemma_ext16, total16};
use crate::triad::bands::elsewhere;
use crate::triad::boxes::{asserted_set, lanes_in, min_ok, triad_row, TState};
use crate::triad::messages::{allowed, eliminates, excludes};
use crate::triad::model::{config_elem, peer_box};

verus! {

broadcast use group_bits16;

/// What a state holds, lane by lane.
#[verifier::ext_equal]
pub struct Node {
    /// Per band the configurations.
    pub cfg: Seq<Seq<u16>>,
    /// Per band the eliminations that are pending.
    pub pend: Seq<Seq<u16>>,
    /// Per box the candidates.
    pub boxes: Seq<Seq<u16>>,
    /// Per box what it has asserted.
    pub told: Seq<Seq<u16>>,
}

pub open spec fn node(s: TState) -> Node {
    Node {
        cfg: Seq::new(6, |i: int| s.bands[i].configurations.lanes@),
        pend: Seq::new(6, |i: int| s.bands[i].eliminations.lanes@),
        boxes: Seq::new(9, |x: int| s.boxen[x].lanes@),
        told: Seq::new(9, |x: int| s.asserted[x].lanes@),
    }
}

/// Sum over all lanes.
pub open spec fn lanes_sum(s: Seq<Seq<u16>>) -> nat
    decreases s.len(),
{
    if s.len() == 0 {
        0
    } else {
        lanes_sum(s.drop_last()) + total16(s.last())
    }
}

/// Sum of all candidates and configurations: propagation lowers it.
pub open spec fn weight(n: Node) -> nat {
    lanes_sum(n.boxes) + lanes_sum(n.cfg)
}

/// `a` without `b`, lane by lane.
pub open spec fn without(a: Seq<u16>, b: Seq<u16>) -> Seq<u16> {
    Seq::new(a.len(), |i: int| a[i] & !b[i])
}

/// What `a` and `b` share, lane by lane.
pub open spec fn meet(a: Seq<u16>, b: Seq<u16>) -> Seq<u16> {
    Seq::new(a.len(), |i: int| a[i] & b[i])
}

/// `a` and `b` united, lane by lane.
pub open spec fn join(a: Seq<u16>, b: Seq<u16>) -> Seq<u16> {
    Seq::new(a.len(), |i: int| a[i] | b[i])
}

// ---------------------------------------------------------------------------
// Messages as words
// ---------------------------------------------------------------------------

/// Word `w` is what the assertions `a` eliminate from a lane of their box.
pub open spec fn is_elim(w: u16, a: Seq<u16>, lane: int) -> bool {
    forall|d: int| #[trigger] bit16(w, d) <==> eliminates(a, lane, d)
}

pub open spec fn elim_word(a: Seq<u16>, lane: int) -> u16 {
    choose|w: u16| is_elim(w, a, lane)
}

pub open spec fn elim_words(a: Seq<u16>) -> Seq<u16> {
    Seq::new(16, |i: int| elim_word(a, i))
}

/// Word `w` is what the assertions `a` exclude from configuration `k` of a
/// band.
pub open spec fn is_excl(w: u16, a: Seq<u16>, v: int, p: int, k: int) -> bool {
    forall|d: int| #[trigger] bit16(w, d) <==> k < 6 && excludes(a, v, p, k, d)
}

pub open spec fn excl_word(a: Seq<u16>, v: int, p: int, k: int) -> u16 {
    choose|w: u16| is_excl(w, a, v, p, k)
}

pub open spec fn excl_words(a: Seq<u16>, v: int, p: int) -> Seq<u16> {
    Seq::new(8, |k: int| excl_word(a, v, p, k))
}

/// Word `w` is what the configurations leave to a lane of box peer `p`.
pub open spec fn is_left(w: u16, cfg: Seq<u16>, v: int, p: int, lane: int) -> bool {
    forall|d: int| #[trigger] bit16(w, d) <==> allowed(triad_row(cfg, p), v, lane, d)
}

pub open spec fn leave_word(cfg: Seq<u16>, v: int, p: int, lane: int) -> u16 {
    choose|w: u16| is_left(w, cfg, v, p, lane)
}

pub open spec fn leave_words(cfg: Seq<u16>, v: int, p: int) -> Seq<u16> {
    Seq::new(16, |i: int| leave_word(cfg, v, p, i))
}

/// Word `w` is what is left of configuration `k` once triads with three
/// candidates have pinned them.
pub open spec fn is_pinned(w: u16, cfg: Seq<u16>, k: int) -> bool {
    forall|d: int| #[trigger]
        bit16(w, d) <==> k < 6 && bit16(cfg[k], d) && !elsewhere(cfg, 0, k, d) && !elsewhere(
            cfg,
            1,
            k,
            d,
        ) && !elsewhere(cfg, 2, k, d)
}

pub open spec fn pin_word(cfg: Seq<u16>, k: int) -> u16 {
    choose|w: u16| is_pinned(w, cfg, k)
}

pub open spec fn pin_words(cfg: Seq<u16>) -> Seq<u16> {
    Seq::new(8, |k: int| pin_word(cfg, k))
}

pub proof fn lemma_elim_words(a: Seq<u16>, e: Seq<u16>)
    requires
        e.len() == 16,
        forall|i: int, d: int| 0 <= i < 16 ==> (#[trigger] bit16(e[i], d) <==> eliminates(a, i, d)),
    ensures
        e == elim_words(a),
{
    assert forall|i: int| 0 <= i < 16 implies e[i] == elim_word(a, i) by {
        let u = e[i];
        assert(is_elim(u, a, i));
        let w = elim_word(a, i);
        assert(is_elim(w, a, i));
        lemma_ext16(u, w);
    }
    assert(e =~= elim_words(a));
}

/// The pending eliminations `e` and what the assertions exclude.
pub proof fn lemma_excl_words(a: Seq<u16>, v: int, p: int, e: Seq<u16>, n: Seq<u16>)
    requires
        e.len() == 8,
        n.len() == 8,
        forall|k: int, d: int|
            0 <= k < 8 ==> (#[trigger] bit16(n[k], d) <==> bit16(e[k], d) || (k < 6 && excludes(
                a,
                v,
                p,
                k,
                d,
            ))),
        a.len() == 16,
        0 <= p < 3,
    ensures
        n == join(e, excl_words(a, v, p)),
{
    assert forall|k: int| 0 <= k < 8 implies n[k] == e[k] | excl_word(a, v, p, k) by {
        lemma_has_excl(a, v, p, k);
        let w = excl_word(a, v, p, k);
        assert(is_excl(w, a, v, p, k));
        assert forall|d: int| 0 <= d < 16 implies bit16(n[k], d) == bit16(e[k] | w, d) by {}
        lemma_ext16(n[k], e[k] | w);
    }
    assert(n =~= join(e, excl_words(a, v, p)));
}

/// Some word is what the assertions exclude.
proof fn lemma_has_excl(a: Seq<u16>, v: int, p: int, k: int)
    requires
        a.len() == 16,
        0 <= p < 3,
        0 <= k < 8,
    ensures
        exists|w: u16| is_excl(w, a, v, p, k),
{
    let e = config_elem(k, p);
    let (f, g) = ((e + 1) % 3, (e + 2) % 3);
    let w = if k >= 6 {
        0u16
    } else if v == 0 {
        a[4 * e + 3] | ((a[4 * f] | a[4 * f + 1]) | a[4 * f + 2]) | ((a[4 * g] | a[4 * g + 1]) | a[4
            * g + 2])
    } else {
        a[12 + e] | ((a[f] | a[4 + f]) | a[8 + f]) | ((a[g] | a[4 + g]) | a[8 + g])
    };
    assert forall|d: int| #[trigger] bit16(w, d) <==> k < 6 && excludes(a, v, p, k, d) by {
        assert(!bit16(0u16, d));
    }
    assert(is_excl(w, a, v, p, k));
}

pub proof fn lemma_leave_words(cfg: Seq<u16>, v: int, p: int, c: Seq<u16>)
    requires
        c.len() == 16,
        forall|i: int, d: int|
            0 <= i < 16 ==> (#[trigger] bit16(c[i], d) <==> allowed(triad_row(cfg, p), v, i, d)),
    ensures
        c == leave_words(cfg, v, p),
{
    assert forall|i: int| 0 <= i < 16 implies c[i] == leave_word(cfg, v, p, i) by {
        let u = c[i];
        assert(is_left(u, cfg, v, p, i));
        let w = leave_word(cfg, v, p, i);
        assert(is_left(w, cfg, v, p, i));
        lemma_ext16(u, w);
    }
    assert(c =~= leave_words(cfg, v, p));
}

pub proof fn lemma_pin_words(cfg: Seq<u16>, r: Seq<u16>)
    requires
        r.len() == 8,
        r[6] == 0,
        r[7] == 0,
        forall|k: int, d: int|
            0 <= k < 6 ==> (#[trigger] bit16(r[k], d) <==> bit16(cfg[k], d) && !elsewhere(
                cfg,
                0,
                k,
                d,
            ) && !elsewhere(cfg, 1, k, d) && !elsewhere(cfg, 2, k, d)),
    ensures
        r == pin_words(cfg),
{
    assert forall|k: int| 0 <= k < 8 implies r[k] == pin_word(cfg, k) by {
        let u = r[k];
        assert forall|d: int| #[trigger] bit16(u, d) <==> k < 6 && bit16(cfg[k], d) && !elsewhere(
            cfg,
            0,
            k,
            d,
        ) && !elsewhere(cfg, 1, k, d) && !elsewhere(cfg, 2, k, d) by {
            assert(!bit16(0u16, d));
        }
        assert(is_pinned(u, cfg, k));
        let w = pin_word(cfg, k);
        assert(is_pinned(w, cfg, k));
        lemma_ext16(u, w);
    }
    assert(r =~= pin_words(cfg));
}

// ---------------------------------------------------------------------------
// Boxes
// ---------------------------------------------------------------------------

/// One while the lanes assert something that is not in `told`.
pub open spec fn news(l: Seq<u16>, told: Seq<u16>) -> nat {
    if lanes_in(asserted_set(l), told) {
        0
    } else {
        1
    }
}

/// A box run to its fixpoint, from its lanes, what it has asserted, and what
/// is pending on its two bands; `None` if a lane falls below its minimum.
pub open spec fn box_run(
    l: Seq<u16>,
    told: Seq<u16>,
    h: Seq<u16>,
    v: Seq<u16>,
    bx: int,
) -> Option<(Seq<u16>, Seq<u16>, Seq<u16>, Seq<u16>)>
    decreases total16(l), news(l, told),
{
    let a = asserted_set(l);
    let next = without(l, elim_words(a));
    if !min_ok(l) {
        None
    } else if lanes_in(a, told) {
        Some((l, told, h, v))
    } else if total16(next) < total16(l) || (total16(next) == total16(l) && news(next, a) == 0) {
        box_run(
            next,
            a,
            join(h, excl_words(a, 0, bx % 3)),
            join(v, excl_words(a, 1, bx / 3)),
            bx,
        )
    } else {
        None
    }
}

/// Box `bx` restricted to `c` and run to its fixpoint.
pub open spec fn fixed_box(n: Node, bx: int, c: Seq<u16>) -> Option<Node> {
    match box_run(meet(n.boxes[bx], c), n.told[bx], n.pend[bx / 3], n.pend[3 + bx % 3], bx) {
        None => None,
        Some(r) => Some(
            Node {
                cfg: n.cfg,
                pend: n.pend.update(bx / 3, r.2).update(3 + bx % 3, r.3),
                boxes: n.boxes.update(bx, r.0),
                told: n.told.update(bx, r.1),
            },
        ),
    }
}

// ---------------------------------------------------------------------------
// Exchange
// ---------------------------------------------------------------------------

/// Something is left to apply to band `i`.
pub open spec fn due(n: Node, i: int) -> bool {
    exists|k: int| 0 <= k < 8 && #[trigger] n.cfg[i][k] & n.pend[i][k] != 0
}

/// What is pending on band `i` applied, and passed on.
pub open spec fn eliminated(n: Node, i: int, from: int) -> Option<Node>
    decreases weight(n), 2nat,
{
    if !due(n, i) {
        Some(n)
    } else {
        let cfg = pin_words(without(n.cfg[i], n.pend[i]));
        let m = Node { cfg: n.cfg.update(i, cfg), ..n };
        if weight(m) < weight(n) {
            forwarded(m, i, from, cfg, 0)
        } else {
            None
        }
    }
}

/// The restrictions of configurations `cfg` of band `i` delivered to its
/// boxes from the `k`th on, the inbound one last.
pub open spec fn forwarded(n: Node, i: int, from: int, cfg: Seq<u16>, k: nat) -> Option<Node>
    decreases weight(n), (8 - k) as nat,
{
    if k >= 3 {
        Some(n)
    } else {
        let p = (from + 1 + k) % 3;
        match limited(n, peer_box(i / 3, i % 3, p), leave_words(cfg, i / 3, p), i / 3 == 1) {
            None => None,
            Some(m) => if weight(m) <= weight(n) {
                forwarded(m, i, from, cfg, k + 1)
            } else {
                None
            },
        }
    }
}

/// Box `bx` limited to `c` and the consequences passed on, to the band of the
/// other orientation first.
pub open spec fn limited(n: Node, bx: int, c: Seq<u16>, from_vertical: bool) -> Option<Node>
    decreases weight(n), 3nat,
{
    if lanes_in(n.boxes[bx], c) {
        Some(n)
    } else {
        let (h, v) = (bx / 3, bx % 3);
        match fixed_box(n, bx, c) {
            None => None,
            Some(m) => if weight(m) < weight(n) {
                let first = if from_vertical {
                    eliminated(m, h, v)
                } else {
                    eliminated(m, 3 + v, h)
                };
                match first {
                    None => None,
                    Some(q) => if weight(q) < weight(n) {
                        if from_vertical {
                            eliminated(q, 3 + v, h)
                        } else {
                            eliminated(q, h, v)
                        }
                    } else {
                        None
                    },
                }
            } else {
                None
            },
        }
    }
}

} // verus!
