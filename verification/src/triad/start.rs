//! The state from which a triad run starts, as a function of the clues.

use vstd::prelude::*;
use crate::bits::{bit16, group_bits16, lemma_ext16, pop16};
use crate::triad::boxes::TState;
use crate::triad::course::{eliminated, fixed_box, node, Node};
use crate::triad::init::{clue_drops, clue_placed, col_has, noted, row_has, seeded};
use crate::triad::leaf::{box_lane, lemma_box_lane};
use crate::triad::model::config_elem;
use crate::triad::order::{node_grid, sought};
use crate::tvec::ALL;

verus! {

broadcast use group_bits16;

/// The node in which nothing is known.
pub open spec fn blank() -> Node {
    Node {
        cfg: Seq::new(6, |i: int| seq![ALL, ALL, ALL, ALL, ALL, ALL, 0, 0]),
        pend: Seq::new(6, |i: int| Seq::new(8, |k: int| 0u16)),
        boxes: Seq::new(9, |x: int| Seq::new(16, |j: int| ALL)),
        told: Seq::new(9, |x: int| Seq::new(16, |j: int| 0u16)),
    }
}

/// The clue in cell `c` leaves digit `d` in lane `j` of box `x`.
pub open spec fn clue_leaves(clues: Seq<u8>, c: int, x: int, j: int, d: int) -> bool {
    box_lane(c).0 == x ==> !clue_drops(
        j,
        4 * box_lane(c).1 + box_lane(c).2,
        clues[c] - 1,
        d,
    )
}

/// The clue in cell `c` rules out configuration `k` of digit `d` in band `i`.
pub open spec fn clue_rules_out(clues: Seq<u8>, c: int, i: int, k: int, d: int) -> bool {
    let (x, r, q) = box_lane(c);
    &&& k < 6
    &&& d == clues[c] - 1
    &&& (i == x / 3 && config_elem(k, x % 3) != r) || (i == 3 + x % 3 && config_elem(k, x / 3) != q)
}

/// The clues in the cells `done` leave digit `d` in lane `j` of box `x`.
pub open spec fn left_in(clues: Seq<u8>, done: Set<int>, x: int, j: int, d: int) -> bool {
    0 <= d < 9 && forall|c: int| #[trigger] done.contains(c) ==> clue_leaves(clues, c, x, j, d)
}

/// A clue in the cells `done` rules out configuration `k` of `d` in band `i`.
pub open spec fn ruled_out(clues: Seq<u8>, done: Set<int>, i: int, k: int, d: int) -> bool {
    exists|c: int| #[trigger] done.contains(c) && clue_rules_out(clues, c, i, k, d)
}

/// A clue in the cells `done` has digit `d` in row `r`.
pub open spec fn row_so_far(clues: Seq<u8>, done: Set<int>, r: int, d: int) -> bool {
    exists|c: int| #[trigger] done.contains(c) && c / 9 == r && clues[c] == d + 1
}

/// A clue in the cells `done` has digit `d` in column `q`.
pub open spec fn col_so_far(clues: Seq<u8>, done: Set<int>, q: int, d: int) -> bool {
    exists|c: int| #[trigger] done.contains(c) && c % 9 == q && clues[c] == d + 1
}

/// The clues in the cells `done` have been entered into a blank state, and
/// their digits noted.
pub open spec fn entered(
    s: TState,
    clues: Seq<u8>,
    done: Set<int>,
    rows: Seq<u16>,
    cols: Seq<u16>,
) -> bool {
    &&& forall|x: int, j: int, d: int|
        0 <= x < 9 && 0 <= j < 16 ==> (#[trigger] bit16(s.boxen[x].lanes[j], d) <==> left_in(
            clues,
            done,
            x,
            j,
            d,
        ))
    &&& forall|i: int, k: int, d: int|
        0 <= i < 6 && 0 <= k < 8 ==> (#[trigger] bit16(s.bands[i].eliminations.lanes[k], d)
            <==> ruled_out(clues, done, i, k, d))
    &&& node(s).told == blank().told
    &&& rows.len() == 12
    &&& cols.len() == 12
    &&& forall|r: int, d: int|
        0 <= r < 9 ==> (#[trigger] bit16(rows[r], d) <==> row_so_far(clues, done, r, d))
    &&& forall|q: int, d: int|
        0 <= q < 9 ==> (#[trigger] bit16(cols[q], d) <==> col_so_far(clues, done, q, d))
}

/// One more clue.
pub proof fn lemma_entered_one(
    s: TState,
    n: TState,
    clues: Seq<u8>,
    done: Set<int>,
    c: int,
    rows: Seq<u16>,
    cols: Seq<u16>,
    rows2: Seq<u16>,
    cols2: Seq<u16>,
)
    requires
        entered(s, clues, done, rows, cols),
        0 <= c < 81,
        1 <= clues[c] <= 9,
        clue_placed(s, n, c, clues[c]),
        n.asserted == s.asserted,
        noted(rows, rows2, c / 9, clues[c] - 1),
        noted(cols, cols2, c % 9, clues[c] - 1),
    ensures
        entered(n, clues, done.insert(c), rows2, cols2),
{
    let more = done.insert(c);
    let v = clues[c] - 1;
    lemma_box_lane(c);
    let (bx, br, bq) = box_lane(c);
    assert forall|x: int, j: int, d: int| 0 <= x < 9 && 0 <= j < 16 implies (#[trigger] bit16(
        n.boxen[x].lanes[j],
        d,
    ) <==> left_in(clues, more, x, j, d)) by {
        assert(bit16(s.boxen[x].lanes[j], d) <==> left_in(clues, done, x, j, d));
        assert(left_in(clues, more, x, j, d) <==> left_in(clues, done, x, j, d) && clue_leaves(
            clues,
            c,
            x,
            j,
            d,
        )) by {
            if left_in(clues, more, x, j, d) {
                assert(more.contains(c));
                assert forall|e: int| #[trigger] done.contains(e) implies clue_leaves(
                    clues,
                    e,
                    x,
                    j,
                    d,
                ) by {
                    assert(more.contains(e));
                }
            }
        }
        if x != bx {
            assert(n.boxen[x] == s.boxen[x]);
        }
    }
    assert forall|i: int, k: int, d: int| 0 <= i < 6 && 0 <= k < 8 implies (#[trigger] bit16(
        n.bands[i].eliminations.lanes[k],
        d,
    ) <==> ruled_out(clues, more, i, k, d)) by {
        assert(bit16(s.bands[i].eliminations.lanes[k], d) <==> ruled_out(clues, done, i, k, d));
        assert(ruled_out(clues, more, i, k, d) <==> ruled_out(clues, done, i, k, d)
            || clue_rules_out(clues, c, i, k, d)) by {
            if ruled_out(clues, done, i, k, d) {
                let e = choose|e: int| #[trigger] done.contains(e) && clue_rules_out(
                    clues,
                    e,
                    i,
                    k,
                    d,
                );
                assert(more.contains(e));
            }
            if clue_rules_out(clues, c, i, k, d) {
                assert(more.contains(c));
            }
            if ruled_out(clues, more, i, k, d) {
                let e = choose|e: int| #[trigger] more.contains(e) && clue_rules_out(
                    clues,
                    e,
                    i,
                    k,
                    d,
                );
                if e != c {
                    assert(done.contains(e));
                }
            }
        }
        if i != bx / 3 && i != 3 + bx % 3 {
            assert(n.bands[i] == s.bands[i]);
        }
    }
    assert forall|r: int, d: int| 0 <= r < 9 implies (#[trigger] bit16(rows2[r], d) <==> row_so_far(
        clues,
        more,
        r,
        d,
    )) by {
        assert(bit16(rows[r], d) <==> row_so_far(clues, done, r, d));
        if row_so_far(clues, done, r, d) {
            let e = choose|e: int| #[trigger]
                done.contains(e) && e / 9 == r && clues[e] == d + 1;
            assert(more.contains(e));
        }
        if c / 9 == r && d == v {
            assert(more.contains(c));
        }
        if row_so_far(clues, more, r, d) {
            let e = choose|e: int| #[trigger]
                more.contains(e) && e / 9 == r && clues[e] == d + 1;
            if e != c {
                assert(done.contains(e));
            }
        }
    }
    assert forall|q: int, d: int| 0 <= q < 9 implies (#[trigger] bit16(cols2[q], d) <==> col_so_far(
        clues,
        more,
        q,
        d,
    )) by {
        assert(bit16(cols[q], d) <==> col_so_far(clues, done, q, d));
        if col_so_far(clues, done, q, d) {
            let e = choose|e: int| #[trigger]
                done.contains(e) && e % 9 == q && clues[e] == d + 1;
            assert(more.contains(e));
        }
        if c % 9 == q && d == v {
            assert(more.contains(c));
        }
        if col_so_far(clues, more, q, d) {
            let e = choose|e: int| #[trigger]
                more.contains(e) && e % 9 == q && clues[e] == d + 1;
            if e != c {
                assert(done.contains(e));
            }
        }
    }
    assert(node(n).told =~= node(s).told);
}

/// The cells with a clue.
pub open spec fn clue_cells(clues: Seq<u8>) -> Set<int> {
    Set::new(|c: int| 0 <= c < 81 && clues[c] != 0)
}

/// Word `w` is what the clues leave in lane `j` of box `x`.
pub open spec fn is_load(w: u16, clues: Seq<u8>, x: int, j: int) -> bool {
    forall|d: int| #[trigger] bit16(w, d) <==> left_in(clues, clue_cells(clues), x, j, d)
}

pub open spec fn load_word(clues: Seq<u8>, x: int, j: int) -> u16 {
    choose|w: u16| is_load(w, clues, x, j)
}

/// Word `w` is what is left once cells with several candidates have lost the
/// digits of their row and column.
pub open spec fn is_seed(w: u16, clues: Seq<u8>, x: int, j: int) -> bool {
    let m = load_word(clues, x, j);
    forall|d: int| #[trigger]
        bit16(w, d) <==> bit16(m, d) && !(j / 4 < 3 && j % 4 < 3 && pop16(m) != 1 && (row_has(
            clues,
            3 * (x / 3) + j / 4,
            d,
        ) || col_has(clues, 3 * (x % 3) + j % 4, d)))
}

pub open spec fn seed_word(clues: Seq<u8>, x: int, j: int) -> u16 {
    choose|w: u16| is_seed(w, clues, x, j)
}

/// Word `w` is what the clues rule out of configuration `k` in band `i`.
pub open spec fn is_ruled(w: u16, clues: Seq<u8>, i: int, k: int) -> bool {
    forall|d: int| #[trigger] bit16(w, d) <==> ruled_out(clues, clue_cells(clues), i, k, d)
}

pub open spec fn ruled_word(clues: Seq<u8>, i: int, k: int) -> u16 {
    choose|w: u16| is_ruled(w, clues, i, k)
}

/// The node with the clues entered.
pub open spec fn entry(clues: Seq<u8>) -> Node {
    Node {
        cfg: blank().cfg,
        pend: Seq::new(6, |i: int| Seq::new(8, |k: int| ruled_word(clues, i, k))),
        boxes: Seq::new(9, |x: int| Seq::new(16, |j: int| seed_word(clues, x, j))),
        told: blank().told,
    }
}

/// The first `k` boxes run to their fixpoints in turn.
pub open spec fn boxes_run(n: Node, k: nat) -> Option<Node>
    decreases k,
{
    if k == 0 {
        Some(n)
    } else {
        match boxes_run(n, (k - 1) as nat) {
            None => None,
            Some(m) => fixed_box(m, k - 1, Seq::new(16, |j: int| ALL)),
        }
    }
}

/// The first `k` bands resolved in turn, horizontal and vertical ones by
/// turns.
pub open spec fn bands_run(n: Node, k: nat) -> Option<Node>
    decreases k,
{
    if k == 0 {
        Some(n)
    } else {
        match bands_run(n, (k - 1) as nat) {
            None => None,
            Some(m) => {
                let b = (k - 1) / 2;
                eliminated(m, 3 * ((k - 1) % 2) + b, (b + 1) % 3)
            },
        }
    }
}

/// The node from which the search starts; `None` if the clues are refuted.
pub open spec fn started(clues: Seq<u8>) -> Option<Node> {
    match boxes_run(entry(clues), 9) {
        None => None,
        Some(n) => bands_run(n, 6),
    }
}

/// How many solutions a run counts, up to `limit`, and the one with which it
/// reaches the limit.
pub open spec fn run_to(clues: Seq<u8>, limit: int) -> (int, Option<Seq<u8>>) {
    match started(clues) {
        None => (0, None),
        Some(n) => {
            let r = sought(n, 0, limit);
            (
                r.0,
                match r.1 {
                    None => None,
                    Some(m) => Some(node_grid(m)),
                },
            )
        },
    }
}

/// The first solution that the engine finds.
pub open spec fn triad_first(clues: Seq<u8>) -> Option<Seq<u8>> {
    run_to(clues, 1).1
}

/// A failure among the boxes lasts.
pub proof fn lemma_boxes_none(n: Node, a: nat, b: nat)
    requires
        a <= b,
        boxes_run(n, a) is None,
    ensures
        boxes_run(n, b) is None,
    decreases b,
{
    if a < b {
        lemma_boxes_none(n, a, (b - 1) as nat);
    }
}

/// A failure among the bands lasts.
pub proof fn lemma_bands_none(n: Node, a: nat, b: nat)
    requires
        a <= b,
        bands_run(n, a) is None,
    ensures
        bands_run(n, b) is None,
    decreases b,
{
    if a < b {
        lemma_bands_none(n, a, (b - 1) as nat);
    }
}

/// All clues entered and seeded make the entry.
pub proof fn lemma_entry(s: TState, n: TState, clues: Seq<u8>, rows: Seq<u16>, cols: Seq<u16>)
    requires
        entered(s, clues, clue_cells(clues), rows, cols),
        seeded(s, n, rows, cols),
        n.bands == s.bands,
        n.asserted == s.asserted,
        node(s).cfg == blank().cfg,
    ensures
        node(n) == entry(clues),
{
    let (a, e) = (node(n), entry(clues));
    let all = clue_cells(clues);
    assert forall|x: int, j: int| 0 <= x < 9 && 0 <= j < 16 implies #[trigger] a.boxes[x][j]
        == e.boxes[x][j] by {
        let m = s.boxen[x].lanes[j];
        assert(is_load(m, clues, x, j)) by {
            assert forall|d: int| #[trigger] bit16(m, d) <==> left_in(clues, all, x, j, d) by {
                assert(bit16(s.boxen[x].lanes[j], d) <==> left_in(clues, all, x, j, d));
            }
        }
        assert(is_load(load_word(clues, x, j), clues, x, j));
        lemma_ext16(m, load_word(clues, x, j));
        let w = n.boxen[x].lanes[j];
        assert(is_seed(w, clues, x, j)) by {
            assert forall|d: int| #[trigger] bit16(w, d) <==> bit16(m, d) && !(j / 4 < 3 && j % 4
                < 3 && pop16(m) != 1 && (row_has(clues, 3 * (x / 3) + j / 4, d) || col_has(
                clues,
                3 * (x % 3) + j % 4,
                d,
            ))) by {
                assert(bit16(n.boxen[x].lanes[j], d) <==> bit16(s.boxen[x].lanes[j], d) && !(j / 4
                    < 3 && j % 4 < 3 && pop16(s.boxen[x].lanes[j]) != 1 && (bit16(
                    rows[3 * (x / 3) + j / 4],
                    d,
                ) || bit16(cols[3 * (x % 3) + j % 4], d))));
                if j / 4 < 3 && j % 4 < 3 {
                    lemma_all_noted(clues, 3 * (x / 3) + j / 4, d);
                    lemma_all_noted(clues, 3 * (x % 3) + j % 4, d);
                    assert(bit16(rows[3 * (x / 3) + j / 4], d) <==> row_so_far(
                        clues,
                        all,
                        3 * (x / 3) + j / 4,
                        d,
                    ));
                    assert(bit16(cols[3 * (x % 3) + j % 4], d) <==> col_so_far(
                        clues,
                        all,
                        3 * (x % 3) + j % 4,
                        d,
                    ));
                }
            }
        }
        assert(is_seed(seed_word(clues, x, j), clues, x, j));
        lemma_ext16(w, seed_word(clues, x, j));
    }
    assert forall|x: int| 0 <= x < 9 implies a.boxes[x] == e.boxes[x] by {
        assert forall|j: int| 0 <= j < 16 implies a.boxes[x][j] == e.boxes[x][j] by {}
        assert(a.boxes[x] =~= e.boxes[x]);
    }
    assert(a.boxes =~= e.boxes);
    assert forall|i: int, k: int| 0 <= i < 6 && 0 <= k < 8 implies #[trigger] a.pend[i][k]
        == e.pend[i][k] by {
        let w = s.bands[i].eliminations.lanes[k];
        assert(is_ruled(w, clues, i, k)) by {
            assert forall|d: int| #[trigger] bit16(w, d) <==> ruled_out(clues, all, i, k, d) by {
                assert(bit16(s.bands[i].eliminations.lanes[k], d) <==> ruled_out(
                    clues,
                    all,
                    i,
                    k,
                    d,
                ));
            }
        }
        assert(is_ruled(ruled_word(clues, i, k), clues, i, k));
        lemma_ext16(w, ruled_word(clues, i, k));
    }
    assert forall|i: int| 0 <= i < 6 implies a.pend[i] == e.pend[i] by {
        assert forall|k: int| 0 <= k < 8 implies a.pend[i][k] == e.pend[i][k] by {}
        assert(a.pend[i] =~= e.pend[i]);
    }
    assert(a.pend =~= e.pend);
    assert(a.cfg =~= node(s).cfg);
    assert(a.told =~= node(s).told);
}

proof fn lemma_all_noted(clues: Seq<u8>, r: int, d: int)
    ensures
        d >= 0 ==> (row_so_far(clues, clue_cells(clues), r, d) <==> row_has(clues, r, d)),
        d >= 0 ==> (col_so_far(clues, clue_cells(clues), r, d) <==> col_has(clues, r, d)),
{
    let all = clue_cells(clues);
    if d >= 0 {
        if row_has(clues, r, d) {
            let c = choose|c: int| 0 <= c < 81 && c / 9 == r && #[trigger] clues[c] == d + 1;
            assert(all.contains(c));
        }
        if col_has(clues, r, d) {
            let c = choose|c: int| 0 <= c < 81 && c % 9 == r && #[trigger] clues[c] == d + 1;
            assert(all.contains(c));
        }
        if row_so_far(clues, all, r, d) {
            let c = choose|c: int| #[trigger] all.contains(c) && c / 9 == r && clues[c] == d + 1;
            assert(clues[c] == d + 1);
        }
        if col_so_far(clues, all, r, d) {
            let c = choose|c: int| #[trigger] all.contains(c) && c % 9 == r && clues[c] == d + 1;
            assert(clues[c] == d + 1);
        }
    }
}

} // verus!
