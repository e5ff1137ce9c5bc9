//! What the random numbers do to shuffles, grids and puzzles.

use vstd::arithmetic::div_mod::lemma_small_mod;
use vstd::prelude::*;
use vstd::seq_lib::to_multiset_remove;
use crate::baseline::cells::{
    cell_solutions, keeps, lemma_narrower_total, narrower, only, single, sub_cell,
};
use crate::baseline::first::{first_fewest, lemma_fewest, lemma_guess_less};
use crate::baseline::pass::passed;
use crate::baseline::settle::{all_single, closed_cells, closes_to, crossed, settled};
use crate::bits::{bit16, group_bits16, pop16, total16};
use crate::branch::{ascending, listed};
use crate::generate::{
    all_cells, comes_of, digits_below, fill, fill_from, filled, guessed, padded, has_clues_of,
    lemma_fewer_clues, lemma_grid_alone, lemma_shuffled, shuffled, stripped, swapped,
};
use crate::grid::{
    is_grid, is_solution, lemma_cell_coords, lemma_grid_facts, lemma_only, lemma_onto_is_injective,
    lemma_unit_has, peers, reaches, solution_count, solutions, unit_cell,
};
use crate::laws::{lemma_filled_within, lemma_listed_digit};
use crate::rng::{drawn, draws, xorshift};

verus! {

broadcast use group_bits16;

// ---------------------------------------------------------------------------
// The generator
// ---------------------------------------------------------------------------

/// A state and its shifts, added without carry, make the next state.
pub proof fn law_next_state(x: u64)
    ensures
        xorshift(x) == x ^ (x << 13) ^ (x >> 7) ^ ((x << 13) >> 7) ^ (x << 17) ^ (x << 30) ^ ((x
            >> 7) << 17) ^ (((x << 13) >> 7) << 17),
{
    let a = x ^ (x << 13);
    let b = a ^ (a >> 7);
    let c = b ^ (b << 17);
    assert(c == x ^ (x << 13) ^ (x >> 7) ^ ((x << 13) >> 7) ^ (x << 17) ^ (x << 30) ^ ((x >> 7)
        << 17) ^ (((x << 13) >> 7) << 17)) by (bit_vector)
        requires
            a == x ^ (x << 13),
            b == a ^ (a >> 7),
            c == b ^ (b << 17),
    ;
}

/// The state before `y`.
pub open spec fn before(y: u64) -> u64 {
    let b = y ^ (y << 17) ^ (y << 34) ^ (y << 51);
    let a = b ^ (b >> 7) ^ (b >> 14) ^ (b >> 21) ^ (b >> 28) ^ (b >> 35) ^ (b >> 42) ^ (b >> 49) ^ (b
        >> 56) ^ (b >> 63);
    a ^ (a << 13) ^ (a << 26) ^ (a << 39) ^ (a << 52)
}

/// Each of the three steps to the next state can be undone.
proof fn lemma_steps_undone(v: u64)
    ensures
        ({
            let w = v ^ (v << 13);
            w ^ (w << 13) ^ (w << 26) ^ (w << 39) ^ (w << 52) == v
        }),
        ({
            let w = v ^ (v << 13) ^ (v << 26) ^ (v << 39) ^ (v << 52);
            w ^ (w << 13) == v
        }),
        ({
            let w = v ^ (v >> 7);
            w ^ (w >> 7) ^ (w >> 14) ^ (w >> 21) ^ (w >> 28) ^ (w >> 35) ^ (w >> 42) ^ (w >> 49) ^ (w
                >> 56) ^ (w >> 63) == v
        }),
        ({
            let w = v ^ (v >> 7) ^ (v >> 14) ^ (v >> 21) ^ (v >> 28) ^ (v >> 35) ^ (v >> 42) ^ (v
                >> 49) ^ (v >> 56) ^ (v >> 63);
            w ^ (w >> 7) == v
        }),
        ({
            let w = v ^ (v << 17);
            w ^ (w << 17) ^ (w << 34) ^ (w << 51) == v
        }),
        ({
            let w = v ^ (v << 17) ^ (v << 34) ^ (v << 51);
            w ^ (w << 17) == v
        }),
{
    assert({
        let w = v ^ (v << 13);
        w ^ (w << 13) ^ (w << 26) ^ (w << 39) ^ (w << 52) == v
    }) by (bit_vector);
    assert({
        let w = v ^ (v << 13) ^ (v << 26) ^ (v << 39) ^ (v << 52);
        w ^ (w << 13) == v
    }) by (bit_vector);
    assert({
        let w = v ^ (v >> 7);
        w ^ (w >> 7) ^ (w >> 14) ^ (w >> 21) ^ (w >> 28) ^ (w >> 35) ^ (w >> 42) ^ (w >> 49) ^ (w
            >> 56) ^ (w >> 63) == v
    }) by (bit_vector);
    assert({
        let w = v ^ (v >> 7) ^ (v >> 14) ^ (v >> 21) ^ (v >> 28) ^ (v >> 35) ^ (v >> 42) ^ (v
            >> 49) ^ (v >> 56) ^ (v >> 63);
        w ^ (w >> 7) == v
    }) by (bit_vector);
    assert({
        let w = v ^ (v << 17);
        w ^ (w << 17) ^ (w << 34) ^ (w << 51) == v
    }) by (bit_vector);
    assert({
        let w = v ^ (v << 17) ^ (v << 34) ^ (v << 51);
        w ^ (w << 17) == v
    }) by (bit_vector);
}

/// The state before the one after is the state itself.
proof fn lemma_undone(x: u64)
    ensures
        before(xorshift(x)) == x,
{
    let a = x ^ (x << 13);
    let b = a ^ (a >> 7);
    lemma_steps_undone(x);
    lemma_steps_undone(a);
    lemma_steps_undone(b);
}

/// Every state follows exactly one other, and only zero follows zero.
pub proof fn law_states_follow(x: u64)
    ensures
        xorshift(before(x)) == x,
        before(xorshift(x)) == x,
        xorshift(x) == 0 <==> x == 0,
{
    let b = x ^ (x << 17) ^ (x << 34) ^ (x << 51);
    let a = b ^ (b >> 7) ^ (b >> 14) ^ (b >> 21) ^ (b >> 28) ^ (b >> 35) ^ (b >> 42) ^ (b >> 49) ^ (b
        >> 56) ^ (b >> 63);
    lemma_steps_undone(x);
    lemma_steps_undone(b);
    lemma_steps_undone(a);
    let o = 0u64;
    assert(o ^ (o << 13) == 0 && o ^ (o >> 7) == 0 && o ^ (o << 17) == 0) by (bit_vector)
        requires
            o == 0,
    ;
    lemma_undone(x);
    lemma_undone(o);
}

// ---------------------------------------------------------------------------
// Shuffles
// ---------------------------------------------------------------------------

/// The shuffle in which the element for place `i - k` is the one at `js[k]`
/// among those not placed yet.
pub open spec fn dealt(s: Seq<u8>, i: int, js: Seq<int>) -> Seq<u8>
    decreases i,
{
    if i <= 0 {
        s
    } else {
        dealt(s.update(i, s[js[0]]).update(js[0], s[i]), i - 1, js.drop_first())
    }
}

/// One draw for each place from `i` down to 1, every place that is left being
/// possible.
pub open spec fn draws_for(i: int, js: Seq<int>) -> bool {
    js.len() == i && forall|k: int| 0 <= k < i ==> 0 <= #[trigger] js[k] <= i - k
}

/// The places behind `i` stay, the element drawn first is put at place `i`, and
/// those in front of it are shuffled on.
pub proof fn law_shuffle_places(s: Seq<u8>, i: int, x: u64)
    requires
        0 <= i < s.len(),
    ensures
        shuffled(s, i, x).len() == s.len(),
        forall|m: int| i < m < s.len() ==> #[trigger] shuffled(s, i, x)[m] == s[m],
        i > 0 ==> shuffled(s, i, x)[i] == s[xorshift(x) as int % (i + 1)],
        i > 0 ==> shuffled(s, i, x) == shuffled(
            s.update(i, s[xorshift(x) as int % (i + 1)]).update(
                xorshift(x) as int % (i + 1),
                s[i],
            ),
            i - 1,
            xorshift(x),
        ),
        i == 0 ==> shuffled(s, i, x) == s,
    decreases i,
{
    if i > 0 {
        let y = xorshift(x);
        law_shuffle_places(swapped(s, i, y as int % (i + 1)), i - 1, y);
    }
}

/// A shuffle is dealt by the numbers drawn: for place `i - k` the number drawn
/// `k + 1` states on, below the number of places left.
pub proof fn law_shuffle_is_dealt(s: Seq<u8>, i: int, x: u64)
    requires
        0 <= i < s.len(),
    ensures
        shuffled(s, i, x) == dealt(
            s,
            i,
            Seq::new(i as nat, |k: int| drawn(x, (k + 1) as nat) as int % (i - k + 1)),
        ),
        draws_for(i, Seq::new(i as nat, |k: int| drawn(x, (k + 1) as nat) as int % (i - k + 1))),
    decreases i,
{
    let js = Seq::new(i as nat, |k: int| drawn(x, (k + 1) as nat) as int % (i - k + 1));
    if i > 0 {
        let y = xorshift(x);
        reveal_with_fuel(drawn, 2);
        assert(drawn(x, 1) == y);
        let j = y as int % (i + 1);
        law_shuffle_is_dealt(swapped(s, i, j), i - 1, y);
        let rest = Seq::new(
            (i - 1) as nat,
            |k: int| drawn(y, (k + 1) as nat) as int % (i - 1 - k + 1),
        );
        assert(js.drop_first() =~= rest) by {
            assert forall|k: int| 0 <= k < i - 1 implies js.drop_first()[k] == rest[k] by {
                crate::rng::lemma_drawn_add(x, 1, (k + 1) as nat);
            }
        }
        assert(js[0] == j);
    }
}

/// Every order of the elements up to `i` is dealt by some draws.
pub proof fn law_every_order(s: Seq<u8>, t: Seq<u8>, i: int) -> (js: Seq<int>)
    requires
        0 <= i < s.len(),
        t.len() == s.len(),
        s.take(i + 1).to_multiset() == t.take(i + 1).to_multiset(),
        forall|m: int| i < m < s.len() ==> s[m] == #[trigger] t[m],
    ensures
        draws_for(i, js),
        dealt(s, i, js) == t,
    decreases i,
{
    let (a, b) = (s.take(i + 1), t.take(i + 1));
    a.to_multiset_ensures();
    b.to_multiset_ensures();
    assert(b.contains(b[i]));
    assert(a.to_multiset().count(t[i]) > 0);
    assert(a.contains(t[i]));
    let j = choose|j: int| 0 <= j < a.len() && a[j] == t[i];
    if i == 0 {
        assert(s =~= t) by {
            assert forall|m: int| 0 <= m < s.len() implies s[m] == t[m] by {}
        }
        Seq::empty()
    } else {
        let w = s.update(i, s[j]).update(j, s[i]);
        assert(w.take(i).to_multiset() == t.take(i).to_multiset()) by {
            to_multiset_remove(a, j);
            to_multiset_remove(b, i);
            assert(b.remove(i) =~= t.take(i));
            lemma_swap_out(s, i, j);
        }
        assert forall|m: int| i - 1 < m < w.len() implies w[m] == #[trigger] t[m] by {}
        let rest = law_every_order(w, t, i - 1);
        let js = seq![j] + rest;
        assert(js.drop_first() =~= rest);
        assert forall|k: int| 0 <= k < i implies 0 <= #[trigger] js[k] <= i - k by {
            if k > 0 {
                assert(js[k] == rest[k - 1]);
            }
        }
        js
    }
}

/// Moving the element at `i` to the place of the one at `j` takes the latter
/// out of the first `i + 1`.
proof fn lemma_swap_out(s: Seq<u8>, i: int, j: int)
    requires
        0 <= j <= i < s.len(),
    ensures
        s.update(i, s[j]).update(j, s[i]).take(i).to_multiset() == s.take(i + 1).remove(
            j,
        ).to_multiset(),
{
    let w = s.update(i, s[j]).update(j, s[i]).take(i);
    let r = s.take(i + 1).remove(j);
    if j == i {
        assert(w =~= r);
    } else {
        // Both hold `s[i]` and, without it, the same.
        to_multiset_remove(w, j);
        to_multiset_remove(r, i - 1);
        assert(w.remove(j) =~= r.remove(i - 1));
        w.to_multiset_ensures();
        r.to_multiset_ensures();
        assert(w[j] == s[i] && r[i - 1] == s[i]);
        assert(w.contains(w[j]) && r.contains(r[i - 1]));
        let (m, n) = (w.to_multiset(), r.to_multiset());
        assert(m.count(s[i]) > 0 && n.count(s[i]) > 0);
        assert(m =~= m.remove(s[i]).insert(s[i]));
        assert(n =~= n.remove(s[i]).insert(s[i]));
    }
}

/// Any of the elements up to `i` is put at place `i` from some generator state.
pub proof fn law_any_element_last(s: Seq<u8>, i: int, j: int)
    requires
        0 <= j <= i < s.len() <= u64::MAX,
    ensures
        i > 0 ==> shuffled(s, i, before(j as u64))[i] == s[j],
{
    let x = before(j as u64);
    law_states_follow(j as u64);
    if i > 0 {
        law_shuffle_places(s, i, x);
        lemma_small_mod(j as nat, (i + 1) as nat);
    }
}

// ---------------------------------------------------------------------------
// Grids
// ---------------------------------------------------------------------------

/// What stands behind the shuffled elements makes no difference to them.
proof fn lemma_shuffled_front(s: Seq<u8>, t: Seq<u8>, i: int, x: u64)
    requires
        i < s.len(),
        i < t.len(),
        forall|m: int| 0 <= m <= i ==> #[trigger] s[m] == t[m],
    ensures
        forall|m: int| 0 <= m <= i ==> #[trigger] shuffled(s, i, x)[m] == shuffled(t, i, x)[m],
    decreases i,
{
    if i > 0 {
        let y = xorshift(x);
        let j = y as int % (i + 1);
        let (a, b) = (swapped(s, i, j), swapped(t, i, j));
        lemma_shuffled_front(a, b, i - 1, y);
        law_shuffle_places(a, i - 1, y);
        law_shuffle_places(b, i - 1, y);
    }
}

/// Two increasing lists of the same digits are the same.
proof fn lemma_same_list(a: Seq<u8>, n: int, b: Seq<u8>, m: int, k: int)
    requires
        ascending(a, n),
        ascending(b, m),
        forall|d: int| #[trigger] listed(a, 0, n, d) <==> listed(b, 0, m, d),
        0 <= k < n,
    ensures
        k < m,
        a[k] == b[k],
    decreases k,
{
    if k > 0 {
        lemma_same_list(a, n, b, m, k - 1);
        assert forall|i: int| 0 <= i < k implies a[i] == b[i] by {
            lemma_same_list(a, n, b, m, i);
        }
    }
    assert(listed(a, 0, n, a[k] as int));
    let i = choose|i: int| 0 <= i < m && #[trigger] b[i] == a[k];
    if i < k {
        assert(a[i] == b[i]);
        assert(a[i] < a[k]);
    }
    assert(listed(b, 0, m, b[k] as int));
    assert(listed(a, 0, n, b[k] as int));
    let j = choose|j: int| 0 <= j < n && #[trigger] a[j] == b[k];
    if j < k {
        assert(a[j] == b[j]);
        assert(b[j] < b[k]);
    }
    if j > k {
        assert(a[k] < a[j]);
        assert(b[k] <= b[i]);
    }
}

/// Every branch of a random fill is a shuffle. Let `c` be the first cell with
/// the fewest of several candidates, and `list` these candidates in increasing
/// order, however many there are. The grid holds at `c` the first of them, in
/// the order of a shuffle from the state at that point, that has a grid: the one
/// at the place that is returned. The fill goes on from what that leaves, and if
/// it is the first of the shuffle, from the state that the shuffle leaves.
pub proof fn law_branch_is_shuffled(
    cand: Seq<u16>,
    x: u64,
    g: Seq<u8>,
    y: u64,
    depth: nat,
    c: int,
    list: Seq<u8>,
) -> (r: (int, Seq<u16>, u64))
    requires
        cand.len() == 81,
        filled(cand, x, g, y, depth),
        0 <= c < 81,
        list.len() >= 2,
        forall|j: int| 0 <= j < list.len() ==> #[trigger] list[j] < 9,
        forall|j: int, k: int| 0 <= j < k < list.len() ==> #[trigger] list[j] < #[trigger] list[k],
        forall|d: int| #[trigger] bit16(cand[c], d) <==> listed(list, 0, list.len() as int, d),
        forall|e: int|
            0 <= e < 81 && !single(#[trigger] cand[e]) ==> pop16(cand[c]) <= pop16(cand[e]) && (e
                < c ==> pop16(cand[c]) < pop16(cand[e])),
    ensures
        ({
            let order = shuffled(list, list.len() - 1, x);
            let (k, next, z) = r;
            let left = cand.update(c, 1u16 << (order[k] as u16));
            &&& depth > 0
            &&& 0 <= k < list.len()
            &&& g[c] == order[k] + 1
            &&& forall|j: int|
                0 <= j < k ==> cell_solutions(
                    cand.update(c, 1u16 << (#[trigger] order[j] as u16)),
                ).len() == 0
            &&& filled(next, z, g, y, (depth - 1) as nat)
            &&& next.len() == 81
            &&& narrower(next, left)
            &&& keeps(left, next)
            &&& k == 0 ==> z == drawn(x, (list.len() - 1) as nat)
            &&& draws(drawn(x, (list.len() - 1) as nat), z, 0)
        }),
{
    let n = list.len() as int;
    assert(listed(list, 0, n, list[0] as int) && listed(list, 0, n, list[1] as int));
    assert(bit16(cand[c], list[0] as int) && bit16(cand[c], list[1] as int));
    assert(list[0] < list[1]);
    assert(!single(cand[c]));
    if depth == 0 {
        assert(only(cand[c], g[c] - 1));
    }
    let (e, own, m, k, next, z) = choose|
        e: int,
        own: Seq<u8>,
        m: int,
        k: int,
        next: Seq<u16>,
        z: u64,
    | #[trigger]
        guessed(cand, x, e, own, m, k, next, z) && filled(next, z, g, y, (depth - 1) as nat);
    assert(!single(cand[e]));
    assert(e == c);
    assert(ascending(list, n));
    assert forall|d: int| #[trigger] listed(list, 0, n, d) <==> listed(own, 0, m, d) by {
        assert(bit16(cand[c], d) <==> listed(own, 0, m, d));
    }
    lemma_same_list(list, n, own, m, n - 1);
    assert forall|d: int| #[trigger] listed(own, 0, m, d) <==> listed(list, 0, n, d) by {}
    lemma_same_list(own, m, list, n, m - 1);
    assert(n == m);
    assert forall|i: int| 0 <= i <= n - 1 implies #[trigger] list[i] == own[i] by {
        lemma_same_list(list, n, own, m, i);
    }
    lemma_shuffled_front(list, own, n - 1, x);
    let order = shuffled(list, n - 1, x);
    let order2 = shuffled(own, n - 1, x);
    assert forall|j: int| 0 <= j < n implies #[trigger] order[j] == order2[j] by {}
    lemma_filled_within(next, z, g, y, (depth - 1) as nat);
    lemma_shuffled(list, n - 1, x, n);
    assert(listed(order, 0, n, order[k] as int));
    lemma_listed_digit(list, n, order[k] as int);
    let left = cand.update(c, 1u16 << (order[k] as u16));
    assert(sub_cell(next[c], left[c]));
    assert(bit16(next[c], g[c] - 1));
    assert(bit16(left[c], g[c] - 1));
    (k, next, z)
}

/// The state of the generator before the digit at place `k` of `order` is tried
/// in cell `c`: every digit tried before it leads nowhere, and leaves the state
/// that its own search ends with. A digit that the propagation refutes draws
/// nothing.
pub open spec fn state_at(
    cand: Seq<u16>,
    marks: Set<int>,
    c: int,
    order: Seq<u8>,
    k: int,
    x: u64,
) -> u64
    decreases k,
{
    if k <= 0 {
        x
    } else {
        tried_at(cand, marks, c, order[k - 1], state_at(cand, marks, c, order, k - 1, x)).1
    }
}

/// What a fill makes of digit `d` in cell `c`.
pub open spec fn tried_at(cand: Seq<u16>, marks: Set<int>, c: int, d: u8, x: u64) -> (
    Option<Seq<u8>>,
    u64,
) {
    let start = cand.update(c, 1u16 << (d as u16));
    match settled(start, marks.union(crossed(cand, start))) {
        None => (None, x),
        Some(left) => fill(left.0, left.1, x),
    }
}

/// What full propagation leaves is no more than there was.
proof fn lemma_settled_less(cells: Seq<u16>, marks: Set<int>)
    ensures
        settled(cells, marks) matches Some(left) ==> total16(left.0) <= total16(cells),
    decreases total16(cells),
{
    if let Some(f) = closed_cells(cells) {
        assert(closes_to(cells, f));
        lemma_narrower_total(f, cells);
        let due = marks.union(crossed(cells, f));
        if !(all_single(f) || due == Set::<int>::empty()) {
            if let Some(g) = passed(f, due, 54) {
                if g != f && total16(g) < total16(cells) {
                    lemma_settled_less(g, crossed(f, g));
                }
            }
        }
    }
}

/// The digits of `order` from place `k` on, tried one after the other.
#[verifier::spinoff_prover]
#[verifier::rlimit(60)]
proof fn lemma_fill_from(
    cand: Seq<u16>,
    marks: Set<int>,
    c: int,
    order: Seq<u8>,
    n: int,
    k: nat,
    x: u64,
) -> (r: int)
    requires
        cand.len() == 81,
        0 <= c < 81,
        !single(cand[c]),
        n <= 9,
        k <= n,
        forall|j: int| 0 <= j < n ==> #[trigger] order[j] < 9 && bit16(cand[c], order[j] as int),
        forall|j: int|
            0 <= j < k ==> tried_at(
                cand,
                marks,
                c,
                #[trigger] order[j],
                state_at(cand, marks, c, order, j, x),
            ).0 is None,
    ensures
        k <= r <= n,
        forall|j: int|
            0 <= j < r ==> tried_at(
                cand,
                marks,
                c,
                #[trigger] order[j],
                state_at(cand, marks, c, order, j, x),
            ).0 is None,
        ({
            let y = state_at(cand, marks, c, order, k as int, x);
            let end = fill_from(cand, marks, c, order, n, k, y);
            let z = state_at(cand, marks, c, order, r, x);
            &&& r < n ==> end == tried_at(cand, marks, c, order[r], z) && end.0 is Some
            &&& r == n ==> end == (None::<Seq<u8>>, z)
        }),
    decreases n - k,
{
    if k == n {
        n
    } else {
        let y = state_at(cand, marks, c, order, k as int, x);
        let d = order[k as int];
        let start = cand.update(c, 1u16 << (d as u16));
        let due = marks.union(crossed(cand, start));
        assert(bit16(cand[c], d as int) && d < 9);
        if let Some(left) = settled(start, due) {
            lemma_settled_less(start, due);
            lemma_narrower_self(start);
            lemma_guess_less(cand, c, d as int, start);
        }
        if tried_at(cand, marks, c, d, y).0 is Some {
            k as int
        } else {
            assert(state_at(cand, marks, c, order, (k + 1) as int, x) == tried_at(cand, marks, c, d, y).1);
            lemma_fill_from(cand, marks, c, order, n, k + 1, x)
        }
    }
}

/// Candidates lie within themselves.
proof fn lemma_narrower_self(a: Seq<u16>)
    ensures
        narrower(a, a),
{
    assert forall|i: int| 0 <= i < a.len() implies sub_cell(#[trigger] a[i], a[i]) by {}
}

/// A random fill, draw by draw. At the first cell with the fewest of several
/// candidates these, in increasing order, are shuffled from state `x`, which
/// takes one draw less than there are candidates. They are tried in that order,
/// each from the state that the ones before it leave, and the first that leads
/// to a grid is what the fill ends with; its place is returned. If none does,
/// the place after the last is.
pub proof fn law_fill_in_shuffled_order(
    cand: Seq<u16>,
    marks: Set<int>,
    x: u64,
    c: int,
    list: Seq<u8>,
) -> (r: int)
    requires
        cand.len() == 81,
        0 <= c < 81,
        !single(cand[c]),
        forall|e: int|
            0 <= e < 81 && !single(#[trigger] cand[e]) ==> pop16(cand[c]) <= pop16(cand[e]) && (e
                < c ==> pop16(cand[c]) < pop16(cand[e])),
        1 <= list.len() <= 9,
        forall|j: int| 0 <= j < list.len() ==> #[trigger] list[j] < 9,
        forall|j: int, k: int| 0 <= j < k < list.len() ==> #[trigger] list[j] < #[trigger] list[k],
        forall|d: int| #[trigger]
            bit16(cand[c], d) <==> listed(list, 0, list.len() as int, d),
    ensures
        ({
            let n = list.len() as int;
            let order = shuffled(list, n - 1, x);
            let y = drawn(x, (n - 1) as nat);
            let z = state_at(cand, marks, c, order, r, y);
            &&& 0 <= r <= n
            &&& forall|j: int|
                0 <= j < r ==> tried_at(
                    cand,
                    marks,
                    c,
                    #[trigger] order[j],
                    state_at(cand, marks, c, order, j, y),
                ).0 is None
            &&& r < n ==> fill(cand, marks, x) == tried_at(cand, marks, c, order[r], z)
            &&& r < n ==> fill(cand, marks, x).0 is Some
            &&& r == n ==> fill(cand, marks, x) == (None::<Seq<u8>>, z)
        }),
{
    let n = list.len() as int;
    let own = digits_below(cand[c], 9);
    assert(first_fewest(cand, c));
    lemma_fewest(cand, c);
    assert(!all_single(cand)) by {
        assert(!single(cand[c]));
    }
    lemma_below(cand[c], list);
    assert(own =~= list);
    let wide = padded(own);
    lemma_shuffled_front(list, wide, n - 1, x);
    let order = shuffled(list, n - 1, x);
    let far = shuffled(wide, n - 1, x);
    let y = drawn(x, (n - 1) as nat);
    lemma_shuffled(list, n - 1, x, n);
    assert forall|j: int| 0 <= j < n implies #[trigger] far[j] == order[j] by {}
    assert forall|j: int| 0 <= j < n implies #[trigger] order[j] < 9 && bit16(
        cand[c],
        order[j] as int,
    ) by {
        assert(listed(order, 0, n, order[j] as int));
        lemma_listed_digit(list, n, order[j] as int);
        assert(bit16(cand[c], order[j] as int));
    }
    assert forall|j: int| 0 <= j < n implies #[trigger] far[j] < 9 && bit16(cand[c], far[j] as int) by {
        assert(far[j] == order[j]);
    }
    let r = lemma_fill_from(cand, marks, c, far, n, 0, y);
    assert forall|j: int| 0 <= j <= n implies #[trigger] state_at(cand, marks, c, order, j, y)
        == state_at(cand, marks, c, far, j, y) by {
        lemma_state_front(cand, marks, c, order, far, j, y);
    }
    assert forall|j: int| 0 <= j < r implies tried_at(
        cand,
        marks,
        c,
        #[trigger] order[j],
        state_at(cand, marks, c, order, j, y),
    ).0 is None by {
        assert(far[j] == order[j]);
    }
    if r < n {
        assert(far[r] == order[r]);
    }
    r
}

/// Orders that begin alike take the generator the same way.
proof fn lemma_state_front(
    cand: Seq<u16>,
    marks: Set<int>,
    c: int,
    a: Seq<u8>,
    b: Seq<u8>,
    k: int,
    x: u64,
)
    requires
        forall|j: int| 0 <= j < k ==> #[trigger] a[j] == b[j],
    ensures
        state_at(cand, marks, c, a, k, x) == state_at(cand, marks, c, b, k, x),
    decreases k,
{
    if k > 0 {
        lemma_state_front(cand, marks, c, a, b, k - 1, x);
        assert(a[k - 1] == b[k - 1]);
    }
}

/// The digits of a set in increasing order are the only such list.
proof fn lemma_below(mask: u16, list: Seq<u8>)
    requires
        ascending(list, list.len() as int),
        forall|d: int| #[trigger] bit16(mask, d) <==> listed(list, 0, list.len() as int, d),
    ensures
        digits_below(mask, 9) == list,
{
    let own = digits_below(mask, 9);
    let (n, m) = (list.len() as int, own.len() as int);
    lemma_digits_below(mask, 9);
    assert forall|d: int| #[trigger] listed(list, 0, n, d) <==> listed(own, 0, m, d) by {
        assert(bit16(mask, d) <==> listed(list, 0, n, d));
        if listed(list, 0, n, d) {
            lemma_listed_digit(list, n, d);
        }
    }
    assert forall|d: int| #[trigger] listed(own, 0, m, d) <==> listed(list, 0, n, d) by {}
    if n > 0 {
        lemma_same_list(list, n, own, m, n - 1);
    }
    if m > 0 {
        lemma_same_list(own, m, list, n, m - 1);
    }
    assert forall|i: int| 0 <= i < n implies own[i] == list[i] by {
        lemma_same_list(list, n, own, m, i);
    }
    assert(own =~= list);
}

/// What the list of the digits below `d` holds.
proof fn lemma_digits_below(mask: u16, d: nat)
    requires
        d <= 9,
    ensures
        ascending(digits_below(mask, d), digits_below(mask, d).len() as int),
        forall|j: int|
            0 <= j < digits_below(mask, d).len() ==> #[trigger] digits_below(mask, d)[j] < d,
        forall|e: int|
            #![trigger listed(digits_below(mask, d), 0, digits_below(mask, d).len() as int, e)]
            listed(digits_below(mask, d), 0, digits_below(mask, d).len() as int, e) <==> 0 <= e < d
                && bit16(mask, e),
    decreases d,
{
    let all = digits_below(mask, d);
    let n = all.len() as int;
    if d > 0 {
        let t = digits_below(mask, (d - 1) as nat);
        let m = t.len() as int;
        lemma_digits_below(mask, (d - 1) as nat);
        assert forall|e: int| #[trigger] listed(all, 0, n, e) <==> 0 <= e < d && bit16(mask, e) by {
            assert(listed(t, 0, m, e) <==> 0 <= e < d - 1 && bit16(mask, e));
            if listed(t, 0, m, e) {
                let k = choose|k: int| 0 <= k < m && #[trigger] t[k] == e;
                assert(all[k] == e);
            }
            if listed(all, 0, n, e) {
                let k = choose|k: int| 0 <= k < n && #[trigger] all[k] == e;
                if k < m {
                    assert(t[k] == e);
                }
            }
            if e == d - 1 && bit16(mask, e) {
                assert(all[m] == e);
            }
        }
    }
}

// ---------------------------------------------------------------------------
// Puzzles
// ---------------------------------------------------------------------------

/// The cells 0..81 in the order that a shuffle from state `x` gives them.
pub open spec fn visits(x: u64) -> Seq<u8> {
    shuffled(Seq::new(81, |i: int| i as u8), 80, x)
}

/// The clues before place `k` of `order` as the puzzle has them, the others as
/// the grid has them.
pub open spec fn halfway(sol: Seq<u8>, puzzle: Seq<u8>, order: Seq<u8>, k: int) -> Seq<u8> {
    Seq::new(
        81,
        |c: int|
            if exists|j: int| 0 <= j < k && #[trigger] order[j] == c {
                puzzle[c]
            } else {
                sol[c]
            },
    )
}

/// Every cell is visited, and none twice.
pub proof fn law_visits(x: u64)
    ensures
        visits(x).len() == 81,
        forall|k: int| 0 <= k < 81 ==> #[trigger] visits(x)[k] < 81,
        forall|j: int, k: int|
            0 <= j < k < 81 ==> #[trigger] visits(x)[j] != #[trigger] visits(x)[k],
        forall|c: int| 0 <= c < 81 ==> #[trigger] listed(visits(x), 0, 81, c),
{
    let cells = Seq::new(81, |i: int| i as u8);
    let order = visits(x);
    lemma_shuffled(cells, 80, x, 81);
    assert forall|k: int| 0 <= k < 81 implies #[trigger] order[k] < 81 by {
        assert(listed(order, 0, 81, order[k] as int));
        assert(listed(cells, 0, 81, order[k] as int));
    }
    assert forall|c: int| 0 <= c < 81 implies #[trigger] listed(order, 0, 81, c) by {
        assert(cells[c] == c);
        assert(listed(cells, 0, 81, c));
    }
    let f = |k: int| order[k] as int;
    assert forall|y: int| 0 <= y < 81 implies #[trigger] reaches(f, 81, y) by {
        assert(listed(order, 0, 81, y));
        let k = choose|k: int| 0 <= k < 81 && #[trigger] order[k] == y;
        assert(f(k) == y);
    }
    assert forall|j: int, k: int| 0 <= j < k < 81 implies #[trigger] order[j]
        != #[trigger] order[k] by {
        if order[j] == order[k] {
            assert(f(j) == f(k));
            lemma_onto_is_injective(f, 81, j, k);
        }
    }
}

/// While cells are visited in an order without repetition, those to come are as
/// they were and those done stay as they are.
proof fn lemma_stripped(sol: Seq<u8>, order: Seq<u8>, k: int, m: int)
    requires
        sol.len() == 81,
        order.len() == 81,
        forall|j: int| 0 <= j < 81 ==> #[trigger] order[j] < 81,
        forall|i: int, j: int| 0 <= i < j < 81 ==> #[trigger] order[i] != #[trigger] order[j],
        0 <= k <= m <= 81,
    ensures
        stripped(sol, order, m).len() == 81,
        forall|j: int|
            m <= j < 81 ==> stripped(sol, order, m)[#[trigger] order[j] as int]
                == sol[order[j] as int],
        forall|j: int|
            0 <= j < k ==> stripped(sol, order, m)[#[trigger] order[j] as int] == stripped(
                sol,
                order,
                k,
            )[order[j] as int],
    decreases m,
{
    if m > 0 {
        if k < m {
            lemma_stripped(sol, order, k, m - 1);
        } else {
            lemma_stripped(sol, order, m - 1, m - 1);
        }
        let c = order[m - 1] as int;
        assert forall|j: int| m <= j < 81 implies stripped(sol, order, m)[#[trigger] order[j] as int]
            == sol[order[j] as int] by {
            assert(order[m - 1] != order[j]);
        }
        assert forall|j: int| 0 <= j < k implies stripped(sol, order, m)[#[trigger] order[j] as int]
            == stripped(sol, order, k)[order[j] as int] by {
            if k < m {
                assert(order[j] != order[m - 1]);
            }
        }
    }
}

/// A complete grid that lacks one digit has one solution.
proof fn lemma_one_blank(g: Seq<u8>, c: int)
    requires
        is_grid(g),
        0 <= c < 81,
    ensures
        solution_count(g.update(c, 0)) == 1,
{
    let k = g.update(c, 0);
    lemma_grid_facts(g);
    assert(is_solution(g, k));
    assert(solutions(k).contains(g));
    assert forall|h: Seq<u8>| #[trigger] solutions(k).contains(h) implies h == g by {
        lemma_grid_facts(h);
        assert forall|x: int| 0 <= x < 81 && x != c implies h[x] == g[x] by {
            assert(k[x] != 0);
        }
        // The digit stands somewhere in the row, and nowhere but at `c`.
        let r = c / 9;
        let i = lemma_unit_has(h, r, g[c] as int);
        let x = unit_cell(r, i);
        if x != c {
            lemma_cell_coords(r, i);
            assert(peers(x, c));
            assert(g[x] != g[c]);
        }
        assert(h =~= g);
    }
    lemma_only(solutions(k), g);
}

/// The cells are visited in the order of a shuffle from the state that the
/// grid leaves: the one at place `k` keeps its clue exactly if, with the clues
/// kept so far and all those still to visit, blanking it leaves several
/// solutions. So the one at place 0 is always blank.
pub proof fn law_thinning(puzzle: Seq<u8>, sol: Seq<u8>, x: u64, k: int)
    requires
        comes_of(puzzle, sol, x),
        0 <= k < 81,
    ensures
        ({
            let order = shuffled(Seq::new(81, |i: int| i as u8), 80, x);
            let c = order[k] as int;
            let n = solution_count(halfway(sol, puzzle, order, k).update(c, 0));
            &&& 0 <= c < 81
            &&& n >= 1
            &&& n == 1 ==> puzzle[c] == 0
            &&& n >= 2 ==> puzzle[c] == sol[c] && puzzle[c] != 0
            &&& k == 0 ==> puzzle[c] == 0
        }),
{
    let order = visits(x);
    let c = order[k] as int;
    law_visits(x);
    lemma_grid_facts(sol);
    assert(Seq::new(81, |i: int| i as u8) =~= all_cells());
    lemma_stripped(sol, order, k, 81);
    lemma_stripped(sol, order, k + 1, 81);
    lemma_stripped(sol, order, k, k);
    let now = stripped(sol, order, k);
    assert(halfway(sol, puzzle, order, k) =~= now) by {
        assert forall|e: int| 0 <= e < 81 implies halfway(sol, puzzle, order, k)[e] == now[e] by {
            assert(listed(order, 0, 81, e));
            let j = choose|j: int| 0 <= j < 81 && #[trigger] order[j] == e;
            if j < k {
                assert(puzzle[order[j] as int] == now[order[j] as int]);
            } else {
                assert(now[order[j] as int] == sol[order[j] as int]);
                assert forall|i: int| 0 <= i < k implies #[trigger] order[i] != e by {
                    assert(order[i] != order[j]);
                }
            }
        }
    }
    assert(now[c] == sol[c]);
    assert(puzzle[c] == stripped(sol, order, k + 1)[c]);
    lemma_grid_alone(sol);
    assert(has_clues_of(sol, now.update(c, 0))) by {
        lemma_stripped_part(sol, order, k);
    }
    lemma_fewer_clues(sol, now.update(c, 0));
    if k == 0 {
        lemma_one_blank(sol, c);
    }
}

/// Stripping takes clues away and changes none.
proof fn lemma_stripped_part(sol: Seq<u8>, order: Seq<u8>, k: int)
    requires
        sol.len() == 81,
        forall|j: int| 0 <= j < 81 ==> #[trigger] order[j] < 81,
        k <= 81,
    ensures
        stripped(sol, order, k).len() == 81,
        has_clues_of(sol, stripped(sol, order, k)),
    decreases k,
{
    if k > 0 {
        lemma_stripped_part(sol, order, k - 1);
    }
}

} // verus!
