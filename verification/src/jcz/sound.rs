//! The propagation loses no grid: the boards of a grid are stable themselves,
//! so they lie within whatever is left of boards that admit the grid.

use vstd::prelude::*;
use crate::bits::{bit32, group_bits32};
use crate::boards::{
    admits, boards_ok, cand, cands, encodes, lemma_bit_occupied, lemma_homes, lemma_leaf,
    lemma_within_admits, sub32, within,
};
use crate::grid::{
    home_col, is_grid, lemma_band_boxes, lemma_cell_coords, lemma_grid_facts, peers, settled,
    settled_as,
};
use crate::jcz::closure::{
    closed_self, column_clear, has_candidate, is_closure, lone_col, lone_digit, pinned, stable,
    undecided,
};
use crate::jcz::course::decided;
use crate::jcz::tables::near;
use crate::minirow::{fits_cells, in_perm, lemma_perm_exists, supported, BAND_ALL};

verus! {

broadcast use group_bits32;

/// The word with the bits below `n` for which `f` holds.
pub open spec fn word(f: spec_fn(int) -> bool, n: nat) -> u32
    decreases n,
{
    if n == 0 {
        0
    } else {
        let w = word(f, (n - 1) as nat);
        if f(n - 1) {
            w | (1u32 << ((n - 1) as u32))
        } else {
            w
        }
    }
}

/// What the word holds.
pub proof fn lemma_word(f: spec_fn(int) -> bool, n: nat)
    requires
        n <= 32,
    ensures
        forall|p: int| #[trigger] bit32(word(f, n), p) <==> 0 <= p < n && f(p),
    decreases n,
{
    if n > 0 {
        lemma_word(f, (n - 1) as nat);
        let w = word(f, (n - 1) as nat);
        let k = (n - 1) as u32;
        assert forall|p: int| #[trigger] bit32(word(f, n), p) <==> 0 <= p < n && f(p) by {
            assert(bit32(w | (1u32 << k), p) <==> bit32(w, p) || bit32(1u32 << k, p));
            assert(bit32(1u32 << k, p) <==> p == k);
        }
    }
}

/// The boards of a grid: every digit where it stands.
pub open spec fn boards_of(g: Seq<u8>) -> Seq<u32> {
    Seq::new(27, |i: int| word(|p: int| g[27 * (i / 9) + p] == i % 9 + 1, 27))
}

/// What the boards of a grid hold.
pub proof fn lemma_boards_of(g: Seq<u8>)
    requires
        is_grid(g),
    ensures
        boards_ok(boards_of(g)),
        encodes(boards_of(g), g),
        forall|b: int, d: int, p: int|
            0 <= b < 3 && 0 <= d < 9 ==> (#[trigger] bit32(boards_of(g)[9 * b + d], p) <==> 0 <= p
                < 27 && g[27 * b + p] == d + 1),
        admits(boards_of(g), g),
{
    let bs = boards_of(g);
    lemma_grid_facts(g);
    assert forall|b: int, d: int, p: int| 0 <= b < 3 && 0 <= d < 9 implies (#[trigger] bit32(
        bs[9 * b + d],
        p,
    ) <==> 0 <= p < 27 && g[27 * b + p] == d + 1) by {
        let i = 9 * b + d;
        assert(i / 9 == b && i % 9 == d);
        lemma_word(|p: int| g[27 * (i / 9) + p] == i % 9 + 1, 27);
    }
    assert forall|i: int| 0 <= i < 27 implies #[trigger] bs[i] <= BAND_ALL by {
        lemma_word(|p: int| g[27 * (i / 9) + p] == i % 9 + 1, 27);
        crate::bits::lemma_low_masks32();
        crate::bits::lemma_subset32(bs[i], BAND_ALL);
    }
    assert forall|c: int, d: int| 0 <= c < 81 && 0 <= d < 9 implies (#[trigger] cand(bs, c, d)
        <==> g[c] == d + 1) by {
        assert(27 * (c / 27) + c % 27 == c);
    }
    reveal(admits);
    assert forall|c: int| 0 <= c < 81 implies cand(bs, c, #[trigger] g[c] - 1) by {
        assert(1 <= g[c] <= 9);
    }
}

/// Two cells of a band that hold the same digit are not near each other.
proof fn lemma_apart(g: Seq<u8>, b: int, p: int, q: int)
    requires
        is_grid(g),
        0 <= b < 3,
        0 <= p < 27,
        0 <= q < 27,
        g[27 * b + p] == g[27 * b + q],
        near(p, q),
    ensures
        p == q,
{
    lemma_grid_facts(g);
    if p != q {
        let (x, y) = (27 * b + p, 27 * b + q);
        lemma_cell_coords(3 * b + p / 9, p % 9);
        lemma_cell_coords(3 * b + q / 9, q % 9);
        assert(9 * (3 * b + p / 9) + p % 9 == x && 9 * (3 * b + q / 9) + q % 9 == y);
        assert((3 * b + p / 9) / 3 == b && (3 * b + q / 9) / 3 == b);
        assert(peers(x, y));
    }
}

/// The boards of a grid lie within permutations.
proof fn lemma_grid_supported(g: Seq<u8>, b: int, d: int)
    requires
        is_grid(g),
        0 <= b < 3,
        0 <= d < 9,
    ensures
        supported(boards_of(g)[9 * b + d]),
        closed_self(boards_of(g)[9 * b + d]),
{
    let bs = boards_of(g);
    lemma_boards_of(g);
    lemma_homes(bs, g, b, d);
    lemma_band_boxes(g, b, d);
    let x0 = home_col(g, 3 * b + 0, d);
    let x1 = home_col(g, 3 * b + 1, d);
    let x2 = home_col(g, 3 * b + 2, d);
    let m = bs[9 * b + d];
    lemma_bit_occupied(m, x0);
    lemma_bit_occupied(m, 9 + x1);
    lemma_bit_occupied(m, 18 + x2);
    assert((9 + x1) / 3 == 3 + x1 / 3 && (18 + x2) / 3 == 6 + x2 / 3);
    let k = lemma_perm_exists(x0 / 3, x1 / 3, x2 / 3);
    assert(fits_cells(m, k));
    assert forall|p: int| #[trigger] bit32(m, p) implies exists|k: int| #[trigger]
        fits_cells(m, k) && in_perm(k, p / 3) by {
        assert(g[27 * b + p] == d + 1);
        assert(p == 9 * (p / 9) + home_col(g, 3 * b + p / 9, d));
        assert(p / 9 == 0 || p / 9 == 1 || p / 9 == 2);
        assert(in_perm(k, p / 3));
    }
}

/// The boards of a grid claim no column twice.
proof fn lemma_grid_columns(g: Seq<u8>, b: int, d: int, b2: int)
    requires
        is_grid(g),
        0 <= b < 3,
        0 <= d < 9,
        0 <= b2 < 3,
        b2 != b,
    ensures
        column_clear(boards_of(g), b, d, b2),
{
    let bs = boards_of(g);
    lemma_grid_facts(g);
    lemma_boards_of(g);
    assert forall|q: int| 0 <= q < 27 && lone_col(bs[9 * b + d], q % 9) implies !#[trigger] bit32(
        bs[9 * b2 + d],
        q,
    ) by {
        let x = q % 9;
        let r = choose|r: int| 0 <= r < 3 && #[trigger] bit32(bs[9 * b + d], 9 * r + x);
        assert(g[27 * b + (9 * r + x)] == d + 1);
        if bit32(bs[9 * b2 + d], q) {
            assert(g[27 * b2 + q] == d + 1);
            lemma_cell_coords(3 * b + r, x);
            lemma_cell_coords(3 * b2 + q / 9, x);
            assert(9 * (3 * b + r) + x == 27 * b + (9 * r + x));
            assert(9 * (3 * b2 + q / 9) + x == 27 * b2 + q);
            assert(peers(27 * b + (9 * r + x), 27 * b2 + q));
        }
    }
}

/// In the boards of a grid every digit is pinned and alone.
proof fn lemma_grid_pins(g: Seq<u8>, b: int, d: int, p: int)
    requires
        is_grid(g),
        0 <= b < 3,
        0 <= d < 9,
        0 <= p < 27,
        bit32(boards_of(g)[9 * b + d], p),
    ensures
        pinned(boards_of(g)[9 * b + d], p),
        lone_digit(boards_of(g), b, d, p),
{
    let bs = boards_of(g);
    lemma_boards_of(g);
    assert(g[27 * b + p] == d + 1);
    assert forall|q: int| 0 <= q < 27 && near(q, p) && #[trigger] bit32(bs[9 * b + d], q) implies q
        == p by {
        assert(g[27 * b + q] == d + 1);
        lemma_apart(g, b, q, p);
    }
    assert forall|e: int| 0 <= e < 9 && e != d implies !bit32(#[trigger] bs[9 * b + e], p) by {
        if bit32(bs[9 * b + e], p) {
            assert(g[27 * b + p] == e + 1);
        }
    }
}

/// The boards of a grid are stable.
pub proof fn lemma_grid_stable(g: Seq<u8>)
    requires
        is_grid(g),
    ensures
        stable(boards_of(g)),
{
    let bs = boards_of(g);
    lemma_grid_facts(g);
    lemma_boards_of(g);
    assert forall|i: int| 0 <= i < 27 implies supported(#[trigger] bs[i]) && closed_self(bs[i]) by {
        assert(9 * (i / 9) + i % 9 == i);
        lemma_grid_supported(g, i / 9, i % 9);
    }
    assert forall|b: int, d: int, b2: int|
        0 <= b < 3 && 0 <= d < 9 && 0 <= b2 < 3 && b2 != b implies #[trigger] column_clear(
        bs,
        b,
        d,
        b2,
    ) by {
        lemma_grid_columns(g, b, d, b2);
    }
    assert forall|b: int, d: int, p: int|
        0 <= b < 3 && 0 <= d < 9 && 0 <= p < 27 && bit32(bs[9 * b + d], p) implies (pinned(
        bs[9 * b + d],
        p,
    ) <==> #[trigger] lone_digit(bs, b, d, p)) by {
        lemma_grid_pins(g, b, d, p);
    }
    assert forall|b: int, p: int| 0 <= b < 3 && 0 <= p < 27 implies #[trigger] has_candidate(
        bs,
        b,
        p,
    ) by {
        let d = g[27 * b + p] - 1;
        assert(1 <= g[27 * b + p] <= 9);
        assert(bit32(bs[9 * b + d], p));
    }
    reveal(stable);
}

/// The boards of a grid lie within boards that admit it.
pub proof fn lemma_grid_within(bs: Seq<u32>, g: Seq<u8>)
    requires
        bs.len() == 27,
        is_grid(g),
        admits(bs, g),
    ensures
        within(boards_of(g), bs),
{
    let own = boards_of(g);
    lemma_boards_of(g);
    reveal(admits);
    assert forall|i: int| 0 <= i < 27 implies sub32(#[trigger] own[i], bs[i]) by {
        let (b, d) = (i / 9, i % 9);
        assert(9 * b + d == i);
        assert forall|p: int| #[trigger] bit32(own[i], p) implies bit32(bs[i], p) by {
            let c = 27 * b + p;
            assert(g[c] == d + 1);
            assert(c / 27 == b && c % 27 == p);
            assert(cand(bs, c, g[c] - 1));
        }
    }
}

/// The propagation keeps every grid that the boards admit.
pub proof fn lemma_closure_keeps(v: Seq<u32>, bs: Seq<u32>, g: Seq<u8>)
    requires
        is_closure(v, bs),
        is_grid(g),
    ensures
        admits(bs, g) <==> admits(v, g),
{
    let own = boards_of(g);
    lemma_grid_stable(g);
    lemma_boards_of(g);
    assert(v.len() == 27 && bs.len() == 27) by {
        reveal(stable);
    }
    if admits(bs, g) {
        lemma_grid_within(bs, g);
        assert(within(own, v));
        lemma_within_admits(own, v, g);
    }
    if admits(v, g) {
        lemma_within_admits(v, bs, g);
    }
}

/// Stable boards that leave no choice spell out a grid, the only one that they
/// admit.
pub proof fn lemma_decided_grid(v: Seq<u32>) -> (g: Seq<u8>)
    requires
        stable(v),
        decided(v),
    ensures
        is_grid(g),
        encodes(v, g),
        admits(v, g),
        forall|h: Seq<u8>| is_grid(h) && #[trigger] admits(v, h) ==> h == g,
{
    assert(v.len() == 27 && forall|i: int| 0 <= i < 27 ==> supported(#[trigger] v[i])) by {
        reveal(stable);
    }
    assert forall|c: int| 0 <= c < 81 implies #[trigger] settled(cands(v), c) by {
        lemma_decided_cell(v, c);
    }
    let g = lemma_leaf(v);
    assert forall|h: Seq<u8>| is_grid(h) && #[trigger] admits(v, h) implies h == g by {
        lemma_grid_facts(g);
        lemma_grid_facts(h);
        reveal(admits);
        assert forall|c: int| 0 <= c < 81 implies h[c] == g[c] by {
            assert(cand(v, c, h[c] - 1));
        }
        assert(h =~= g);
    }
    g
}

/// In stable boards a cell without a choice has its digit to itself.
proof fn lemma_decided_cell(v: Seq<u32>, c: int)
    requires
        stable(v),
        decided(v),
        0 <= c < 81,
    ensures
        settled(cands(v), c),
{
    let (b, p) = (c / 27, c % 27);
    let d = lemma_lone(v, b, p);
    let allow = cands(v);
    assert forall|e: int| 0 <= e < 9 && e != d implies !#[trigger] allow(c, e) by {
        assert(!bit32(v[9 * b + e], p));
    }
    assert forall|x: int| 0 <= x < 81 && peers(c, x) implies !#[trigger] allow(x, d) by {
        lemma_decided_peer(v, c, d, x);
    }
    assert(settled_as(allow, c, d));
}

/// Peers of one band are near each other, others share a column.
pub proof fn lemma_peer_places(c: int, x: int)
    requires
        0 <= c < 81,
        0 <= x < 81,
        peers(c, x),
    ensures
        c / 27 == x / 27 ==> near(x % 27, c % 27) && x % 27 != c % 27,
        c / 27 != x / 27 ==> (c % 27) % 9 == (x % 27) % 9,
{
    assert((c % 27) % 9 == c % 9 && (x % 27) % 9 == x % 9);
    assert(c / 9 == 3 * (c / 27) + (c % 27) / 9 && x / 9 == 3 * (x / 27) + (x % 27) / 9);
}

/// What stable boards say of a digit that is alone in its cell.
proof fn lemma_stable_lone(v: Seq<u32>, b: int, d: int, p: int, b2: int)
    requires
        stable(v),
        0 <= b < 3,
        0 <= d < 9,
        0 <= p < 27,
        0 <= b2 < 3,
        bit32(v[9 * b + d], p),
        lone_digit(v, b, d, p),
    ensures
        pinned(v[9 * b + d], p),
        b2 != b ==> column_clear(v, b, d, b2),
{
    reveal(stable);
}

/// A pinned cell is alone in its column of the box.
proof fn lemma_pinned_col(m: u32, p: int)
    requires
        pinned(m, p),
    ensures
        lone_col(m, p % 9),
{
    assert(9 * (p / 9) + p % 9 == p);
    assert(bit32(m, 9 * (p / 9) + p % 9));
    assert forall|z: int|
        0 <= z < 27 && (z % 9) / 3 == (p % 9) / 3 && #[trigger] bit32(m, z) implies z % 9 == p % 9 by {
        assert(near(z, p));
    }
}

/// A peer of a cell without a choice lacks its digit.
pub proof fn lemma_decided_peer(v: Seq<u32>, c: int, d: int, x: int)
    requires
        stable(v),
        0 <= c < 81,
        0 <= x < 81,
        0 <= d < 9,
        peers(c, x),
        bit32(v[9 * (c / 27) + d], c % 27),
        lone_digit(v, c / 27, d, c % 27),
    ensures
        !bit32(v[9 * (x / 27) + d], x % 27),
{
    let (b, p) = (c / 27, c % 27);
    let (b2, q) = (x / 27, x % 27);
    lemma_peer_places(c, x);
    lemma_stable_lone(v, b, d, p, b2);
    lemma_pinned_col(v[9 * b + d], p);
}

/// The digit of a cell without a choice.
proof fn lemma_lone(v: Seq<u32>, b: int, p: int) -> (d: int)
    requires
        stable(v),
        decided(v),
        0 <= b < 3,
        0 <= p < 27,
    ensures
        0 <= d < 9,
        bit32(v[9 * b + d], p),
        lone_digit(v, b, d, p),
{
    assert(has_candidate(v, b, p)) by {
        reveal(stable);
    }
    let d = choose|d: int| 0 <= d < 9 && bit32(#[trigger] v[9 * b + d], p);
    assert(!undecided(v, b, p));
    assert forall|e: int| 0 <= e < 9 && e != d implies !bit32(#[trigger] v[9 * b + e], p) by {
        if bit32(v[9 * b + e], p) {
            if e < d {
                assert(bit32(v[9 * b + e], p) && bit32(v[9 * b + d], p));
            } else {
                assert(bit32(v[9 * b + d], p) && bit32(v[9 * b + e], p));
            }
        }
    }
    d
}

} // verus!
