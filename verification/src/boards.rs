//! Candidate boards: for each band and digit the set of cells of the band
//! where the digit can still go.
//!
//! A board sequence has 27 words, word `9 * band + digit` (digits counted
//! from 0); bit `p` of a word stands for cell `27 * band + p`.

use vstd::prelude::*;
use crate::bits::{
    bit32, count, group_bits32, lemma_count_lone, lemma_low_masks32, lemma_small32, lemma_subset32,
    lemma_total32, total32,
};
use crate::grid::{
    home_col, is_grid, lemma_band_boxes, lemma_grid_facts, lemma_home_col, lemma_none, lemma_only,
    lemma_settled_grid, peers, row_allows, settled, settled_as,
};
use crate::minirow::{
    closed_at, is_pattern, lemma_placement, lemma_supported_lines, occupied, supported, BAND_ALL,
};

verus! {

broadcast use group_bits32;

/// Cell `c` can still hold digit `d` (counted from 0).
pub open spec fn cand(bs: Seq<u32>, c: int, d: int) -> bool {
    bit32(bs[9 * (c / 27) + d], c % 27)
}

/// The candidate relation of `bs` as a function.
pub open spec fn cands(bs: Seq<u32>) -> spec_fn(int, int) -> bool {
    |c: int, d: int| cand(bs, c, d)
}

/// 27 words of 27-bit cell sets.
pub open spec fn boards_ok(bs: Seq<u32>) -> bool {
    bs.len() == 27 && forall|i: int| 0 <= i < 27 ==> #[trigger] bs[i] <= BAND_ALL
}

/// Every cell of `g` holds one of the cell's candidates.
#[verifier::opaque]
pub open spec fn admits(bs: Seq<u32>, g: Seq<u8>) -> bool {
    forall|c: int| 0 <= c < 81 ==> cand(bs, c, #[trigger] g[c] - 1)
}

/// The complete grids that `bs` admits.
pub open spec fn board_solutions(bs: Seq<u32>) -> Set<Seq<u8>> {
    Set::new(|g: Seq<u8>| is_grid(g) && admits(bs, g))
}

/// Word `x` has no bit that `y` lacks.
pub open spec fn sub32(x: u32, y: u32) -> bool {
    forall|p: int| #[trigger] bit32(x, p) ==> bit32(y, p)
}

/// `a` has no candidate that `b` lacks.
pub open spec fn within(a: Seq<u32>, b: Seq<u32>) -> bool {
    &&& a.len() == b.len()
    &&& forall|i: int| 0 <= i < a.len() ==> sub32(#[trigger] a[i], b[i])
}

/// Every complete grid that `a` admits is admitted by `b`.
pub open spec fn keeps(a: Seq<u32>, b: Seq<u32>) -> bool {
    forall|g: Seq<u8>| is_grid(g) && #[trigger] admits(a, g) ==> admits(b, g)
}

/// No complete grid is admitted.
pub open spec fn dead(bs: Seq<u32>) -> bool {
    forall|g: Seq<u8>| is_grid(g) ==> !#[trigger] admits(bs, g)
}

/// `bs` admits `g` and nothing else at any cell: the boards spell out `g`.
pub open spec fn encodes(bs: Seq<u32>, g: Seq<u8>) -> bool {
    forall|c: int, d: int|
        0 <= c < 81 && 0 <= d < 9 ==> (#[trigger] cand(bs, c, d) <==> g[c] == d + 1)
}

pub proof fn lemma_within_trans(a: Seq<u32>, b: Seq<u32>, c: Seq<u32>)
    requires
        within(a, b),
        within(b, c),
    ensures
        within(a, c),
{
    assert forall|i: int| 0 <= i < a.len() implies sub32(#[trigger] a[i], c[i]) by {
        assert(sub32(a[i], b[i]));
        assert(sub32(b[i], c[i]));
    }
}

/// Fewer candidates admit fewer grids.
pub proof fn lemma_within_admits(a: Seq<u32>, b: Seq<u32>, g: Seq<u8>)
    requires
        is_grid(g),
        a.len() == 27,
        within(a, b),
        admits(a, g),
    ensures
        admits(b, g),
{
    reveal(admits);
    lemma_grid_facts(g);
    assert forall|c: int| 0 <= c < 81 implies cand(b, c, #[trigger] g[c] - 1) by {
        let i = 9 * (c / 27) + (g[c] - 1);
        assert(cand(a, c, g[c] - 1));
        assert(sub32(a[i], b[i]));
    }
}

/// Dropping candidates no admitted grid uses leaves the solutions as they are.
pub proof fn lemma_same_solutions(a: Seq<u32>, b: Seq<u32>)
    requires
        b.len() == 27,
        within(b, a),
        keeps(a, b),
    ensures
        board_solutions(a) == board_solutions(b),
{
    assert forall|g: Seq<u8>| board_solutions(b).contains(g) implies board_solutions(a).contains(g) by {
        lemma_within_admits(b, a, g);
    }
    assert(board_solutions(a) =~= board_solutions(b));
}

pub proof fn lemma_dead(a: Seq<u32>)
    requires
        dead(a),
    ensures
        board_solutions(a).len() == 0,
{
    lemma_none(board_solutions(a));
}

/// Fewer candidates, smaller sum; strictly smaller if any word changed.
pub proof fn lemma_within_total(a: Seq<u32>, b: Seq<u32>)
    requires
        within(a, b),
    ensures
        total32(a) <= total32(b),
        (exists|i: int| 0 <= i < a.len() && #[trigger] a[i] != b[i]) ==> total32(a) < total32(b),
{
    assert forall|i: int| 0 <= i < a.len() implies #[trigger] a[i] <= b[i] by {
        assert(sub32(a[i], b[i]));
        lemma_subset32(a[i], b[i]);
    }
    lemma_total32(a, b);
}

/// A settled cell stays settled when candidates go.
pub proof fn lemma_settled_mono(a: Seq<u32>, b: Seq<u32>, c: int)
    requires
        a.len() == 27,
        within(a, b),
        0 <= c < 81,
        settled(cands(b), c),
    ensures
        settled(cands(a), c),
{
    let d = choose|d: int| #[trigger] settled_as(cands(b), c, d);
    assert forall|x: int, e: int| 0 <= x < 81 && 0 <= e < 9 && #[trigger] cands(a)(x, e) implies cands(
        b,
    )(x, e) by {
        let i = 9 * (x / 27) + e;
        assert(sub32(a[i], b[i]));
    }
    assert forall|e: int| 0 <= e < 9 && e != d implies !#[trigger] cands(a)(c, e) by {
        assert(!cands(b)(c, e));
    }
    assert forall|p: int| 0 <= p < 81 && peers(c, p) implies !#[trigger] cands(a)(p, d) by {
        assert(!cands(b)(p, d));
    }
    assert(settled_as(cands(a), c, d));
}

/// The cells that a grid gives to digit `d` in band `b`: in line `r` the
/// cell at `home_col`, and these alone.
pub proof fn lemma_homes(bs: Seq<u32>, g: Seq<u8>, b: int, d: int)
    requires
        is_grid(g),
        admits(bs, g),
        0 <= b < 3,
        0 <= d < 9,
    ensures
        forall|r: int|
            0 <= r < 3 ==> 0 <= #[trigger] home_col(g, 3 * b + r, d) < 9 && bit32(
                bs[9 * b + d],
                9 * r + home_col(g, 3 * b + r, d),
            ) && g[27 * b + 9 * r + home_col(g, 3 * b + r, d)] == d + 1,
        forall|p: int|
            0 <= p < 27 && #[trigger] g[27 * b + p] == d + 1 ==> p == 9 * (p / 9) + home_col(
                g,
                3 * b + p / 9,
                d,
            ),
{
    lemma_grid_facts(g);
    assert forall|r: int| 0 <= r < 3 implies 0 <= #[trigger] home_col(g, 3 * b + r, d) < 9 && bit32(
        bs[9 * b + d],
        9 * r + home_col(g, 3 * b + r, d),
    ) && g[27 * b + 9 * r + home_col(g, 3 * b + r, d)] == d + 1 by {
        reveal(admits);
        lemma_home_col(g, 3 * b + r, d);
        let c = 9 * (3 * b + r) + home_col(g, 3 * b + r, d);
        assert(cand(bs, c, g[c] - 1));
        assert(c / 27 == b && c % 27 == 9 * r + home_col(g, 3 * b + r, d));
    }
    assert forall|p: int| 0 <= p < 27 && #[trigger] g[27 * b + p] == d + 1 implies p == 9 * (p / 9)
        + home_col(g, 3 * b + p / 9, d) by {
        let r = p / 9;
        lemma_home_col(g, 3 * b + r, d);
        assert(g[9 * (3 * b + r) + p % 9] == d + 1);
    }
}

/// The grid's own cells for a digit survive the closure of the digit's
/// pattern in the band.
pub proof fn lemma_closure_sound(bs: Seq<u32>, g: Seq<u8>, b: int, d: int, s: u16, p: int)
    requires
        is_grid(g),
        admits(bs, g),
        0 <= b < 3,
        0 <= d < 9,
        is_pattern(s, bs[9 * b + d]),
        0 <= p < 27,
        g[27 * b + p] == d + 1,
    ensures
        closed_at(s, p / 3),
{
    lemma_homes(bs, g, b, d);
    lemma_band_boxes(g, b, d);
    let m = bs[9 * b + d];
    let x0 = home_col(g, 3 * b + 0, d);
    let x1 = home_col(g, 3 * b + 1, d);
    let x2 = home_col(g, 3 * b + 2, d);
    lemma_bit_occupied(m, x0);
    lemma_bit_occupied(m, 9 + x1);
    lemma_bit_occupied(m, 18 + x2);
    assert((9 + x1) / 3 == 3 + x1 / 3 && (18 + x2) / 3 == 6 + x2 / 3);
    let k = lemma_placement(s, x0, x1, x2);
    let r = p / 9;
    if r == 0 {
    } else if r == 1 {
    } else {
        assert(r == 2);
    }
}

/// A pattern has the minirow of each of its cells.
pub proof fn lemma_bit_occupied(m: u32, p: int)
    requires
        bit32(m, p),
        0 <= p < 27,
    ensures
        occupied(m, p / 3),
{
    assert(p == 3 * (p / 3) || p == 3 * (p / 3) + 1 || p == 3 * (p / 3) + 2);
}

/// No admitted grid exists if the digit's pattern holds no permutation.
pub proof fn lemma_unsupported_dead(bs: Seq<u32>, b: int, d: int)
    requires
        0 <= b < 3,
        0 <= d < 9,
        !supported(bs[9 * b + d]),
    ensures
        dead(bs),
{
    assert forall|g: Seq<u8>| is_grid(g) implies !#[trigger] admits(bs, g) by {
        if admits(bs, g) {
            lemma_homes(bs, g, b, d);
            lemma_band_boxes(g, b, d);
            let m = bs[9 * b + d];
            let x0 = home_col(g, 3 * b + 0, d);
            let x1 = home_col(g, 3 * b + 1, d);
            let x2 = home_col(g, 3 * b + 2, d);
            lemma_bit_occupied(m, x0);
            lemma_bit_occupied(m, 9 + x1);
            lemma_bit_occupied(m, 18 + x2);
            assert((9 + x1) / 3 == 3 + x1 / 3 && (18 + x2) / 3 == 6 + x2 / 3);
            let k = crate::minirow::lemma_perm_exists(x0 / 3, x1 / 3, x2 / 3);
            assert(crate::minirow::fits_cells(m, k));
        }
    }
}

/// `b` is `a` with digit `d` placed at cell `c`: the cell loses its other
/// digits and its peers lose `d`.
pub open spec fn placed(a: Seq<u32>, b: Seq<u32>, c: int, d: int) -> bool {
    forall|x: int, e: int|
        0 <= x < 81 && 0 <= e < 9 ==> (#[trigger] cand(b, x, e) <==> cand(a, x, e) && (x == c ==> e
            == d) && !(e == d && peers(c, x)))
}

/// Placing a digit keeps exactly the grids that hold it there.
pub proof fn lemma_placed(a: Seq<u32>, b: Seq<u32>, c: int, d: int, g: Seq<u8>)
    requires
        is_grid(g),
        placed(a, b, c, d),
        0 <= c < 81,
        0 <= d < 9,
    ensures
        admits(b, g) <==> admits(a, g) && g[c] == d + 1,
{
    reveal(admits);
    lemma_grid_facts(g);
    if admits(b, g) {
        assert forall|x: int| 0 <= x < 81 implies cand(a, x, #[trigger] g[x] - 1) by {
            assert(cand(b, x, g[x] - 1));
        }
        assert(cand(b, c, g[c] - 1));
    }
    if admits(a, g) && g[c] == d + 1 {
        assert forall|x: int| 0 <= x < 81 implies cand(b, x, #[trigger] g[x] - 1) by {
            assert(cand(a, x, g[x] - 1));
            if peers(c, x) {
                assert(g[c] != g[x]);
            }
        }
    }
}

/// A placed cell is settled.
pub proof fn lemma_placed_settled(a: Seq<u32>, b: Seq<u32>, c: int, d: int)
    requires
        placed(a, b, c, d),
        0 <= c < 81,
        0 <= d < 9,
    ensures
        settled(cands(b), c),
{
    assert forall|e: int| 0 <= e < 9 && e != d implies !#[trigger] cands(b)(c, e) by {
        assert(!cand(b, c, e));
    }
    assert forall|p: int| 0 <= p < 81 && peers(c, p) implies !#[trigger] cands(b)(p, d) by {
        assert(!cand(b, p, d));
    }
    assert(settled_as(cands(b), c, d));
}

/// At a settled cell a grid holds the one candidate.
pub proof fn lemma_settled_digit(bs: Seq<u32>, g: Seq<u8>, c: int, d: int)
    requires
        is_grid(g),
        admits(bs, g),
        0 <= c < 81,
        0 <= d < 9,
        settled(cands(bs), c),
        cand(bs, c, d),
    ensures
        g[c] == d + 1,
{
    reveal(admits);
    lemma_grid_facts(g);
    let e = choose|e: int| #[trigger] settled_as(cands(bs), c, e);
    assert(cands(bs)(c, d));
    assert(cand(bs, c, g[c] - 1));
    assert(cands(bs)(c, g[c] - 1));
}

/// Fewer candidates at every cell is fewer bits in every word.
pub proof fn lemma_within_cands(a: Seq<u32>, b: Seq<u32>)
    requires
        boards_ok(a),
        b.len() == 27,
        forall|c: int, d: int|
            0 <= c < 81 && 0 <= d < 9 && #[trigger] cand(a, c, d) ==> cand(b, c, d),
    ensures
        within(a, b),
{
    assert forall|i: int| 0 <= i < 27 implies sub32(#[trigger] a[i], b[i]) by {
        assert forall|p: int| #[trigger] bit32(a[i], p) implies bit32(b[i], p) by {
            lemma_small32(a[i], p);
            let c = 27 * (i / 9) + p;
            assert(c / 27 == i / 9 && c % 27 == p);
            assert(cand(a, c, i % 9));
        }
    }
}

/// Boards in which every cell is settled and every digit is supported in
/// every band spell out exactly one grid.
pub proof fn lemma_leaf(bs: Seq<u32>) -> (g: Seq<u8>)
    requires
        bs.len() == 27,
        forall|c: int| 0 <= c < 81 ==> #[trigger] settled(cands(bs), c),
        forall|i: int| 0 <= i < 27 ==> supported(#[trigger] bs[i]),
    ensures
        is_grid(g),
        admits(bs, g),
        encodes(bs, g),
        board_solutions(bs).contains(g),
        board_solutions(bs).len() == 1,
{
    assert forall|r: int, d: int| 0 <= r < 9 && 0 <= d < 9 implies #[trigger] row_allows(
        cands(bs),
        r,
        d,
    ) by {
        let b = r / 3;
        let q = r % 3;
        assert(supported(bs[9 * b + d]));
        let x = lemma_supported_lines(bs[9 * b + d], q);
        let c = 9 * r + x;
        assert(c / 27 == b && c % 27 == 9 * q + x);
        assert(cands(bs)(9 * r + x, d));
    }
    let g = lemma_settled_grid(cands(bs));
    lemma_grid_facts(g);
    assert forall|c: int, d: int| 0 <= c < 81 && 0 <= d < 9 implies (#[trigger] cand(bs, c, d)
        <==> g[c] == d + 1) by {
        assert(cands(bs)(c, d) <==> g[c] == d + 1);
    }
    assert(admits(bs, g)) by {
        reveal(admits);
        assert forall|c: int| 0 <= c < 81 implies cand(bs, c, #[trigger] g[c] - 1) by {
            assert(cand(bs, c, g[c] - 1) <==> g[c] == (g[c] - 1) + 1);
        }
    }
    assert forall|h: Seq<u8>| board_solutions(bs).contains(h) implies h == g by {
        reveal(admits);
        lemma_grid_facts(h);
        assert forall|c: int| 0 <= c < 81 implies h[c] == g[c] by {
            assert(cand(bs, c, h[c] - 1));
        }
        assert(h =~= g);
    }
    lemma_only(board_solutions(bs), g);
    g
}

/// Number of digits below `n` that are candidates at cell `p` of band `b`.
pub open spec fn digits_at(bs: Seq<u32>, b: int, p: int, n: nat) -> nat {
    count(|e: int| bit32(bs[9 * b + e], p), n)
}

/// Cell `p` of band `b` is one of `open` and has one candidate.
pub open spec fn naked_at(bs: Seq<u32>, open: u32, b: int, p: int) -> bool {
    bit32(open, p) && digits_at(bs, b, p, 9) == 1
}

/// The naked singles below position `n` among the cells `open` of band `b`, by
/// position, each as a cell and a digit.
pub open spec fn naked_singles(bs: Seq<u32>, open: u32, b: int, n: nat) -> Seq<(int, int)>
    decreases n,
{
    if n == 0 {
        Seq::empty()
    } else {
        let p = n - 1;
        let rest = naked_singles(bs, open, b, p as nat);
        if naked_at(bs, open, b, p) {
            rest.push((27 * b + p, choose|d: int| 0 <= d < 9 && #[trigger] bit32(bs[9 * b + d], p)))
        } else {
            rest
        }
    }
}

/// Positions without a naked single add nothing.
pub proof fn lemma_naked_skip(bs: Seq<u32>, open: u32, b: int, m: nat, n: nat)
    requires
        m <= n,
        forall|p: int| m <= p < n ==> !#[trigger] naked_at(bs, open, b, p),
    ensures
        naked_singles(bs, open, b, m) == naked_singles(bs, open, b, n),
    decreases n,
{
    if m < n {
        assert(!naked_at(bs, open, b, n - 1));
        lemma_naked_skip(bs, open, b, m, (n - 1) as nat);
    }
}

/// A naked single is listed with its digit.
pub proof fn lemma_naked_next(bs: Seq<u32>, open: u32, b: int, p: nat, d: int)
    requires
        naked_at(bs, open, b, p as int),
        0 <= d < 9,
        bit32(bs[9 * b + d], p as int),
    ensures
        naked_singles(bs, open, b, p + 1) == naked_singles(bs, open, b, p).push((27 * b + p, d)),
{
    let f = |e: int| bit32(bs[9 * b + e], p as int);
    assert(f(d));
    let e = choose|e: int| 0 <= e < 9 && #[trigger] bit32(bs[9 * b + e], p as int);
    assert(f(e));
    if e != d {
        lemma_count_lone(f, 9, d, e);
    }
}

/// Cells of a band with at least one, two and three candidates.
pub fn tally(bs: &[u32; 27], band: usize) -> (r: (u32, u32, u32))
    requires
        band < 3,
    ensures
        forall|p: int| #[trigger]
            bit32(r.0, p) <==> digits_at(bs@, band as int, p, 9) >= 1,
        forall|p: int| #[trigger]
            bit32(r.1, p) <==> digits_at(bs@, band as int, p, 9) >= 2,
        forall|p: int| #[trigger]
            bit32(r.2, p) <==> digits_at(bs@, band as int, p, 9) >= 3,
{
    let base = band * 9;
    let mut c1: u32 = 0;
    let mut c2: u32 = 0;
    let mut c3: u32 = 0;
    let mut d: usize = 0;
    while d < 9
        invariant
            d <= 9,
            band < 3,
            base == band * 9,
            forall|p: int| #[trigger]
                bit32(c1, p) <==> digits_at(bs@, band as int, p, d as nat) >= 1,
            forall|p: int| #[trigger]
                bit32(c2, p) <==> digits_at(bs@, band as int, p, d as nat) >= 2,
            forall|p: int| #[trigger]
                bit32(c3, p) <==> digits_at(bs@, band as int, p, d as nat) >= 3,
        decreases 9 - d,
    {
        let m = bs[base + d];
        proof {
            assert forall|p: int| #[trigger]
                digits_at(bs@, band as int, p, (d + 1) as nat) == digits_at(
                    bs@,
                    band as int,
                    p,
                    d as nat,
                ) + if bit32(m, p) {
                    1nat
                } else {
                    0nat
                } by {}
        }
        c3 = c3 | (c2 & m);
        c2 = c2 | (c1 & m);
        c1 = c1 | m;
        d = d + 1;
    }
    (c1, c2, c3)
}

/// Full boards admit every grid.
pub proof fn lemma_full_boards(bs: Seq<u32>, g: Seq<u8>)
    requires
        bs.len() == 27,
        forall|i: int| 0 <= i < 27 ==> #[trigger] bs[i] == BAND_ALL,
        is_grid(g),
    ensures
        admits(bs, g),
{
    reveal(admits);
    lemma_grid_facts(g);
    lemma_low_masks32();
    assert forall|c: int| 0 <= c < 81 implies cand(bs, c, #[trigger] g[c] - 1) by {
        assert(bs[9 * (c / 27) + (g[c] - 1)] == BAND_ALL);
    }
}

} // verus!
