//! Minirow patterns of one digit in one band.
//!
//! A band is three lines of nine cells, cell `p` of 0..27 lying in line
//! `p / 9`; minirow `p / 3` is a group of three cells, the part of one line
//! inside one box. In a complete grid a digit takes three cells of a band,
//! one per line and one per box, so the minirows that hold it form a 3x3
//! permutation matrix. The patterns here are 9-bit sets of minirows, bit
//! `3 * line + box`.

use vstd::prelude::*;
use crate::bits::{
    bit16, bit32, group_bits16, group_bits32, lemma_ext16, lemma_low_masks16, lemma_low_masks32,
    lemma_nonzero16, lemma_nonzero32, lemma_subset16,
};

verus! {

broadcast use {group_bits16, group_bits32};

/// All 27 cells of a band.
pub const BAND_ALL: u32 = 0x7FF_FFFF;

/// The box in which permutation `k` places the digit in line `r`.
pub open spec fn perm_box(k: int, r: int) -> int {
    if r == 0 {
        k / 2
    } else if r == 1 {
        if k == 0 || k == 5 {
            1
        } else if k == 1 || k == 3 {
            2
        } else {
            0
        }
    } else {
        if k == 0 || k == 2 {
            2
        } else if k == 1 || k == 4 {
            1
        } else {
            0
        }
    }
}

/// Permutation `k` is contained in the minirow pattern `s`.
pub open spec fn fits(s: u16, k: int) -> bool {
    &&& 0 <= k < 6
    &&& bit16(s, perm_box(k, 0))
    &&& bit16(s, 3 + perm_box(k, 1))
    &&& bit16(s, 6 + perm_box(k, 2))
}

/// Minirow `i` is in permutation `k`.
pub open spec fn in_perm(k: int, i: int) -> bool {
    0 <= i < 9 && perm_box(k, i / 3) == i % 3
}

/// Minirow `i` is in some permutation contained in `s`.
pub open spec fn closed_at(s: u16, i: int) -> bool {
    exists|k: int| #[trigger] fits(s, k) && in_perm(k, i)
}

/// `n` is the union of the permutations contained in `s`.
#[verifier::opaque]
pub open spec fn closes(n: u16, s: u16) -> bool {
    forall|i: int| #[trigger] bit16(n, i) <==> closed_at(s, i)
}

/// `s` contains a permutation.
pub open spec fn has_perm(s: u16) -> bool {
    exists|k: int| #[trigger] fits(s, k)
}

/// Minirow `i` is in every permutation contained in `s`, and there is one.
pub open spec fn forced_at(s: u16, i: int) -> bool {
    &&& 0 <= i < 9
    &&& has_perm(s)
    &&& forall|k: int| #[trigger] fits(s, k) ==> in_perm(k, i)
}

/// Minirow `i` of the cell set `m` is not empty.
pub open spec fn occupied(m: u32, i: int) -> bool {
    0 <= i < 9 && (bit32(m, 3 * i) || bit32(m, 3 * i + 1) || bit32(m, 3 * i + 2))
}

/// `s` is the minirow pattern of the cell set `m`.
pub open spec fn is_pattern(s: u16, m: u32) -> bool {
    s <= 0x1FF && forall|i: int| #[trigger] bit16(s, i) <==> occupied(m, i)
}

/// Permutation `k` passes through occupied minirows of `m` only.
pub open spec fn fits_cells(m: u32, k: int) -> bool {
    &&& 0 <= k < 6
    &&& occupied(m, perm_box(k, 0))
    &&& occupied(m, 3 + perm_box(k, 1))
    &&& occupied(m, 6 + perm_box(k, 2))
}

/// The digit can be placed in the band: some permutation fits `m`.
pub open spec fn supported(m: u32) -> bool {
    exists|k: int| #[trigger] fits_cells(m, k)
}

/// Three different boxes are the boxes of some permutation.
pub proof fn lemma_perm_exists(a: int, b: int, c: int) -> (k: int)
    requires
        0 <= a < 3,
        0 <= b < 3,
        0 <= c < 3,
        a != b,
        a != c,
        b != c,
    ensures
        0 <= k < 6,
        perm_box(k, 0) == a,
        perm_box(k, 1) == b,
        perm_box(k, 2) == c,
{
    if a == 0 {
        if b == 1 {
            0
        } else {
            1
        }
    } else if a == 1 {
        if b == 0 {
            2
        } else {
            3
        }
    } else {
        if b == 0 {
            4
        } else {
            5
        }
    }
}

/// A placement at columns `x0`, `x1`, `x2` of the three lines, in three
/// different boxes, survives the closure and agrees with the forced minirows.
pub proof fn lemma_placement(s: u16, x0: int, x1: int, x2: int) -> (k: int)
    requires
        0 <= x0 < 9,
        0 <= x1 < 9,
        0 <= x2 < 9,
        x0 / 3 != x1 / 3,
        x0 / 3 != x2 / 3,
        x1 / 3 != x2 / 3,
        bit16(s, x0 / 3),
        bit16(s, 3 + x1 / 3),
        bit16(s, 6 + x2 / 3),
    ensures
        fits(s, k),
        perm_box(k, 0) == x0 / 3,
        perm_box(k, 1) == x1 / 3,
        perm_box(k, 2) == x2 / 3,
        closed_at(s, x0 / 3),
        closed_at(s, 3 + x1 / 3),
        closed_at(s, 6 + x2 / 3),
        forall|i: int| #[trigger] forced_at(s, i) ==> in_perm(k, i),
{
    let k = lemma_perm_exists(x0 / 3, x1 / 3, x2 / 3);
    assert(fits(s, k));
    assert(in_perm(k, x0 / 3));
    assert(in_perm(k, 3 + x1 / 3));
    assert(in_perm(k, 6 + x2 / 3));
    k
}

/// What is closed is in the pattern.
pub proof fn lemma_closed_sub(s: u16, i: int)
    requires
        closed_at(s, i),
    ensures
        0 <= i < 9,
        bit16(s, i),
        has_perm(s),
{
    let k = choose|k: int| #[trigger] fits(s, k) && in_perm(k, i);
    assert(i == 3 * (i / 3) + i % 3);
}

/// Cutting a cell set down to the closure of its pattern keeps exactly the
/// same permutations.
pub proof fn lemma_close_cells(m: u32, s: u16, n: u32)
    requires
        is_pattern(s, m),
        forall|p: int| #[trigger] bit32(n, p) <==> bit32(m, p) && 0 <= p < 27 && closed_at(s, p / 3),
    ensures
        forall|i: int| #[trigger] occupied(n, i) <==> closed_at(s, i),
        forall|k: int| #[trigger] fits_cells(n, k) <==> fits(s, k),
        has_perm(s) <==> supported(n),
{
    assert forall|i: int| #[trigger] occupied(n, i) <==> closed_at(s, i) by {
        if closed_at(s, i) {
            lemma_closed_sub(s, i);
            assert(occupied(m, i));
            assert((3 * i) / 3 == i && (3 * i + 1) / 3 == i && (3 * i + 2) / 3 == i);
        }
        if occupied(n, i) {
            assert((3 * i) / 3 == i && (3 * i + 1) / 3 == i && (3 * i + 2) / 3 == i);
        }
    }
    assert forall|k: int| #[trigger] fits_cells(n, k) <==> fits(s, k) by {
        if fits(s, k) {
            assert(in_perm(k, perm_box(k, 0)));
            assert(in_perm(k, 3 + perm_box(k, 1)));
            assert(in_perm(k, 6 + perm_box(k, 2)));
        }
        if fits_cells(n, k) {
            lemma_closed_sub(s, perm_box(k, 0));
            lemma_closed_sub(s, 3 + perm_box(k, 1));
            lemma_closed_sub(s, 6 + perm_box(k, 2));
        }
    }
    if has_perm(s) {
        let k = choose|k: int| #[trigger] fits(s, k);
        assert(fits_cells(n, k));
    }
    if supported(n) {
        let k = choose|k: int| #[trigger] fits_cells(n, k);
        assert(fits(s, k));
    }
}

/// Minirow `i` lies in some permutation that fits `m`.
pub open spec fn in_some_perm(m: u32, i: int) -> bool {
    exists|k: int| #[trigger] fits_cells(m, k) && in_perm(k, i)
}

/// The closure of the pattern of `m` has the minirows of its permutations.
pub proof fn lemma_in_some_perm(m: u32, s: u16)
    requires
        is_pattern(s, m),
    ensures
        forall|i: int| #[trigger] closed_at(s, i) <==> in_some_perm(m, i),
        has_perm(s) <==> supported(m),
{
    assert forall|k: int| #[trigger] fits(s, k) <==> fits_cells(m, k) by {}
    assert forall|i: int| #[trigger] closed_at(s, i) <==> in_some_perm(m, i) by {
        if closed_at(s, i) {
            let k = choose|k: int| #[trigger] fits(s, k) && in_perm(k, i);
            assert(fits_cells(m, k));
        }
        if in_some_perm(m, i) {
            let k = choose|k: int| #[trigger] fits_cells(m, k) && in_perm(k, i);
            assert(fits(s, k));
        }
    }
    if has_perm(s) {
        let k = choose|k: int| #[trigger] fits(s, k);
        assert(fits_cells(m, k));
    }
    if supported(m) {
        let k = choose|k: int| #[trigger] fits_cells(m, k);
        assert(fits(s, k));
    }
}

/// `a` is what is left of `m` inside the permutations that fit `m`.
pub open spec fn closure_of(a: u32, m: u32) -> bool {
    forall|p: int| #[trigger] bit32(a, p) <==> bit32(m, p) && in_some_perm(m, p / 3)
}

/// Some permutation fits `m`, and every cell of `m` lies in one that does.
#[verifier::opaque]
pub open spec fn closed_word(m: u32) -> bool {
    supported(m) && forall|p: int| #[trigger] bit32(m, p) ==> in_some_perm(m, p / 3)
}

pub proof fn lemma_closed_supported(m: u32)
    requires
        closed_word(m),
    ensures
        supported(m),
{
    reveal(closed_word);
}

/// What is left of a word inside the closure of its pattern is closed.
pub proof fn lemma_closure_closed(m: u32, s: u16, n: u32)
    requires
        is_pattern(s, m),
        has_perm(s),
        forall|p: int| #[trigger] bit32(n, p) <==> bit32(m, p) && 0 <= p < 27 && closed_at(s, p / 3),
    ensures
        closed_word(n),
{
    reveal(closed_word);
    lemma_close_cells(m, s, n);
    assert forall|p: int| #[trigger] bit32(n, p) implies in_some_perm(n, p / 3) by {
        let k = choose|k: int| #[trigger] fits(s, k) && in_perm(k, p / 3);
        assert(fits_cells(n, k));
    }
}

/// All 27 cells are closed.
pub proof fn lemma_all_closed()
    ensures
        closed_word(BAND_ALL),
{
    reveal(closed_word);
    lemma_low_masks32();
    assert forall|k: int| 0 <= k < 6 implies #[trigger] fits_cells(BAND_ALL, k) by {}
    assert(fits_cells(BAND_ALL, 0));
    assert forall|p: int| #[trigger] bit32(BAND_ALL, p) implies in_some_perm(BAND_ALL, p / 3) by {
        let i = p / 3;
        let k = if i == 0 || i == 4 || i == 8 {
            0int
        } else if i == 1 || i == 3 {
            2int
        } else if i == 5 || i == 7 {
            1int
        } else if i == 2 {
            4int
        } else {
            3int
        };
        assert(fits_cells(BAND_ALL, k) && in_perm(k, i));
    }
}

/// A supported cell set has a cell in each of its three lines.
pub proof fn lemma_supported_lines(m: u32, r: int) -> (x: int)
    requires
        supported(m),
        0 <= r < 3,
    ensures
        0 <= x < 9,
        bit32(m, 9 * r + x),
{
    let k = choose|k: int| #[trigger] fits_cells(m, k);
    let j = perm_box(k, r);
    let i = 3 * r + j;
    assert(occupied(m, i));
    if bit32(m, 3 * i) {
        3 * j
    } else if bit32(m, 3 * i + 1) {
        3 * j + 1
    } else {
        3 * j + 2
    }
}

/// The minirow pattern of a band's cells.
///
/// `m | m >> 1 | m >> 2` gathers each minirow at its first cell; the nine
/// bits at positions 0, 3, 6, ... are the pattern.
pub fn shrink_band(m: u32) -> (s: u16)
    ensures
        is_pattern(s, m),
{
    let f = m | (m >> 1) | (m >> 2);
    let mut s: u16 = 0;
    let mut i: u32 = 0;
    while i < 9
        invariant
            i <= 9,
            f == m | (m >> 1) | (m >> 2),
            forall|j: int| #[trigger] bit16(s, j) <==> 0 <= j < i && occupied(m, j),
        decreases 9 - i,
    {
        let ghost s0 = s;
        if (f >> (3 * i)) & 1 == 1 {
            s = s | (1u16 << i);
        }
        proof {
            assert(bit32(f, 3 * i) <==> (f >> (3 * i)) & 1 == 1) by {
                reveal(bit32);
            }
            assert(bit32(f, 3 * i) <==> occupied(m, i as int));
        }
        i = i + 1;
    }
    proof {
        lemma_low_masks16();
        lemma_subset16(s, 0x1FF);
    }
    s
}

/// The six permutations as minirow sets.
pub fn build_perms() -> (out: [u16; 6])
    ensures
        forall|k: int, i: int|
            0 <= k < 6 ==> (#[trigger] bit16(out[k], i) <==> in_perm(k, i)),
{
    let p: [[u16; 3]; 6] = [
        [0, 1, 2],
        [0, 2, 1],
        [1, 0, 2],
        [1, 2, 0],
        [2, 0, 1],
        [2, 1, 0],
    ];
    assert forall|k: int, r: int| 0 <= k < 6 && 0 <= r < 3 implies #[trigger] p[k][r] == perm_box(
        k,
        r,
    ) by {
        if k == 0 {
            assert(p[0][0] == 0 && p[0][1] == 1 && p[0][2] == 2);
        } else if k == 1 {
            assert(p[1][0] == 0 && p[1][1] == 2 && p[1][2] == 1);
        } else if k == 2 {
            assert(p[2][0] == 1 && p[2][1] == 0 && p[2][2] == 2);
        } else if k == 3 {
            assert(p[3][0] == 1 && p[3][1] == 2 && p[3][2] == 0);
        } else if k == 4 {
            assert(p[4][0] == 2 && p[4][1] == 0 && p[4][2] == 1);
        } else {
            assert(p[5][0] == 2 && p[5][1] == 1 && p[5][2] == 0);
        }
    }
    let mut out: [u16; 6] = [0;6];
    let mut k: usize = 0;
    while k < 6
        invariant
            k <= 6,
            forall|j: int, r: int|
                0 <= j < 6 && 0 <= r < 3 ==> #[trigger] p[j][r] == perm_box(j, r),
            forall|j: int, i: int|
                0 <= j < k ==> (#[trigger] bit16(out[j], i) <==> in_perm(j, i)),
        decreases 6 - k,
    {
        let mut m: u16 = 0;
        let mut r: u16 = 0;
        while r < 3
            invariant
                r <= 3,
                k < 6,
                forall|j: int, q: int|
                    0 <= j < 6 && 0 <= q < 3 ==> #[trigger] p[j][q] == perm_box(j, q),
                forall|i: int| #[trigger] bit16(m, i) <==> i < 3 * r && in_perm(k as int, i),
            decreases 3 - r,
        {
            let b = p[k][r as usize];
            assert(b == perm_box(k as int, r as int));
            let ghost m0 = m;
            m = m | (1u16 << (3 * r + b));
            proof {
                assert forall|i: int| #[trigger] bit16(m, i) <==> i < 3 * (r + 1) && in_perm(
                    k as int,
                    i,
                ) by {
                    if 3 * r <= i < 3 * r + 3 {
                        assert(i / 3 == r && i % 3 == i - 3 * r);
                    }
                }
            }
            r = r + 1;
        }
        out[k] = m;
        k = k + 1;
    }
    out
}

/// For every pattern the union of the permutations it contains.
pub fn build_closed() -> (t: [u16; 512])
    ensures
        forall|s: int, i: int|
            0 <= s < 512 ==> (#[trigger] bit16(t[s], i) <==> closed_at(s as u16, i)),
        forall|s: int| 0 <= s < 512 ==> #[trigger] t[s] <= 0x1FF,
        forall|s: int| 0 <= s < 512 ==> (#[trigger] t[s] == 0 <==> !has_perm(s as u16)),
{
    let perms = build_perms();
    let mut t: [u16; 512] = [0;512];
    let mut s: usize = 0;
    while s < 512
        invariant
            s <= 512,
            forall|k: int, i: int|
                0 <= k < 6 ==> (#[trigger] bit16(perms[k], i) <==> in_perm(k, i)),
            forall|q: int, i: int|
                0 <= q < s ==> (#[trigger] bit16(t[q], i) <==> closed_at(q as u16, i)),
        decreases 512 - s,
    {
        let mut u: u16 = 0;
        let mut k: usize = 0;
        while k < 6
            invariant
                k <= 6,
                s < 512,
                forall|j: int, i: int|
                    0 <= j < 6 ==> (#[trigger] bit16(perms[j], i) <==> in_perm(j, i)),
                forall|i: int| #[trigger]
                    bit16(u, i) <==> exists|j: int|
                        j < k && #[trigger] fits(s as u16, j) && in_perm(j, i),
            decreases 6 - k,
        {
            let ghost u0 = u;
            if perms[k] & (s as u16) == perms[k] {
                u = u | perms[k];
            }
            proof {
                lemma_perm_inside(perms[k as int], s as u16, k as int);
                assert forall|i: int| #[trigger] bit16(u, i) <==> exists|j: int|
                    j < k + 1 && #[trigger] fits(s as u16, j) && in_perm(j, i) by {
                    if bit16(u0, i) {
                        let j = choose|j: int|
                            j < k && #[trigger] fits(s as u16, j) && in_perm(j, i);
                        assert(fits(s as u16, j) && in_perm(j, i));
                    }
                    if fits(s as u16, k as int) && in_perm(k as int, i) {
                        assert(bit16(perms[k as int], i));
                    }
                }
            }
            k = k + 1;
        }
        t[s] = u;
        proof {
            assert forall|i: int| #[trigger] bit16(u, i) <==> closed_at(s as u16, i) by {
                if bit16(u, i) {
                    let j = choose|j: int| j < 6 && #[trigger] fits(s as u16, j) && in_perm(j, i);
                    assert(fits(s as u16, j) && in_perm(j, i));
                }
            }
        }
        s = s + 1;
    }
    proof {
        assert forall|q: int| 0 <= q < 512 implies #[trigger] t[q] <= 0x1FF && (t[q] == 0
            <==> !has_perm(q as u16)) by {
            lemma_low_masks16();
            assert forall|i: int| bit16(t[q], i) implies bit16(0x1FFu16, i) by {
                lemma_closed_sub(q as u16, i);
            }
            lemma_subset16(t[q], 0x1FF);
            if t[q] != 0 {
                let i = lemma_nonzero16(t[q]);
                lemma_closed_sub(q as u16, i);
            }
            if has_perm(q as u16) {
                let k = choose|k: int| #[trigger] fits(q as u16, k);
                assert(in_perm(k, perm_box(k, 0)));
                assert(closed_at(q as u16, perm_box(k, 0)));
                assert(bit16(t[q], perm_box(k, 0)));
            }
        }
    }
    t
}

/// The subset test on words is the containment of a permutation.
pub proof fn lemma_perm_inside(p: u16, s: u16, k: int)
    requires
        0 <= k < 6,
        forall|i: int| #[trigger] bit16(p, i) <==> in_perm(k, i),
    ensures
        (p & s == p) <==> fits(s, k),
{
    assert(in_perm(k, perm_box(k, 0)));
    assert(in_perm(k, 3 + perm_box(k, 1)));
    assert(in_perm(k, 6 + perm_box(k, 2)));
    if p & s == p {
        assert(bit16(p & s, perm_box(k, 0)));
        assert(bit16(p & s, 3 + perm_box(k, 1)));
        assert(bit16(p & s, 6 + perm_box(k, 2)));
    }
    if fits(s, k) {
        assert forall|i: int| 0 <= i < 16 implies bit16(p & s, i) == bit16(p, i) by {
            if bit16(p, i) {
                assert(i == 3 * (i / 3) + i % 3);
            }
        }
        lemma_ext16(p & s, p);
    }
}

/// For every pattern the minirows common to all permutations it contains
/// (none, if it contains no permutation).
pub fn build_forced() -> (t: [u16; 512])
    ensures
        forall|s: int, i: int|
            0 <= s < 512 ==> (#[trigger] bit16(t[s], i) <==> forced_at(s as u16, i)),
        forall|s: int| 0 <= s < 512 ==> #[trigger] t[s] <= 0x1FF,
{
    let perms = build_perms();
    let mut t: [u16; 512] = [0;512];
    let mut s: usize = 0;
    while s < 512
        invariant
            s <= 512,
            forall|k: int, i: int|
                0 <= k < 6 ==> (#[trigger] bit16(perms[k], i) <==> in_perm(k, i)),
            forall|q: int, i: int|
                0 <= q < s ==> (#[trigger] bit16(t[q], i) <==> forced_at(q as u16, i)),
        decreases 512 - s,
    {
        let mut acc: u16 = 0x1FF;
        let mut any: bool = false;
        let mut k: usize = 0;
        proof {
            lemma_low_masks16();
        }
        while k < 6
            invariant
                k <= 6,
                s < 512,
                forall|j: int, i: int|
                    0 <= j < 6 ==> (#[trigger] bit16(perms[j], i) <==> in_perm(j, i)),
                forall|i: int| #[trigger]
                    bit16(acc, i) <==> 0 <= i < 9 && forall|j: int|
                        j < k && #[trigger] fits(s as u16, j) ==> in_perm(j, i),
                any <==> exists|j: int| j < k && #[trigger] fits(s as u16, j),
            decreases 6 - k,
        {
            let ghost acc0 = acc;
            let ghost any0 = any;
            if perms[k] & (s as u16) == perms[k] {
                acc = acc & perms[k];
                any = true;
            }
            proof {
                lemma_perm_inside(perms[k as int], s as u16, k as int);
                assert forall|i: int| #[trigger] bit16(acc, i) <==> 0 <= i < 9 && forall|j: int|
                    j < k + 1 && #[trigger] fits(s as u16, j) ==> in_perm(j, i) by {
                    if fits(s as u16, k as int) {
                        assert(bit16(perms[k as int], i) <==> in_perm(k as int, i));
                    }
                }
            }
            k = k + 1;
        }
        t[s] = if any {
            acc
        } else {
            0
        };
        proof {
            assert forall|i: int| #[trigger] bit16(t[s as int], i) <==> forced_at(s as u16, i) by {
                if has_perm(s as u16) {
                    let j = choose|j: int| #[trigger] fits(s as u16, j);
                    assert(j < 6);
                }
            }
        }
        s = s + 1;
    }
    proof {
        assert forall|q: int| 0 <= q < 512 implies #[trigger] t[q] <= 0x1FF by {
            lemma_low_masks16();
            lemma_subset16(t[q], 0x1FF);
        }
    }
    t
}

/// For every minirow set the set of the cells in those minirows.
pub fn build_expand() -> (t: [u32; 512])
    ensures
        forall|m: int, p: int|
            0 <= m < 512 ==> (#[trigger] bit32(t[m], p) <==> 0 <= p < 27 && bit16(m as u16, p / 3)),
{
    let mut t: [u32; 512] = [0;512];
    let mut m: usize = 0;
    while m < 512
        invariant
            m <= 512,
            forall|q: int, p: int|
                0 <= q < m ==> (#[trigger] bit32(t[q], p) <==> 0 <= p < 27 && bit16(
                    q as u16,
                    p / 3,
                )),
        decreases 512 - m,
    {
        let mut e: u32 = 0;
        let mut i: u16 = 0;
        while i < 9
            invariant
                i <= 9,
                m < 512,
                forall|p: int| #[trigger]
                    bit32(e, p) <==> 0 <= p < 3 * i && bit16(m as u16, p / 3),
            decreases 9 - i,
        {
            let ghost e0 = e;
            if ((m as u16) >> i) & 1 == 1 {
                let at: u32 = 9 * ((i / 3) as u32) + 3 * ((i % 3) as u32);
                e = e | (7u32 << at);
            }
            proof {
                assert(bit16(m as u16, i as int) <==> ((m as u16) >> i) & 1 == 1) by {
                    reveal(bit16);
                }
                lemma_low_masks32();
                assert forall|p: int| #[trigger] bit32(e, p) <==> 0 <= p < 3 * (i + 1) && bit16(
                    m as u16,
                    p / 3,
                ) by {
                    if 3 * i <= p < 3 * i + 3 {
                        assert(p / 3 == i);
                    }
                }
            }
            i = i + 1;
        }
        t[m] = e;
        m = m + 1;
    }
    t
}

/// For every pattern the cells of its closure; zero exactly when no
/// permutation fits.
pub fn build_closed_cells() -> (t: [u32; 512])
    ensures
        forall|s: int, p: int|
            0 <= s < 512 ==> (#[trigger] bit32(t[s], p) <==> 0 <= p < 27 && closed_at(
                s as u16,
                p / 3,
            )),
        forall|s: int| 0 <= s < 512 ==> (#[trigger] t[s] == 0 <==> !has_perm(s as u16)),
{
    let closed = build_closed();
    let expand = build_expand();
    let mut t: [u32; 512] = [0;512];
    let mut s: usize = 0;
    while s < 512
        invariant
            s <= 512,
            forall|q: int, i: int|
                0 <= q < 512 ==> (#[trigger] bit16(closed[q], i) <==> closed_at(q as u16, i)),
            forall|q: int| 0 <= q < 512 ==> #[trigger] closed[q] <= 0x1FF,
            forall|m: int, p: int|
                0 <= m < 512 ==> (#[trigger] bit32(expand[m], p) <==> 0 <= p < 27 && bit16(
                    m as u16,
                    p / 3,
                )),
            forall|q: int, p: int|
                0 <= q < s ==> (#[trigger] bit32(t[q], p) <==> 0 <= p < 27 && closed_at(
                    q as u16,
                    p / 3,
                )),
        decreases 512 - s,
    {
        t[s] = expand[closed[s] as usize];
        proof {
            assert forall|p: int| #[trigger] bit32(t[s as int], p) <==> 0 <= p < 27 && closed_at(
                s as u16,
                p / 3,
            ) by {
                assert(bit32(expand[closed[s as int] as int], p) <==> 0 <= p < 27 && bit16(
                    closed[s as int],
                    p / 3,
                ));
            }
        }
        s = s + 1;
    }
    proof {
        assert forall|q: int| 0 <= q < 512 implies (#[trigger] t[q] == 0 <==> !has_perm(
            q as u16,
        )) by {
            if t[q] != 0 {
                let p = lemma_nonzero32(t[q]);
                lemma_closed_sub(q as u16, p / 3);
            }
            if has_perm(q as u16) {
                let k = choose|k: int| #[trigger] fits(q as u16, k);
                let i = perm_box(k, 0);
                assert(in_perm(k, i));
                assert((3 * i) / 3 == i);
                assert(closed_at(q as u16, (3 * i) / 3));
                assert(bit32(t[q], 3 * i));
            }
        }
    }
    t
}

} // verus!
