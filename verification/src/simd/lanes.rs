//! Operations on eight lanes of 32 bits at once.

use vstd::prelude::*;
use crate::bits::{
    bit16, bit32, group_bits16, group_bits32, lemma_low_masks32, lemma_narrow, lemma_subset32,
};
use crate::minirow::{is_pattern, occupied, BAND_ALL};

verus! {

broadcast use {group_bits16, group_bits32};

/// One register: eight lanes.
pub type Lanes = [u32; 8];

/// The minirow pattern of 27 cells, by folding the word onto itself.
fn shrink_word(v: u32) -> (s: u32)
    requires
        v <= BAND_ALL,
    ensures
        s <= 0x1FF,
        is_pattern(s as u16, v),
{
    let t = v | (v >> 1) | (v >> 2);
    let a = t & 0x1249249;
    let b = (a | (a >> 2)) & 0x10C8643;
    let c = (b | (b >> 4)) & 0x1C0E07;
    let s = (c | (c >> 6) | (c >> 12)) & 0x1FF;
    proof {
        assert(s <= 0x1FF) by {
            lemma_low_masks32();
            lemma_subset32(s, 0x1FF);
        }
        lemma_narrow(s);
        assert forall|i: int| #[trigger] bit16(s as u16, i) <==> occupied(v, i) by {
            assert(bit16(s as u16, i) <==> bit32(s, i));
            if bit32(s, i) {
                lemma_low_masks32();
                assert(bit32(0x1FFu32, i));
            }
            if 0 <= i < 9 {
                let k = i as u32;
                let j = (3 * i) as u32;
                lemma_fold(v, k, j);
                reveal(bit32);
                assert(bit32(s, i) <==> (s >> k) & 1 == 1);
                assert(bit32(v, 3 * i) <==> (v >> j) & 1 == 1);
                assert(bit32(v, 3 * i + 1) <==> (v >> ((j + 1) as u32)) & 1 == 1);
                assert(bit32(v, 3 * i + 2) <==> (v >> ((j + 2) as u32)) & 1 == 1);
            }
        }
    }
    s
}

/// What the folding computes.
proof fn lemma_fold(v: u32, k: u32, j: u32)
    by (bit_vector)
    requires
        v <= 0x7FF_FFFF,
        k < 9,
        j == 3 * k,
    ensures
        ({
            let t = v | (v >> 1) | (v >> 2);
            let a = t & 0x1249249;
            let b = (a | (a >> 2)) & 0x10C8643;
            let c = (b | (b >> 4)) & 0x1C0E07;
            let s = (c | (c >> 6) | (c >> 12)) & 0x1FF;
            (s >> k) & 1 == 1 <==> (v >> j) & 1 == 1 || (v >> ((j + 1) as u32)) & 1 == 1 || (v >> ((
            j + 2) as u32)) & 1 == 1
        }),
{
}

/// The minirow pattern of every lane.
pub fn shrink6(v: &Lanes) -> (s: Lanes)
    requires
        forall|l: int| 0 <= l < 8 ==> #[trigger] v[l] <= BAND_ALL,
    ensures
        forall|l: int| 0 <= l < 8 ==> #[trigger] s[l] <= 0x1FF && is_pattern(s[l] as u16, v[l]),
{
    let mut s: Lanes = [0;8];
    let mut l: usize = 0;
    while l < 8
        invariant
            l <= 8,
            forall|k: int| 0 <= k < 8 ==> #[trigger] v[k] <= BAND_ALL,
            forall|k: int|
                0 <= k < l ==> #[trigger] s[k] <= 0x1FF && is_pattern(s[k] as u16, v[k]),
        decreases 8 - l,
    {
        s[l] = shrink_word(v[l]);
        l = l + 1;
    }
    s
}

/// Looks every lane up in a table.
pub fn gather(table: &[u32; 512], idx: &Lanes) -> (r: Lanes)
    requires
        forall|l: int| 0 <= l < 8 ==> #[trigger] idx[l] < 512,
    ensures
        forall|l: int| 0 <= l < 8 ==> #[trigger] r[l] == table[idx[l] as int],
{
    let mut r: Lanes = [0;8];
    let mut l: usize = 0;
    while l < 8
        invariant
            l <= 8,
            forall|k: int| 0 <= k < 8 ==> #[trigger] idx[k] < 512,
            forall|k: int| 0 <= k < l ==> #[trigger] r[k] == table[idx[k] as int],
        decreases 8 - l,
    {
        r[l] = table[idx[l] as usize];
        l = l + 1;
    }
    r
}

/// The set of lanes that are zero.
pub fn zero_lanes(v: &Lanes) -> (z: u32)
    ensures
        forall|l: int| #[trigger] bit32(z, l) <==> 0 <= l < 8 && v[l] == 0,
{
    let mut z: u32 = 0;
    let mut l: usize = 0;
    while l < 8
        invariant
            l <= 8,
            forall|k: int| #[trigger] bit32(z, k) <==> 0 <= k < l && v[k] == 0,
        decreases 8 - l,
    {
        if v[l] == 0 {
            z = z | (1u32 << (l as u32));
        }
        l = l + 1;
    }
    z
}

/// The set of lanes in which `a` and `b` differ.
pub fn diff_lanes(a: &Lanes, b: &Lanes) -> (z: u32)
    ensures
        forall|l: int| #[trigger] bit32(z, l) <==> 0 <= l < 8 && a[l] != b[l],
{
    let mut z: u32 = 0;
    let mut l: usize = 0;
    while l < 8
        invariant
            l <= 8,
            forall|k: int| #[trigger] bit32(z, k) <==> 0 <= k < l && a[k] != b[k],
        decreases 8 - l,
    {
        if a[l] != b[l] {
            z = z | (1u32 << (l as u32));
        }
        l = l + 1;
    }
    z
}

/// Lane by lane `a & b`.
pub fn and_lanes(a: &Lanes, b: &Lanes) -> (r: Lanes)
    ensures
        forall|l: int| 0 <= l < 8 ==> #[trigger] r[l] == a[l] & b[l],
{
    let mut r: Lanes = [0;8];
    let mut l: usize = 0;
    while l < 8
        invariant
            l <= 8,
            forall|k: int| 0 <= k < l ==> #[trigger] r[k] == a[k] & b[k],
        decreases 8 - l,
    {
        r[l] = a[l] & b[l];
        l = l + 1;
    }
    r
}

/// Lane by lane `a | b`.
pub fn or_lanes(a: &Lanes, b: &Lanes) -> (r: Lanes)
    ensures
        forall|l: int| 0 <= l < 8 ==> #[trigger] r[l] == a[l] | b[l],
{
    let mut r: Lanes = [0;8];
    let mut l: usize = 0;
    while l < 8
        invariant
            l <= 8,
            forall|k: int| 0 <= k < l ==> #[trigger] r[k] == a[k] | b[k],
        decreases 8 - l,
    {
        r[l] = a[l] | b[l];
        l = l + 1;
    }
    r
}

/// Lane by lane `b & !a`.
pub fn and_not_lanes(a: &Lanes, b: &Lanes) -> (r: Lanes)
    ensures
        forall|l: int| 0 <= l < 8 ==> #[trigger] r[l] == b[l] & !a[l],
{
    let mut r: Lanes = [0;8];
    let mut l: usize = 0;
    while l < 8
        invariant
            l <= 8,
            forall|k: int| 0 <= k < l ==> #[trigger] r[k] == b[k] & !a[k],
        decreases 8 - l,
    {
        r[l] = b[l] & !a[l];
        l = l + 1;
    }
    r
}

} // verus!
