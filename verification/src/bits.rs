//! Bit sets in machine words: membership, the word operations as set
//! operations, the scan for the lowest member, and counting.

use vstd::prelude::*;

verus! {

/// Number of indices below `n` at which `f` holds.
pub open spec fn count(f: spec_fn(int) -> bool, n: nat) -> nat
    decreases n,
{
    if n == 0 {
        0
    } else {
        count(f, (n - 1) as nat) + if f(n - 1) {
            1nat
        } else {
            0nat
        }
    }
}

/// A count never exceeds the number of indices; a wider predicate counts at least as much.
pub proof fn lemma_count_mono(f: spec_fn(int) -> bool, g: spec_fn(int) -> bool, n: nat)
    requires
        forall|i: int| 0 <= i < n && f(i) ==> #[trigger] g(i),
    ensures
        count(f, n) <= count(g, n) <= n,
    decreases n,
{
    if n > 0 {
        lemma_count_mono(f, g, (n - 1) as nat);
    }
}

/// Dropping exactly the member `k` lowers the count by one.
pub proof fn lemma_count_drop(f: spec_fn(int) -> bool, g: spec_fn(int) -> bool, n: nat, k: int)
    requires
        0 <= k < n,
        g(k),
        forall|i: int| 0 <= i < n ==> (f(i) <==> #[trigger] g(i) && i != k),
    ensures
        count(f, n) + 1 == count(g, n),
    decreases n,
{
    if k == n - 1 {
        lemma_count_mono(f, g, (n - 1) as nat);
        lemma_count_mono(g, f, (n - 1) as nat);
    } else {
        lemma_count_drop(f, g, (n - 1) as nat, k);
    }
}

/// A strictly narrower predicate counts strictly less.
pub proof fn lemma_count_less(f: spec_fn(int) -> bool, g: spec_fn(int) -> bool, n: nat, k: int)
    requires
        0 <= k < n,
        g(k),
        !f(k),
        forall|i: int| 0 <= i < n && f(i) ==> #[trigger] g(i),
    ensures
        count(f, n) < count(g, n),
{
    let h = |i: int| g(i) && i != k;
    lemma_count_drop(h, g, n, k);
    lemma_count_mono(f, h, n);
}

/// A count of zero means that nothing below `n` is a member.
pub proof fn lemma_count_zero(f: spec_fn(int) -> bool, n: nat, k: int)
    requires
        count(f, n) == 0,
        0 <= k < n,
    ensures
        !f(k),
{
    if f(k) {
        lemma_count_less(|i: int| false, f, n, k);
    }
}

/// Bit `i` of `m` is set.
#[verifier::opaque]
pub open spec fn bit16(m: u16, i: int) -> bool {
    0 <= i < 16 && (m >> (i as u16)) & 1 == 1
}

proof fn word_ops16(a: u16, b: u16, k: u16, s: u16)
    by (bit_vector)
    requires
        k < 16,
        s < 16,
    ensures
        (((a & b) >> k) & 1 == 1) <==> ((a >> k) & 1 == 1 && (b >> k) & 1 == 1),
        (((a | b) >> k) & 1 == 1) <==> ((a >> k) & 1 == 1 || (b >> k) & 1 == 1),
        (((a ^ b) >> k) & 1 == 1) <==> ((a >> k) & 1 == 1) != ((b >> k) & 1 == 1),
        (((!a) >> k) & 1 == 1) <==> !((a >> k) & 1 == 1),
        (((a << s) >> k) & 1 == 1) <==> (k >= s && (a >> ((k - s) as u16)) & 1 == 1),
        (((a >> s) >> k) & 1 == 1) <==> (k + s < 16 && (a >> ((k + s) as u16)) & 1 == 1),
        ((1u16 << s) >> k) & 1 == 1 <==> k == s,
        !((0u16 >> k) & 1 == 1),
        ((7u16 >> k) & 1 == 1) <==> k < 3,
        ((0x1FFu16 >> k) & 1 == 1) <==> k < 9,
        a & b <= a,
        (a ^ b) == 0 <==> a == b,
{
}

pub broadcast proof fn lemma_and16(a: u16, b: u16, i: int)
    ensures
        #[trigger] bit16(a & b, i) <==> bit16(a, i) && bit16(b, i),
{
    reveal(bit16);
    if 0 <= i < 16 {
        word_ops16(a, b, i as u16, 0);
    }
}

pub broadcast proof fn lemma_or16(a: u16, b: u16, i: int)
    ensures
        #[trigger] bit16(a | b, i) <==> bit16(a, i) || bit16(b, i),
{
    reveal(bit16);
    if 0 <= i < 16 {
        word_ops16(a, b, i as u16, 0);
    }
}

pub broadcast proof fn lemma_xor16(a: u16, b: u16, i: int)
    ensures
        #[trigger] bit16(a ^ b, i) <==> bit16(a, i) != bit16(b, i),
{
    reveal(bit16);
    if 0 <= i < 16 {
        word_ops16(a, b, i as u16, 0);
    }
}

pub broadcast proof fn lemma_not16(a: u16, i: int)
    ensures
        #[trigger] bit16(!a, i) <==> 0 <= i < 16 && !bit16(a, i),
{
    reveal(bit16);
    if 0 <= i < 16 {
        word_ops16(a, 0, i as u16, 0);
    }
}

pub broadcast proof fn lemma_shl16(a: u16, s: u16, i: int)
    requires
        s < 16,
    ensures
        #[trigger] bit16(a << s, i) <==> s <= i < 16 && bit16(a, i - s),
{
    reveal(bit16);
    if 0 <= i < 16 {
        word_ops16(a, 0, i as u16, s);
    }
}

pub broadcast proof fn lemma_shr16(a: u16, s: u16, i: int)
    requires
        s < 16,
    ensures
        #[trigger] bit16(a >> s, i) <==> 0 <= i && bit16(a, i + s),
{
    reveal(bit16);
    if 0 <= i < 16 {
        word_ops16(a, 0, i as u16, s);
    }
}

pub broadcast proof fn lemma_one16(s: u16, i: int)
    requires
        s < 16,
    ensures
        #[trigger] bit16(1u16 << s, i) <==> i == s,
{
    reveal(bit16);
    if 0 <= i < 16 {
        word_ops16(0, 0, i as u16, s);
    }
}

pub broadcast proof fn lemma_range16(m: u16, i: int)
    ensures
        #[trigger] bit16(m, i) ==> 0 <= i < 16,
        m == 0 ==> !bit16(m, i),
{
    reveal(bit16);
    if 0 <= i < 16 {
        word_ops16(0, 0, i as u16, 0);
    }
}

pub broadcast group group_bits16 {
    lemma_and16,
    lemma_or16,
    lemma_xor16,
    lemma_not16,
    lemma_shl16,
    lemma_shr16,
    lemma_one16,
    lemma_range16,
}

/// A word with no bit set is zero.
pub proof fn lemma_nonzero16(m: u16) -> (t: int)
    requires
        m != 0,
    ensures
        0 <= t < 16,
        bit16(m, t),
        forall|j: int| 0 <= j < t ==> !bit16(m, j),
        t == vstd::std_specs::bits::u16_trailing_zeros(m),
{
    reveal(bit16);
    vstd::std_specs::bits::axiom_u16_trailing_zeros(m);
    let t = vstd::std_specs::bits::u16_trailing_zeros(m) as int;
    assert forall|j: int| 0 <= j < t implies !bit16(m, j) by {
        assert((m >> (j as u16)) & 1 == 0);
    }
    t
}

/// Two words with the same bits are equal.
pub proof fn lemma_ext16(a: u16, b: u16)
    requires
        forall|i: int| 0 <= i < 16 ==> bit16(a, i) == bit16(b, i),
    ensures
        a == b,
{
    broadcast use group_bits16;
    word_ops16(a, b, 0, 0);
    if a != b {
        let t = lemma_nonzero16(a ^ b);
        assert(bit16(a ^ b, t));
    }
}

/// A subset is numerically no larger, and smaller unless equal.
pub proof fn lemma_subset16(a: u16, b: u16)
    requires
        forall|i: int| 0 <= i < 16 && bit16(a, i) ==> bit16(b, i),
    ensures
        a <= b,
        a != b ==> a < b,
        a == a & b,
{
    broadcast use group_bits16;
    lemma_ext16(a & b, a);
    lemma_ext16(b & a, a);
    word_ops16(b, a, 0, 0);
}

proof fn clear_lowest16(m: u16, t: u16, w: u16, k: u16)
    by (bit_vector)
    requires
        m != 0,
        t < 16,
        w == 16 - t,
        (m >> t) & 1 == 1,
        m << w == 0,
        k < 16,
    ensures
        ((m & ((m - 1) as u16)) >> k) & 1 == 1 <==> (m >> k) & 1 == 1 && k != t,
{
}

/// Index of the lowest set bit.
pub fn lowest16(m: u16) -> (t: usize)
    requires
        m != 0,
    ensures
        t < 16,
        bit16(m, t as int),
        forall|j: int| 0 <= j < t ==> !bit16(m, j),
{
    proof {
        let _ = lemma_nonzero16(m);
    }
    m.trailing_zeros() as usize
}

/// `m` without its lowest set bit.
pub fn without_lowest16(m: u16) -> (r: u16)
    requires
        m != 0,
    ensures
        r < m,
        exists|t: int|
            #![trigger bit16(m, t)]
            bit16(m, t) && (forall|j: int| 0 <= j < t ==> !bit16(m, j)) && (forall|i: int|
                bit16(r, i) <==> bit16(m, i) && i != t),
{
    let r = m & (m - 1);
    proof {
        broadcast use group_bits16;
        let t = lemma_nonzero16(m);
        vstd::std_specs::bits::axiom_u16_trailing_zeros(m);
        let w = (16 - t) as u16;
        reveal(bit16);
        assert forall|i: int| bit16(r, i) <==> bit16(m, i) && i != t by {
            if 0 <= i < 16 {
                clear_lowest16(m, t as u16, w, i as u16);
            }
        }
        lemma_subset16(r, m);
        assert(bit16(m, t) && !bit16(r, t));
    }
    r
}

/// Number of set bits.
pub open spec fn pop16(m: u16) -> nat {
    count(|i: int| bit16(m, i), 16)
}

/// Counts the set bits of `m`.
pub fn count_ones16(m: u16) -> (n: u32)
    ensures
        n == pop16(m),
        n <= 16,
{
    broadcast use group_bits16;
    let mut n: u32 = 0;
    let mut i: u16 = 0;
    let ghost f = |j: int| bit16(m, j);
    while i < 16
        invariant
            i <= 16,
            n <= i,
            n == count(f, i as nat),
            f == (|j: int| bit16(m, j)),
        decreases 16 - i,
    {
        if (m >> i) & 1 == 1 {
            n = n + 1;
        }
        proof {
            reveal(bit16);
            assert(f(i as int) <==> (m >> i) & 1 == 1);
        }
        i = i + 1;
    }
    n
}

/// The words of consecutive low bits that the library uses.
pub proof fn lemma_low_masks16()
    ensures
        forall|i: int| #[trigger] bit16(7u16, i) <==> 0 <= i < 3,
        forall|i: int| #[trigger] bit16(0x1FFu16, i) <==> 0 <= i < 9,
{
    reveal(bit16);
    assert forall|i: int| #[trigger] bit16(7u16, i) <==> 0 <= i < 3 by {
        if 0 <= i < 16 {
            word_ops16(0, 0, i as u16, 0);
        }
    }
    assert forall|i: int| #[trigger] bit16(0x1FFu16, i) <==> 0 <= i < 9 by {
        if 0 <= i < 16 {
            word_ops16(0, 0, i as u16, 0);
        }
    }
}

/// Bit `i` of `m` is set.
#[verifier::opaque]
pub open spec fn bit32(m: u32, i: int) -> bool {
    0 <= i < 32 && (m >> (i as u32)) & 1 == 1
}

proof fn word_ops32(a: u32, b: u32, k: u32, s: u32)
    by (bit_vector)
    requires
        k < 32,
        s < 32,
    ensures
        (((a & b) >> k) & 1 == 1) <==> ((a >> k) & 1 == 1 && (b >> k) & 1 == 1),
        (((a | b) >> k) & 1 == 1) <==> ((a >> k) & 1 == 1 || (b >> k) & 1 == 1),
        (((a ^ b) >> k) & 1 == 1) <==> ((a >> k) & 1 == 1) != ((b >> k) & 1 == 1),
        (((!a) >> k) & 1 == 1) <==> !((a >> k) & 1 == 1),
        (((a << s) >> k) & 1 == 1) <==> (k >= s && (a >> ((k - s) as u32)) & 1 == 1),
        (((a >> s) >> k) & 1 == 1) <==> (k + s < 32 && (a >> ((k + s) as u32)) & 1 == 1),
        ((1u32 << s) >> k) & 1 == 1 <==> k == s,
        !((0u32 >> k) & 1 == 1),
        ((7u32 >> k) & 1 == 1) <==> k < 3,
        ((0x1FFu32 >> k) & 1 == 1) <==> k < 9,
        ((0x7FF_FFFFu32 >> k) & 1 == 1) <==> k < 27,
        a & b <= a,
        (a ^ b) == 0 <==> a == b,
{
}

pub broadcast proof fn lemma_and32(a: u32, b: u32, i: int)
    ensures
        #[trigger] bit32(a & b, i) <==> bit32(a, i) && bit32(b, i),
{
    reveal(bit32);
    if 0 <= i < 32 {
        word_ops32(a, b, i as u32, 0);
    }
}

pub broadcast proof fn lemma_or32(a: u32, b: u32, i: int)
    ensures
        #[trigger] bit32(a | b, i) <==> bit32(a, i) || bit32(b, i),
{
    reveal(bit32);
    if 0 <= i < 32 {
        word_ops32(a, b, i as u32, 0);
    }
}

pub broadcast proof fn lemma_xor32(a: u32, b: u32, i: int)
    ensures
        #[trigger] bit32(a ^ b, i) <==> bit32(a, i) != bit32(b, i),
{
    reveal(bit32);
    if 0 <= i < 32 {
        word_ops32(a, b, i as u32, 0);
    }
}

pub broadcast proof fn lemma_not32(a: u32, i: int)
    ensures
        #[trigger] bit32(!a, i) <==> 0 <= i < 32 && !bit32(a, i),
{
    reveal(bit32);
    if 0 <= i < 32 {
        word_ops32(a, 0, i as u32, 0);
    }
}

pub broadcast proof fn lemma_shl32(a: u32, s: u32, i: int)
    requires
        s < 32,
    ensures
        #[trigger] bit32(a << s, i) <==> s <= i < 32 && bit32(a, i - s),
{
    reveal(bit32);
    if 0 <= i < 32 {
        word_ops32(a, 0, i as u32, s);
    }
}

pub broadcast proof fn lemma_shr32(a: u32, s: u32, i: int)
    requires
        s < 32,
    ensures
        #[trigger] bit32(a >> s, i) <==> 0 <= i && bit32(a, i + s),
{
    reveal(bit32);
    if 0 <= i < 32 {
        word_ops32(a, 0, i as u32, s);
    }
}

pub broadcast proof fn lemma_one32(s: u32, i: int)
    requires
        s < 32,
    ensures
        #[trigger] bit32(1u32 << s, i) <==> i == s,
{
    reveal(bit32);
    if 0 <= i < 32 {
        word_ops32(0, 0, i as u32, s);
    }
}

pub broadcast proof fn lemma_range32(m: u32, i: int)
    ensures
        #[trigger] bit32(m, i) ==> 0 <= i < 32,
        m == 0 ==> !bit32(m, i),
{
    reveal(bit32);
    if 0 <= i < 32 {
        word_ops32(0, 0, i as u32, 0);
    }
}

pub broadcast group group_bits32 {
    lemma_and32,
    lemma_or32,
    lemma_xor32,
    lemma_not32,
    lemma_shl32,
    lemma_shr32,
    lemma_one32,
    lemma_range32,
}

/// A word with no bit set is zero.
pub proof fn lemma_nonzero32(m: u32) -> (t: int)
    requires
        m != 0,
    ensures
        0 <= t < 32,
        bit32(m, t),
        forall|j: int| 0 <= j < t ==> !bit32(m, j),
        t == vstd::std_specs::bits::u32_trailing_zeros(m),
{
    reveal(bit32);
    vstd::std_specs::bits::axiom_u32_trailing_zeros(m);
    let t = vstd::std_specs::bits::u32_trailing_zeros(m) as int;
    assert forall|j: int| 0 <= j < t implies !bit32(m, j) by {
        assert((m >> (j as u32)) & 1 == 0);
    }
    t
}

/// Two words with the same bits are equal.
pub proof fn lemma_ext32(a: u32, b: u32)
    requires
        forall|i: int| 0 <= i < 32 ==> bit32(a, i) == bit32(b, i),
    ensures
        a == b,
{
    broadcast use group_bits32;
    word_ops32(a, b, 0, 0);
    if a != b {
        let t = lemma_nonzero32(a ^ b);
        assert(bit32(a ^ b, t));
    }
}

/// A subset is numerically no larger, and smaller unless equal.
pub proof fn lemma_subset32(a: u32, b: u32)
    requires
        forall|i: int| 0 <= i < 32 && bit32(a, i) ==> bit32(b, i),
    ensures
        a <= b,
        a != b ==> a < b,
        a == a & b,
{
    broadcast use group_bits32;
    lemma_ext32(a & b, a);
    lemma_ext32(b & a, a);
    word_ops32(b, a, 0, 0);
}

proof fn clear_lowest32(m: u32, t: u32, w: u32, k: u32)
    by (bit_vector)
    requires
        m != 0,
        t < 32,
        w == 32 - t,
        (m >> t) & 1 == 1,
        m << w == 0,
        k < 32,
    ensures
        ((m & ((m - 1) as u32)) >> k) & 1 == 1 <==> (m >> k) & 1 == 1 && k != t,
{
}

/// Index of the lowest set bit.
pub fn lowest32(m: u32) -> (t: usize)
    requires
        m != 0,
    ensures
        t < 32,
        bit32(m, t as int),
        forall|j: int| 0 <= j < t ==> !bit32(m, j),
{
    proof {
        let _ = lemma_nonzero32(m);
    }
    m.trailing_zeros() as usize
}

/// `m` without its lowest set bit.
pub fn without_lowest32(m: u32) -> (r: u32)
    requires
        m != 0,
    ensures
        r < m,
        exists|t: int|
            #![trigger bit32(m, t)]
            bit32(m, t) && (forall|j: int| 0 <= j < t ==> !bit32(m, j)) && (forall|i: int|
                bit32(r, i) <==> bit32(m, i) && i != t),
{
    let r = m & (m - 1);
    proof {
        broadcast use group_bits32;
        let t = lemma_nonzero32(m);
        vstd::std_specs::bits::axiom_u32_trailing_zeros(m);
        let w = (32 - t) as u32;
        reveal(bit32);
        assert forall|i: int| bit32(r, i) <==> bit32(m, i) && i != t by {
            if 0 <= i < 32 {
                clear_lowest32(m, t as u32, w, i as u32);
            }
        }
        lemma_subset32(r, m);
        assert(bit32(m, t) && !bit32(r, t));
    }
    r
}

/// Number of set bits.
pub open spec fn pop32(m: u32) -> nat {
    count(|i: int| bit32(m, i), 32)
}

/// Counts the set bits of `m`.
pub fn count_ones32(m: u32) -> (n: u32)
    ensures
        n == pop32(m),
        n <= 32,
{
    broadcast use group_bits32;
    let mut n: u32 = 0;
    let mut i: u32 = 0;
    let ghost f = |j: int| bit32(m, j);
    while i < 32
        invariant
            i <= 32,
            n <= i,
            n == count(f, i as nat),
            f == (|j: int| bit32(m, j)),
        decreases 32 - i,
    {
        if (m >> i) & 1 == 1 {
            n = n + 1;
        }
        proof {
            reveal(bit32);
            assert(f(i as int) <==> (m >> i) & 1 == 1);
        }
        i = i + 1;
    }
    n
}

/// The words of consecutive low bits that the library uses.
pub proof fn lemma_low_masks32()
    ensures
        forall|i: int| #[trigger] bit32(7u32, i) <==> 0 <= i < 3,
        forall|i: int| #[trigger] bit32(0x1FFu32, i) <==> 0 <= i < 9,
        forall|i: int| #[trigger] bit32(0x7FF_FFFFu32, i) <==> 0 <= i < 27,
{
    reveal(bit32);
    assert forall|i: int| #[trigger] bit32(7u32, i) <==> 0 <= i < 3 by {
        if 0 <= i < 32 {
            word_ops32(0, 0, i as u32, 0);
        }
    }
    assert forall|i: int| #[trigger] bit32(0x1FFu32, i) <==> 0 <= i < 9 by {
        if 0 <= i < 32 {
            word_ops32(0, 0, i as u32, 0);
        }
    }
    assert forall|i: int| #[trigger] bit32(0x7FF_FFFFu32, i) <==> 0 <= i < 27 by {
        if 0 <= i < 32 {
            word_ops32(0, 0, i as u32, 0);
        }
    }
}

/// Bit `i` of `m` is set.
#[verifier::opaque]
pub open spec fn bit64(m: u64, i: int) -> bool {
    0 <= i < 64 && (m >> (i as u64)) & 1 == 1
}

proof fn word_ops64(a: u64, b: u64, k: u64, s: u64)
    by (bit_vector)
    requires
        k < 64,
        s < 64,
    ensures
        (((a & b) >> k) & 1 == 1) <==> ((a >> k) & 1 == 1 && (b >> k) & 1 == 1),
        (((a | b) >> k) & 1 == 1) <==> ((a >> k) & 1 == 1 || (b >> k) & 1 == 1),
        (((a ^ b) >> k) & 1 == 1) <==> ((a >> k) & 1 == 1) != ((b >> k) & 1 == 1),
        (((!a) >> k) & 1 == 1) <==> !((a >> k) & 1 == 1),
        (((a << s) >> k) & 1 == 1) <==> (k >= s && (a >> ((k - s) as u64)) & 1 == 1),
        (((a >> s) >> k) & 1 == 1) <==> (k + s < 64 && (a >> ((k + s) as u64)) & 1 == 1),
        ((1u64 << s) >> k) & 1 == 1 <==> k == s,
        !((0u64 >> k) & 1 == 1),
        ((0x3F_FFFF_FFFF_FFFFu64 >> k) & 1 == 1) <==> k < 54,
        a & b <= a,
        (a ^ b) == 0 <==> a == b,
{
}

pub broadcast proof fn lemma_and64(a: u64, b: u64, i: int)
    ensures
        #[trigger] bit64(a & b, i) <==> bit64(a, i) && bit64(b, i),
{
    reveal(bit64);
    if 0 <= i < 64 {
        word_ops64(a, b, i as u64, 0);
    }
}

pub broadcast proof fn lemma_or64(a: u64, b: u64, i: int)
    ensures
        #[trigger] bit64(a | b, i) <==> bit64(a, i) || bit64(b, i),
{
    reveal(bit64);
    if 0 <= i < 64 {
        word_ops64(a, b, i as u64, 0);
    }
}

pub broadcast proof fn lemma_xor64(a: u64, b: u64, i: int)
    ensures
        #[trigger] bit64(a ^ b, i) <==> bit64(a, i) != bit64(b, i),
{
    reveal(bit64);
    if 0 <= i < 64 {
        word_ops64(a, b, i as u64, 0);
    }
}

pub broadcast proof fn lemma_not64(a: u64, i: int)
    ensures
        #[trigger] bit64(!a, i) <==> 0 <= i < 64 && !bit64(a, i),
{
    reveal(bit64);
    if 0 <= i < 64 {
        word_ops64(a, 0, i as u64, 0);
    }
}

pub broadcast proof fn lemma_shl64(a: u64, s: u64, i: int)
    requires
        s < 64,
    ensures
        #[trigger] bit64(a << s, i) <==> s <= i < 64 && bit64(a, i - s),
{
    reveal(bit64);
    if 0 <= i < 64 {
        word_ops64(a, 0, i as u64, s);
    }
}

pub broadcast proof fn lemma_shr64(a: u64, s: u64, i: int)
    requires
        s < 64,
    ensures
        #[trigger] bit64(a >> s, i) <==> 0 <= i && bit64(a, i + s),
{
    reveal(bit64);
    if 0 <= i < 64 {
        word_ops64(a, 0, i as u64, s);
    }
}

pub broadcast proof fn lemma_one64(s: u64, i: int)
    requires
        s < 64,
    ensures
        #[trigger] bit64(1u64 << s, i) <==> i == s,
{
    reveal(bit64);
    if 0 <= i < 64 {
        word_ops64(0, 0, i as u64, s);
    }
}

pub broadcast proof fn lemma_range64(m: u64, i: int)
    ensures
        #[trigger] bit64(m, i) ==> 0 <= i < 64,
        m == 0 ==> !bit64(m, i),
{
    reveal(bit64);
    if 0 <= i < 64 {
        word_ops64(0, 0, i as u64, 0);
    }
}

pub broadcast group group_bits64 {
    lemma_and64,
    lemma_or64,
    lemma_xor64,
    lemma_not64,
    lemma_shl64,
    lemma_shr64,
    lemma_one64,
    lemma_range64,
}

/// A word with no bit set is zero.
pub proof fn lemma_nonzero64(m: u64) -> (t: int)
    requires
        m != 0,
    ensures
        0 <= t < 64,
        bit64(m, t),
        forall|j: int| 0 <= j < t ==> !bit64(m, j),
        t == vstd::std_specs::bits::u64_trailing_zeros(m),
{
    reveal(bit64);
    vstd::std_specs::bits::axiom_u64_trailing_zeros(m);
    let t = vstd::std_specs::bits::u64_trailing_zeros(m) as int;
    assert forall|j: int| 0 <= j < t implies !bit64(m, j) by {
        assert((m >> (j as u64)) & 1 == 0);
    }
    t
}

/// Two words with the same bits are equal.
pub proof fn lemma_ext64(a: u64, b: u64)
    requires
        forall|i: int| 0 <= i < 64 ==> bit64(a, i) == bit64(b, i),
    ensures
        a == b,
{
    broadcast use group_bits64;
    word_ops64(a, b, 0, 0);
    if a != b {
        let t = lemma_nonzero64(a ^ b);
        assert(bit64(a ^ b, t));
    }
}

/// A subset is numerically no larger, and smaller unless equal.
pub proof fn lemma_subset64(a: u64, b: u64)
    requires
        forall|i: int| 0 <= i < 64 && bit64(a, i) ==> bit64(b, i),
    ensures
        a <= b,
        a != b ==> a < b,
        a == a & b,
{
    broadcast use group_bits64;
    lemma_ext64(a & b, a);
    lemma_ext64(b & a, a);
    word_ops64(b, a, 0, 0);
}

proof fn clear_lowest64(m: u64, t: u64, w: u64, k: u64)
    by (bit_vector)
    requires
        m != 0,
        t < 64,
        w == 64 - t,
        (m >> t) & 1 == 1,
        m << w == 0,
        k < 64,
    ensures
        ((m & ((m - 1) as u64)) >> k) & 1 == 1 <==> (m >> k) & 1 == 1 && k != t,
{
}

/// Index of the lowest set bit.
pub fn lowest64(m: u64) -> (t: usize)
    requires
        m != 0,
    ensures
        t < 64,
        bit64(m, t as int),
        forall|j: int| 0 <= j < t ==> !bit64(m, j),
{
    proof {
        let _ = lemma_nonzero64(m);
    }
    m.trailing_zeros() as usize
}

/// `m` without its lowest set bit.
pub fn without_lowest64(m: u64) -> (r: u64)
    requires
        m != 0,
    ensures
        r < m,
        exists|t: int|
            #![trigger bit64(m, t)]
            bit64(m, t) && (forall|j: int| 0 <= j < t ==> !bit64(m, j)) && (forall|i: int|
                bit64(r, i) <==> bit64(m, i) && i != t),
{
    let r = m & (m - 1);
    proof {
        broadcast use group_bits64;
        let t = lemma_nonzero64(m);
        vstd::std_specs::bits::axiom_u64_trailing_zeros(m);
        let w = (64 - t) as u64;
        reveal(bit64);
        assert forall|i: int| bit64(r, i) <==> bit64(m, i) && i != t by {
            if 0 <= i < 64 {
                clear_lowest64(m, t as u64, w, i as u64);
            }
        }
        lemma_subset64(r, m);
        assert(bit64(m, t) && !bit64(r, t));
    }
    r
}

/// The words of consecutive low bits that the library uses.
pub proof fn lemma_low_masks64()
    ensures
        forall|i: int| #[trigger] bit64(0x3F_FFFF_FFFF_FFFFu64, i) <==> 0 <= i < 54,
{
    reveal(bit64);
    assert forall|i: int| #[trigger] bit64(0x3F_FFFF_FFFF_FFFFu64, i) <==> 0 <= i < 54 by {
        if 0 <= i < 64 {
            word_ops64(0, 0, i as u64, 0);
        }
    }
}

/// Bit `i` of `m` is set.
#[verifier::opaque]
pub open spec fn bit128(m: u128, i: int) -> bool {
    0 <= i < 128 && (m >> (i as u128)) & 1 == 1
}

proof fn word_ops128(a: u128, b: u128, k: u128, s: u128)
    by (bit_vector)
    requires
        k < 128,
        s < 128,
    ensures
        (((a & b) >> k) & 1 == 1) <==> ((a >> k) & 1 == 1 && (b >> k) & 1 == 1),
        (((a | b) >> k) & 1 == 1) <==> ((a >> k) & 1 == 1 || (b >> k) & 1 == 1),
        (((a ^ b) >> k) & 1 == 1) <==> ((a >> k) & 1 == 1) != ((b >> k) & 1 == 1),
        (((!a) >> k) & 1 == 1) <==> !((a >> k) & 1 == 1),
        ((1u128 << s) >> k) & 1 == 1 <==> k == s,
        !((0u128 >> k) & 1 == 1),
        ((0x1_FFFF_FFFF_FFFF_FFFF_FFFFu128 >> k) & 1 == 1) <==> k < 81,
        a & b <= a,
        (a ^ b) == 0 <==> a == b,
{
}

pub broadcast proof fn lemma_and128(a: u128, b: u128, i: int)
    ensures
        #[trigger] bit128(a & b, i) <==> bit128(a, i) && bit128(b, i),
{
    reveal(bit128);
    if 0 <= i < 128 {
        word_ops128(a, b, i as u128, 0);
    }
}

pub broadcast proof fn lemma_or128(a: u128, b: u128, i: int)
    ensures
        #[trigger] bit128(a | b, i) <==> bit128(a, i) || bit128(b, i),
{
    reveal(bit128);
    if 0 <= i < 128 {
        word_ops128(a, b, i as u128, 0);
    }
}

pub broadcast proof fn lemma_xor128(a: u128, b: u128, i: int)
    ensures
        #[trigger] bit128(a ^ b, i) <==> bit128(a, i) != bit128(b, i),
{
    reveal(bit128);
    if 0 <= i < 128 {
        word_ops128(a, b, i as u128, 0);
    }
}

pub broadcast proof fn lemma_not128(a: u128, i: int)
    ensures
        #[trigger] bit128(!a, i) <==> 0 <= i < 128 && !bit128(a, i),
{
    reveal(bit128);
    if 0 <= i < 128 {
        word_ops128(a, 0, i as u128, 0);
    }
}

pub broadcast proof fn lemma_one128(s: u128, i: int)
    requires
        s < 128,
    ensures
        #[trigger] bit128(1u128 << s, i) <==> i == s,
{
    reveal(bit128);
    if 0 <= i < 128 {
        word_ops128(0, 0, i as u128, s);
    }
}

pub broadcast proof fn lemma_range128(m: u128, i: int)
    ensures
        #[trigger] bit128(m, i) ==> 0 <= i < 128,
        m == 0 ==> !bit128(m, i),
{
    reveal(bit128);
    if 0 <= i < 128 {
        word_ops128(0, 0, i as u128, 0);
    }
}

pub broadcast group group_bits128 {
    lemma_and128,
    lemma_or128,
    lemma_xor128,
    lemma_not128,
    lemma_one128,
    lemma_range128,
}

/// The words of consecutive low bits that the library uses.
pub proof fn lemma_low_masks128()
    ensures
        forall|i: int| #[trigger] bit128(0x1_FFFF_FFFF_FFFF_FFFF_FFFFu128, i) <==> 0 <= i < 81,
{
    reveal(bit128);
    assert forall|i: int| #[trigger] bit128(0x1_FFFF_FFFF_FFFF_FFFF_FFFFu128, i) <==> 0 <= i < 81 by {
        if 0 <= i < 128 {
            word_ops128(0, 0, i as u128, 0);
        }
    }
}

// ---------------------------------------------------------------------------
// Sums, as termination measures
// ---------------------------------------------------------------------------

/// Sum of the words of a sequence.
pub open spec fn total32(s: Seq<u32>) -> nat
    decreases s.len(),
{
    if s.len() == 0 {
        0
    } else {
        total32(s.drop_last()) + s.last() as nat
    }
}

/// Sum of the words of a sequence.
pub open spec fn total16(s: Seq<u16>) -> nat
    decreases s.len(),
{
    if s.len() == 0 {
        0
    } else {
        total16(s.drop_last()) + s.last() as nat
    }
}

/// Pointwise smaller words have a smaller sum, strictly so if one word is
/// strictly smaller.
pub proof fn lemma_total32(a: Seq<u32>, b: Seq<u32>)
    requires
        a.len() == b.len(),
        forall|i: int| 0 <= i < a.len() ==> #[trigger] a[i] <= b[i],
    ensures
        total32(a) <= total32(b),
        (exists|i: int| 0 <= i < a.len() && #[trigger] a[i] != b[i]) ==> total32(a) < total32(b),
    decreases a.len(),
{
    if a.len() > 0 {
        let (p, q) = (a.drop_last(), b.drop_last());
        assert forall|i: int| 0 <= i < p.len() implies #[trigger] p[i] <= q[i] by {
            assert(p[i] == a[i] && q[i] == b[i]);
        }
        lemma_total32(p, q);
        assert(a.last() <= b.last());
        if exists|i: int| 0 <= i < a.len() && #[trigger] a[i] != b[i] {
            let i = choose|i: int| 0 <= i < a.len() && #[trigger] a[i] != b[i];
            if i < p.len() {
                assert(p[i] != q[i]);
            }
        }
    }
}

/// Pointwise smaller words have a smaller sum, strictly so if one word is
/// strictly smaller.
pub proof fn lemma_total16(a: Seq<u16>, b: Seq<u16>)
    requires
        a.len() == b.len(),
        forall|i: int| 0 <= i < a.len() ==> #[trigger] a[i] <= b[i],
    ensures
        total16(a) <= total16(b),
        (exists|i: int| 0 <= i < a.len() && #[trigger] a[i] != b[i]) ==> total16(a) < total16(b),
    decreases a.len(),
{
    if a.len() > 0 {
        let (p, q) = (a.drop_last(), b.drop_last());
        assert forall|i: int| 0 <= i < p.len() implies #[trigger] p[i] <= q[i] by {
            assert(p[i] == a[i] && q[i] == b[i]);
        }
        lemma_total16(p, q);
        assert(a.last() <= b.last());
        if exists|i: int| 0 <= i < a.len() && #[trigger] a[i] != b[i] {
            let i = choose|i: int| 0 <= i < a.len() && #[trigger] a[i] != b[i];
            if i < p.len() {
                assert(p[i] != q[i]);
            }
        }
    }
}

/// Setting one bit adds one to the count, unless the bit was set.
pub proof fn lemma_pop_set32(m: u32, k: u32)
    requires
        k < 32,
    ensures
        pop32(m | (1u32 << k)) == pop32(m) + if bit32(m, k as int) {
            0int
        } else {
            1int
        },
{
    broadcast use group_bits32;

    let n = m | (1u32 << k);
    let f = |i: int| bit32(m, i);
    let g = |i: int| bit32(n, i);
    if bit32(m, k as int) {
        lemma_count_mono(f, g, 32);
        lemma_count_mono(g, f, 32);
    } else {
        assert(g(k as int));
        lemma_count_drop(f, g, 32, k as int);
    }
}

/// A 27-bit word has no bits above.
pub proof fn lemma_small32(m: u32, p: int)
    requires
        m <= 0x7FF_FFFF,
        bit32(m, p),
    ensures
        0 <= p < 27,
{
    reveal(bit32);
    let k = p as u32;
    assert(m <= 0x7FF_FFFF && k < 32 && (m >> k) & 1 == 1 ==> k < 27) by (bit_vector);
}

/// A 9-bit word keeps its bits when it is narrowed.
pub proof fn lemma_narrow(m: u32)
    requires
        m <= 0x1FF,
    ensures
        (m as u16) <= 0x1FF,
        forall|i: int| #[trigger] bit16(m as u16, i) <==> bit32(m, i),
{
    assert forall|i: int| #[trigger] bit16(m as u16, i) <==> bit32(m, i) by {
        reveal(bit16);
        reveal(bit32);
        if 0 <= i < 32 {
            let k = i as u32;
            assert(m <= 0x1FF && k < 32 ==> ((m >> k) & 1 == 1 <==> (k < 16 && ((m as u16) >> (
            k as u16)) & 1 == 1))) by (bit_vector);
        }
    }
}

/// A set without members counts zero.
pub proof fn lemma_count_none(f: spec_fn(int) -> bool, n: nat)
    requires
        forall|i: int| 0 <= i < n ==> !#[trigger] f(i),
    ensures
        count(f, n) == 0,
    decreases n,
{
    if n > 0 {
        lemma_count_none(f, (n - 1) as nat);
    }
}

/// With at most one member, a member excludes the others.
pub proof fn lemma_count_lone(f: spec_fn(int) -> bool, n: nat, a: int, b: int)
    requires
        count(f, n) <= 1,
        0 <= a < n,
        0 <= b < n,
        a != b,
        f(a),
    ensures
        !f(b),
{
    if f(b) {
        let f1 = |i: int| f(i) && i != a;
        let f2 = |i: int| f1(i) && i != b;
        lemma_count_drop(f1, f, n, a);
        lemma_count_drop(f2, f1, n, b);
    }
}

/// A member makes the count positive.
pub proof fn lemma_count_some(f: spec_fn(int) -> bool, n: nat, a: int)
    requires
        0 <= a < n,
        f(a),
    ensures
        count(f, n) >= 1,
{
    let f1 = |i: int| f(i) && i != a;
    lemma_count_drop(f1, f, n, a);
}

/// A positive count has a member.
pub proof fn lemma_count_witness(f: spec_fn(int) -> bool, n: nat) -> (a: int)
    requires
        count(f, n) >= 1,
    ensures
        0 <= a < n,
        f(a),
    decreases n,
{
    if f(n - 1) {
        n - 1
    } else {
        lemma_count_witness(f, (n - 1) as nat)
    }
}

/// A count of two or more has a member besides any given one.
pub proof fn lemma_count_second(f: spec_fn(int) -> bool, n: nat, a: int) -> (b: int)
    requires
        count(f, n) >= 2,
        0 <= a < n,
        f(a),
    ensures
        0 <= b < n,
        b != a,
        f(b),
{
    let f1 = |i: int| f(i) && i != a;
    lemma_count_drop(f1, f, n, a);
    lemma_count_witness(f1, n)
}

/// The members of a 27-bit word are counted below 27.
pub proof fn lemma_pop_band(m: u32)
    requires
        m <= 0x7FF_FFFF,
    ensures
        pop32(m) == count(|i: int| bit32(m, i), 27),
{
    let f = |i: int| bit32(m, i);
    assert forall|i: int| 27 <= i < 32 implies !#[trigger] f(i) by {
        if f(i) {
            lemma_small32(m, i);
        }
    }
    assert(!f(27) && !f(28) && !f(29) && !f(30) && !f(31));
    reveal_with_fuel(count, 6);
}

/// The lowest bit is zero or one.
pub proof fn lemma_low_bit32(m: u32)
    by (bit_vector)
    ensures
        m & 1 == 0 || m & 1 == 1,
{
}

/// Three set bits and no fourth: what is not one of three members is no member.
pub proof fn lemma_count_at_most_two(f: spec_fn(int) -> bool, n: nat, a: int, b: int, c: int)
    requires
        count(f, n) <= 2,
        0 <= a < n,
        0 <= b < n,
        0 <= c < n,
        a != b,
        a != c,
        b != c,
        f(a),
        f(b),
    ensures
        !f(c),
{
    if f(c) {
        let f1 = |i: int| f(i) && i != a;
        let f2 = |i: int| f1(i) && i != b;
        let f3 = |i: int| f2(i) && i != c;
        lemma_count_drop(f1, f, n, a);
        lemma_count_drop(f2, f1, n, b);
        lemma_count_drop(f3, f2, n, c);
    }
}

/// A 9-bit set is counted below 9.
pub proof fn lemma_pop9(m: u16)
    requires
        m <= 0x1FF,
    ensures
        pop16(m) == count(|i: int| bit16(m, i), 9),
        pop16(m) <= 9,
{
    let f = |i: int| bit16(m, i);
    assert forall|i: int| 9 <= i < 16 implies !#[trigger] f(i) by {
        if f(i) {
            lemma_small9(m, i);
        }
    }
    reveal_with_fuel(count, 8);
    assert(!f(9) && !f(10) && !f(11) && !f(12) && !f(13) && !f(14) && !f(15));
    assert(count(f, 16) == count(f, 9));
    lemma_count_mono(f, f, 9);
}

/// A 9-bit set has no digit from 9 up.
pub proof fn lemma_small9(m: u16, i: int)
    requires
        m <= 0x1FF,
        bit16(m, i),
    ensures
        0 <= i < 9,
{
    reveal(bit16);
    let k = i as u16;
    assert(m <= 0x1FFu16 && k < 16 && (m >> k) & 1 == 1 ==> k < 9) by (bit_vector);
}

} // verus!
