//! The lookup tables of the band engine, each with the definition it is
//! built from.

use vstd::prelude::*;
use crate::bits::{
    bit16, bit32, group_bits16, group_bits32, lemma_low_masks16, lemma_low_masks32, lemma_narrow,
    lemma_nonzero16, lemma_small32, lemma_subset16, lemma_subset32,
};
use crate::layout::band_cell;
use crate::minirow::{
    build_closed, build_expand, build_forced, closed_at, closes, forced_at, has_perm, is_pattern,
    occupied, BAND_ALL,
};

verus! {

broadcast use {group_bits16, group_bits32};

/// Part `j` of the nine-bit line `v` is not empty.
pub open spec fn part_occupied(v: u16, j: int) -> bool {
    0 <= j < 3 && (bit16(v, 3 * j) || bit16(v, 3 * j + 1) || bit16(v, 3 * j + 2))
}

/// Cells `p` and `q` of a band share a line or a box; those that share a
/// column share the box.
pub open spec fn touching(p: int, q: int) -> bool {
    p / 9 == q / 9 || (p % 9) / 3 == (q % 9) / 3
}

/// For every nine-bit line the set of its occupied parts.
pub fn build_shrink() -> (t: [u16; 512])
    ensures
        forall|v: int, j: int|
            0 <= v < 512 ==> (#[trigger] bit16(t[v], j) <==> part_occupied(v as u16, j)),
        forall|v: int| 0 <= v < 512 ==> #[trigger] t[v] <= 7,
{
    let mut t: [u16; 512] = [0;512];
    let mut v: usize = 0;
    proof {
        lemma_low_masks16();
    }
    while v < 512
        invariant
            v <= 512,
            forall|u: int, j: int|
                0 <= u < v ==> (#[trigger] bit16(t[u], j) <==> part_occupied(u as u16, j)),
            forall|i: int| #[trigger] bit16(7u16, i) <==> 0 <= i < 3,
        decreases 512 - v,
    {
        let w = v as u16;
        let mut s: u16 = 0;
        let mut j: u16 = 0;
        while j < 3
            invariant
                j <= 3,
                w == v as u16,
                forall|i: int| #[trigger] bit16(7u16, i) <==> 0 <= i < 3,
                forall|i: int| #[trigger] bit16(s, i) <==> i < j && part_occupied(w, i),
            decreases 3 - j,
        {
            let part = w & (7u16 << (3 * j));
            if part != 0 {
                s = s | (1u16 << j);
            }
            proof {
                if part != 0 {
                    let i = lemma_nonzero16(part);
                    assert(bit16(w, i) && bit16(7u16 << (3 * j), i));
                    assert(i == 3 * j || i == 3 * j + 1 || i == 3 * j + 2);
                }
                if part_occupied(w, j as int) {
                    assert(bit16(part, 3 * j as int) || bit16(part, 3 * j + 1) || bit16(
                        part,
                        3 * j + 2,
                    ));
                }
            }
            j = j + 1;
        }
        t[v] = s;
        v = v + 1;
    }
    proof {
        assert forall|u: int| 0 <= u < 512 implies #[trigger] t[u] <= 7 by {
            lemma_subset16(t[u], 7);
        }
    }
    t
}

/// For every minirow the minirows of its line.
pub fn build_minirow_row() -> (t: [u16; 9])
    ensures
        forall|i: int, j: int|
            0 <= i < 9 ==> (#[trigger] bit16(t[i], j) <==> 0 <= j < 9 && j / 3 == i / 3),
{
    let mut t: [u16; 9] = [0;9];
    let mut i: usize = 0;
    while i < 9
        invariant
            i <= 9,
            forall|k: int, j: int|
                0 <= k < i ==> (#[trigger] bit16(t[k], j) <==> 0 <= j < 9 && j / 3 == k / 3),
        decreases 9 - i,
    {
        t[i] = 7u16 << (3 * ((i / 3) as u16));
        proof {
            lemma_low_masks16();
        }
        i = i + 1;
    }
    t
}

/// For every minirow the minirows of its box.
pub fn build_minirow_box() -> (t: [u16; 9])
    ensures
        forall|i: int, j: int|
            0 <= i < 9 ==> (#[trigger] bit16(t[i], j) <==> 0 <= j < 9 && j % 3 == i % 3),
{
    let mut t: [u16; 9] = [0;9];
    let mut i: usize = 0;
    while i < 9
        invariant
            i <= 9,
            forall|k: int, j: int|
                0 <= k < i ==> (#[trigger] bit16(t[k], j) <==> 0 <= j < 9 && j % 3 == k % 3),
        decreases 9 - i,
    {
        let x = (i % 3) as u16;
        t[i] = (1u16 << x) | (1u16 << (x + 3)) | (1u16 << (x + 6));
        i = i + 1;
    }
    t
}

/// Placing a digit at cell `i` of a band removes it from the rest of the
/// cell's line, box and column within the band, keeping the cell itself.
pub fn build_elim() -> (t: [u32; 27])
    ensures
        forall|i: int, p: int|
            0 <= i < 27 ==> (#[trigger] bit32(t[i], p) <==> 0 <= p < 27 && (p == i || !touching(
                p,
                i,
            ))),
{
    let mut t: [u32; 27] = [0;27];
    let mut i: usize = 0;
    while i < 27
        invariant
            i <= 27,
            forall|k: int, p: int|
                0 <= k < i ==> (#[trigger] bit32(t[k], p) <==> 0 <= p < 27 && (p == k || !touching(
                    p,
                    k,
                ))),
        decreases 27 - i,
    {
        let r: u32 = (i / 9) as u32;
        let c: u32 = (i % 9) as u32;
        let j: u32 = c / 3;
        let rowm = 0x1FFu32 << (9 * r);
        let seg = 7u32 << (3 * j);
        let boxm = seg | (seg << 9) | (seg << 18);
        let colm = (1u32 << c) | (1u32 << (c + 9)) | (1u32 << (c + 18));
        t[i] = (!(rowm | boxm | colm) | (1u32 << (i as u32))) & BAND_ALL;
        proof {
            lemma_low_masks32();
            assert forall|p: int| #[trigger] bit32(t[i as int], p) <==> 0 <= p < 27 && (p == i
                || !touching(p, i as int)) by {
                if 0 <= p < 27 {
                    assert(bit32(rowm, p) <==> p / 9 == i as int / 9);
                    assert(bit32(boxm, p) <==> (p % 9) / 3 == j) by {
                        assert(bit32(seg, p) <==> p < 9 && p / 3 == j);
                        assert(bit32(seg << 9, p) <==> 9 <= p < 18 && (p - 9) / 3 == j);
                        assert(bit32(seg << 18, p) <==> 18 <= p < 27 && (p - 18) / 3 == j);
                    }
                    assert(bit32(colm, p) <==> p % 9 == c);
                }
            }
        }
        i = i + 1;
    }
    t
}

/// For every digit set the word with bit `3 * e` for each of its digits.
pub fn build_spread() -> (t: [u32; 512])
    ensures
        forall|v: int, p: int|
            0 <= v < 512 ==> (#[trigger] bit32(t[v], p) <==> 0 <= p < 27 && p % 3 == 0 && bit16(
                v as u16,
                p / 3,
            )),
{
    let mut t: [u32; 512] = [0;512];
    let mut v: usize = 0;
    while v < 512
        invariant
            v <= 512,
            forall|u: int, p: int|
                0 <= u < v ==> (#[trigger] bit32(t[u], p) <==> 0 <= p < 27 && p % 3 == 0 && bit16(
                    u as u16,
                    p / 3,
                )),
        decreases 512 - v,
    {
        let w = v as u16;
        let mut m: u32 = 0;
        let mut e: u16 = 0;
        while e < 9
            invariant
                e <= 9,
                w == v as u16,
                forall|p: int| #[trigger]
                    bit32(m, p) <==> 0 <= p < 3 * e && p % 3 == 0 && bit16(w, p / 3),
            decreases 9 - e,
        {
            let ghost m0 = m;
            if (w >> e) & 1 == 1 {
                m = m | (1u32 << (3 * (e as u32)));
            }
            proof {
                assert(bit16(w, e as int) <==> (w >> e) & 1 == 1) by {
                    reveal(bit16);
                }
                assert forall|p: int| #[trigger] bit32(m, p) <==> 0 <= p < 3 * (e + 1) && p % 3
                    == 0 && bit16(w, p / 3) by {
                    if 3 * e <= p < 3 * e + 3 {
                        assert(p / 3 == e);
                    }
                }
            }
            e = e + 1;
        }
        t[v] = m;
        v = v + 1;
    }
    t
}

/// For every column the cells of a band in it.
pub fn build_col3() -> (t: [u32; 9])
    ensures
        forall|c: int, p: int|
            0 <= c < 9 ==> (#[trigger] bit32(t[c], p) <==> 0 <= p < 27 && p % 9 == c),
{
    let mut t: [u32; 9] = [0;9];
    let mut c: usize = 0;
    while c < 9
        invariant
            c <= 9,
            forall|k: int, p: int|
                0 <= k < c ==> (#[trigger] bit32(t[k], p) <==> 0 <= p < 27 && p % 9 == k),
        decreases 9 - c,
    {
        let x = c as u32;
        t[c] = (1u32 << x) | (1u32 << (x + 9)) | (1u32 << (x + 18));
        c = c + 1;
    }
    t
}

/// For every 3x3 bit matrix its transpose.
pub fn build_t9() -> (t: [u16; 512])
    ensures
        forall|v: int, i: int|
            0 <= v < 512 ==> (#[trigger] bit16(t[v], i) <==> 0 <= i < 9 && bit16(
                v as u16,
                3 * (i % 3) + i / 3,
            )),
{
    let mut t: [u16; 512] = [0;512];
    let mut v: usize = 0;
    while v < 512
        invariant
            v <= 512,
            forall|u: int, i: int|
                0 <= u < v ==> (#[trigger] bit16(t[u], i) <==> 0 <= i < 9 && bit16(
                    u as u16,
                    3 * (i % 3) + i / 3,
                )),
        decreases 512 - v,
    {
        let w = v as u16;
        let mut z: u16 = 0;
        let mut k: u16 = 0;
        while k < 9
            invariant
                k <= 9,
                w == v as u16,
                forall|i: int| #[trigger]
                    bit16(z, i) <==> 0 <= i < 9 && 3 * (i % 3) + i / 3 < k && bit16(
                        w,
                        3 * (i % 3) + i / 3,
                    ),
            decreases 9 - k,
        {
            let r = k / 3;
            let c = k % 3;
            let ghost z0 = z;
            if (w >> k) & 1 == 1 {
                z = z | (1u16 << (c * 3 + r));
            }
            proof {
                assert(bit16(w, k as int) <==> (w >> k) & 1 == 1) by {
                    reveal(bit16);
                }
                assert forall|i: int| #[trigger] bit16(z, i) <==> 0 <= i < 9 && 3 * (i % 3) + i / 3
                    < k + 1 && bit16(w, 3 * (i % 3) + i / 3) by {
                    if 0 <= i < 9 && 3 * (i % 3) + i / 3 == k {
                        assert(i % 3 == r && i / 3 == c);
                        assert(i == c * 3 + r);
                    }
                    if i == c * 3 + r {
                        assert(3 * (i % 3) + i / 3 == k);
                    }
                }
            }
            k = k + 1;
        }
        t[v] = z;
        v = v + 1;
    }
    t
}

/// For every cell of a stack, counted column by column, the band and the
/// position in it, packed as `32 * band + position`.
pub fn build_t2h() -> (t: [[u8; 27]; 3])
    ensures
        forall|s: int, i: int|
            0 <= s < 3 && 0 <= i < 27 ==> #[trigger] t[s][i] == 32 * ((i % 9) / 3) + 9 * ((i % 9)
                % 3) + 3 * s + i / 9,
{
    let mut t: [[u8; 27]; 3] = [[0;27];3];
    let mut s: usize = 0;
    while s < 3
        invariant
            s <= 3,
            forall|k: int, i: int|
                0 <= k < s && 0 <= i < 27 ==> #[trigger] t[k][i] == 32 * ((i % 9) / 3) + 9 * ((i
                    % 9) % 3) + 3 * k + i / 9,
        decreases 3 - s,
    {
        let mut line: [u8; 27] = [0;27];
        let mut i: usize = 0;
        while i < 27
            invariant
                i <= 27,
                s < 3,
                forall|k: int|
                    0 <= k < i ==> #[trigger] line[k] == 32 * ((k % 9) / 3) + 9 * ((k % 9) % 3) + 3
                        * s + k / 9,
            decreases 27 - i,
        {
            let cl = i / 9;
            let rr = i % 9;
            let c = s * 3 + cl;
            let b = rr / 3;
            let r = rr % 3;
            line[i] = (b * 32 + (r * 9 + c)) as u8;
            i = i + 1;
        }
        t[s] = line;
        s = s + 1;
    }
    t
}

/// The tables the propagation looks things up in.
pub struct Tables {
    pub shrink: [u16; 512],
    pub support: [u16; 512],
    pub forced: [u16; 512],
    pub minirow_row: [u16; 9],
    pub minirow_box: [u16; 9],
    pub expand: [u32; 512],
    pub elim: [u32; 27],
    pub spread: [u32; 512],
    pub col3: [u32; 9],
    pub t9: [u16; 512],
    pub t2h: [[u8; 27]; 3],
}

impl Tables {
    /// Every table holds what its definition says.
    #[verifier::opaque]
    pub open spec fn ok(&self) -> bool {
        &&& forall|v: int, j: int|
            0 <= v < 512 ==> (#[trigger] bit16(self.shrink[v], j) <==> part_occupied(v as u16, j))
        &&& forall|s: int, i: int|
            0 <= s < 512 ==> (#[trigger] bit16(self.support[s], i) <==> closed_at(s as u16, i))
        &&& forall|s: int| 0 <= s < 512 ==> #[trigger] self.support[s] <= 0x1FF
        &&& forall|s: int|
            0 <= s < 512 ==> (#[trigger] self.support[s] == 0 <==> !has_perm(s as u16))
        &&& forall|s: int, i: int|
            0 <= s < 512 ==> (#[trigger] bit16(self.forced[s], i) <==> forced_at(s as u16, i))
        &&& forall|i: int, j: int|
            0 <= i < 9 ==> (#[trigger] bit16(self.minirow_row[i], j) <==> 0 <= j < 9 && j / 3 == i
                / 3)
        &&& forall|i: int, j: int|
            0 <= i < 9 ==> (#[trigger] bit16(self.minirow_box[i], j) <==> 0 <= j < 9 && j % 3 == i
                % 3)
        &&& forall|m: int, p: int|
            0 <= m < 512 ==> (#[trigger] bit32(self.expand[m], p) <==> 0 <= p < 27 && bit16(
                m as u16,
                p / 3,
            ))
        &&& forall|i: int, p: int|
            0 <= i < 27 ==> (#[trigger] bit32(self.elim[i], p) <==> 0 <= p < 27 && (p == i
                || !touching(p, i)))
        &&& forall|v: int, p: int|
            0 <= v < 512 ==> (#[trigger] bit32(self.spread[v], p) <==> 0 <= p < 27 && p % 3 == 0
                && bit16(v as u16, p / 3))
        &&& forall|c: int, p: int|
            0 <= c < 9 ==> (#[trigger] bit32(self.col3[c], p) <==> 0 <= p < 27 && p % 9 == c)
        &&& forall|v: int, i: int|
            0 <= v < 512 ==> (#[trigger] bit16(self.t9[v], i) <==> 0 <= i < 9 && bit16(
                v as u16,
                3 * (i % 3) + i / 3,
            ))
        &&& forall|s: int, i: int|
            0 <= s < 3 && 0 <= i < 27 ==> #[trigger] self.t2h[s][i] == 32 * ((i % 9) / 3) + 9 * ((i
                % 9) % 3) + 3 * s + i / 9
    }

    pub fn new() -> (t: Tables)
        ensures
            t.ok(),
    {
        let t = Tables {
            shrink: build_shrink(),
            support: build_closed(),
            forced: build_forced(),
            minirow_row: build_minirow_row(),
            minirow_box: build_minirow_box(),
            expand: build_expand(),
            elim: build_elim(),
            spread: build_spread(),
            col3: build_col3(),
            t9: build_t9(),
            t2h: build_t2h(),
        };
        proof {
            reveal(Tables::ok);
        }
        t
    }

    /// The minirow pattern of a band's cells.
    pub fn pattern(&self, m: u32) -> (s: u16)
        requires
            self.ok(),
            m <= BAND_ALL,
        ensures
            is_pattern(s, m),
    {
        let a0 = m & 0x1FF;
        let a1 = (m >> 9) & 0x1FF;
        let a2 = m >> 18;
        proof {
            lemma_low_masks32();
            lemma_subset32(a0, 0x1FF);
            lemma_subset32(a1, 0x1FF);
            assert forall|i: int| 0 <= i < 32 && bit32(a2, i) implies bit32(0x1FF, i) by {
                lemma_small32(m, i + 18);
            }
            lemma_subset32(a2, 0x1FF);
            lemma_narrow(a0);
            lemma_narrow(a1);
            lemma_narrow(a2);
            reveal(Tables::ok);
        }
        let s = self.shrink[a0 as usize] | (self.shrink[a1 as usize] << 3) | (
        self.shrink[a2 as usize] << 6);
        proof {
            assert forall|i: int| #[trigger] bit16(s, i) <==> occupied(m, i) by {
                if 0 <= i < 9 {
                    let j = i % 3;
                    if i < 3 {
                        assert(bit16(s, i) <==> part_occupied(a0 as u16, i));
                    } else if i < 6 {
                        assert(bit16(s, i) <==> part_occupied(a1 as u16, i - 3));
                    } else {
                        assert(bit16(s, i) <==> part_occupied(a2 as u16, i - 6));
                    }
                }
            }
            lemma_low_masks16();
            lemma_subset16(s, 0x1FF);
        }
        s
    }

    /// The closure of a pattern.
    pub fn closure(&self, s: u16) -> (n: u16)
        requires
            self.ok(),
            s <= 0x1FF,
        ensures
            n <= 0x1FF,
            closes(n, s),
            n == 0 <==> !has_perm(s),
    {
        proof {
            reveal(Tables::ok);
            reveal(closes);
        }
        self.support[s as usize]
    }

    /// The minirows common to all permutations of a pattern.
    pub fn forced_in(&self, s: u16) -> (n: u16)
        requires
            self.ok(),
            s <= 0x1FF,
        ensures
            forall|i: int| #[trigger] bit16(n, i) <==> forced_at(s, i),
    {
        proof {
            reveal(Tables::ok);
        }
        self.forced[s as usize]
    }

    /// The cells of a set of minirows.
    pub fn cells(&self, m: u16) -> (n: u32)
        requires
            self.ok(),
            m <= 0x1FF,
        ensures
            forall|p: int| #[trigger] bit32(n, p) <==> 0 <= p < 27 && bit16(m, p / 3),
    {
        proof {
            reveal(Tables::ok);
        }
        self.expand[m as usize]
    }

    /// The band and the position in it of cell `i` of stack `s`.
    pub fn stack_cell(&self, s: usize, i: usize) -> (r: (usize, usize))
        requires
            self.ok(),
            s < 3,
            i < 27,
        ensures
            r.0 < 3,
            r.1 < 27,
            27 * r.0 + r.1 == band_cell(3 + s, i as int),
    {
        proof {
            reveal(Tables::ok);
            assert(self.t2h[s as int][i as int] == 32 * ((i as int % 9) / 3) + 9 * ((i as int % 9)
                % 3) + 3 * s + i as int / 9);
        }
        let h = self.t2h[s][i] as usize;
        (h / 32, h % 32)
    }
}

} // verus!
