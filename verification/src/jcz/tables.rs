//! The lookup tables of the board engine, each with the definition it is
//! built from.

use vstd::prelude::*;
use crate::bits::{
    bit16, bit32, group_bits16, group_bits32, lemma_low_masks16, lemma_low_masks32, lemma_subset16,
};
use crate::minirow::{
    build_closed_cells, build_expand, build_forced, closed_at, forced_at, has_perm, BAND_ALL,
};

verus! {

broadcast use {group_bits16, group_bits32};

/// Column `x` is the only occupied column of its box.
pub open spec fn only_col(cols: u16, x: int) -> bool {
    &&& 0 <= x < 9
    &&& bit16(cols, x)
    &&& forall|y: int| 0 <= y < 9 && y / 3 == x / 3 && #[trigger] bit16(cols, y) ==> y == x
}

/// Box `j` of the band has exactly one occupied column.
pub open spec fn box_in_one_col(cols: u16, j: int) -> bool {
    exists|x: int| x / 3 == j && #[trigger] only_col(cols, x)
}

/// Cells `p` and `q` of a band share a line or a box.
pub open spec fn near(p: int, q: int) -> bool {
    p / 9 == q / 9 || (p % 9) / 3 == (q % 9) / 3
}

/// The column of box `j` that alone is occupied, or 9 if there is no such column.
fn lone_column(cols: u16, j: u16) -> (x: u16)
    requires
        j < 3,
    ensures
        x < 9 ==> x / 3 == j && only_col(cols, x as int),
        x >= 9 ==> !box_in_one_col(cols, j as int),
{
    let a = (cols >> (3 * j)) & 1 == 1;
    let b = (cols >> (3 * j + 1)) & 1 == 1;
    let c = (cols >> (3 * j + 2)) & 1 == 1;
    proof {
        reveal(bit16);
        assert(a == bit16(cols, 3 * j as int));
        assert(b == bit16(cols, 3 * j + 1));
        assert(c == bit16(cols, 3 * j + 2));
    }
    if a && !b && !c {
        3 * j
    } else if !a && b && !c {
        3 * j + 1
    } else if !a && !b && c {
        3 * j + 2
    } else {
        proof {
            if box_in_one_col(cols, j as int) {
                let x = choose|x: int| x / 3 == j && #[trigger] only_col(cols, x);
                assert(x == 3 * j || x == 3 * j + 1 || x == 3 * j + 2);
            }
        }
        9
    }
}

/// Given the column occupancy of a band, the minirows of the boxes whose
/// candidates sit in a single column.
pub fn build_col_single() -> (t: [u16; 512])
    ensures
        forall|c: int, i: int|
            0 <= c < 512 ==> (#[trigger] bit16(t[c], i) <==> 0 <= i < 9 && box_in_one_col(
                c as u16,
                i % 3,
            )),
        forall|c: int| 0 <= c < 512 ==> #[trigger] t[c] <= 0x1FF,
{
    let mut t: [u16; 512] = [0;512];
    let mut c: usize = 0;
    while c < 512
        invariant
            c <= 512,
            forall|q: int, i: int|
                0 <= q < c ==> (#[trigger] bit16(t[q], i) <==> 0 <= i < 9 && box_in_one_col(
                    q as u16,
                    i % 3,
                )),
        decreases 512 - c,
    {
        let mut m: u16 = 0;
        let mut b: u16 = 0;
        while b < 3
            invariant
                b <= 3,
                c < 512,
                forall|i: int| #[trigger]
                    bit16(m, i) <==> 0 <= i < 9 && i % 3 < b && box_in_one_col(c as u16, i % 3),
            decreases 3 - b,
        {
            let x = lone_column(c as u16, b);
            if x < 9 {
                assert(box_in_one_col(c as u16, b as int));
                m = m | (1u16 << b) | (1u16 << (b + 3)) | (1u16 << (b + 6));
            }
            b = b + 1;
        }
        t[c] = m;
        c = c + 1;
    }
    proof {
        assert forall|q: int| 0 <= q < 512 implies #[trigger] t[q] <= 0x1FF by {
            lemma_low_masks16();
            lemma_subset16(t[q], 0x1FF);
        }
    }
    t
}

/// Given the column occupancy of a band, the cells that the two neighbour
/// bands may keep: a box confined to one column takes that column.
pub fn build_neigh_ok() -> (t: [u32; 512])
    ensures
        forall|c: int, p: int|
            0 <= c < 512 ==> (#[trigger] bit32(t[c], p) <==> 0 <= p < 27 && !only_col(
                c as u16,
                p % 9,
            )),
{
    let mut t: [u32; 512] = [0;512];
    let mut c: usize = 0;
    while c < 512
        invariant
            c <= 512,
            forall|q: int, p: int|
                0 <= q < c ==> (#[trigger] bit32(t[q], p) <==> 0 <= p < 27 && !only_col(
                    q as u16,
                    p % 9,
                )),
        decreases 512 - c,
    {
        let mut cleared: u32 = 0;
        let mut b: u16 = 0;
        while b < 3
            invariant
                b <= 3,
                c < 512,
                forall|p: int| #[trigger]
                    bit32(cleared, p) <==> 0 <= p < 27 && (p % 9) / 3 < b && only_col(
                        c as u16,
                        p % 9,
                    ),
            decreases 3 - b,
        {
            let x = lone_column(c as u16, b);
            let ghost before = cleared;
            if x < 9 {
                let j: u32 = x as u32;
                cleared = cleared | (1u32 << j) | (1u32 << (j + 9)) | (1u32 << (j + 18));
            }
            proof {
                assert forall|p: int| #[trigger] bit32(cleared, p) <==> 0 <= p < 27 && (p % 9) / 3
                    < b + 1 && only_col(c as u16, p % 9) by {
                    if 0 <= p < 27 && (p % 9) / 3 == b {
                        if only_col(c as u16, p % 9) {
                            assert(box_in_one_col(c as u16, b as int));
                        }
                        assert(bit32(before, p) == false);
                    }
                    assert(bit32(cleared, p) <==> bit32(before, p) || (x < 9 && 0 <= p < 27 && p % 9
                        == x));
                }
            }
            b = b + 1;
        }
        proof {
            lemma_low_masks32();
        }
        t[c] = BAND_ALL & !cleared;
        c = c + 1;
    }
    t
}

/// Placing the digit at cell `pos` of a band removes it from the rest of the
/// cell's line and box within the band, keeping the cell itself.
pub fn build_same_band_ok() -> (t: [u32; 27])
    ensures
        forall|pos: int, p: int|
            0 <= pos < 27 ==> (#[trigger] bit32(t[pos], p) <==> 0 <= p < 27 && (p == pos || !near(
                p,
                pos,
            ))),
{
    let mut t: [u32; 27] = [0;27];
    let mut pos: usize = 0;
    while pos < 27
        invariant
            pos <= 27,
            forall|q: int, p: int|
                0 <= q < pos ==> (#[trigger] bit32(t[q], p) <==> 0 <= p < 27 && (p == q || !near(
                    p,
                    q,
                ))),
        decreases 27 - pos,
    {
        let row: u32 = (pos / 9) as u32;
        let boxcol: u32 = ((pos % 9) / 3) as u32;
        let row_mask = 0x1FFu32 << (9 * row);
        let seg = 7u32 << (3 * boxcol);
        let box_mask = seg | (seg << 9) | (seg << 18);
        t[pos] = (BAND_ALL & !(row_mask | box_mask)) | (1u32 << (pos as u32));
        proof {
            lemma_low_masks32();
            assert forall|p: int| #[trigger] bit32(t[pos as int], p) <==> 0 <= p < 27 && (p == pos
                || !near(p, pos as int)) by {
                if 0 <= p < 27 {
                    assert(bit32(row_mask, p) <==> p / 9 == pos as int / 9);
                    assert(bit32(seg, p % 9) <==> (p % 9) / 3 == boxcol);
                    assert(bit32(box_mask, p) <==> (p % 9) / 3 == boxcol) by {
                        assert(bit32(seg, p) <==> p < 9 && p / 3 == boxcol);
                        assert(bit32(seg << 9, p) <==> 9 <= p < 18 && (p - 9) / 3 == boxcol);
                        assert(bit32(seg << 18, p) <==> 18 <= p < 27 && (p - 18) / 3 == boxcol);
                    }
                }
            }
        }
        pos = pos + 1;
    }
    t
}

/// The tables the propagation looks things up in.
pub struct Tables {
    pub closed_cells: [u32; 512],
    pub forced: [u16; 512],
    pub expand: [u32; 512],
    pub col_single: [u16; 512],
    pub neigh_ok: [u32; 512],
    pub same_band_ok: [u32; 27],
}

impl Tables {
    /// Every table holds what its definition says.
    #[verifier::opaque]
    pub open spec fn ok(&self) -> bool {
        &&& forall|s: int, p: int|
            0 <= s < 512 ==> (#[trigger] bit32(self.closed_cells[s], p) <==> 0 <= p < 27
                && closed_at(s as u16, p / 3))
        &&& forall|s: int|
            0 <= s < 512 ==> (#[trigger] self.closed_cells[s] == 0 <==> !has_perm(s as u16))
        &&& forall|s: int, i: int|
            0 <= s < 512 ==> (#[trigger] bit16(self.forced[s], i) <==> forced_at(s as u16, i))
        &&& forall|s: int| 0 <= s < 512 ==> #[trigger] self.forced[s] <= 0x1FF
        &&& forall|m: int, p: int|
            0 <= m < 512 ==> (#[trigger] bit32(self.expand[m], p) <==> 0 <= p < 27 && bit16(
                m as u16,
                p / 3,
            ))
        &&& forall|c: int, i: int|
            0 <= c < 512 ==> (#[trigger] bit16(self.col_single[c], i) <==> 0 <= i < 9
                && box_in_one_col(c as u16, i % 3))
        &&& forall|c: int| 0 <= c < 512 ==> #[trigger] self.col_single[c] <= 0x1FF
        &&& forall|c: int, p: int|
            0 <= c < 512 ==> (#[trigger] bit32(self.neigh_ok[c], p) <==> 0 <= p < 27 && !only_col(
                c as u16,
                p % 9,
            ))
        &&& forall|pos: int, p: int|
            0 <= pos < 27 ==> (#[trigger] bit32(self.same_band_ok[pos], p) <==> 0 <= p < 27 && (p
                == pos || !near(p, pos)))
    }

    pub fn new() -> (t: Tables)
        ensures
            t.ok(),
    {
        let t = Tables {
            closed_cells: build_closed_cells(),
            forced: build_forced(),
            expand: build_expand(),
            col_single: build_col_single(),
            neigh_ok: build_neigh_ok(),
            same_band_ok: build_same_band_ok(),
        };
        proof {
            reveal(Tables::ok);
        }
        t
    }
}

} // verus!
