//! The lookup tables of the lane engine, each with the definition it is
//! built from.
//!
//! Lanes 0..3 are the bands of rows, lanes 3..6 the stacks of columns; the
//! positions in a lane are those of `layout`.

use vstd::prelude::*;
use crate::bits::{bit16, bit32, bit64, group_bits16, group_bits32, group_bits64, lemma_low_masks32};
use crate::grid::peers;
use crate::layout::{
    band_cell, band_pos, in_band, lemma_band_cell, lemma_band_pos, line_cell, linked,
};
use crate::minirow::{build_closed_cells, build_expand, closed_at, has_perm, BAND_ALL};

verus! {

broadcast use {group_bits16, group_bits32, group_bits64};

/// The stack that holds cell `c`, as a lane.
pub open spec fn stack_lane(c: int) -> int {
    3 + (c % 9) / 3
}

/// The lane that holds, in the other orientation, the cell at position `p` of
/// lane `l`.
pub open spec fn other_lane(l: int, p: int) -> int {
    let c = band_cell(l, p);
    if l < 3 {
        stack_lane(c)
    } else {
        c / 27
    }
}

/// The position in that lane.
pub open spec fn other_pos(l: int, p: int) -> int {
    band_pos(other_lane(l, p), band_cell(l, p))
}

/// Every cell lies in one lane of rows and one of columns.
pub proof fn lemma_lanes(c: int, l: int)
    requires
        0 <= c < 81,
        0 <= l < 6,
    ensures
        in_band(l, c) <==> l == c / 27 || l == stack_lane(c),
        0 <= c / 27 < 3,
        3 <= stack_lane(c) < 6,
{
}

/// The other orientation of the other orientation is the first.
pub proof fn lemma_other(l: int, p: int)
    requires
        0 <= l < 6,
        0 <= p < 27,
    ensures
        0 <= other_lane(l, p) < 6,
        0 <= other_pos(l, p) < 27,
        (l < 3) != (other_lane(l, p) < 3),
        band_cell(other_lane(l, p), other_pos(l, p)) == band_cell(l, p),
        other_lane(other_lane(l, p), other_pos(l, p)) == l,
        other_pos(other_lane(l, p), other_pos(l, p)) == p,
{
    lemma_band_cell(l, p);
    let c = band_cell(l, p);
    let (m, q) = (other_lane(l, p), other_pos(l, p));
    lemma_lanes(c, l);
    lemma_lanes(c, m);
    lemma_band_pos(m, c);
}

/// The horizontal lane of a cell and the position in it.
pub fn h_of(cell: usize) -> (r: (usize, usize))
    requires
        cell < 81,
    ensures
        r.0 == cell / 27,
        r.0 < 3,
        r.1 < 27,
        r.1 == band_pos(r.0 as int, cell as int),
        band_cell(r.0 as int, r.1 as int) == cell,
{
    let r = cell / 9;
    let c = cell % 9;
    let h = (r / 3, 9 * (r % 3) + c);
    proof {
        lemma_lanes(cell as int, cell as int / 27);
        lemma_band_pos(cell as int / 27, cell as int);
        assert(h.0 == cell / 27);
        assert(h.1 == cell % 27);
    }
    h
}

/// The stack of a cell, counted from 0, and the position in it.
pub fn v_of(cell: usize) -> (r: (usize, usize))
    requires
        cell < 81,
    ensures
        r.0 < 3,
        3 + r.0 == stack_lane(cell as int),
        r.1 < 27,
        r.1 == band_pos(3 + r.0, cell as int),
        band_cell(3 + r.0, r.1 as int) == cell,
{
    let r = cell / 9;
    let c = cell % 9;
    let v = (c / 3, 9 * (c % 3) + r);
    proof {
        lemma_lanes(cell as int, stack_lane(cell as int));
        lemma_band_pos(stack_lane(cell as int), cell as int);
        assert((cell as int % 9) % 3 == cell as int % 3);
    }
    v
}

/// Mask `m` of lane `l` keeps the cells that are no peers of `c`, of the
/// first `n` cells.
spec fn spares(m: u32, l: int, c: int, n: int) -> bool {
    forall|p: int| #[trigger]
        bit32(m, p) <==> 0 <= p < 27 && !(band_cell(l, p) < n && peers(c, band_cell(l, p)))
}

/// For every cell the masks that clear its peers in all six lanes.
pub fn build_peer() -> (t: [[u32; 8]; 81])
    ensures
        forall|c: int, l: int, p: int|
            0 <= c < 81 && 0 <= l < 6 ==> (#[trigger] bit32(t[c][l], p) <==> 0 <= p < 27 && !peers(
                c,
                band_cell(l, p),
            )),
{
    let mut t: [[u32; 8]; 81] = [[0;8];81];
    let mut cell: usize = 0;
    while cell < 81
        invariant
            cell <= 81,
            forall|c: int, l: int, p: int|
                0 <= c < cell && 0 <= l < 6 ==> (#[trigger] bit32(t[c][l], p) <==> 0 <= p < 27
                    && !peers(c, band_cell(l, p))),
        decreases 81 - cell,
    {
        let ghost t0 = t;
        t[cell] = peer_lanes(cell);
        proof {
            assert forall|c: int, l: int, p: int| 0 <= c < cell + 1 && 0 <= l < 6 implies (
            #[trigger] bit32(t[c][l], p) <==> 0 <= p < 27 && !peers(c, band_cell(l, p))) by {
                if c < cell {
                    assert(t[c] == t0[c]);
                    assert(bit32(t0[c][l], p) <==> 0 <= p < 27 && !peers(c, band_cell(l, p)));
                }
            }
        }
        cell = cell + 1;
    }
    t
}

/// The masks that clear the peers of one cell in all six lanes.
fn peer_lanes(cell: usize) -> (lanes: [u32; 8])
    requires
        cell < 81,
    ensures
        forall|l: int, p: int|
            0 <= l < 6 ==> (#[trigger] bit32(lanes[l], p) <==> 0 <= p < 27 && !peers(
                cell as int,
                band_cell(l, p),
            )),
{
    let r0 = cell / 9;
    let c0 = cell % 9;
    let mut lanes: [u32; 8] = [
        BAND_ALL,
        BAND_ALL,
        BAND_ALL,
        BAND_ALL,
        BAND_ALL,
        BAND_ALL,
        0,
        0,
    ];
    let mut q: usize = 0;
    proof {
        lemma_low_masks32();
        assert forall|l: int| 0 <= l < 6 implies #[trigger] spares(lanes[l], l, cell as int, 0) by {
            assert(lanes[l] == BAND_ALL);
            assert forall|p: int| #[trigger] bit32(lanes[l], p) <==> 0 <= p < 27 && !(band_cell(l, p)
                < 0 && peers(cell as int, band_cell(l, p))) by {
                if 0 <= p < 27 {
                    lemma_band_cell(l, p);
                }
            }
        }
    }
    while q < 81
        invariant
            q <= 81,
            cell < 81,
            r0 == cell / 9,
            c0 == cell % 9,
            forall|l: int| 0 <= l < 6 ==> #[trigger] spares(lanes[l], l, cell as int, q as int),
        decreases 81 - q,
    {
        let r = q / 9;
        let c = q % 9;
        let ghost lanes0 = lanes;
        let is_peer = q != cell && (r == r0 || c == c0 || (r / 3 == r0 / 3 && c / 3 == c0 / 3));
        proof {
            assert(is_peer == peers(cell as int, q as int)) by {
                assert(q as int / 27 == r as int / 3 && cell as int / 27 == r0 as int / 3);
            }
        }
        if is_peer {
            let (hb, hi) = h_of(q);
            let (vs, vi) = v_of(q);
            lanes[hb] = lanes[hb] & !(1u32 << (hi as u32));
            lanes[3 + vs] = lanes[3 + vs] & !(1u32 << (vi as u32));
        }
        proof {
            assert forall|l: int| 0 <= l < 6 implies #[trigger] spares(
                lanes[l],
                l,
                cell as int,
                q + 1,
            ) by {
                assert(spares(lanes0[l], l, cell as int, q as int));
                assert forall|p: int| #[trigger] bit32(lanes[l], p) <==> 0 <= p < 27 && !(band_cell(
                    l,
                    p,
                ) < q + 1 && peers(cell as int, band_cell(l, p))) by {
                    assert(bit32(lanes0[l], p) <==> 0 <= p < 27 && !(band_cell(l, p) < q && peers(
                        cell as int,
                        band_cell(l, p),
                    )));
                    if 0 <= p < 27 {
                        lemma_band_cell(l, p);
                        lemma_lanes(q as int, l);
                    }
                }
            }
        }
        q = q + 1;
    }
    proof {
        assert forall|l: int, p: int| 0 <= l < 6 implies (#[trigger] bit32(lanes[l], p) <==> 0 <= p
            < 27 && !peers(cell as int, band_cell(l, p))) by {
            assert(spares(lanes[l], l, cell as int, 81));
            if 0 <= p < 27 {
                lemma_band_cell(l, p);
            }
        }
    }
    lanes
}

/// For every cell `32 * lane + position` in the horizontal orientation.
pub fn build_cell_h() -> (t: [u8; 81])
    ensures
        forall|c: int|
            0 <= c < 81 ==> #[trigger] t[c] == 32 * (c / 27) + band_pos(c / 27, c),
{
    let mut t: [u8; 81] = [0;81];
    let mut cell: usize = 0;
    while cell < 81
        invariant
            cell <= 81,
            forall|c: int|
                0 <= c < cell ==> #[trigger] t[c] == 32 * (c / 27) + band_pos(c / 27, c),
        decreases 81 - cell,
    {
        let (b, i) = h_of(cell);
        t[cell] = (b * 32 + i) as u8;
        cell = cell + 1;
    }
    t
}

/// For every cell `32 * lane + position` in the vertical orientation.
pub fn build_cell_v() -> (t: [u8; 81])
    ensures
        forall|c: int|
            0 <= c < 81 ==> #[trigger] t[c] == 32 * stack_lane(c) + band_pos(stack_lane(c), c),
{
    let mut t: [u8; 81] = [0;81];
    let mut cell: usize = 0;
    while cell < 81
        invariant
            cell <= 81,
            forall|c: int|
                0 <= c < cell ==> #[trigger] t[c] == 32 * stack_lane(c) + band_pos(
                    stack_lane(c),
                    c,
                ),
        decreases 81 - cell,
    {
        let (s, i) = v_of(cell);
        t[cell] = ((3 + s) * 32 + i) as u8;
        cell = cell + 1;
    }
    t
}

/// The cells of the nine rows and the nine columns.
pub fn build_line_cell() -> (t: [[u8; 9]; 18])
    ensures
        forall|l: int, r: int, x: int|
            0 <= l < 6 && 0 <= r < 3 && 0 <= x < 9 ==> #[trigger] t[3 * l + r][x] == line_cell(
                l,
                r,
                x,
            ),
{
    let mut t: [[u8; 9]; 18] = [[0;9];18];
    let mut line: usize = 0;
    while line < 18
        invariant
            line <= 18,
            forall|k: int, x: int|
                0 <= k < line && 0 <= x < 9 ==> #[trigger] t[k][x] == (if k < 9 {
                    k * 9 + x
                } else {
                    x * 9 + (k - 9)
                }),
        decreases 18 - line,
    {
        let mut cells: [u8; 9] = [0;9];
        let mut p: usize = 0;
        while p < 9
            invariant
                p <= 9,
                line < 18,
                forall|x: int|
                    0 <= x < p ==> #[trigger] cells[x] == (if line < 9 {
                        line * 9 + x
                    } else {
                        x * 9 + (line - 9)
                    }),
            decreases 9 - p,
        {
            cells[p] = if line < 9 {
                (line * 9 + p) as u8
            } else {
                (p * 9 + (line - 9)) as u8
            };
            p = p + 1;
        }
        t[line] = cells;
        line = line + 1;
    }
    proof {
        assert forall|l: int, r: int, x: int| 0 <= l < 6 && 0 <= r < 3 && 0 <= x < 9 implies
            #[trigger] t[3 * l + r][x] == line_cell(l, r, x) by {
            let k = 3 * l + r;
            assert(t[k][x] == (if k < 9 {
                k * 9 + x
            } else {
                x * 9 + (k - 9)
            }));
        }
    }
    t
}

/// For every position of every lane `32 * lane + position` of the same cell in
/// the other orientation.
pub fn build_mirror() -> (t: [[u8; 27]; 6])
    ensures
        forall|l: int, p: int|
            0 <= l < 6 && 0 <= p < 27 ==> #[trigger] t[l][p] == 32 * other_lane(l, p) + other_pos(
                l,
                p,
            ),
{
    let mut t: [[u8; 27]; 6] = [[0;27];6];
    let mut lane: usize = 0;
    while lane < 6
        invariant
            lane <= 6,
            forall|l: int, p: int|
                0 <= l < lane && 0 <= p < 27 ==> #[trigger] t[l][p] == 32 * other_lane(l, p)
                    + other_pos(l, p),
        decreases 6 - lane,
    {
        let mut row: [u8; 27] = [0;27];
        let mut i: usize = 0;
        while i < 27
            invariant
                i <= 27,
                lane < 6,
                forall|p: int|
                    0 <= p < i ==> #[trigger] row[p] == 32 * other_lane(lane as int, p) + other_pos(
                        lane as int,
                        p,
                    ),
            decreases 27 - i,
        {
            let (ol, ob) = if lane < 3 {
                let r = 3 * lane + i / 9;
                let c = i % 9;
                (3 + c / 3, 9 * (c % 3) + r)
            } else {
                let r = i % 9;
                let c = 3 * (lane - 3) + i / 9;
                (r / 3, 9 * (r % 3) + c)
            };
            proof {
                lemma_other(lane as int, i as int);
                let x = band_cell(lane as int, i as int);
                if lane < 3 {
                    let (r, c) = (3 * lane + i as int / 9, i as int % 9);
                    assert(x == 9 * r + c);
                    assert(x / 9 == r && x % 9 == c);
                    assert(x % 3 == c % 3);
                } else {
                    let (r, c) = (i as int % 9, 3 * (lane - 3) + i as int / 9);
                    assert(x == 9 * r + c);
                    assert(x / 27 == r / 3);
                    assert(x % 27 == 9 * (r % 3) + c);
                }
            }
            row[i] = (ol * 32 + ob) as u8;
            i = i + 1;
        }
        t[lane] = row;
        lane = lane + 1;
    }
    t
}

/// The word with the given six-bit set of lanes for each of the nine digits.
pub fn unit_mask(lanes: u64) -> (m: u64)
    requires
        lanes <= 0x3F,
    ensures
        forall|i: int| #[trigger] bit64(m, i) <==> 0 <= i < 54 && bit64(lanes, i % 6),
{
    let mut m: u64 = 0;
    let mut d: u64 = 0;
    while d < 9
        invariant
            d <= 9,
            lanes <= 0x3F,
            forall|i: int| #[trigger] bit64(m, i) <==> 0 <= i < 6 * d && bit64(lanes, i % 6),
        decreases 9 - d,
    {
        let ghost m0 = m;
        m = m | (lanes << (6 * d));
        proof {
            assert forall|i: int| #[trigger] bit64(m, i) <==> 0 <= i < 6 * (d + 1) && bit64(
                lanes,
                i % 6,
            ) by {
                if 6 * d <= i < 6 * d + 6 {
                    assert(i % 6 == i - 6 * d);
                }
                if bit64(lanes, i - 6 * d) {
                    lemma_six(lanes, i - 6 * d);
                }
            }
        }
        d = d + 1;
    }
    m
}

/// A set of lanes has six members at most.
pub proof fn lemma_six(m: u64, i: int)
    requires
        m <= 0x3F,
        bit64(m, i),
    ensures
        0 <= i < 6,
{
    reveal(bit64);
    let k = i as u64;
    assert(m <= 0x3Fu64 && k < 64 && (m >> k) & 1 == 1 ==> k < 6) by (bit_vector);
}

/// For every minirow those that share its line or its box.
pub fn build_minirow_linked() -> (t: [u32; 9])
    ensures
        forall|i: int, j: int|
            0 <= i < 9 ==> (#[trigger] bit32(t[i], j) <==> 0 <= j < 9 && linked(i, j)),
{
    let mut t: [u32; 9] = [0;9];
    let mut i: usize = 0;
    while i < 9
        invariant
            i <= 9,
            forall|k: int, j: int|
                0 <= k < i ==> (#[trigger] bit32(t[k], j) <==> 0 <= j < 9 && linked(k, j)),
        decreases 9 - i,
    {
        let r = (i / 3) as u32;
        let x = (i % 3) as u32;
        let row = 7u32 << (3 * r);
        let cut = (1u32 << x) | (1u32 << (x + 3)) | (1u32 << (x + 6));
        t[i] = (row | cut) & !(1u32 << (i as u32));
        proof {
            lemma_low_masks32();
            assert forall|j: int| #[trigger] bit32(t[i as int], j) <==> 0 <= j < 9 && linked(
                i as int,
                j,
            ) by {
                assert(bit32(row, j) <==> 3 * r <= j < 3 * r + 3);
                assert(bit32(cut, j) <==> j == x || j == x + 3 || j == x + 6);
            }
        }
        i = i + 1;
    }
    t
}

/// The tables the propagation looks things up in.
pub struct Tables {
    pub peer: [[u32; 8]; 81],
    pub cell_h: [u8; 81],
    pub cell_v: [u8; 81],
    pub line_cell: [[u8; 9]; 18],
    pub sup_expand: [u32; 512],
    pub minirow_expand: [u32; 512],
    pub mirror: [[u8; 27]; 6],
    pub minirow_linked: [u32; 9],
    pub h_units: u64,
    pub v_units: u64,
}

impl Tables {
    /// Every table holds what its definition says.
    #[verifier::opaque]
    pub open spec fn ok(&self) -> bool {
        &&& forall|c: int, l: int, p: int|
            0 <= c < 81 && 0 <= l < 6 ==> (#[trigger] bit32(self.peer[c][l], p) <==> 0 <= p < 27
                && !peers(c, band_cell(l, p)))
        &&& forall|c: int|
            0 <= c < 81 ==> #[trigger] self.cell_h[c] == 32 * (c / 27) + band_pos(c / 27, c)
        &&& forall|c: int|
            0 <= c < 81 ==> #[trigger] self.cell_v[c] == 32 * stack_lane(c) + band_pos(
                stack_lane(c),
                c,
            )
        &&& forall|l: int, r: int, x: int|
            0 <= l < 6 && 0 <= r < 3 && 0 <= x < 9 ==> #[trigger] self.line_cell[3 * l + r][x]
                == line_cell(l, r, x)
        &&& forall|s: int, p: int|
            0 <= s < 512 ==> (#[trigger] bit32(self.sup_expand[s], p) <==> 0 <= p < 27 && closed_at(
                s as u16,
                p / 3,
            ))
        &&& forall|s: int|
            0 <= s < 512 ==> (#[trigger] self.sup_expand[s] == 0 <==> !has_perm(s as u16))
        &&& forall|m: int, p: int|
            0 <= m < 512 ==> (#[trigger] bit32(self.minirow_expand[m], p) <==> 0 <= p < 27 && bit16(
                m as u16,
                p / 3,
            ))
        &&& forall|l: int, p: int|
            0 <= l < 6 && 0 <= p < 27 ==> #[trigger] self.mirror[l][p] == 32 * other_lane(l, p)
                + other_pos(l, p)
        &&& forall|i: int, j: int|
            0 <= i < 9 ==> (#[trigger] bit32(self.minirow_linked[i], j) <==> 0 <= j < 9 && linked(
                i,
                j,
            ))
        &&& forall|i: int| #[trigger] bit64(self.h_units, i) <==> 0 <= i < 54 && i % 6 < 3
        &&& forall|i: int| #[trigger] bit64(self.v_units, i) <==> 0 <= i < 54 && i % 6 >= 3
    }

    pub fn new() -> (t: Tables)
        ensures
            t.ok(),
    {
        let t = Tables {
            peer: build_peer(),
            cell_h: build_cell_h(),
            cell_v: build_cell_v(),
            line_cell: build_line_cell(),
            sup_expand: build_closed_cells(),
            minirow_expand: build_expand(),
            mirror: build_mirror(),
            minirow_linked: build_minirow_linked(),
            h_units: unit_mask(0b000111),
            v_units: unit_mask(0b111000),
        };
        proof {
            reveal(Tables::ok);
            assert forall|i: int| 0 <= i < 6 implies (#[trigger] bit64(0b000111u64, i) <==> i < 3)
                && (bit64(0b111000u64, i) <==> i >= 3) by {
                lemma_lane_sets(i as u64);
            }
            assert forall|i: int| #[trigger] bit64(t.h_units, i) <==> 0 <= i < 54 && i % 6 < 3 by {
                assert(0 <= i % 6 < 6);
                assert(bit64(0b000111u64, i % 6) <==> i % 6 < 3);
            }
            assert forall|i: int| #[trigger] bit64(t.v_units, i) <==> 0 <= i < 54 && i % 6 >= 3 by {
                assert(0 <= i % 6 < 6);
                assert(bit64(0b000111u64, i % 6) <==> i % 6 < 3);
            }
        }
        t
    }

    /// The horizontal lane of a cell and the position in it.
    pub fn horizontal(&self, cell: usize) -> (r: (usize, usize))
        requires
            self.ok(),
            cell < 81,
        ensures
            r.0 == cell / 27,
            r.0 < 3,
            r.1 < 27,
            r.1 == band_pos(r.0 as int, cell as int),
    {
        proof {
            reveal(Tables::ok);
            assert(self.cell_h[cell as int] == 32 * (cell as int / 27) + band_pos(
                cell as int / 27,
                cell as int,
            ));
            lemma_lanes(cell as int, cell as int / 27);
            lemma_band_pos(cell as int / 27, cell as int);
        }
        let h = self.cell_h[cell] as usize;
        (h / 32, h % 32)
    }

    /// The vertical lane of a cell and the position in it.
    pub fn vertical(&self, cell: usize) -> (r: (usize, usize))
        requires
            self.ok(),
            cell < 81,
        ensures
            r.0 == stack_lane(cell as int),
            3 <= r.0 < 6,
            r.1 < 27,
            r.1 == band_pos(r.0 as int, cell as int),
    {
        proof {
            reveal(Tables::ok);
            assert(self.cell_v[cell as int] == 32 * stack_lane(cell as int) + band_pos(
                stack_lane(cell as int),
                cell as int,
            ));
            lemma_lanes(cell as int, stack_lane(cell as int));
            lemma_band_pos(stack_lane(cell as int), cell as int);
        }
        let v = self.cell_v[cell] as usize;
        (v / 32, v % 32)
    }

    /// The lane and the position of the same cell in the other orientation.
    pub fn mirrored(&self, l: usize, i: usize) -> (r: (usize, usize))
        requires
            self.ok(),
            l < 6,
            i < 27,
        ensures
            r.0 < 6,
            r.1 < 27,
            r.0 == other_lane(l as int, i as int),
            r.1 == other_pos(l as int, i as int),
    {
        proof {
            reveal(Tables::ok);
            assert(self.mirror[l as int][i as int] == 32 * other_lane(l as int, i as int)
                + other_pos(l as int, i as int));
            lemma_other(l as int, i as int);
        }
        let m = self.mirror[l][i] as usize;
        (m / 32, m % 32)
    }

    /// The cell at position `x` of line `r` of a lane.
    pub fn cell_on_line(&self, l: usize, r: usize, x: usize) -> (c: usize)
        requires
            self.ok(),
            l < 6,
            r < 3,
            x < 9,
        ensures
            c == line_cell(l as int, r as int, x as int),
    {
        proof {
            reveal(Tables::ok);
            assert(self.line_cell[3 * (l as int) + r as int][x as int] == line_cell(
                l as int,
                r as int,
                x as int,
            ));
        }
        self.line_cell[3 * l + r][x] as usize
    }

    /// The cells of the closure of a pattern; zero if there is no permutation.
    pub fn closed_cells(&self, s: u16) -> (m: u32)
        requires
            self.ok(),
            s <= 0x1FF,
        ensures
            forall|p: int| #[trigger] bit32(m, p) <==> 0 <= p < 27 && closed_at(s, p / 3),
            m == 0 <==> !has_perm(s),
    {
        proof {
            reveal(Tables::ok);
        }
        self.sup_expand[s as usize]
    }
}

/// The two halves of the six lanes.
proof fn lemma_lane_sets(k: u64)
    requires
        k < 6,
    ensures
        bit64(0b000111u64, k as int) <==> k < 3,
        bit64(0b111000u64, k as int) <==> k >= 3,
{
    reveal(bit64);
    assert(k < 6 ==> ((0b000111u64 >> k) & 1 == 1 <==> k < 3) && ((0b111000u64 >> k) & 1 == 1 <==> k
        >= 3)) by (bit_vector);
}

} // verus!
