//! The vocabulary of the triad engine: short vectors of 9-bit digit sets.
//!
//! [`C16`] is a 4x4 matrix of 16-bit lanes, row by row: a box with its triad
//! margins. [`C8`] is eight lanes: the six configuration lanes of a band with
//! two of padding, or half a box. The operations name what the engine means
//! (the union of a lane's three row peers, the triads of a box as a message
//! to its bands) rather than how a machine would reach it.
//!
//! A shuffle control holds a selector per lane: `S0`..`S7` take that lane of
//! the same half, `XX` emits zero.

use vstd::prelude::*;
use crate::bits::{bit16, count_ones16, group_bits16, lowest16, pop16, without_lowest16};

verus! {

broadcast use group_bits16;

/// A shuffle-control lane that selects nothing.
pub const XX: u16 = 0xffff;

/// A full 9-digit candidate set: what one lane holds when nothing is known.
pub const ALL: u16 = 0x1ff;

pub const S0: u16 = 0x0100;

pub const S1: u16 = 0x0302;

pub const S2: u16 = 0x0504;

pub const S3: u16 = 0x0706;

pub const S4: u16 = 0x0908;

pub const S5: u16 = 0x0b0a;

pub const S6: u16 = 0x0d0c;

pub const S7: u16 = 0x0f0e;

/// Which lanes of the matrix are cells rather than triad margins.
pub const CELLS_3X3: [u16; 16] = [
    ALL, ALL, ALL, 0, ALL, ALL, ALL, 0, ALL, ALL, ALL, 0, 0, 0, 0, 0,
];

/// The lane that a selector names: its low byte is twice the lane.
pub open spec fn selector_lane(s: u16) -> int {
    ((s as int) % 256) / 2
}

/// `s` selects a lane or nothing.
pub open spec fn is_selector(s: u16) -> bool {
    s == XX || (selector_lane(s) < 8 && s == 256 + 514 * selector_lane(s))
}

/// Every lane of a control is a selector.
pub open spec fn is_control(c: Seq<u16>) -> bool {
    forall|i: int| 0 <= i < c.len() ==> is_selector(#[trigger] c[i])
}

/// What selector `s` takes out of the half of `v` that starts at `base`.
pub open spec fn picked(v: Seq<u16>, base: int, s: u16) -> u16 {
    if s == XX {
        0
    } else {
        v[base + selector_lane(s)]
    }
}

/// Four lanes as one 64-bit word, the first lowest.
pub open spec fn packed(a: u16, b: u16, c: u16, d: u16) -> u64 {
    (a as u64) | ((b as u64) << 16) | ((c as u64) << 32) | ((d as u64) << 48)
}

/// Lane `c` of a 64-bit word.
pub open spec fn quarter(v: u64, c: int) -> u16 {
    if c == 0 {
        v as u16
    } else if c == 1 {
        (v >> 16) as u16
    } else if c == 2 {
        (v >> 32) as u16
    } else {
        (v >> 48) as u16
    }
}

/// Packing keeps the lanes.
pub proof fn lemma_packed(a: u16, b: u16, c: u16, d: u16)
    ensures
        quarter(packed(a, b, c, d), 0) == a,
        quarter(packed(a, b, c, d), 1) == b,
        quarter(packed(a, b, c, d), 2) == c,
        quarter(packed(a, b, c, d), 3) == d,
{
    let v = packed(a, b, c, d);
    assert(v as u16 == a && (v >> 16) as u16 == b && (v >> 32) as u16 == c && (v >> 48) as u16 == d)
        by (bit_vector)
        requires
            v == (a as u64) | ((b as u64) << 16) | ((c as u64) << 32) | ((d as u64) << 48),
    ;
}

/// Packs four lanes into a 64-bit word.
pub fn pack4(a: u16, b: u16, c: u16, d: u16) -> (v: u64)
    ensures
        v == packed(a, b, c, d),
{
    (a as u64) | ((b as u64) << 16) | ((c as u64) << 32) | ((d as u64) << 48)
}

/// Lane `c` of a 64-bit word.
fn unpack(v: u64, c: usize) -> (r: u16)
    requires
        c < 4,
    ensures
        r == quarter(v, c as int),
{
    if c == 0 {
        v as u16
    } else if c == 1 {
        (v >> 16) as u16
    } else if c == 2 {
        (v >> 32) as u16
    } else {
        (v >> 48) as u16
    }
}

/// The lane index of a selector other than [`XX`].
fn lane_index(s: u16) -> (k: usize)
    requires
        is_selector(s),
        s != XX,
    ensures
        k == selector_lane(s),
        k < 8,
{
    ((s % 256) / 2) as usize
}

/// A 4x4 matrix of candidate sets.
#[derive(Clone, Copy)]
pub struct C16 {
    pub lanes: [u16; 16],
}

/// Eight candidate sets.
#[derive(Clone, Copy)]
pub struct C8 {
    pub lanes: [u16; 8],
}

/// A matrix from its lanes.
pub fn c16(a: &[u16; 16]) -> (r: C16)
    ensures
        r.lanes == *a,
{
    C16 { lanes: *a }
}

/// Eight lanes as they are.
pub fn c8(a: &[u16; 8]) -> (r: C8)
    ensures
        r.lanes == *a,
{
    C8 { lanes: *a }
}

/// A matrix from its bytes, the low byte of each lane first.
pub fn c16_bytes(a: &[u8; 32]) -> (r: C16)
    ensures
        forall|i: int| 0 <= i < 16 ==> #[trigger] r.lanes[i] == a[2 * i] + 256 * a[2 * i + 1],
{
    let mut out: [u16; 16] = [0;16];
    let mut i: usize = 0;
    while i < 16
        invariant
            i <= 16,
            forall|k: int| 0 <= k < i ==> #[trigger] out[k] == a[2 * k] + 256 * a[2 * k + 1],
        decreases 16 - i,
    {
        out[i] = a[2 * i] as u16 + 256 * (a[2 * i + 1] as u16);
        i = i + 1;
    }
    C16 { lanes: out }
}

/// The union of the three row peers of lane `i`.
pub open spec fn row_peer_union(v: Seq<u16>, i: int) -> u16 {
    v[4 * (i / 4) + (i + 1) % 4] | v[4 * (i / 4) + (i + 2) % 4] | v[4 * (i / 4) + (i + 3) % 4]
}

/// The union of the three column peers of lane `i`.
pub open spec fn col_peer_union(v: Seq<u16>, i: int) -> u16 {
    v[(i + 4) % 16] | v[(i + 8) % 16] | v[(i + 12) % 16]
}

/// The union of column `c` over all four rows.
pub open spec fn col_union(v: Seq<u16>, c: int) -> u16 {
    v[c] | v[4 + c] | v[8 + c] | v[12 + c]
}

impl C16 {
    /// `v` in every lane.
    pub fn all(v: u16) -> (r: C16)
        ensures
            forall|i: int| 0 <= i < 16 ==> #[trigger] r.lanes[i] == v,
    {
        C16 { lanes: [v;16] }
    }

    /// Lane-wise intersection.
    pub fn and(self, o: C16) -> (r: C16)
        ensures
            forall|i: int| 0 <= i < 16 ==> #[trigger] r.lanes[i] == self.lanes[i] & o.lanes[i],
    {
        let mut out: [u16; 16] = [0;16];
        let mut i: usize = 0;
        while i < 16
            invariant
                i <= 16,
                forall|k: int| 0 <= k < i ==> #[trigger] out[k] == self.lanes[k] & o.lanes[k],
            decreases 16 - i,
        {
            out[i] = self.lanes[i] & o.lanes[i];
            i = i + 1;
        }
        C16 { lanes: out }
    }

    /// Lane-wise union.
    pub fn or(self, o: C16) -> (r: C16)
        ensures
            forall|i: int| 0 <= i < 16 ==> #[trigger] r.lanes[i] == self.lanes[i] | o.lanes[i],
    {
        let mut out: [u16; 16] = [0;16];
        let mut i: usize = 0;
        while i < 16
            invariant
                i <= 16,
                forall|k: int| 0 <= k < i ==> #[trigger] out[k] == self.lanes[k] | o.lanes[k],
            decreases 16 - i,
        {
            out[i] = self.lanes[i] | o.lanes[i];
            i = i + 1;
        }
        C16 { lanes: out }
    }

    /// Lane-wise symmetric difference.
    pub fn xor(self, o: C16) -> (r: C16)
        ensures
            forall|i: int| 0 <= i < 16 ==> #[trigger] r.lanes[i] == self.lanes[i] ^ o.lanes[i],
    {
        let mut out: [u16; 16] = [0;16];
        let mut i: usize = 0;
        while i < 16
            invariant
                i <= 16,
                forall|k: int| 0 <= k < i ==> #[trigger] out[k] == self.lanes[k] ^ o.lanes[k],
            decreases 16 - i,
        {
            out[i] = self.lanes[i] ^ o.lanes[i];
            i = i + 1;
        }
        C16 { lanes: out }
    }

    /// Lane-wise difference: `self` without `o`.
    pub fn and_not(self, o: C16) -> (r: C16)
        ensures
            forall|i: int| 0 <= i < 16 ==> #[trigger] r.lanes[i] == self.lanes[i] & !o.lanes[i],
    {
        let mut out: [u16; 16] = [0;16];
        let mut i: usize = 0;
        while i < 16
            invariant
                i <= 16,
                forall|k: int| 0 <= k < i ==> #[trigger] out[k] == self.lanes[k] & !o.lanes[k],
            decreases 16 - i,
        {
            out[i] = self.lanes[i] & !o.lanes[i];
            i = i + 1;
        }
        C16 { lanes: out }
    }

    /// The four lanes of `v` in every row.
    pub fn splat_u64(v: u64) -> (r: C16)
        ensures
            forall|i: int| 0 <= i < 16 ==> #[trigger] r.lanes[i] == quarter(v, i % 4),
    {
        let mut out: [u16; 16] = [0;16];
        let mut i: usize = 0;
        while i < 16
            invariant
                i <= 16,
                forall|k: int| 0 <= k < i ==> #[trigger] out[k] == quarter(v, k % 4),
            decreases 16 - i,
        {
            out[i] = unpack(v, i % 4);
            i = i + 1;
        }
        C16 { lanes: out }
    }

    /// Rows 0 and 1 from `lo`, rows 2 and 3 from `hi`.
    pub fn from_parts(lo: C8, hi: C8) -> (r: C16)
        ensures
            forall|i: int|
                0 <= i < 16 ==> #[trigger] r.lanes[i] == (if i < 8 {
                    lo.lanes[i]
                } else {
                    hi.lanes[i - 8]
                }),
    {
        let mut out: [u16; 16] = [0;16];
        let mut i: usize = 0;
        while i < 8
            invariant
                i <= 8,
                forall|k: int| 0 <= k < i ==> #[trigger] out[k] == lo.lanes[k],
                forall|k: int| 8 <= k < 8 + i ==> #[trigger] out[k] == hi.lanes[k - 8],
            decreases 8 - i,
        {
            out[i] = lo.lanes[i];
            out[8 + i] = hi.lanes[i];
            i = i + 1;
        }
        C16 { lanes: out }
    }

    /// Rows 0 and 1.
    pub fn get_lo(self) -> (r: C8)
        ensures
            forall|i: int| 0 <= i < 8 ==> #[trigger] r.lanes[i] == self.lanes[i],
    {
        let mut out: [u16; 8] = [0;8];
        let mut i: usize = 0;
        while i < 8
            invariant
                i <= 8,
                forall|k: int| 0 <= k < i ==> #[trigger] out[k] == self.lanes[k],
            decreases 8 - i,
        {
            out[i] = self.lanes[i];
            i = i + 1;
        }
        C8 { lanes: out }
    }

    /// Rows 2 and 3.
    pub fn get_hi(self) -> (r: C8)
        ensures
            forall|i: int| 0 <= i < 8 ==> #[trigger] r.lanes[i] == self.lanes[8 + i],
    {
        let mut out: [u16; 8] = [0;8];
        let mut i: usize = 0;
        while i < 8
            invariant
                i <= 8,
                forall|k: int| 0 <= k < i ==> #[trigger] out[k] == self.lanes[8 + k],
            decreases 8 - i,
        {
            out[i] = self.lanes[8 + i];
            i = i + 1;
        }
        C8 { lanes: out }
    }

    /// Moves lanes within each half as `ctrl` says.
    pub fn shuffle(self, ctrl: C16) -> (r: C16)
        requires
            is_control(ctrl.lanes@),
        ensures
            forall|i: int|
                0 <= i < 16 ==> #[trigger] r.lanes[i] == picked(
                    self.lanes@,
                    8 * (i / 8),
                    ctrl.lanes[i],
                ),
    {
        let mut out: [u16; 16] = [0;16];
        let mut i: usize = 0;
        while i < 16
            invariant
                i <= 16,
                is_control(ctrl.lanes@),
                forall|k: int|
                    0 <= k < i ==> #[trigger] out[k] == picked(
                        self.lanes@,
                        8 * (k / 8),
                        ctrl.lanes[k],
                    ),
            decreases 16 - i,
        {
            let s = ctrl.lanes[i];
            proof {
                assert(is_selector(ctrl.lanes@[i as int]));
            }
            if s != XX {
                out[i] = self.lanes[8 * (i / 8) + lane_index(s)];
            } else {
                out[i] = 0;
            }
            i = i + 1;
        }
        C16 { lanes: out }
    }

    /// Every lane lies within the same lane of `o`.
    pub fn subset_of(self, o: C16) -> (r: bool)
        ensures
            r <==> forall|i: int| 0 <= i < 16 ==> #[trigger] self.lanes[i] & !o.lanes[i] == 0,
    {
        let mut i: usize = 0;
        while i < 16
            invariant
                i <= 16,
                forall|k: int| 0 <= k < i ==> #[trigger] self.lanes[k] & !o.lanes[k] == 0,
            decreases 16 - i,
        {
            if self.lanes[i] & !o.lanes[i] != 0 {
                return false;
            }
            i = i + 1;
        }
        true
    }

    /// Some lane is less than the same lane of `o`.
    pub fn any_less_than(self, o: C16) -> (r: bool)
        ensures
            r <==> exists|i: int| 0 <= i < 16 && #[trigger] self.lanes[i] < o.lanes[i],
    {
        let mut i: usize = 0;
        while i < 16
            invariant
                i <= 16,
                forall|k: int| 0 <= k < i ==> #[trigger] self.lanes[k] >= o.lanes[k],
            decreases 16 - i,
        {
            if self.lanes[i] < o.lanes[i] {
                return true;
            }
            i = i + 1;
        }
        false
    }

    /// All bits where the lanes are equal, none elsewhere.
    pub fn which_equal(self, o: C16) -> (r: C16)
        ensures
            forall|i: int| 0 <= i < 16 ==> #[trigger] r.lanes[i] == (if self.lanes[i] == o.lanes[i] { 0xffffu16 } else { 0u16 }),
    {
        let mut out: [u16; 16] = [0;16];
        let mut i: usize = 0;
        while i < 16
            invariant
                i <= 16,
                forall|k: int| 0 <= k < i ==> #[trigger] out[k] == (if self.lanes[k] == o.lanes[k] { 0xffffu16 } else { 0u16 }),
            decreases 16 - i,
        {
            out[i] = if self.lanes[i] == o.lanes[i] { 0xffff } else { 0 };
            i = i + 1;
        }
        C16 { lanes: out }
    }

    /// All bits where the lane is not empty, none elsewhere.
    pub fn which_nonzero(self) -> (r: C16)
        ensures
            forall|i: int| 0 <= i < 16 ==> #[trigger] r.lanes[i] == (if self.lanes[i] != 0 { 0xffffu16 } else { 0u16 }),
    {
        let mut out: [u16; 16] = [0;16];
        let mut i: usize = 0;
        while i < 16
            invariant
                i <= 16,
                forall|k: int| 0 <= k < i ==> #[trigger] out[k] == (if self.lanes[k] != 0 { 0xffffu16 } else { 0u16 }),
            decreases 16 - i,
        {
            out[i] = if self.lanes[i] != 0 { 0xffff } else { 0 };
            i = i + 1;
        }
        C16 { lanes: out }
    }

    /// How many digits each lane holds.
    pub fn popcounts9(self) -> (r: C16)
        ensures
            forall|i: int| 0 <= i < 16 ==> #[trigger] r.lanes[i] == pop16(self.lanes[i]),
    {
        let mut out: [u16; 16] = [0;16];
        let mut i: usize = 0;
        while i < 16
            invariant
                i <= 16,
                forall|k: int| 0 <= k < i ==> #[trigger] out[k] == pop16(self.lanes[k]),
            decreases 16 - i,
        {
            out[i] = count_ones16(self.lanes[i]) as u16;
            i = i + 1;
        }
        C16 { lanes: out }
    }

    /// Moves every row up by one lane.
    pub fn shift_rows_up1(self) -> (r: C16)
        ensures
            forall|i: int| 0 <= i < 16 ==> #[trigger] r.lanes[i] == (if i % 4 == 0 { 0 } else { self.lanes[i - 1] }),
    {
        let mut out: [u16; 16] = [0;16];
        let mut i: usize = 0;
        while i < 16
            invariant
                i <= 16,
                forall|k: int| 0 <= k < i ==> #[trigger] out[k] == (if k % 4 == 0 { 0 } else { self.lanes[k - 1] }),
            decreases 16 - i,
        {
            out[i] = if i % 4 == 0 { 0 } else { self.lanes[i - 1] };
            i = i + 1;
        }
        C16 { lanes: out }
    }

    /// Moves every row up by two lanes.
    pub fn shift_rows_up2(self) -> (r: C16)
        ensures
            forall|i: int| 0 <= i < 16 ==> #[trigger] r.lanes[i] == (if i % 4 < 2 { 0 } else { self.lanes[i - 2] }),
    {
        let mut out: [u16; 16] = [0;16];
        let mut i: usize = 0;
        while i < 16
            invariant
                i <= 16,
                forall|k: int| 0 <= k < i ==> #[trigger] out[k] == (if k % 4 < 2 { 0 } else { self.lanes[k - 2] }),
            decreases 16 - i,
        {
            out[i] = if i % 4 < 2 { 0 } else { self.lanes[i - 2] };
            i = i + 1;
        }
        C16 { lanes: out }
    }

    /// The union of each lane's three row peers.
    pub fn row_peers(self) -> (r: C16)
        ensures
            forall|i: int| 0 <= i < 16 ==> #[trigger] r.lanes[i] == row_peer_union(self.lanes@, i),
    {
        let mut out: [u16; 16] = [0;16];
        let mut i: usize = 0;
        while i < 16
            invariant
                i <= 16,
                forall|k: int| 0 <= k < i ==> #[trigger] out[k] == row_peer_union(self.lanes@, k),
            decreases 16 - i,
        {
            out[i] = self.lanes[4 * (i / 4) + (i + 1) % 4] | self.lanes[4 * (i / 4) + (i + 2) % 4] | self.lanes[4 * (i / 4) + (i + 3) % 4];
            i = i + 1;
        }
        C16 { lanes: out }
    }

    /// The union of each lane's three column peers.
    pub fn col_peers(self) -> (r: C16)
        ensures
            forall|i: int| 0 <= i < 16 ==> #[trigger] r.lanes[i] == col_peer_union(self.lanes@, i),
    {
        let mut out: [u16; 16] = [0;16];
        let mut i: usize = 0;
        while i < 16
            invariant
                i <= 16,
                forall|k: int| 0 <= k < i ==> #[trigger] out[k] == col_peer_union(self.lanes@, k),
            decreases 16 - i,
        {
            out[i] = self.lanes[(i + 4) % 16] | self.lanes[(i + 8) % 16] | self.lanes[(i + 12) % 16];
            i = i + 1;
        }
        C16 { lanes: out }
    }

    /// Of a matrix with empty margins: the union of all cells in every cell
    /// lane, and the union of each column in the bottom row.
    pub fn box_and_column_unions(self) -> (r: C16)
        ensures
            forall|i: int|
                0 <= i < 16 ==> #[trigger] r.lanes[i] == (if i / 4 == 3 {
                    col_union(self.lanes@, i % 4)
                } else if i % 4 == 3 {
                    0
                } else {
                    col_union(self.lanes@, 0) | col_union(self.lanes@, 1) | col_union(self.lanes@, 2)
                }),
    {
        let mut cols: [u16; 4] = [0;4];
        let mut c: usize = 0;
        while c < 4
            invariant
                c <= 4,
                forall|k: int| 0 <= k < c ==> #[trigger] cols[k] == col_union(self.lanes@, k),
            decreases 4 - c,
        {
            cols[c] = self.lanes[c] | self.lanes[4 + c] | self.lanes[8 + c] | self.lanes[12 + c];
            c = c + 1;
        }
        let whole = cols[0] | cols[1] | cols[2];
        let mut out: [u16; 16] = [0;16];
        let mut i: usize = 0;
        while i < 16
            invariant
                i <= 16,
                forall|k: int| 0 <= k < 4 ==> #[trigger] cols[k] == col_union(self.lanes@, k),
                whole == cols[0] | cols[1] | cols[2],
                forall|k: int|
                    0 <= k < i ==> #[trigger] out[k] == (if k / 4 == 3 {
                        col_union(self.lanes@, k % 4)
                    } else if k % 4 == 3 {
                        0
                    } else {
                        whole
                    }),
            decreases 16 - i,
        {
            out[i] = if i / 4 == 3 {
                cols[i % 4]
            } else if i % 4 == 3 {
                0
            } else {
                whole
            };
            i = i + 1;
        }
        C16 { lanes: out }
    }

    /// Gathers the triad literals into band-message form: the low half becomes
    /// `[0, 0, 0, 0, lane 3, lane 7, lane 11, 0]`, the high half is unchanged
    /// (its vertical triads already sit in positions 4..7).
    pub fn triad_message(self) -> (r: C16)
        ensures
            forall|i: int|
                0 <= i < 16 ==> #[trigger] r.lanes[i] == (if i >= 8 {
                    self.lanes[i]
                } else if 4 <= i < 7 {
                    self.lanes[4 * (i - 4) + 3]
                } else {
                    0
                }),
    {
        let mut out: [u16; 16] = self.lanes;
        let mut i: usize = 0;
        while i < 8
            invariant
                i <= 8,
                forall|k: int| 8 <= k < 16 ==> #[trigger] out[k] == self.lanes[k],
                forall|k: int|
                    0 <= k < i ==> #[trigger] out[k] == (if 4 <= k < 7 {
                        self.lanes[4 * (k - 4) + 3]
                    } else {
                        0
                    }),
            decreases 8 - i,
        {
            out[i] = if 4 <= i && i < 7 {
                self.lanes[4 * (i - 4) + 3]
            } else {
                0
            };
            i = i + 1;
        }
        C16 { lanes: out }
    }

    /// The four rows as 64-bit words.
    pub fn extract_rows_u64(self) -> (rows: [u64; 4])
        ensures
            forall|q: int|
                0 <= q < 4 ==> #[trigger] rows[q] == packed(
                    self.lanes[4 * q],
                    self.lanes[4 * q + 1],
                    self.lanes[4 * q + 2],
                    self.lanes[4 * q + 3],
                ),
    {
        let mut rows: [u64; 4] = [0;4];
        let mut q: usize = 0;
        while q < 4
            invariant
                q <= 4,
                forall|k: int|
                    0 <= k < q ==> #[trigger] rows[k] == packed(
                        self.lanes[4 * k],
                        self.lanes[4 * k + 1],
                        self.lanes[4 * k + 2],
                        self.lanes[4 * k + 3],
                    ),
            decreases 4 - q,
        {
            rows[q] = pack4(
                self.lanes[4 * q],
                self.lanes[4 * q + 1],
                self.lanes[4 * q + 2],
                self.lanes[4 * q + 3],
            );
            q = q + 1;
        }
        rows
    }
}

/// `r` is `a` without the lowest set bit of lane `t`, the first lane that is
/// not empty.
pub open spec fn cleared_at(a: Seq<u16>, r: Seq<u16>, t: int) -> bool {
    &&& 0 <= t < 8
    &&& a[t] != 0
    &&& forall|i: int| 0 <= i < t ==> #[trigger] a[i] == 0
    &&& forall|i: int| 0 <= i < 8 && i != t ==> #[trigger] r[i] == a[i]
    &&& forall|d: int| #[trigger]
        bit16(r[t], d) <==> bit16(a[t], d) && exists|e: int| 0 <= e < d && bit16(a[t], e)
}

/// How many digits the first `n` lanes hold together.
pub open spec fn lanes_total(v: Seq<u16>, n: nat) -> nat
    decreases n,
{
    if n == 0 {
        0
    } else {
        lanes_total(v, (n - 1) as nat) + pop16(v[n - 1])
    }
}

/// `x - floor` in 16 bits, wrapping around below zero.
pub open spec fn adjusted(x: u16, floor: u16) -> int {
    if x >= floor {
        x - floor
    } else {
        x - floor + 65536
    }
}

/// Lane `t` is the first of the least after subtracting `floor`.
pub open spec fn least_at(a: Seq<u16>, floor: u16, t: int) -> bool {
    &&& 0 <= t < 8
    &&& forall|i: int| 0 <= i < 8 ==> adjusted(a[t], floor) <= adjusted(#[trigger] a[i], floor)
    &&& forall|i: int| 0 <= i < t ==> adjusted(a[t], floor) < adjusted(#[trigger] a[i], floor)
}

impl C8 {
    /// No digit anywhere.
    pub fn zero() -> (r: C8)
        ensures
            forall|i: int| 0 <= i < 8 ==> #[trigger] r.lanes[i] == 0,
    {
        C8 { lanes: [0;8] }
    }

    /// `v` in every lane.
    pub fn all(v: u16) -> (r: C8)
        ensures
            forall|i: int| 0 <= i < 8 ==> #[trigger] r.lanes[i] == v,
    {
        C8 { lanes: [v;8] }
    }

    /// Lane-wise intersection.
    pub fn and(self, o: C8) -> (r: C8)
        ensures
            forall|i: int| 0 <= i < 8 ==> #[trigger] r.lanes[i] == self.lanes[i] & o.lanes[i],
    {
        let mut out: [u16; 8] = [0;8];
        let mut i: usize = 0;
        while i < 8
            invariant
                i <= 8,
                forall|k: int| 0 <= k < i ==> #[trigger] out[k] == self.lanes[k] & o.lanes[k],
            decreases 8 - i,
        {
            out[i] = self.lanes[i] & o.lanes[i];
            i = i + 1;
        }
        C8 { lanes: out }
    }

    /// Lane-wise union.
    pub fn or(self, o: C8) -> (r: C8)
        ensures
            forall|i: int| 0 <= i < 8 ==> #[trigger] r.lanes[i] == self.lanes[i] | o.lanes[i],
    {
        let mut out: [u16; 8] = [0;8];
        let mut i: usize = 0;
        while i < 8
            invariant
                i <= 8,
                forall|k: int| 0 <= k < i ==> #[trigger] out[k] == self.lanes[k] | o.lanes[k],
            decreases 8 - i,
        {
            out[i] = self.lanes[i] | o.lanes[i];
            i = i + 1;
        }
        C8 { lanes: out }
    }

    /// Lane-wise symmetric difference.
    pub fn xor(self, o: C8) -> (r: C8)
        ensures
            forall|i: int| 0 <= i < 8 ==> #[trigger] r.lanes[i] == self.lanes[i] ^ o.lanes[i],
    {
        let mut out: [u16; 8] = [0;8];
        let mut i: usize = 0;
        while i < 8
            invariant
                i <= 8,
                forall|k: int| 0 <= k < i ==> #[trigger] out[k] == self.lanes[k] ^ o.lanes[k],
            decreases 8 - i,
        {
            out[i] = self.lanes[i] ^ o.lanes[i];
            i = i + 1;
        }
        C8 { lanes: out }
    }

    /// Lane-wise difference: `self` without `o`.
    pub fn and_not(self, o: C8) -> (r: C8)
        ensures
            forall|i: int| 0 <= i < 8 ==> #[trigger] r.lanes[i] == self.lanes[i] & !o.lanes[i],
    {
        let mut out: [u16; 8] = [0;8];
        let mut i: usize = 0;
        while i < 8
            invariant
                i <= 8,
                forall|k: int| 0 <= k < i ==> #[trigger] out[k] == self.lanes[k] & !o.lanes[k],
            decreases 8 - i,
        {
            out[i] = self.lanes[i] & !o.lanes[i];
            i = i + 1;
        }
        C8 { lanes: out }
    }

    /// Moves lanes as `ctrl` says.
    pub fn shuffle(self, ctrl: C8) -> (r: C8)
        requires
            is_control(ctrl.lanes@),
        ensures
            forall|i: int|
                0 <= i < 8 ==> #[trigger] r.lanes[i] == picked(self.lanes@, 0, ctrl.lanes[i]),
    {
        let mut out: [u16; 8] = [0;8];
        let mut i: usize = 0;
        while i < 8
            invariant
                i <= 8,
                is_control(ctrl.lanes@),
                forall|k: int|
                    0 <= k < i ==> #[trigger] out[k] == picked(self.lanes@, 0, ctrl.lanes[k]),
            decreases 8 - i,
        {
            let s = ctrl.lanes[i];
            proof {
                assert(is_selector(ctrl.lanes@[i as int]));
            }
            if s != XX {
                out[i] = self.lanes[lane_index(s)];
            } else {
                out[i] = 0;
            }
            i = i + 1;
        }
        C8 { lanes: out }
    }

    /// Exchanges the two halves.
    pub fn rotate_cols(self) -> (r: C8)
        ensures
            forall|i: int| 0 <= i < 8 ==> #[trigger] r.lanes[i] == self.lanes[(i + 4) % 8],
    {
        let mut out: [u16; 8] = [0;8];
        let mut i: usize = 0;
        while i < 8
            invariant
                i <= 8,
                forall|k: int| 0 <= k < i ==> #[trigger] out[k] == self.lanes[(k + 4) % 8],
            decreases 8 - i,
        {
            out[i] = self.lanes[(i + 4) % 8];
            i = i + 1;
        }
        C8 { lanes: out }
    }

    /// Every lane is empty.
    pub fn all_zero(self) -> (r: bool)
        ensures
            r <==> forall|i: int| 0 <= i < 8 ==> #[trigger] self.lanes[i] == 0,
    {
        let mut i: usize = 0;
        while i < 8
            invariant
                i <= 8,
                forall|k: int| 0 <= k < i ==> #[trigger] self.lanes[k] == 0,
            decreases 8 - i,
        {
            if self.lanes[i] != 0 {
                return false;
            }
            i = i + 1;
        }
        true
    }

    /// Some lane has a digit in common with the same lane of `o`.
    pub fn intersects(self, o: C8) -> (r: bool)
        ensures
            r <==> exists|i: int| 0 <= i < 8 && #[trigger] self.lanes[i] & o.lanes[i] != 0,
    {
        let mut i: usize = 0;
        while i < 8
            invariant
                i <= 8,
                forall|k: int| 0 <= k < i ==> #[trigger] self.lanes[k] & o.lanes[k] == 0,
            decreases 8 - i,
        {
            if self.lanes[i] & o.lanes[i] != 0 {
                return true;
            }
            i = i + 1;
        }
        false
    }

    /// Keeps the lowest digit of each lane.
    pub fn low_bit_per_lane(self) -> (r: C8)
        ensures
            forall|i: int, d: int|
                0 <= i < 8 ==> (#[trigger] bit16(r.lanes[i], d) <==> bit16(self.lanes[i], d)
                    && forall|e: int| 0 <= e < d ==> !bit16(self.lanes[i], e)),
    {
        let mut out: [u16; 8] = [0;8];
        let mut i: usize = 0;
        while i < 8
            invariant
                i <= 8,
                forall|k: int, d: int|
                    0 <= k < i ==> (#[trigger] bit16(out[k], d) <==> bit16(self.lanes[k], d)
                        && forall|e: int| 0 <= e < d ==> !bit16(self.lanes[k], e)),
            decreases 8 - i,
        {
            let x = self.lanes[i];
            let low: u16 = if x == 0 {
                0
            } else {
                1u16 << (lowest16(x) as u16)
            };
            out[i] = low;
            i = i + 1;
        }
        C8 { lanes: out }
    }

    /// Clears the lowest set bit of the vector, viewed as one long integer
    /// with lane 0 lowest.
    pub fn clear_low_bit(self) -> (r: C8)
        ensures
            (forall|i: int| 0 <= i < 8 ==> #[trigger] self.lanes[i] == 0) ==> r == self,
            (exists|i: int| 0 <= i < 8 && #[trigger] self.lanes[i] != 0) ==> exists|t: int|
                #[trigger] cleared_at(self.lanes@, r.lanes@, t),
    {
        let mut i: usize = 0;
        while i < 8
            invariant
                i <= 8,
                forall|k: int| 0 <= k < i ==> #[trigger] self.lanes[k] == 0,
            decreases 8 - i,
        {
            if self.lanes[i] != 0 {
                let mut out: [u16; 8] = self.lanes;
                out[i] = without_lowest16(self.lanes[i]);
                proof {
                    let x = self.lanes[i as int];
                    let t = choose|t: int|
                        #![trigger bit16(x, t)]
                        bit16(x, t) && (forall|j: int| 0 <= j < t ==> !bit16(x, j)) && (forall|j: int|
                            bit16(out[i as int], j) <==> bit16(x, j) && j != t);
                    assert forall|d: int| #[trigger]
                        bit16(out[i as int], d) <==> bit16(x, d) && exists|e: int|
                            0 <= e < d && bit16(x, e) by {
                        if bit16(x, d) && d != t {
                            assert(t < d);
                            assert(bit16(x, t));
                        }
                    }
                }
                let r = C8 { lanes: out };
                assert(cleared_at(self.lanes@, r.lanes@, i as int));
                return r;
            }
            i = i + 1;
        }
        self
    }

    /// The least lane after subtracting `floor` (wrapping around below zero):
    /// its value in bits 0..16, its index in bits 16..19.
    pub fn minpos_after_sub(self, floor: u16) -> (r: u32)
        ensures
            exists|t: int| #[trigger]
                least_at(self.lanes@, floor, t) && r == 65536 * t + adjusted(self.lanes[t], floor),
    {
        let mut best: u32 = 65536;
        let mut at: u32 = 0;
        let mut i: usize = 0;
        while i < 8
            invariant
                i <= 8,
                i == 0 ==> best == 65536,
                i > 0 ==> at < i && best == adjusted(self.lanes[at as int], floor),
                forall|k: int| 0 <= k < i ==> best <= adjusted(#[trigger] self.lanes[k], floor),
                forall|k: int| 0 <= k < at ==> best < adjusted(#[trigger] self.lanes[k], floor),
            decreases 8 - i,
        {
            let x = self.lanes[i];
            let adj: u32 = if x >= floor {
                (x - floor) as u32
            } else {
                (x as u32 + 65536) - floor as u32
            };
            if adj < best {
                best = adj;
                at = i as u32;
            }
            i = i + 1;
        }
        proof {
            assert(least_at(self.lanes@, floor, at as int));
        }
        65536 * at + best
    }
}

/// How many digits each of six band-configuration vectors holds, in lanes
/// 0..6, with sentinels in lanes 6 and 7.
pub fn band_config_counts(bands: [C8; 6]) -> (r: C8)
    ensures
        forall|i: int| 0 <= i < 6 ==> #[trigger] r.lanes[i] == lanes_total(bands[i].lanes@, 8),
        r.lanes[6] == 0xffff,
        r.lanes[7] == 0xffff,
{
    let mut out: [u16; 8] = [0xffff;8];
    let mut i: usize = 0;
    while i < 6
        invariant
            i <= 6,
            forall|k: int| 0 <= k < i ==> #[trigger] out[k] == lanes_total(bands[k].lanes@, 8),
            out[6] == 0xffff,
            out[7] == 0xffff,
        decreases 6 - i,
    {
        let band = bands[i];
        let mut n: u16 = 0;
        let mut k: usize = 0;
        while k < 8
            invariant
                k <= 8,
                n <= 16 * k,
                n == lanes_total(band.lanes@, k as nat),
            decreases 8 - k,
        {
            n = n + count_ones16(band.lanes[k]) as u16;
            k = k + 1;
        }
        out[i] = n;
        i = i + 1;
    }
    C8 { lanes: out }
}

} // verus!
