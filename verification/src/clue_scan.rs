//! Locating the clues of a grid: the filled cells as bit masks.

use vstd::prelude::*;
use crate::bits::{bit32, bit64, group_bits32, group_bits64};

verus! {

broadcast use {group_bits32, group_bits64};

/// Clue cells as bit masks: cells 0..64 in the `u64`, cells 64..81 in the low
/// 17 bits of the `u32`. A set bit means that the cell is filled.
pub fn clue_masks(clues: &[u8; 81]) -> (r: (u64, u32))
    ensures
        forall|i: int| #[trigger] bit64(r.0, i) <==> 0 <= i < 64 && clues[i] != 0,
        forall|i: int| #[trigger] bit32(r.1, i) <==> 0 <= i < 17 && clues[64 + i] != 0,
{
    let mut lo: u64 = 0;
    let mut hi: u32 = 0;
    let mut cell: usize = 0;
    while cell < 64
        invariant
            cell <= 64,
            hi == 0,
            forall|i: int| #[trigger] bit64(lo, i) <==> 0 <= i < cell && clues[i] != 0,
        decreases 64 - cell,
    {
        if clues[cell] != 0 {
            lo = lo | (1u64 << (cell as u64));
        }
        cell = cell + 1;
    }
    while cell < 81
        invariant
            64 <= cell <= 81,
            forall|i: int| #[trigger] bit32(hi, i) <==> 0 <= i < cell - 64 && clues[64 + i] != 0,
        decreases 81 - cell,
    {
        if clues[cell] != 0 {
            hi = hi | (1u32 << ((cell - 64) as u32));
        }
        cell = cell + 1;
    }
    (lo, hi)
}

} // verus!
