//! Checking a grid against the rules and the clues.

use vstd::prelude::*;
use crate::baseline::state::ALL;
use crate::baseline::tables::build_units;
use crate::bits::{bit16, group_bits16, lemma_ext16, lemma_low_masks16};
use crate::grid::{
    is_grid, is_solution, lemma_grid_facts, lemma_grid_from_units, lemma_unit_has, unit_cell,
    unit_holds,
};

verus! {

broadcast use group_bits16;

/// Whether `sol` is a complete valid grid consistent with `clues`.
pub fn is_valid_solution(sol: &[u8; 81], clues: &[u8; 81]) -> (r: bool)
    ensures
        r == is_solution(sol@, clues@),
{
    let mut c: usize = 0;
    while c < 81
        invariant
            c <= 81,
            forall|x: int| 0 <= x < c ==> 1 <= #[trigger] sol@[x] <= 9,
            forall|x: int| 0 <= x < c && #[trigger] clues@[x] != 0 ==> sol@[x] == clues@[x],
        decreases 81 - c,
    {
        if sol[c] < 1 || sol[c] > 9 {
            proof {
                if is_grid(sol@) {
                    lemma_grid_facts(sol@);
                    assert(1 <= sol@[c as int] <= 9);
                }
            }
            return false;
        }
        if clues[c] != 0 && clues[c] != sol[c] {
            proof {
                assert(clues@[c as int] != 0);
            }
            return false;
        }
        c = c + 1;
    }
    let units = build_units();
    let mut u: usize = 0;
    while u < 27
        invariant
            u <= 27,
            forall|n: int, i: int|
                0 <= n < 27 && 0 <= i < 9 ==> #[trigger] units[n][i] == unit_cell(n, i)
                    && unit_cell(n, i) < 81,
            forall|x: int| 0 <= x < 81 ==> 1 <= #[trigger] sol@[x] <= 9,
            forall|n: int, d: int|
                0 <= n < u && 1 <= d <= 9 ==> #[trigger] unit_holds(sol@, n, d),
        decreases 27 - u,
    {
        let mut seen: u16 = 0;
        let mut i: usize = 0;
        while i < 9
            invariant
                i <= 9,
                u < 27,
                forall|n: int, k: int|
                    0 <= n < 27 && 0 <= k < 9 ==> #[trigger] units[n][k] == unit_cell(n, k)
                        && unit_cell(n, k) < 81,
                forall|x: int| 0 <= x < 81 ==> 1 <= #[trigger] sol@[x] <= 9,
                forall|e: int| #[trigger]
                    bit16(seen, e) <==> exists|k: int|
                        0 <= k < i && #[trigger] sol@[unit_cell(u as int, k)] == e + 1,
            decreases 9 - i,
        {
            let x = units[u][i] as usize;
            proof {
                assert(units[u as int][i as int] == unit_cell(u as int, i as int));
                assert(1 <= sol@[x as int] <= 9);
            }
            let ghost seen0 = seen;
            seen = seen | (1u16 << ((sol[x] - 1) as u16));
            proof {
                assert forall|e: int| #[trigger] bit16(seen, e) <==> exists|k: int|
                    0 <= k < i + 1 && #[trigger] sol@[unit_cell(u as int, k)] == e + 1 by {
                    if bit16(seen0, e) {
                        let k = choose|k: int|
                            0 <= k < i && #[trigger] sol@[unit_cell(u as int, k)] == e + 1;
                        assert(sol@[unit_cell(u as int, k)] == e + 1);
                    }
                    if e == sol@[x as int] - 1 {
                        assert(sol@[unit_cell(u as int, i as int)] == e + 1);
                    }
                }
            }
            i = i + 1;
        }
        proof {
            lemma_low_masks16();
        }
        if seen != ALL {
            proof {
                if is_grid(sol@) {
                    assert forall|e: int| 0 <= e < 16 implies bit16(seen, e) == bit16(ALL, e) by {
                        if 0 <= e < 9 {
                            let k = lemma_unit_has(sol@, u as int, e + 1);
                            assert(sol@[unit_cell(u as int, k)] == e + 1);
                        } else if bit16(seen, e) {
                            let k = choose|k: int|
                                0 <= k < 9 && #[trigger] sol@[unit_cell(u as int, k)] == e + 1;
                            assert(units[u as int][k] == unit_cell(u as int, k));
                            assert(0 <= unit_cell(u as int, k) < 81);
                            assert(1 <= sol@[unit_cell(u as int, k)] <= 9);
                        }
                    }
                    lemma_ext16(seen, ALL);
                }
            }
            return false;
        }
        proof {
            assert forall|n: int, d: int| 0 <= n < u + 1 && 1 <= d <= 9 implies
                #[trigger] unit_holds(sol@, n, d) by {
                if n == u {
                    assert(bit16(seen, d - 1));
                    let k = choose|k: int|
                        0 <= k < 9 && #[trigger] sol@[unit_cell(u as int, k)] == (d - 1) + 1;
                    assert(sol@[unit_cell(n, k)] == d);
                }
            }
        }
        u = u + 1;
    }
    proof {
        lemma_grid_from_units(sol@);
    }
    true
}

} // verus!
