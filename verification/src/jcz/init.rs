//! Building the first state of the board engine from a clue grid.

use vstd::prelude::*;
use crate::bits::{
    bit32, count_ones32, group_bits32, lemma_ext32, lemma_low_masks32, lemma_pop_set32,
    lemma_subset32, pop32,
};
use crate::boards::{admits, board_solutions, boards_ok, cand, cands};
use crate::grid::{
    clues_ok, extends, is_grid, is_solution, lemma_grid_facts, peers, settled, settled_as,
    solutions,
};
use crate::jcz::propagate::{lemma_split_cell, open_cell, State, Unsat};
use crate::minirow::BAND_ALL;

verus! {

broadcast use group_bits32;

/// No two clues among the first `n` cells give one digit twice to a unit.
pub open spec fn conflict_free(clues: Seq<u8>, n: int) -> bool {
    forall|a: int, b: int|
        #![trigger clues[a], clues[b]]
        0 <= a < b < n && clues[a] != 0 && clues[a] == clues[b] ==> !peers(a, b)
}

/// What the clues leave to cell `c`: its own clue, or any digit (counted
/// from 0) that no clue among its peers has.
pub open spec fn clue_allows(clues: Seq<u8>, c: int, d: int) -> bool {
    if clues[c] != 0 {
        clues[c] == d + 1
    } else {
        forall|x: int| 0 <= x < 81 && #[trigger] clues[x] == d + 1 ==> !peers(c, x)
    }
}

/// `bs` holds exactly the candidates that the clues leave.
pub open spec fn starts(bs: Seq<u32>, clues: Seq<u8>) -> bool {
    &&& boards_ok(bs)
    &&& forall|c: int, d: int|
        0 <= c < 81 && 0 <= d < 9 ==> (#[trigger] cand(bs, c, d) <==> clue_allows(clues, c, d))
}

/// Bit `k` of a unit word stands for a unit of cell `c`: bits 0..18 hold
/// three rows and three boxes per band, bits 18..27 the columns.
pub open spec fn touches(c: int, k: int) -> bool {
    k == 6 * (c / 27) + (c / 9) % 3 || k == 6 * (c / 27) + 3 + (c % 9) / 3 || k == 18 + c % 9
}

/// Two cells share a unit bit exactly when they are peers.
proof fn lemma_touch(a: int, b: int, k: int)
    requires
        0 <= a < 81,
        0 <= b < 81,
        a != b,
        touches(a, k),
        touches(b, k),
    ensures
        peers(a, b),
{
    lemma_split_cell(a);
    lemma_split_cell(b);
    assert((a / 9) % 3 == (a % 27) / 9);
    assert((b / 9) % 3 == (b % 27) / 9);
}

proof fn lemma_touch_back(a: int, b: int) -> (k: int)
    requires
        0 <= a < 81,
        0 <= b < 81,
        peers(a, b),
    ensures
        touches(a, k),
        touches(b, k),
{
    lemma_split_cell(a);
    lemma_split_cell(b);
    assert((a / 9) % 3 == (a % 27) / 9);
    assert((b / 9) % 3 == (b % 27) / 9);
    if a / 9 == b / 9 {
        6 * (a / 27) + (a / 9) % 3
    } else if a % 9 == b % 9 {
        18 + a % 9
    } else {
        6 * (a / 27) + 3 + (a % 9) / 3
    }
}

/// Bits in the words of digits 1..=n.
spec fn mask_sum(s: Seq<u32>, n: nat) -> nat
    decreases n,
{
    if n == 0 {
        0
    } else {
        mask_sum(s, (n - 1) as nat) + pop32(s[n as int])
    }
}

proof fn lemma_mask_sum(s: Seq<u32>, d: int, w: u32, n: nat)
    requires
        s.len() == 10,
        n <= 9,
        1 <= d <= 9,
    ensures
        d <= n ==> mask_sum(s.update(d, w), n) == mask_sum(s, n) + pop32(w) - pop32(s[d]),
        d > n ==> mask_sum(s.update(d, w), n) == mask_sum(s, n),
    decreases n,
{
    if n > 0 {
        lemma_mask_sum(s, d, w, (n - 1) as nat);
    }
}

proof fn lemma_mask_sum_zero(s: Seq<u32>, n: nat)
    requires
        s.len() == 10,
        n <= 9,
        forall|i: int| 0 <= i < 10 ==> #[trigger] s[i] == 0,
    ensures
        mask_sum(s, n) == 0,
    decreases n,
{
    if n > 0 {
        lemma_mask_sum_zero(s, (n - 1) as nat);
        let f = |i: int| bit32(0, i);
        crate::bits::lemma_count_mono(f, |i: int| false, 32);
        crate::bits::lemma_count_none(|i: int| false, 32);
        assert(s[n as int] == 0);
        assert(pop32(s[n as int]) == crate::bits::count(f, 32));
    }
}

/// The three unit bits of a cell.
fn cell_units(cell: usize) -> (u: u32)
    requires
        cell < 81,
    ensures
        forall|k: int| #[trigger] bit32(u, k) <==> touches(cell as int, k),
{
    let band = (cell / 27) as u32;
    let row = ((cell / 9) % 3) as u32;
    let col = (cell % 9) as u32;
    (1u32 << (6 * band + row)) | (1u32 << (6 * band + 3 + col / 3)) | (1u32 << (18 + col))
}

/// A clue adds three unit bits to its digit's word, unless a unit has the
/// digit already.
proof fn lemma_visit(mask: u32, u: u32, c: int)
    requires
        0 <= c < 81,
        forall|k: int| #[trigger] bit32(u, k) <==> touches(c, k),
    ensures
        pop32(mask | u) <= pop32(mask) + 3,
        pop32(mask | u) == pop32(mask) + 3 <==> forall|k: int| #[trigger]
            touches(c, k) ==> !bit32(mask, k),
{
    let k1 = (6 * (c / 27) + (c / 9) % 3) as u32;
    let k2 = (6 * (c / 27) + 3 + (c % 9) / 3) as u32;
    let k3 = (18 + c % 9) as u32;
    assert(k1 != k2 && k1 < 18 && k2 < 18 && 18 <= k3 < 27);
    let m1 = mask | (1u32 << k1);
    let m2 = m1 | (1u32 << k2);
    let m3 = m2 | (1u32 << k3);
    lemma_pop_set32(mask, k1);
    lemma_pop_set32(m1, k2);
    lemma_pop_set32(m2, k3);
    assert forall|i: int| 0 <= i < 32 implies bit32(m3, i) == bit32(mask | u, i) by {}
    lemma_ext32(m3, mask | u);
    assert(touches(c, k1 as int) && touches(c, k2 as int) && touches(c, k3 as int));
}

/// The cells of the full lines and full boxes of one band that a six-bit
/// selector names (lines in bits 0..3, boxes in bits 3..6).
fn rowbox(sel: u32) -> (m: u32)
    ensures
        forall|p: int| #[trigger]
            bit32(m, p) <==> 0 <= p < 27 && (bit32(sel, p / 9) || bit32(sel, 3 + (p % 9) / 3)),
{
    let mut m: u32 = 0;
    let mut r: u32 = 0;
    while r < 3
        invariant
            r <= 3,
            forall|p: int| #[trigger] bit32(m, p) <==> 0 <= p < 9 * r && bit32(sel, p / 9),
        decreases 3 - r,
    {
        let ghost m0 = m;
        if (sel >> r) & 1 == 1 {
            m = m | (0x1FFu32 << (9 * r));
        }
        proof {
            lemma_low_masks32();
            assert(bit32(sel, r as int) <==> (sel >> r) & 1 == 1) by {
                reveal(bit32);
            }
            assert forall|p: int| #[trigger] bit32(m, p) <==> 0 <= p < 9 * (r + 1) && bit32(
                sel,
                p / 9,
            ) by {
                if 9 * r <= p < 9 * r + 9 {
                    assert(p / 9 == r);
                }
            }
        }
        r = r + 1;
    }
    let ghost rows = m;
    let mut b: u32 = 0;
    while b < 3
        invariant
            b <= 3,
            forall|p: int| #[trigger] bit32(rows, p) <==> 0 <= p < 27 && bit32(sel, p / 9),
            forall|p: int| #[trigger]
                bit32(m, p) <==> bit32(rows, p) || (0 <= p < 27 && (p % 9) / 3 < b && bit32(
                    sel,
                    3 + (p % 9) / 3,
                )),
        decreases 3 - b,
    {
        let ghost m0 = m;
        if (sel >> (3 + b)) & 1 == 1 {
            let seg = 7u32 << (3 * b);
            m = m | seg | (seg << 9) | (seg << 18);
        }
        proof {
            lemma_low_masks32();
            assert(bit32(sel, 3 + b) <==> (sel >> (3 + b)) & 1 == 1) by {
                reveal(bit32);
            }
            let seg = 7u32 << (3 * b);
            assert forall|p: int| #[trigger] bit32(m, p) <==> bit32(rows, p) || (0 <= p < 27 && (p
                % 9) / 3 < b + 1 && bit32(sel, 3 + (p % 9) / 3)) by {
                assert(bit32(seg, p) <==> 0 <= p < 9 && p / 3 == b);
                assert(bit32(seg << 9, p) <==> 9 <= p < 18 && (p - 9) / 3 == b);
                assert(bit32(seg << 18, p) <==> 18 <= p < 27 && (p - 18) / 3 == b);
            }
        }
        b = b + 1;
    }
    m
}

/// Clue words of the scan: units and cells per digit, and the clue count.
struct Scan {
    unit_mask: [u32; 10],
    clue_bits: [u32; 30],
    n_clues: u32,
}

impl Scan {
    spec fn covers(&self, clues: Seq<u8>, n: int) -> bool {
        &&& forall|d: int, k: int|
            1 <= d <= 9 ==> (#[trigger] bit32(self.unit_mask[d], k) <==> exists|c: int|
                0 <= c < n && #[trigger] clues[c] == d && touches(c, k))
        &&& forall|d: int, b: int, p: int|
            1 <= d <= 9 && 0 <= b < 3 ==> (#[trigger] bit32(self.clue_bits[d * 3 + b], p) <==> 0 <= p
                < 27 && 27 * b + p < n && clues[27 * b + p] == d)
    }

    spec fn counts(&self, clues: Seq<u8>, n: int) -> bool {
        &&& self.n_clues <= n
        &&& mask_sum(self.unit_mask@, 9) <= 3 * self.n_clues
        &&& mask_sum(self.unit_mask@, 9) == 3 * self.n_clues <==> conflict_free(clues, n)
    }

    fn new() -> (s: Scan)
        ensures
            forall|clues: Seq<u8>| #[trigger] s.covers(clues, 0),
            forall|clues: Seq<u8>| #[trigger] s.counts(clues, 0),
    {
        let s = Scan { unit_mask: [0;10], clue_bits: [0;30], n_clues: 0 };
        proof {
            lemma_mask_sum_zero(s.unit_mask@, 9);
        }
        s
    }

    /// Enters the clue of `cell`.
    fn visit(&mut self, clues: &[u8; 81], cell: usize)
        requires
            cell < 81,
            1 <= clues[cell as int] <= 9,
            old(self).covers(clues@, cell as int),
            old(self).counts(clues@, cell as int),
        ensures
            final(self).covers(clues@, cell + 1),
            final(self).counts(clues@, cell + 1),
    {
        let d = clues[cell] as usize;
        let u = cell_units(cell);
        let ghost um0 = self.unit_mask@;
        let ghost cb0 = self.clue_bits@;
        self.unit_mask[d] = self.unit_mask[d] | u;
        let slot = d * 3 + cell / 27;
        self.clue_bits[slot] = self.clue_bits[slot] | (1u32 << ((cell % 27) as u32));
        self.n_clues = self.n_clues + 1;
        proof {
            let cs = clues@;
            let n = cell as int;
            assert forall|e: int, k: int| 1 <= e <= 9 implies (#[trigger] bit32(
                self.unit_mask[e],
                k,
            ) <==> exists|c: int| 0 <= c < n + 1 && #[trigger] cs[c] == e && touches(c, k)) by {
                if e == d && touches(n, k) {
                    assert(cs[n] == e);
                }
                if bit32(um0[e], k) {
                    let c = choose|c: int| 0 <= c < n && #[trigger] cs[c] == e && touches(c, k);
                    assert(cs[c] == e);
                }
                if exists|c: int| 0 <= c < n + 1 && #[trigger] cs[c] == e && touches(c, k) {
                    let c = choose|c: int| 0 <= c < n + 1 && #[trigger] cs[c] == e && touches(c, k);
                    if c < n {
                        assert(bit32(um0[e], k));
                    }
                }
            }
            assert forall|e: int, b: int, p: int| 1 <= e <= 9 && 0 <= b < 3 implies (#[trigger] bit32(
                self.clue_bits[e * 3 + b],
                p,
            ) <==> 0 <= p < 27 && 27 * b + p < n + 1 && cs[27 * b + p] == e) by {
                lemma_split_cell(n);
                assert(bit32(cb0[e * 3 + b], p) <==> 0 <= p < 27 && 27 * b + p < n && cs[27 * b + p]
                    == e);
                if 0 <= p < 27 && 27 * b + p == n {
                    assert(b == n / 27 && p == n % 27);
                }
            }
            lemma_mask_sum(um0, d as int, um0[d as int] | u, 9);
            assert(self.unit_mask@ =~= um0.update(d as int, um0[d as int] | u));
            lemma_visit(um0[d as int], u, n);
            let fresh = forall|k: int| #[trigger] touches(n, k) ==> !bit32(um0[d as int], k);
            assert(conflict_free(cs, n + 1) <==> conflict_free(cs, n) && fresh) by {
                if conflict_free(cs, n + 1) {
                    assert(conflict_free(cs, n));
                    assert forall|k: int| #[trigger] touches(n, k) implies !bit32(
                        um0[d as int],
                        k,
                    ) by {
                        if bit32(um0[d as int], k) {
                            let c = choose|c: int|
                                0 <= c < n && #[trigger] cs[c] == d && touches(c, k);
                            assert(cs[c] == cs[n]);
                            lemma_touch(c, n, k);
                        }
                    }
                }
                if conflict_free(cs, n) && fresh {
                    assert forall|a: int, b: int|
                        #![trigger cs[a], cs[b]]
                        0 <= a < b < n + 1 && cs[a] != 0 && cs[a] == cs[b] implies !peers(a, b) by {
                        if b == n && peers(a, b) {
                            let k = lemma_touch_back(a, b);
                            assert(cs[a] == d);
                            assert(bit32(um0[d as int], k));
                        }
                    }
                }
            }
        }
    }
}

impl State {
    /// Builds the state from the clue grid in one batched pass.
    ///
    /// Duplicate clues fall out of a count: every clue contributes three unit
    /// bits, so if two clues of a digit share a unit the total falls short.
    #[verifier::rlimit(40)]
    pub fn init_from_clues(clues: &[u8; 81]) -> (r: Result<State, Unsat>)
        requires
            clues_ok(clues@),
        ensures
            r is Ok <==> conflict_free(clues@, 81),
            r is Err ==> solutions(clues@) == Set::<Seq<u8>>::empty(),
            r matches Ok(st) ==> {
                &&& st.ok()
                &&& st.tracked_by(st.dirty)
                &&& starts(st.poss@, clues@)
                &&& forall|c: int|
                    0 <= c < 81 ==> (#[trigger] open_cell(st.unsolved@, c) <==> clues[c] == 0)
                &&& st.dirty == BAND_ALL
                &&& st.pairs@ == seq![0u32, 0, 0]
                &&& board_solutions(st.poss@) == solutions(clues@)
            },
    {
        let mut scan = Scan::new();
        let mut cell: usize = 0;
        while cell < 81
            invariant
                cell <= 81,
                clues_ok(clues@),
                scan.covers(clues@, cell as int),
                scan.counts(clues@, cell as int),
            decreases 81 - cell,
        {
            if clues[cell] != 0 {
                scan.visit(clues, cell);
            } else {
                proof {
                    let cs = clues@;
                    let n = cell as int;
                    assert(cs[n] == 0);
                    assert forall|e: int, k: int| 1 <= e <= 9 implies (#[trigger] bit32(
                        scan.unit_mask[e],
                        k,
                    ) <==> exists|c: int|
                        0 <= c < n + 1 && #[trigger] cs[c] == e && touches(c, k)) by {
                        if bit32(scan.unit_mask[e], k) {
                            let c = choose|c: int|
                                0 <= c < n && #[trigger] cs[c] == e && touches(c, k);
                            assert(cs[c] == e);
                        }
                    }
                    assert(conflict_free(cs, n + 1) <==> conflict_free(cs, n));
                }
            }
            cell = cell + 1;
        }
        let mut unit_bits: u32 = 0;
        let mut d: usize = 1;
        while d <= 9
            invariant
                1 <= d <= 10,
                unit_bits == mask_sum(scan.unit_mask@, (d - 1) as nat),
                unit_bits <= 32 * (d - 1),
            decreases 10 - d,
        {
            unit_bits = unit_bits + count_ones32(scan.unit_mask[d]);
            d = d + 1;
        }
        if unit_bits != 3 * scan.n_clues {
            proof {
                lemma_conflict(clues@);
            }
            return Err(Unsat);
        }
        // Solved cells per band, folded out of the per-digit clue words.
        let mut clue_cells: [u32; 3] = [0;3];
        let mut b: usize = 0;
        while b < 3
            invariant
                b <= 3,
                clues_ok(clues@),
                scan.covers(clues@, 81),
                forall|x: int, p: int|
                    0 <= x < b ==> (#[trigger] bit32(clue_cells[x], p) <==> 0 <= p < 27 && clues[27
                        * x + p] != 0),
            decreases 3 - b,
        {
            let mut m: u32 = 0;
            let mut e: usize = 1;
            while e <= 9
                invariant
                    1 <= e <= 10,
                    b < 3,
                    clues_ok(clues@),
                    scan.covers(clues@, 81),
                    forall|p: int| #[trigger]
                        bit32(m, p) <==> 0 <= p < 27 && 1 <= clues[27 * b + p] < e,
                decreases 10 - e,
            {
                let w = scan.clue_bits[e * 3 + b];
                proof {
                    assert forall|p: int| #[trigger] bit32(w, p) <==> 0 <= p < 27 && clues[27 * b + p]
                        == e by {
                        assert(bit32(scan.clue_bits[e * 3 + b], p) <==> 0 <= p < 27 && 27 * b + p
                            < 81 && clues@[27 * b + p] == e);
                    }
                }
                m = m | w;
                e = e + 1;
            }
            clue_cells[b] = m;
            proof {
                assert forall|p: int| #[trigger] bit32(m, p) <==> 0 <= p < 27 && clues[27 * b + p]
                    != 0 by {
                    if 0 <= p < 27 {
                        assert(clues@[27 * b + p] <= 9);
                    }
                }
            }
            b = b + 1;
        }
        let mut poss: [u32; 27] = [0;27];
        let mut e: usize = 1;
        while e <= 9
            invariant
                1 <= e <= 10,
                clues_ok(clues@),
                scan.covers(clues@, 81),
                forall|x: int, p: int|
                    0 <= x < 3 ==> (#[trigger] bit32(clue_cells[x], p) <==> 0 <= p < 27 && clues[27
                        * x + p] != 0),
                forall|x: int, f: int, p: int|
                    0 <= x < 3 && 0 <= f < e - 1 ==> (#[trigger] bit32(poss[9 * x + f], p) <==> 0
                        <= p < 27 && clue_allows(clues@, 27 * x + p, f)),
            decreases 10 - e,
        {
            let um = scan.unit_mask[e];
            let cs = um >> 18;
            let colspread = cs | (cs << 9) | (cs << 18);
            let mut b: usize = 0;
            while b < 3
                invariant
                    b <= 3,
                    1 <= e <= 9,
                    clues_ok(clues@),
                    scan.covers(clues@, 81),
                    um == scan.unit_mask[e as int],
                    cs == um >> 18,
                    colspread == cs | (cs << 9) | (cs << 18),
                    forall|x: int, p: int|
                        0 <= x < 3 ==> (#[trigger] bit32(clue_cells[x], p) <==> 0 <= p < 27
                            && clues[27 * x + p] != 0),
                    forall|x: int, f: int, p: int|
                        0 <= x < 3 && (0 <= f < e - 1 || f == e - 1 && x < b) ==> (#[trigger] bit32(
                            poss[9 * x + f],
                            p,
                        ) <==> 0 <= p < 27 && clue_allows(clues@, 27 * x + p, f)),
                decreases 3 - b,
            {
                let sel = um >> ((6 * b) as u32);
                let elim = rowbox(sel) | colspread;
                let cb = scan.clue_bits[e * 3 + b];
                let w = (BAND_ALL & !elim & !clue_cells[b]) | cb;
                let ghost poss0 = poss@;
                poss[b * 9 + e - 1] = w;
                proof {
                    lemma_low_masks32();
                    assert forall|p: int| #[trigger] bit32(w, p) <==> 0 <= p < 27 && clue_allows(
                        clues@,
                        27 * b + p,
                        e - 1,
                    ) by {
                        assert(bit32(scan.clue_bits[e * 3 + b], p) <==> 0 <= p < 27 && 27 * b + p
                            < 81 && clues@[27 * b + p] == e);
                        if 0 <= p < 27 {
                            let c = 27 * b + p;
                            assert(c / 27 == b && c % 27 == p);
                            lemma_split_cell(c);
                            assert((c / 9) % 3 == p / 9);
                            assert(bit32(elim, p) <==> bit32(um, 6 * b + p / 9) || bit32(
                                um,
                                6 * b + 3 + (p % 9) / 3,
                            ) || bit32(um, 18 + p % 9)) by {
                                assert(bit32(cs, p % 9) <==> bit32(um, 18 + p % 9));
                                lemma_high_cols(scan, clues@, e as int, um);
                                assert(bit32(colspread, p) <==> bit32(cs, p) || bit32(cs, p - 9)
                                    || bit32(cs, p - 18));
                            }
                            if clues@[c] == 0 {
                                lemma_elim(scan, clues@, e as int, c);
                            }
                        }
                    }
                    assert forall|x: int, f: int, p: int|
                        0 <= x < 3 && (0 <= f < e - 1 || f == e - 1 && x < b + 1) implies (
                    #[trigger] bit32(poss[9 * x + f], p) <==> 0 <= p < 27 && clue_allows(
                        clues@,
                        27 * x + p,
                        f,
                    )) by {
                        if !(x == b && f == e - 1) {
                            assert(poss@[9 * x + f] == poss0[9 * x + f]);
                        }
                    }
                }
                b = b + 1;
            }
            e = e + 1;
        }
        let st = State {
            poss,
            dirty: BAND_ALL,
            unsolved: [
                BAND_ALL & !clue_cells[0],
                BAND_ALL & !clue_cells[1],
                BAND_ALL & !clue_cells[2],
            ],
            pairs: [0;3],
        };
        proof {
            lemma_low_masks32();
            st.lemma_started(clues@, clue_cells@);
        }
        Ok(st)
    }

    proof fn lemma_started(&self, clues: Seq<u8>, clue_cells: Seq<u32>)
        requires
            clues_ok(clues),
            conflict_free(clues, 81),
            self.dirty == BAND_ALL,
            clue_cells.len() == 3,
            forall|x: int, p: int|
                0 <= x < 3 ==> (#[trigger] bit32(clue_cells[x], p) <==> 0 <= p < 27 && clues[27 * x
                    + p] != 0),
            forall|x: int| 0 <= x < 3 ==> #[trigger] self.unsolved[x] == BAND_ALL & !clue_cells[x],
            forall|x: int, f: int, p: int|
                0 <= x < 3 && 0 <= f < 9 ==> (#[trigger] bit32(self.poss[9 * x + f], p) <==> 0 <= p
                    < 27 && clue_allows(clues, 27 * x + p, f)),
        ensures
            self.ok(),
            self.tracked_by(self.dirty),
            starts(self.poss@, clues),
            forall|c: int|
                0 <= c < 81 ==> (#[trigger] open_cell(self.unsolved@, c) <==> clues[c] == 0),
            board_solutions(self.poss@) == solutions(clues),
    {
        let bs = self.poss@;
        lemma_low_masks32();
        assert forall|i: int| 0 <= i < 27 implies #[trigger] bs[i] <= BAND_ALL by {
            assert(i == 9 * (i / 9) + i % 9);
            assert forall|p: int| bit32(bs[i], p) implies bit32(BAND_ALL, p) by {
                assert(bit32(self.poss[9 * (i / 9) + i % 9], p));
            }
            lemma_subset32(bs[i], BAND_ALL);
        }
        assert forall|x: int| 0 <= x < 3 implies #[trigger] self.unsolved[x] <= BAND_ALL by {
            lemma_subset32(self.unsolved[x], BAND_ALL);
        }
        assert forall|c: int, d: int| 0 <= c < 81 && 0 <= d < 9 implies (#[trigger] cand(bs, c, d)
            <==> clue_allows(clues, c, d)) by {
            lemma_split_cell(c);
            assert(bit32(self.poss[9 * (c / 27) + d], c % 27) <==> clue_allows(
                clues,
                27 * (c / 27) + c % 27,
                d,
            ));
        }
        assert forall|c: int| 0 <= c < 81 implies (#[trigger] open_cell(self.unsolved@, c)
            <==> clues[c] == 0) by {
            lemma_split_cell(c);
            assert(self.unsolved[c / 27] == BAND_ALL & !clue_cells[c / 27]);
            assert(bit32(clue_cells[c / 27], c % 27) <==> clues[27 * (c / 27) + c % 27] != 0);
        }
        assert forall|c: int| 0 <= c < 81 && !#[trigger] open_cell(
            self.unsolved@,
            c,
        ) implies settled(cands(bs), c) by {
            lemma_split_cell(c);
            let d = clues[c] - 1;
            assert(bit32(clue_cells[c / 27], c % 27));
            assert(clues[c] != 0);
            assert forall|e: int| 0 <= e < 9 && e != d implies !#[trigger] cands(bs)(c, e) by {
                assert(cand(bs, c, e) <==> clue_allows(clues, c, e));
            }
            assert forall|x: int| 0 <= x < 81 && peers(c, x) implies !#[trigger] cands(bs)(x, d) by {
                assert(cand(bs, x, d) <==> clue_allows(clues, x, d));
                assert(peers(x, c));
                assert(clues[c] == d + 1);
                if clues[x] != 0 && clues[x] == clues[c] {
                    if c < x {
                        assert(!peers(c, x));
                    } else {
                        assert(!peers(x, c));
                    }
                }
            }
            assert(settled_as(cands(bs), c, d));
        }
        assert(self.tracked_by(self.dirty));
        assert forall|g: Seq<u8>| board_solutions(bs).contains(g) == solutions(clues).contains(g) by {
            if is_grid(g) {
                lemma_grid_facts(g);
                if admits(bs, g) {
                    assert forall|c: int| 0 <= c < 81 && #[trigger] clues[c] != 0 implies g[c]
                        == clues[c] by {
                        reveal(admits);
                        assert(cand(bs, c, g[c] - 1));
                    }
                }
                if extends(g, clues) {
                    assert forall|c: int| 0 <= c < 81 implies cand(bs, c, #[trigger] g[c] - 1) by {
                        let d = g[c] - 1;
                        assert(cand(bs, c, d) <==> clue_allows(clues, c, d));
                        if clues[c] == 0 {
                            assert forall|x: int|
                                0 <= x < 81 && #[trigger] clues[x] == d + 1 implies !peers(c, x) by {
                                assert(g[x] == clues[x]);
                                assert(g[c] == g[x]);
                            }
                        }
                    }
                    assert(admits(bs, g)) by {
                        reveal(admits);
                    }
                }
            }
        }
        assert(board_solutions(bs) =~= solutions(clues));
    }
}

/// Conflicting clues have no solution.
proof fn lemma_conflict(clues: Seq<u8>)
    requires
        clues_ok(clues),
        !conflict_free(clues, 81),
    ensures
        solutions(clues) == Set::<Seq<u8>>::empty(),
{
    let (a, b) = choose|a: int, b: int|
        #![trigger clues[a], clues[b]]
        0 <= a < b < 81 && clues[a] != 0 && clues[a] == clues[b] && peers(a, b);
    assert forall|g: Seq<u8>| !solutions(clues).contains(g) by {
        if is_solution(g, clues) {
            lemma_grid_facts(g);
            assert(g[a] == clues[a] && g[b] == clues[b]);
        }
    }
    assert(solutions(clues) =~= Set::<Seq<u8>>::empty());
}

/// The unit word of a digit has no bits above the columns.
proof fn lemma_high_cols(scan: Scan, clues: Seq<u8>, e: int, um: u32)
    requires
        1 <= e <= 9,
        scan.covers(clues, 81),
        um == scan.unit_mask[e],
    ensures
        forall|k: int| #[trigger] bit32(um, k) ==> 0 <= k < 27,
        forall|k: int| #[trigger] bit32(um >> 18u32, k) ==> 0 <= k < 9,
{
    assert forall|k: int| #[trigger] bit32(um, k) implies 0 <= k < 27 by {
        let c = choose|c: int| 0 <= c < 81 && #[trigger] clues[c] == e && touches(c, k);
        lemma_split_cell(c);
    }
    assert forall|k: int| #[trigger] bit32(um >> 18u32, k) implies 0 <= k < 9 by {
        assert(bit32(um, k + 18));
    }
}

/// A blank cell loses the digit exactly when a peer's clue has it.
proof fn lemma_elim(scan: Scan, clues: Seq<u8>, e: int, c: int)
    requires
        1 <= e <= 9,
        0 <= c < 81,
        clues[c] == 0,
        scan.covers(clues, 81),
    ensures
        (bit32(scan.unit_mask[e], 6 * (c / 27) + (c / 9) % 3) || bit32(
            scan.unit_mask[e],
            6 * (c / 27) + 3 + (c % 9) / 3,
        ) || bit32(scan.unit_mask[e], 18 + c % 9)) <==> !clue_allows(clues, c, e - 1),
{
    let um = scan.unit_mask[e];
    assert forall|k: int| #[trigger] bit32(um, k) && touches(c, k) implies !clue_allows(
        clues,
        c,
        e - 1,
    ) by {
        let x = choose|x: int| 0 <= x < 81 && #[trigger] clues[x] == e && touches(x, k);
        lemma_touch(c, x, k);
    }
    if !clue_allows(clues, c, e - 1) {
        let x = choose|x: int| 0 <= x < 81 && #[trigger] clues[x] == e - 1 + 1 && peers(c, x);
        let k = lemma_touch_back(c, x);
        assert(bit32(um, k));
    }
}

} // verus!
