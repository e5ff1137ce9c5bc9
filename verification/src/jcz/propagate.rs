//! The search state of the board engine and its propagation.

use vstd::prelude::*;
use crate::bits::{
    bit16, bit32, group_bits16, group_bits32, lemma_ext32, lemma_low_masks16, lemma_low_masks32,
    lemma_nonzero32, lemma_small32, lemma_subset16, lemma_subset32, lowest32, total32,
    without_lowest32,
};
use crate::boards::{
    admits, board_solutions, boards_ok, cand, cands, dead, digits_at, encodes, keeps, lemma_leaf,
    lemma_settled_mono, lemma_unsupported_dead, lemma_within_total, lemma_within_trans, sub32,
    tally, within,
};
use crate::grid::{is_grid, lemma_grid_facts, peers, settled, settled_as};
use crate::jcz::closure::{
    closed_self, column_clear, has_candidate, is_closure, keeps_stable, lemma_in_band,
    lemma_step_close, lemma_step_column, lemma_step_place, lemma_step_sweep, lone_col, lone_digit,
    none_stable, pinned, stable, undecided,
};
use crate::jcz::tables::{box_in_one_col, near, only_col, Tables};
use crate::minirow::{
    closed_at, fits, fits_cells, forced_at, has_perm, in_perm, is_pattern, lemma_close_cells,
    occupied, perm_box, shrink_band, supported, BAND_ALL,
};

verus! {

broadcast use {group_bits16, group_bits32};

/// The boards of a search node, with the bookkeeping of the propagation.
#[derive(Clone, Copy)]
pub struct State {
    /// Word `band * 9 + digit`: cells of the band where the digit remains possible.
    pub poss: [u32; 27],
    /// Boards whose mask changed since their last update.
    pub dirty: u32,
    /// Cells not yet fixed, per band.
    pub unsolved: [u32; 3],
    /// Cells with exactly two candidate digits, per band (guess targets).
    pub pairs: [u32; 3],
}

/// The clues or the boards admit no grid.
pub struct Unsat;

/// Cell `c` is not yet fixed.
pub open spec fn open_cell(unsolved: Seq<u32>, c: int) -> bool {
    bit32(unsolved[c / 27], c % 27)
}

/// No open cell is pinned by the board `m`.
pub open spec fn quiet(m: u32, u: u32) -> bool {
    forall|p: int| #[trigger] pinned(m, p) ==> !bit32(u, p)
}

/// Board `sb` has been brought up to date.
pub open spec fn good(poss: Seq<u32>, unsolved: Seq<u32>, sb: int) -> bool {
    &&& supported(poss[sb])
    &&& closed_self(poss[sb])
    &&& quiet(poss[sb], unsolved[sb / 9])
    &&& forall|b2: int|
        0 <= b2 < 3 && b2 != sb / 9 ==> #[trigger] column_clear(poss, sb / 9, sb % 9, b2)
}

/// The fixed cells are settled.
pub open spec fn settled_inv(poss: Seq<u32>, unsolved: Seq<u32>) -> bool {
    forall|c: int|
        0 <= c < 81 && !#[trigger] open_cell(unsolved, c) ==> settled(cands(poss), c)
}

/// A board stays up to date while it does not change and the others shrink.
pub proof fn lemma_good_mono(
    a: Seq<u32>,
    ua: Seq<u32>,
    b: Seq<u32>,
    ub: Seq<u32>,
    sb: int,
)
    requires
        a.len() == 27,
        b.len() == 27,
        0 <= sb < 27,
        within(b, a),
        b[sb] == a[sb],
        sub32(ub[sb / 9], ua[sb / 9]),
        good(a, ua, sb),
    ensures
        good(b, ub, sb),
{
    assert forall|b2: int| 0 <= b2 < 3 && b2 != sb / 9 implies #[trigger] column_clear(
        b,
        sb / 9,
        sb % 9,
        b2,
    ) by {
        assert(column_clear(a, sb / 9, sb % 9, b2));
        let i = 9 * b2 + sb % 9;
        assert(sub32(b[i], a[i]));
        assert(sb == 9 * (sb / 9) + sb % 9);
    }
}

/// The columns that the cells of `m` occupy.
fn column_occupancy(m: u32) -> (cols: u16)
    ensures
        cols <= 0x1FF,
        forall|x: int| #[trigger]
            bit16(cols, x) <==> 0 <= x < 9 && (bit32(m, x) || bit32(m, 9 + x) || bit32(m, 18 + x)),
{
    let f = (m | (m >> 9) | (m >> 18)) & 0x1FF;
    proof {
        lemma_low_masks32();
        lemma_low_masks16();
        assert(f <= 0x1FF) by {
            lemma_subset32(f, 0x1FF);
        }
        crate::bits::lemma_narrow(f);
    }
    f as u16
}

// ---------------------------------------------------------------------------
// Facts behind one update
// ---------------------------------------------------------------------------

proof fn lemma_no_perm(a: Seq<u32>, b: int, d: int, s: u16)
    requires
        a.len() == 27,
        0 <= b < 3,
        0 <= d < 9,
        is_pattern(s, a[9 * b + d]),
        !has_perm(s),
    ensures
        !supported(a[9 * b + d]),
        dead(a),
        none_stable(a),
{
    let m = a[9 * b + d];
    if supported(m) {
        let k = choose|k: int| #[trigger] fits_cells(m, k);
        assert(fits(s, k));
    }
    lemma_unsupported_dead(a, b, d);
    assert forall|v: Seq<u32>| stable(v) implies !#[trigger] within(v, a) by {
        if within(v, a) {
            reveal(stable);
            let i = 9 * b + d;
            assert(supported(v[i]));
            let k = choose|k: int| #[trigger] fits_cells(v[i], k);
            assert(sub32(v[i], a[i]));
            assert(fits_cells(a[i], k));
        }
    }
}

proof fn lemma_cols(m: u32, cols: u16, x: int)
    requires
        forall|y: int| #[trigger]
            bit16(cols, y) <==> 0 <= y < 9 && (bit32(m, y) || bit32(m, 9 + y) || bit32(m, 18 + y)),
    ensures
        only_col(cols, x) <==> lone_col(m, x),
{
    if only_col(cols, x) {
        let r = if bit32(m, x) {
            0int
        } else if bit32(m, 9 + x) {
            1
        } else {
            2
        };
        assert(bit32(m, 9 * r + x));
        assert forall|q: int| 0 <= q < 27 && (q % 9) / 3 == x / 3 && #[trigger] bit32(m, q) implies q
            % 9 == x by {
            assert(q == q % 9 || q == 9 + q % 9 || q == 18 + q % 9);
            assert(bit16(cols, q % 9));
        }
    }
    if lone_col(m, x) {
        let r = choose|r: int| 0 <= r < 3 && #[trigger] bit32(m, 9 * r + x);
        assert(bit16(cols, x)) by {
            assert(r == 0 || r == 1 || r == 2);
        }
        assert forall|y: int| 0 <= y < 9 && y / 3 == x / 3 && #[trigger] bit16(
            cols,
            y,
        ) implies y == x by {
            let q = if bit32(m, y) {
                y
            } else if bit32(m, 9 + y) {
                9 + y
            } else {
                18 + y
            };
            assert(bit32(m, q) && q % 9 == y);
        }
    }
}

proof fn lemma_pinned(m: u32, s: u16, cols: u16, p: int)
    requires
        0 <= p < 27,
        has_perm(s),
        forall|k: int| #[trigger] fits_cells(m, k) <==> fits(s, k),
        forall|q: int| #[trigger] bit32(m, q) ==> 0 <= q < 27 && closed_at(s, q / 3),
        forall|x: int| #[trigger] only_col(cols, x) <==> lone_col(m, x),
    ensures
        pinned(m, p) <==> bit32(m, p) && forced_at(s, p / 3) && box_in_one_col(cols, (p / 3) % 3),
{
    let r = p / 9;
    let j = (p % 9) / 3;
    assert((p / 3) / 3 == r && (p / 3) % 3 == j);
    if pinned(m, p) {
        assert forall|k: int| #[trigger] fits(s, k) implies in_perm(k, p / 3) by {
            assert(fits_cells(m, k));
            let i = 3 * r + perm_box(k, r);
            assert(occupied(m, i));
            let q = if bit32(m, 3 * i) {
                3 * i
            } else if bit32(m, 3 * i + 1) {
                3 * i + 1
            } else {
                3 * i + 2
            };
            assert(bit32(m, q) && q / 9 == r);
            assert(near(q, p));
        }
        let x = p % 9;
        assert(bit32(m, 9 * r + x));
        assert forall|q: int| 0 <= q < 27 && (q % 9) / 3 == x / 3 && #[trigger] bit32(m, q) implies q
            % 9 == x by {
            assert(near(q, p));
        }
        assert(lone_col(m, x));
        assert(only_col(cols, x));
    }
    if bit32(m, p) && forced_at(s, p / 3) && box_in_one_col(cols, j) {
        let x = choose|x: int| x / 3 == j && #[trigger] only_col(cols, x);
        assert(lone_col(m, x));
        assert(p % 9 == x);
        assert forall|q: int| 0 <= q < 27 && near(q, p) && #[trigger] bit32(m, q) implies q == p by {
            assert(closed_at(s, q / 3));
            let k = choose|k: int| #[trigger] fits(s, k) && in_perm(k, q / 3);
            assert(in_perm(k, p / 3));
            let (qr, qj) = (q / 9, (q % 9) / 3);
            assert((q / 3) / 3 == qr && (q / 3) % 3 == qj);
            assert(perm_box(k, qr) == qj && perm_box(k, r) == j);
            assert(qr == r && qj == j);
            assert(q % 9 == x);
        }
    }
}

proof fn lemma_update_done(
    a0: Seq<u32>,
    a3: Seq<u32>,
    us0: Seq<u32>,
    us1: Seq<u32>,
    b: int,
    d: int,
)
    requires
        a0.len() == 27,
        a3.len() == 27,
        us0.len() == 3,
        us1.len() == 3,
        0 <= b < 3,
        0 <= d < 9,
        within(a3, a0),
        settled_inv(a0, us0),
        supported(a3[9 * b + d]),
        closed_self(a3[9 * b + d]),
        forall|b2: int| 0 <= b2 < 3 && b2 != b ==> #[trigger] column_clear(a3, b, d, b2),
        forall|p: int| #[trigger]
            bit32(us1[b], p) <==> bit32(us0[b], p) && !pinned(a3[9 * b + d], p),
        forall|i: int| 0 <= i < 3 && i != b ==> #[trigger] us1[i] == us0[i],
        forall|e: int, p: int|
            0 <= e < 9 && e != d && pinned(a3[9 * b + d], p) ==> !#[trigger] bit32(a3[9 * b + e], p),
    ensures
        good(a3, us1, 9 * b + d),
        settled_inv(a3, us1),
{
    let m = a3[9 * b + d];
    assert((9 * b + d) / 9 == b && (9 * b + d) % 9 == d);
    assert forall|c: int| 0 <= c < 81 && !#[trigger] open_cell(us1, c) implies settled(
        cands(a3),
        c,
    ) by {
        if !open_cell(us0, c) {
            lemma_settled_mono(a3, a0, c);
        } else {
            let p = c % 27;
            assert(c / 27 == b);
            assert(pinned(m, p));
            assert forall|e: int| 0 <= e < 9 && e != d implies !#[trigger] cands(a3)(c, e) by {}
            assert(lone_col(m, p % 9)) by {
                assert(bit32(m, 9 * (p / 9) + p % 9));
                assert forall|q: int|
                    0 <= q < 27 && (q % 9) / 3 == (p % 9) / 3 && #[trigger] bit32(m, q) implies q % 9
                    == p % 9 by {
                    assert(near(q, p));
                }
            }
            assert forall|x: int| 0 <= x < 81 && peers(c, x) implies !#[trigger] cands(a3)(x, d) by {
                let q = x % 27;
                lemma_split_cell(c);
                lemma_split_cell(x);
                if x / 27 == b {
                    assert(near(q, p));
                    assert(q != p);
                } else {
                    assert(q % 9 == p % 9);
                    assert(column_clear(a3, b, d, x / 27));
                }
            }
            assert(settled_as(cands(a3), c, d));
        }
    }
}

/// Row, column and box of a cell from its band and its place in the band.
pub proof fn lemma_split_cell(c: int)
    requires
        0 <= c < 81,
    ensures
        0 <= c / 27 < 3,
        0 <= c % 27 < 27,
        c / 9 == 3 * (c / 27) + (c % 27) / 9,
        c % 9 == (c % 27) % 9,
        c == 27 * (c / 27) + c % 27,
{
}

proof fn lemma_boards_sub(a: Seq<u32>, n: Seq<u32>)
    requires
        a.len() == n.len(),
        forall|i: int| 0 <= i < a.len() ==> #[trigger] a[i] <= BAND_ALL,
        within(n, a),
    ensures
        forall|i: int| 0 <= i < n.len() ==> #[trigger] n[i] <= BAND_ALL,
{
    assert forall|i: int| 0 <= i < n.len() implies #[trigger] n[i] <= BAND_ALL by {
        assert(sub32(n[i], a[i]));
        lemma_subset32(n[i], a[i]);
    }
}

/// A word that shrank in one of two steps ends up different.
proof fn lemma_two_steps(x: u32, y: u32, z: u32)
    requires
        sub32(x, y),
        sub32(y, z),
        x != y || y != z,
    ensures
        x != z,
{
    lemma_subset32(x, y);
    lemma_subset32(y, z);
}

impl State {
    /// Words in range, fixed cells settled.
    pub open spec fn ok(&self) -> bool {
        &&& boards_ok(self.poss@)
        &&& forall|b: int| 0 <= b < 3 ==> #[trigger] self.unsolved[b] <= BAND_ALL
        &&& settled_inv(self.poss@, self.unsolved@)
        &&& self.dirty <= BAND_ALL
    }

    /// Every board that is not marked dirty is up to date.
    pub open spec fn tracked_by(&self, dirty: u32) -> bool {
        forall|sb: int|
            0 <= sb < 27 && !#[trigger] bit32(dirty, sb) ==> good(
                self.poss@,
                self.unsolved@,
                sb,
            )
    }

    /// Clears `!keep` from all nine boards of a band and says which changed.
    fn sweep_band(&mut self, base: usize, keep: u32) -> (dirty: u32)
        requires
            base == 0 || base == 9 || base == 18,
        ensures
            final(self).unsolved == old(self).unsolved,
            final(self).pairs == old(self).pairs,
            final(self).dirty == old(self).dirty,
            forall|i: int|
                0 <= i < 27 ==> #[trigger] final(self).poss[i] == if base <= i < base + 9 {
                    old(self).poss[i] & keep
                } else {
                    old(self).poss[i]
                },
            forall|i: int| #[trigger]
                bit32(dirty, i) <==> base <= i < base + 9 && final(self).poss[i] != old(
                    self,
                ).poss[i],
    {
        let mut dirty: u32 = 0;
        let mut d: usize = 0;
        while d < 9
            invariant
                d <= 9,
                base == 0 || base == 9 || base == 18,
                self.unsolved == old(self).unsolved,
                self.pairs == old(self).pairs,
                self.dirty == old(self).dirty,
                forall|i: int|
                    0 <= i < 27 ==> #[trigger] self.poss[i] == if base <= i < base + d {
                        old(self).poss[i] & keep
                    } else {
                        old(self).poss[i]
                    },
                forall|i: int| #[trigger]
                    bit32(dirty, i) <==> base <= i < base + d && self.poss[i] != old(self).poss[i],
            decreases 9 - d,
        {
            let o = base + d;
            let ov = self.poss[o];
            let nv = ov & keep;
            self.poss[o] = nv;
            if nv != ov {
                dirty = dirty | (1u32 << (o as u32));
            }
            d = d + 1;
        }
        dirty
    }

    /// Locked candidates, pointing eliminations and solved-cell cleanup for
    /// one board. Returns the other boards that changed.
    #[verifier::rlimit(60)]
    fn update_subband(&mut self, sb: usize, t: &Tables) -> (r: Result<u32, Unsat>)
        requires
            sb < 27,
            t.ok(),
            old(self).ok(),
        ensures
            final(self).dirty == old(self).dirty,
            final(self).pairs == old(self).pairs,
            r is Err <==> !supported(old(self).poss[sb as int]),
            r is Err ==> *final(self) == *old(self) && dead(old(self).poss@) && none_stable(
                old(self).poss@,
            ),
            r matches Ok(dirty) ==> {
                &&& final(self).ok()
                &&& within(final(self).poss@, old(self).poss@)
                &&& keeps(old(self).poss@, final(self).poss@)
                &&& keeps_stable(old(self).poss@, final(self).poss@)
                &&& good(final(self).poss@, final(self).unsolved@, sb as int)
                &&& !bit32(dirty, sb as int)
                &&& forall|i: int| #[trigger]
                    bit32(dirty, i) ==> 0 <= i < 27 && final(self).poss[i] != old(self).poss[i]
                &&& forall|i: int|
                    0 <= i < 27 && i != sb && !#[trigger] bit32(dirty, i) ==> final(self).poss[i]
                        == old(self).poss[i]
                &&& forall|b: int|
                    0 <= b < 3 ==> sub32(#[trigger] final(self).unsolved[b], old(self).unsolved[b])
            },
    {
        let ghost a0 = self.poss@;
        let ghost b = sb as int / 9;
        let ghost d = sb as int % 9;
        let m0 = self.poss[sb];
        let s16 = shrink_band(m0);
        let s = s16 as usize;
        let allowed = t.closed_cells[s];
        proof {
            reveal(Tables::ok);
            assert(sb == 9 * b + d);
        }
        if allowed == 0 {
            proof {
                lemma_no_perm(a0, b, d, s16);
            }
            return Err(Unsat);
        }
        proof {
            let p = lemma_nonzero32(allowed);
            assert(closed_at(s16, p / 3));
            let k = choose|k: int| #[trigger] fits(s16, k);
            assert(fits_cells(m0, k));
        }
        let m = m0 & allowed;
        let ghost a1 = a0.update(sb as int, m);
        proof {
            assert forall|p: int| #[trigger] bit32(m, p) <==> bit32(m0, p) && 0 <= p < 27
                && closed_at(s16, p / 3) by {
                assert(bit32(t.closed_cells[s16 as int], p) <==> 0 <= p < 27 && closed_at(
                    s16 as int as u16,
                    p / 3,
                ));
            }
            lemma_step_close(a0, b, d, s16, m);
            lemma_close_cells(m0, s16, m);
        }
        let cols16 = column_occupancy(m);
        let cols = cols16 as usize;
        let ok = t.neigh_ok[cols];
        let n1 = (sb + 9) % 27;
        let n2 = (sb + 18) % 27;
        let o1 = self.poss[n1];
        let o2 = self.poss[n2];
        let w1 = o1 & ok;
        let w2 = o2 & ok;
        proof {
            assert forall|x: int| #[trigger] only_col(cols16, x) <==> lone_col(m, x) by {
                lemma_cols(m, cols16, x);
            }
            assert forall|q: int| #[trigger] bit32(ok, q) <==> 0 <= q < 27 && !lone_col(
                m,
                q % 9,
            ) by {
                assert(bit32(t.neigh_ok[cols16 as int], q) <==> 0 <= q < 27 && !only_col(
                    cols16 as int as u16,
                    q % 9,
                ));
            }
        }
        self.poss[n1] = w1;
        self.poss[n2] = w2;
        let mut dirty: u32 = 0;
        if w1 != o1 {
            dirty = dirty | (1u32 << (n1 as u32));
        }
        if w2 != o2 {
            dirty = dirty | (1u32 << (n2 as u32));
        }
        let solved_mr = t.forced[s] & t.col_single[cols];
        let ghost b1 = n1 as int / 9;
        let ghost b2 = n2 as int / 9;
        let ghost a2 = a1.update(n1 as int, w1).update(n2 as int, w2);
        proof {
            assert(n1 == 9 * b1 + d && n2 == 9 * b2 + d && b1 != b && b2 != b && b1 != b2);
            lemma_step_column(a1, b, d, b1, w1);
            lemma_step_column(a1.update(n1 as int, w1), b, d, b2, w2);
            assert forall|i: int| 0 <= i < 27 implies sub32(#[trigger] a2[i], a0[i]) by {}
            assert(closed_self(m)) by {
                assert forall|p: int| #[trigger] bit32(m, p) implies exists|k: int| #[trigger]
                    fits_cells(m, k) && in_perm(k, p / 3) by {
                    let k = choose|k: int| #[trigger] fits(s16, k) && in_perm(k, p / 3);
                    assert(fits_cells(m, k) && in_perm(k, p / 3));
                }
            }
            assert forall|i: int| 0 <= i < 3 && i != b implies #[trigger] column_clear(
                a2,
                b,
                d,
                i,
            ) by {
                assert(i == b1 || i == b2);
                assert(a2[9 * b + d] == m);
            }
            assert forall|i: int| 0 <= i < 9 implies (#[trigger] bit16(solved_mr, i) <==> forced_at(
                s16,
                i,
            ) && box_in_one_col(cols16, i % 3)) by {
                assert(bit16(t.forced[s16 as int], i) <==> forced_at(s16 as int as u16, i));
                assert(bit16(t.col_single[cols16 as int], i) <==> 0 <= i < 9 && box_in_one_col(
                    cols16 as int as u16,
                    i % 3,
                ));
            }
            assert forall|p: int| #[trigger] pinned(m, p) <==> bit32(m, p) && 0 <= p < 27 && bit16(
                solved_mr,
                p / 3,
            ) by {
                if 0 <= p < 27 {
                    lemma_pinned(m, s16, cols16, p);
                }
            }
        }
        if solved_mr == 0 {
            self.poss[sb] = m;
            proof {
                assert(self.poss@ =~= a2);
                assert forall|p: int| !#[trigger] pinned(m, p) by {}
                lemma_update_done(a0, a2, self.unsolved@, self.unsolved@, b, d);
                lemma_boards_sub(a0, a2);
            }
            return Ok(dirty);
        }
        let ghost us0 = self.unsolved@;
        proof {
            lemma_low_masks16();
            lemma_subset16(solved_mr, 0x1FF);
        }
        let solved = t.expand[solved_mr as usize] & m;
        let keep = !solved;
        let band = sb / 9;
        proof {
            assert forall|p: int| #[trigger] bit32(solved, p) <==> pinned(m, p) by {
                assert(bit32(t.expand[solved_mr as int], p) <==> 0 <= p < 27 && bit16(
                    solved_mr as int as u16,
                    p / 3,
                ));
            }
        }
        self.unsolved[band] = self.unsolved[band] & keep;
        let ghost before = self.poss@;
        let swept = self.sweep_band(band * 9, keep);
        dirty = dirty | (swept & !(1u32 << (sb as u32)));
        self.poss[sb] = m;
        proof {
            let a3 = self.poss@;
            assert forall|i: int, p: int| 0 <= i < 27 implies (#[trigger] bit32(a3[i], p) <==> bit32(
                a2[i],
                p,
            ) && !(i / 9 == b && i != 9 * b + d && pinned(a2[9 * b + d], p))) by {
                assert(a2[9 * b + d] == m);
                if i != sb {
                    assert(before[i] == a2[i]);
                    if band * 9 <= i < band * 9 + 9 {
                        assert(i / 9 == b);
                        assert(a3[i] == before[i] & keep);
                        if bit32(before[i], p) {
                            assert(0 <= p < 32);
                        }
                    } else {
                        assert(i / 9 != b);
                    }
                }
            }
            lemma_step_sweep(a2, b, d, a3);
            lemma_within_trans(a3, a2, a0);
            assert forall|i: int| 0 <= i < 3 implies sub32(
                #[trigger] self.unsolved@[i],
                us0[i],
            ) by {}
            assert forall|p: int| #[trigger] bit32(self.unsolved@[b], p) <==> bit32(us0[b], p)
                && !pinned(m, p) by {
                if bit32(us0[b], p) {
                    assert(0 <= p < 32);
                }
            }
            assert forall|i: int| 0 <= i < 3 && i != b implies #[trigger] column_clear(
                a3,
                b,
                d,
                i,
            ) by {
                assert(column_clear(a2, b, d, i));
                assert(sub32(a3[9 * i + d], a2[9 * i + d]));
            }
            assert forall|e: int, p: int| 0 <= e < 9 && e != d && pinned(
                a3[9 * b + d],
                p,
            ) implies !#[trigger] bit32(a3[9 * b + e], p) by {
                assert((9 * b + e) / 9 == b);
            }
            lemma_update_done(a0, a3, us0, self.unsolved@, b, d);
            lemma_boards_sub(a0, a3);
            lemma_boards_sub(us0, self.unsolved@);
            assert forall|i: int| 0 <= i < 27 && i != sb && !#[trigger] bit32(dirty, i) implies a3[i]
                == a0[i] by {
                assert(!bit32(swept, i));
                assert(a3[i] == before[i]);
            }
            assert forall|i: int| #[trigger] bit32(dirty, i) implies 0 <= i < 27 && a3[i] != a0[i] by {
                assert(i != sb);
                assert(before[i] == a2[i]);
                assert(sub32(a3[i], a2[i]));
                assert(sub32(a2[i], a0[i]));
                lemma_two_steps(a3[i], a2[i], a0[i]);
            }
        }
        Ok(dirty)
    }

    /// Drains the dirty worklist in batches: take the current marks, process
    /// each, repeat with what the updates marked.
    fn update_all(&mut self, t: &Tables) -> (r: Result<(), Unsat>)
        requires
            t.ok(),
            old(self).ok(),
            old(self).tracked_by(old(self).dirty),
        ensures
            final(self).pairs == old(self).pairs,
            r is Err ==> dead(old(self).poss@) && none_stable(old(self).poss@),
            r is Ok ==> {
                &&& final(self).ok()
                &&& final(self).dirty == 0
                &&& final(self).tracked_by(0)
                &&& within(final(self).poss@, old(self).poss@)
                &&& keeps(old(self).poss@, final(self).poss@)
                &&& keeps_stable(old(self).poss@, final(self).poss@)
            },
    {
        let mut pending: u32 = self.dirty;
        let ghost a0 = self.poss@;
        loop
            invariant
                t.ok(),
                self.ok(),
                self.pairs == old(self).pairs,
                a0 == old(self).poss@,
                pending <= BAND_ALL,
                self.tracked_by(pending),
                within(self.poss@, a0),
                keeps(a0, self.poss@),
                keeps_stable(a0, self.poss@),
            decreases
                    2 * total32(self.poss@) + if pending != 0 {
                        1int
                    } else {
                        0int
                    },
        {
            let mut batch: u32 = pending;
            if batch == 0 {
                self.dirty = 0;
                return Ok(());
            }
            pending = 0;
            let ghost head = self.poss@;
            while batch != 0
                invariant
                    t.ok(),
                    self.ok(),
                    self.pairs == old(self).pairs,
                    a0 == old(self).poss@,
                    batch <= BAND_ALL,
                    pending <= BAND_ALL,
                    forall|sb: int|
                        0 <= sb < 27 && !#[trigger] bit32(pending, sb) && !bit32(batch, sb) ==> good(
                            self.poss@,
                            self.unsolved@,
                            sb,
                        ),
                    within(self.poss@, a0),
                    keeps(a0, self.poss@),
                    keeps_stable(a0, self.poss@),
                    total32(self.poss@) <= total32(head),
                    pending != 0 ==> total32(self.poss@) < total32(head),
                decreases batch,
            {
                let sb = lowest32(batch);
                proof {
                    lemma_small32(batch, sb as int);
                }
                let ghost batch0 = batch;
                let ghost pending0 = pending;
                batch = without_lowest32(batch);
                pending = pending & !(1u32 << (sb as u32));
                let ghost a1 = self.poss@;
                let ghost us1 = self.unsolved@;
                match self.update_subband(sb, t) {
                    Err(e) => {
                        return Err(e);
                    },
                    Ok(dirty) => {
                        pending = pending | dirty;
                        proof {
                            let a2 = self.poss@;
                            lemma_within_trans(a2, a1, a0);
                            lemma_within_total(a2, a1);
                            assert forall|i: int| #[trigger] bit32(pending, i) implies bit32(
                                BAND_ALL,
                                i,
                            ) by {
                                lemma_low_masks32();
                                if bit32(pending0, i) {
                                    lemma_small32(pending0, i);
                                }
                            }
                            lemma_subset32(pending, BAND_ALL);
                            assert forall|i: int|
                                0 <= i < 27 && !#[trigger] bit32(pending, i) && !bit32(
                                    batch,
                                    i,
                                ) implies good(a2, self.unsolved@, i) by {
                                if i != sb {
                                    assert(!bit32(dirty, i));
                                    assert(!bit32(pending0, i));
                                    assert(!bit32(batch0, i));
                                    assert(self.poss[i] == a1[i]);
                                    assert(sub32(self.unsolved[i / 9], us1[i / 9]));
                                    lemma_good_mono(a1, us1, a2, self.unsolved@, i);
                                }
                            }
                            if dirty != 0 {
                                let i = lemma_nonzero32(dirty);
                                assert(a2[i] != a1[i]);
                            } else {
                                if pending != 0 {
                                    let i = lemma_nonzero32(pending);
                                    assert(bit32(pending0, i));
                                    assert(pending0 != 0);
                                }
                            }
                        }
                    },
                }
            }
        }
    }

    pub fn is_solved(&self) -> (r: bool)
        requires
            self.ok(),
        ensures
            r <==> forall|c: int| 0 <= c < 81 ==> !#[trigger] open_cell(self.unsolved@, c),
    {
        let r = self.unsolved[0] == 0 && self.unsolved[1] == 0 && self.unsolved[2] == 0;
        proof {
            if r {
                assert forall|c: int| 0 <= c < 81 implies !#[trigger] open_cell(self.unsolved@, c) by {
                    lemma_split_cell(c);
                }
            } else {
                let b = if self.unsolved[0] != 0 {
                    0int
                } else if self.unsolved[1] != 0 {
                    1
                } else {
                    2
                };
                let p = lemma_nonzero32(self.unsolved[b]);
                lemma_small32(self.unsolved[b], p);
                let c = 27 * b + p;
                assert(c / 27 == b && c % 27 == p);
                assert(open_cell(self.unsolved@, c));
            }
        }
        r
    }

    /// Places digit `d` at cell `pos` of a band as far as the band's board of
    /// the digit goes: the rest of the cell's line and box is cleared.
    pub fn place(&mut self, band: usize, d: usize, pos: usize, t: &Tables)
        requires
            t.ok(),
            old(self).ok(),
            old(self).tracked_by(old(self).dirty),
            band < 3,
            d < 9,
            pos < 27,
        ensures
            final(self).ok(),
            final(self).tracked_by(final(self).dirty),
            final(self).unsolved == old(self).unsolved,
            final(self).pairs == old(self).pairs,
            within(final(self).poss@, old(self).poss@),
            exists|w: u32| #[trigger]
                placed_word(old(self).poss[9 * band + d], pos as int, w) && final(self).poss@
                    == old(self).poss@.update(9 * band + d, w),
    {
        let i = band * 9 + d;
        let ghost a0 = self.poss@;
        let ghost dirty0 = self.dirty;
        let w = self.poss[i] & t.same_band_ok[pos];
        proof {
            reveal(Tables::ok);
            assert forall|q: int| #[trigger] bit32(w, q) <==> bit32(a0[i as int], q) && (q == pos
                || !near(q, pos as int)) by {
                if bit32(a0[i as int], q) {
                    lemma_in_band(a0[i as int], q);
                }
                assert(bit32(t.same_band_ok[pos as int], q) <==> 0 <= q < 27 && (q == pos || !near(
                    q,
                    pos as int,
                )));
            }
        }
        self.poss[i] = w;
        self.dirty = self.dirty | (1u32 << (i as u32));
        proof {
            let a1 = self.poss@;
            assert(placed_word(a0[i as int], pos as int, w));
            assert(a1 =~= a0.update(9 * band + d, w));
            self.lemma_shrink_one(a0, dirty0, i as int);
        }
    }

    /// Removes digit `d` from the cells `bits` of a band.
    pub fn remove(&mut self, band: usize, d: usize, bits: u32)
        requires
            old(self).ok(),
            old(self).tracked_by(old(self).dirty),
            band < 3,
            d < 9,
        ensures
            final(self).ok(),
            final(self).tracked_by(final(self).dirty),
            final(self).unsolved == old(self).unsolved,
            final(self).pairs == old(self).pairs,
            within(final(self).poss@, old(self).poss@),
            final(self).poss@ == old(self).poss@.update(
                9 * band + d,
                old(self).poss[9 * band + d] & !bits,
            ),
    {
        let i = band * 9 + d;
        let ghost a0 = self.poss@;
        let ghost dirty0 = self.dirty;
        self.poss[i] = self.poss[i] & !bits;
        self.dirty = self.dirty | (1u32 << (i as u32));
        proof {
            let a1 = self.poss@;
            assert(a1 =~= a0.update(9 * band + d, a0[9 * band + d] & !bits));
            self.lemma_shrink_one(a0, dirty0, i as int);
        }
    }

    /// Shrinking one board and marking it keeps the invariants.
    proof fn lemma_shrink_one(&self, a0: Seq<u32>, dirty0: u32, i: int)
        requires
            0 <= i < 27,
            boards_ok(a0),
            self.poss@ == a0.update(i, self.poss[i]),
            sub32(self.poss[i], a0[i]),
            self.dirty == dirty0 | (1u32 << (i as u32)),
            dirty0 <= BAND_ALL,
            settled_inv(a0, self.unsolved@),
            forall|b: int| 0 <= b < 3 ==> #[trigger] self.unsolved[b] <= BAND_ALL,
            forall|sb: int|
                0 <= sb < 27 && !#[trigger] bit32(dirty0, sb) ==> good(a0, self.unsolved@, sb),
        ensures
            self.ok(),
            self.tracked_by(self.dirty),
            within(self.poss@, a0),
    {
        let a1 = self.poss@;
        assert forall|j: int| 0 <= j < 27 implies sub32(#[trigger] a1[j], a0[j]) by {}
        lemma_boards_sub(a0, a1);
        assert forall|c: int| 0 <= c < 81 && !#[trigger] open_cell(
            self.unsolved@,
            c,
        ) implies settled(cands(a1), c) by {
            lemma_settled_mono(a1, a0, c);
        }
        assert forall|j: int| #[trigger] bit32(self.dirty, j) implies bit32(BAND_ALL, j) by {
            lemma_low_masks32();
            if bit32(dirty0, j) {
                lemma_small32(dirty0, j);
            }
        }
        lemma_subset32(self.dirty, BAND_ALL);
        assert forall|sb: int| 0 <= sb < 27 && !#[trigger] bit32(self.dirty, sb) implies good(
            a1,
            self.unsolved@,
            sb,
        ) by {
            assert(!bit32(dirty0, sb));
            lemma_good_mono(a0, self.unsolved@, a1, self.unsolved@, sb);
        }
    }
}

/// The pair sets hold exactly the cells with two candidates.
pub open spec fn pairs_fresh(bs: Seq<u32>, pairs: Seq<u32>, b: int) -> bool {
    forall|p: int| #[trigger] bit32(pairs[b], p) <==> 0 <= p < 27 && digits_at(bs, b, p, 9) == 2
}

/// Every cell of band `b` has a candidate, and every open cell two or more.
pub open spec fn band_swept(bs: Seq<u32>, unsolved: Seq<u32>, b: int) -> bool {
    forall|p: int|
        0 <= p < 27 ==> #[trigger] digits_at(bs, b, p, 9) >= 1 && (bit32(unsolved[b], p)
            ==> digits_at(bs, b, p, 9) >= 2)
}

/// A cell without candidates leaves no grid and nothing stable.
proof fn lemma_empty_cell(bs: Seq<u32>, b: int, p: int)
    requires
        bs.len() == 27,
        0 <= b < 3,
        0 <= p < 27,
        forall|e: int| 0 <= e < 9 ==> !bit32(#[trigger] bs[9 * b + e], p),
    ensures
        dead(bs),
        none_stable(bs),
{
    assert forall|g: Seq<u8>| is_grid(g) implies !#[trigger] admits(bs, g) by {
        lemma_grid_facts(g);
        if admits(bs, g) {
            reveal(admits);
            let c = 27 * b + p;
            assert(c / 27 == b && c % 27 == p);
            assert(cand(bs, c, g[c] - 1));
            assert(!bit32(bs[9 * b + (g[c] - 1)], p));
        }
    }
    assert forall|v: Seq<u32>| stable(v) implies !#[trigger] within(v, bs) by {
        reveal(stable);
        if within(v, bs) {
            assert(has_candidate(v, b, p));
            let e = choose|e: int| 0 <= e < 9 && bit32(#[trigger] v[9 * b + e], p);
            assert(sub32(v[9 * b + e], bs[9 * b + e]));
            assert(!bit32(bs[9 * b + e], p));
        }
    }
}

/// Placing a digit at an open cell shrinks the digit's board, if the board
/// is up to date.
pub proof fn lemma_place_shrinks(bs: Seq<u32>, unsolved: Seq<u32>, b: int, d: int, p: int, w: u32)
    requires
        boards_ok(bs),
        0 <= b < 3,
        0 <= d < 9,
        0 <= p < 27,
        good(bs, unsolved, 9 * b + d),
        bit32(bs[9 * b + d], p),
        bit32(unsolved[b], p),
        placed_word(bs[9 * b + d], p, w),
    ensures
        w != bs[9 * b + d],
        total32(bs.update(9 * b + d, w)) < total32(bs),
{
    let i = 9 * b + d;
    assert(i / 9 == b);
    assert(!pinned(bs[i], p));
    let q = choose|q: int| 0 <= q < 27 && near(q, p) && #[trigger] bit32(bs[i], q) && q != p;
    assert(!bit32(w, q));
    let n = bs.update(i, w);
    assert(within(n, bs)) by {
        assert forall|j: int| 0 <= j < 27 implies sub32(#[trigger] n[j], bs[j]) by {}
    }
    lemma_within_total(n, bs);
    assert(n[i] != bs[i]);
}

impl State {
    /// Naked singles: a cell with one candidate gets it; a cell without
    /// candidates is a contradiction. Also refreshes `pairs`. Returns whether
    /// any single was placed.
    #[verifier::rlimit(40)]
    fn naked_singles(&mut self, t: &Tables) -> (r: Result<bool, Unsat>)
        requires
            t.ok(),
            old(self).ok(),
            old(self).dirty == 0,
            old(self).tracked_by(0),
        ensures
            r is Err ==> dead(old(self).poss@) && none_stable(old(self).poss@),
            r matches Ok(placed) ==> {
                &&& final(self).ok()
                &&& final(self).tracked_by(final(self).dirty)
                &&& final(self).unsolved == old(self).unsolved
                &&& within(final(self).poss@, old(self).poss@)
                &&& keeps(old(self).poss@, final(self).poss@)
                &&& keeps_stable(old(self).poss@, final(self).poss@)
                &&& placed ==> total32(final(self).poss@) < total32(old(self).poss@)
                &&& !placed ==> final(self).poss == old(self).poss && final(self).dirty == 0
                &&& !placed ==> forall|b: int|
                    0 <= b < 3 ==> #[trigger] pairs_fresh(final(self).poss@, final(self).pairs@, b)
                &&& !placed ==> forall|b: int|
                    0 <= b < 3 ==> #[trigger] band_swept(
                        final(self).poss@,
                        final(self).unsolved@,
                        b,
                    )
            },
    {
        let ghost a0 = self.poss@;
        let mut placed: bool = false;
        let mut band: usize = 0;
        while band < 3
            invariant
                band <= 3,
                t.ok(),
                a0 == old(self).poss@,
                self.ok(),
                self.tracked_by(self.dirty),
                self.unsolved == old(self).unsolved,
                within(self.poss@, a0),
                keeps(a0, self.poss@),
                keeps_stable(a0, self.poss@),
                placed ==> total32(self.poss@) < total32(a0),
                !placed ==> self.poss == old(self).poss && self.dirty == 0,
                !placed ==> forall|b: int|
                    0 <= b < band ==> #[trigger] pairs_fresh(self.poss@, self.pairs@, b),
                !placed ==> forall|b: int|
                    0 <= b < band ==> #[trigger] band_swept(self.poss@, self.unsolved@, b),
            decreases 3 - band,
        {
            let base = band * 9;
            let (c1, c2, c3) = tally(&self.poss, band);
            let ghost scan = self.poss@;
            if c1 != BAND_ALL {
                proof {
                    lemma_low_masks32();
                    let p = self.lemma_missing(c1, band as int);
                    assert forall|e: int| 0 <= e < 9 implies !bit32(
                        #[trigger] scan[9 * band + e],
                        p,
                    ) by {
                        if bit32(scan[9 * band + e], p) {
                            crate::bits::lemma_count_some(
                                |e: int| bit32(scan[9 * band + e], p),
                                9,
                                e,
                            );
                        }
                    }
                    lemma_empty_cell(scan, band as int, p);
                }
                return Err(Unsat);
            }
            let ghost pairs0 = self.pairs@;
            self.pairs[band] = c2 ^ c3;
            let mut singles: u32 = (c1 ^ c2) & self.unsolved[band];
            proof {
                lemma_low_masks32();
                assert forall|p: int| #[trigger] bit32(singles, p) implies digits_at(
                    scan,
                    band as int,
                    p,
                    9,
                ) == 1 by {}
                if !placed {
                    assert(pairs_fresh(self.poss@, self.pairs@, band as int)) by {
                        assert forall|p: int| #[trigger] bit32(
                            self.pairs@[band as int],
                            p,
                        ) implies 0 <= p < 27 by {
                            assert(bit32(c2, p));
                            assert(bit32(c1, p));
                        }
                    }
                    assert forall|b: int| 0 <= b < band + 1 implies #[trigger] pairs_fresh(
                        self.poss@,
                        self.pairs@,
                        b,
                    ) by {
                        if b < band {
                            assert(pairs_fresh(self.poss@, pairs0, b));
                            assert(self.pairs@[b] == pairs0[b]);
                        }
                    }
                    if singles == 0 {
                        assert(band_swept(self.poss@, self.unsolved@, band as int)) by {
                            assert forall|p: int| 0 <= p < 27 implies #[trigger] digits_at(
                                self.poss@,
                                band as int,
                                p,
                                9,
                            ) >= 1 && (bit32(self.unsolved@[band as int], p) ==> digits_at(
                                self.poss@,
                                band as int,
                                p,
                                9,
                            ) >= 2) by {
                                assert(bit32(c1, p));
                                assert(!bit32(singles, p));
                            }
                        }
                    }
                }
            }
            while singles != 0
                invariant
                    band < 3,
                    base == band * 9,
                    t.ok(),
                    a0 == old(self).poss@,
                    self.ok(),
                    self.tracked_by(self.dirty),
                    self.unsolved == old(self).unsolved,
                    within(self.poss@, a0),
                    within(self.poss@, scan),
                    keeps(a0, self.poss@),
                    keeps_stable(a0, self.poss@),
                    placed ==> total32(self.poss@) < total32(a0),
                    !placed ==> self.poss == old(self).poss && self.dirty == 0,
                    !placed ==> forall|b: int|
                        0 <= b < band + 1 ==> #[trigger] pairs_fresh(self.poss@, self.pairs@, b),
                    !placed ==> forall|b: int|
                        0 <= b < band ==> #[trigger] band_swept(self.poss@, self.unsolved@, b),
                    !placed && singles == 0 ==> band_swept(
                        self.poss@,
                        self.unsolved@,
                        band as int,
                    ),
                    forall|p: int| #[trigger]
                        bit32(singles, p) ==> digits_at(scan, band as int, p, 9) == 1 && bit32(
                            self.unsolved[band as int],
                            p,
                        ),
                decreases singles,
            {
                let pos = lowest32(singles);
                singles = without_lowest32(singles);
                proof {
                    lemma_small32(self.unsolved[band as int], pos as int);
                }
                let ghost a1 = self.poss@;
                let mut d: usize = 0;
                while d < 9 && (self.poss[base + d] >> (pos as u32)) & 1 == 0
                    invariant
                        d <= 9,
                        band < 3,
                        pos < 27,
                        base == band * 9,
                        self.poss@ == a1,
                        forall|e: int| 0 <= e < d ==> !bit32(#[trigger] a1[9 * band + e], pos as int),
                    decreases 9 - d,
                {
                    proof {
                        assert(!bit32(a1[9 * band + d], pos as int)) by {
                            reveal(bit32);
                        }
                    }
                    d = d + 1;
                }
                if d == 9 {
                    proof {
                        lemma_empty_cell(a1, band as int, pos as int);
                    }
                    return Err(Unsat);
                }
                proof {
                    assert(bit32(a1[9 * band + d], pos as int)) by {
                        reveal(bit32);
                        crate::bits::lemma_low_bit32(a1[9 * band + d] >> (pos as u32));
                    }
                    assert(sub32(a1[9 * band + d], scan[9 * band + d]));
                    assert forall|e: int| 0 <= e < 9 && e != d implies !bit32(
                        #[trigger] a1[9 * band + e],
                        pos as int,
                    ) by {
                        assert(sub32(a1[9 * band + e], scan[9 * band + e]));
                        crate::bits::lemma_count_lone(
                            |e: int| bit32(scan[9 * band + e], pos as int),
                            9,
                            d as int,
                            e,
                        );
                    }
                }
                let ghost st1 = *self;
                self.place(band, d, pos, t);
                proof {
                    let i = 9 * band + d;
                    let w = choose|w: u32| #[trigger]
                        placed_word(a1[i], pos as int, w) && self.poss@ == a1.update(i, w);
                    lemma_step_place(a1, band as int, d as int, pos as int, w);
                    lemma_within_trans(self.poss@, a1, a0);
                    lemma_within_trans(self.poss@, a1, scan);
                    lemma_within_total(self.poss@, a1);
                    if !placed {
                        assert(a1 =~= a0);
                        assert(!bit32(st1.dirty, i));
                        assert(good(a0, self.unsolved@, i));
                        lemma_place_shrinks(
                            a0,
                            self.unsolved@,
                            band as int,
                            d as int,
                            pos as int,
                            w,
                        );
                    }
                }
                placed = true;
            }
            band = band + 1;
        }
        Ok(placed)
    }

    /// A band mask that is not full lacks a cell.
    proof fn lemma_missing(&self, c1: u32, b: int) -> (p: int)
        requires
            self.ok(),
            0 <= b < 3,
            c1 != BAND_ALL,
            forall|p: int| #[trigger] bit32(c1, p) <==> digits_at(self.poss@, b, p, 9) >= 1,
        ensures
            0 <= p < 27,
            digits_at(self.poss@, b, p, 9) == 0,
    {
        lemma_low_masks32();
        if forall|p: int| 0 <= p < 27 ==> bit32(c1, p) {
            assert forall|p: int| 0 <= p < 32 implies bit32(c1, p) == bit32(BAND_ALL, p) by {
                if bit32(c1, p) {
                    let e = crate::bits::lemma_count_witness(
                        |e: int| bit32(self.poss@[9 * b + e], p),
                        9,
                    );
                    lemma_in_band(self.poss@[9 * b + e], p);
                }
            }
            lemma_ext32(c1, BAND_ALL);
        }
        choose|p: int| 0 <= p < 27 && !bit32(c1, p)
    }
}

impl State {
    /// The propagation has come to rest on these boards.
    pub open spec fn rested(&self) -> bool {
        &&& self.ok()
        &&& self.dirty == 0
        &&& self.tracked_by(0)
        &&& forall|b: int|
            0 <= b < 3 ==> #[trigger] band_swept(self.poss@, self.unsolved@, b)
    }

    /// Every cell is fixed.
    pub open spec fn all_fixed(&self) -> bool {
        forall|c: int| 0 <= c < 81 ==> !#[trigger] open_cell(self.unsolved@, c)
    }

    /// With every cell fixed and every board up to date the boards spell out
    /// exactly one grid.
    pub proof fn lemma_fixed(&self) -> (g: Seq<u8>)
        requires
            self.ok(),
            self.tracked_by(0),
            self.all_fixed(),
        ensures
            is_grid(g),
            encodes(self.poss@, g),
            board_solutions(self.poss@).contains(g),
            board_solutions(self.poss@).len() == 1,
            forall|b: int| 0 <= b < 3 ==> #[trigger] band_swept(self.poss@, self.unsolved@, b),
    {
        let bs = self.poss@;
        assert forall|c: int| 0 <= c < 81 implies #[trigger] settled(cands(bs), c) by {
            assert(!open_cell(self.unsolved@, c));
        }
        assert forall|i: int| 0 <= i < 27 implies supported(#[trigger] bs[i]) by {
            assert(!bit32(0u32, i));
            assert(good(bs, self.unsolved@, i));
        }
        let g = lemma_leaf(bs);
        lemma_grid_facts(g);
        assert forall|b: int| 0 <= b < 3 implies #[trigger] band_swept(bs, self.unsolved@, b) by {
            assert forall|p: int| 0 <= p < 27 implies #[trigger] digits_at(bs, b, p, 9) >= 1 && (
            bit32(self.unsolved@[b], p) ==> digits_at(bs, b, p, 9) >= 2) by {
                let c = 27 * b + p;
                assert(c / 27 == b && c % 27 == p);
                assert(!open_cell(self.unsolved@, c));
                assert(cand(bs, c, g[c] - 1) <==> g[c] == (g[c] - 1) + 1);
                crate::bits::lemma_count_some(|e: int| bit32(bs[9 * b + e], p), 9, g[c] - 1);
            }
        }
        g
    }

    /// Boards on which the propagation rests are stable, and the open cells
    /// are those with two candidates or more.
    pub proof fn lemma_rested(&self)
        requires
            self.rested(),
        ensures
            stable(self.poss@),
            forall|b: int, p: int|
                0 <= b < 3 ==> (#[trigger] bit32(self.unsolved[b], p) <==> 0 <= p < 27 && undecided(
                    self.poss@,
                    b,
                    p,
                )),
    {
        let bs = self.poss@;
        let us = self.unsolved@;
        assert forall|i: int| 0 <= i < 27 implies good(bs, us, i) && supported(#[trigger] bs[i])
            && closed_self(bs[i]) by {
            assert(!bit32(0u32, i));
        }
        assert forall|b: int, d: int, b2: int|
            0 <= b < 3 && 0 <= d < 9 && 0 <= b2 < 3 && b2 != b implies #[trigger] column_clear(
            bs,
            b,
            d,
            b2,
        ) by {
            let i = 9 * b + d;
            assert(i / 9 == b && i % 9 == d);
            assert(good(bs, us, i)) by {
                assert(supported(bs[i]));
            }
        }
        assert forall|b: int, d: int, p: int|
            0 <= b < 3 && 0 <= d < 9 && 0 <= p < 27 && bit32(bs[9 * b + d], p) implies (pinned(
            bs[9 * b + d],
            p,
        ) <==> #[trigger] lone_digit(bs, b, d, p)) by {
            let i = 9 * b + d;
            assert(i / 9 == b && i % 9 == d);
            let c = 27 * b + p;
            assert(c / 27 == b && c % 27 == p);
            assert(good(bs, us, i)) by {
                assert(supported(bs[i]));
            }
            assert(band_swept(bs, us, b));
            if open_cell(us, c) {
                assert(!pinned(bs[i], p));
                if lone_digit(bs, b, d, p) {
                    assert(digits_at(bs, b, p, 9) >= 2);
                    let e = crate::bits::lemma_count_second(
                        |e: int| bit32(bs[9 * b + e], p),
                        9,
                        d,
                    );
                    assert(!bit32(bs[9 * b + e], p));
                }
            } else {
                assert(settled(cands(bs), c));
                let e = choose|e: int| #[trigger] settled_as(cands(bs), c, e);
                assert(cands(bs)(c, d));
                assert(e == d);
                assert forall|f: int| 0 <= f < 9 && f != d implies !bit32(
                    #[trigger] bs[9 * b + f],
                    p,
                ) by {
                    assert(!cands(bs)(c, f));
                }
                assert forall|q: int| 0 <= q < 27 && near(q, p) && #[trigger] bit32(
                    bs[i],
                    q,
                ) implies q == p by {
                    let x = 27 * b + q;
                    assert(x / 27 == b && x % 27 == q);
                    lemma_split_cell(x);
                    lemma_split_cell(c);
                    if q != p {
                        assert(peers(c, x));
                        assert(!cands(bs)(x, d));
                    }
                }
            }
        }
        assert forall|b: int, p: int| 0 <= b < 3 && 0 <= p < 27 implies #[trigger] has_candidate(
            bs,
            b,
            p,
        ) by {
            assert(band_swept(bs, us, b));
            assert(digits_at(bs, b, p, 9) >= 1);
            let e = crate::bits::lemma_count_witness(|e: int| bit32(bs[9 * b + e], p), 9);
            assert(bit32(bs[9 * b + e], p));
        }
        assert(stable(bs)) by {
            reveal(stable);
        }
        assert forall|b: int, p: int| 0 <= b < 3 implies (#[trigger] bit32(self.unsolved[b], p)
            <==> 0 <= p < 27 && undecided(bs, b, p)) by {
            let c = 27 * b + p;
            if bit32(us[b], p) {
                lemma_small32(us[b], p);
                assert(band_swept(bs, us, b));
                let f = |e: int| bit32(bs[9 * b + e], p);
                assert(digits_at(bs, b, p, 9) >= 2);
                let d = crate::bits::lemma_count_witness(f, 9);
                let e = crate::bits::lemma_count_second(f, 9, d);
                let (x, y) = if d < e {
                    (d, e)
                } else {
                    (e, d)
                };
                assert(bit32(bs[9 * b + x], p) && bit32(bs[9 * b + y], p));
            } else if 0 <= p < 27 && undecided(bs, b, p) {
                assert(c / 27 == b && c % 27 == p);
                assert(!open_cell(us, c));
                let e = choose|e: int| #[trigger] settled_as(cands(bs), c, e);
                let (x, y) = choose|x: int, y: int|
                    0 <= x < y < 9 && #[trigger] bit32(bs[9 * b + x], p) && #[trigger] bit32(
                        bs[9 * b + y],
                        p,
                    );
                assert(cands(bs)(c, x) && cands(bs)(c, y));
            }
        }
    }

    /// Propagates to the fixpoint: locked candidates, then naked singles,
    /// until neither moves.
    pub fn full_update(&mut self, t: &Tables) -> (r: Result<(), Unsat>)
        requires
            t.ok(),
            old(self).ok(),
            old(self).tracked_by(old(self).dirty),
        ensures
            r is Err ==> dead(old(self).poss@) && none_stable(old(self).poss@),
            r is Ok ==> {
                &&& final(self).rested()
                &&& is_closure(final(self).poss@, old(self).poss@)
                &&& keeps(old(self).poss@, final(self).poss@)
                &&& !final(self).all_fixed() ==> forall|b: int|
                    0 <= b < 3 ==> #[trigger] pairs_fresh(final(self).poss@, final(self).pairs@, b)
            },
    {
        let ghost a0 = self.poss@;
        loop
            invariant
                t.ok(),
                self.ok(),
                a0 == old(self).poss@,
                self.tracked_by(self.dirty),
                within(self.poss@, a0),
                keeps(a0, self.poss@),
                keeps_stable(a0, self.poss@),
            decreases total32(self.poss@),
        {
            let ghost a1 = self.poss@;
            match self.update_all(t) {
                Err(e) => {
                    return Err(e);
                },
                Ok(_) => {},
            }
            proof {
                lemma_within_trans(self.poss@, a1, a0);
                lemma_within_total(self.poss@, a1);
            }
            if self.is_solved() {
                proof {
                    let g = self.lemma_fixed();
                    self.lemma_rested();
                }
                return Ok(());
            }
            let ghost a2 = self.poss@;
            match self.naked_singles(t) {
                Err(e) => {
                    return Err(e);
                },
                Ok(placed) => {
                    proof {
                        lemma_within_trans(self.poss@, a2, a0);
                    }
                    if !placed {
                        proof {
                            self.lemma_rested();
                        }
                        return Ok(());
                    }
                },
            }
        }
    }

    /// Writes out the grid that fixed boards spell.
    pub fn extract(&self, out: &mut [u8; 81])
        ensures
            forall|g: Seq<u8>|
                is_grid(g) && boards_ok(self.poss@) && #[trigger] encodes(self.poss@, g)
                    ==> final(out)@ == g,
    {
        let mut band: usize = 0;
        while band < 3
            invariant
                band <= 3,
                forall|b: int, p: int, d: int|
                    #![trigger bit32(self.poss@[9 * b + d], p)]
                    0 <= b < band && 0 <= p < 27 && 0 <= d < 9 && bit32(self.poss@[9 * b + d], p) && (
                    forall|e: int| 0 <= e < 9 && e != d ==> !bit32(#[trigger] self.poss@[9 * b + e], p))
                        ==> out[27 * b + p] == d + 1,
            decreases 3 - band,
        {
            let mut d: usize = 0;
            while d < 9
                invariant
                    d <= 9,
                    band < 3,
                    forall|b: int, p: int, f: int|
                        #![trigger bit32(self.poss@[9 * b + f], p)]
                        (0 <= b < band || b == band && f < d) && 0 <= p < 27 && 0 <= f < 9 && bit32(
                            self.poss@[9 * b + f],
                            p,
                        ) && (forall|e: int|
                            0 <= e < 9 && e != f ==> !bit32(#[trigger] self.poss@[9 * b + e], p))
                            ==> out[27 * b + p] == f + 1,
                decreases 9 - d,
            {
                let mut pos: usize = 0;
                let m = self.poss[band * 9 + d];
                while pos < 27
                    invariant
                        pos <= 27,
                        d < 9,
                        band < 3,
                        m == self.poss@[9 * band + d],
                        forall|b: int, p: int, f: int|
                            #![trigger bit32(self.poss@[9 * b + f], p)]
                            (0 <= b < band || b == band && (f < d || f == d && p < pos)) && 0 <= p
                                < 27 && 0 <= f < 9 && bit32(self.poss@[9 * b + f], p) && (forall|
                                e: int,
                            |
                                0 <= e < 9 && e != f ==> !bit32(#[trigger] self.poss@[9 * b + e], p))
                                ==> out[27 * b + p] == f + 1,
                    decreases 27 - pos,
                {
                    let hit = (m >> (pos as u32)) & 1 == 1;
                    proof {
                        assert(hit == bit32(m, pos as int)) by {
                            reveal(bit32);
                        }
                    }
                    if hit {
                        out[band * 27 + pos] = (d + 1) as u8;
                    }
                    pos = pos + 1;
                }
                d = d + 1;
            }
            band = band + 1;
        }
        proof {
            assert forall|g: Seq<u8>| is_grid(g) && boards_ok(self.poss@) && #[trigger] encodes(
                self.poss@,
                g,
            ) implies out@ == g by {
                lemma_grid_facts(g);
                assert forall|c: int| 0 <= c < 81 implies out@[c] == g[c] by {
                    let (b, p, d) = (c / 27, c % 27, g[c] - 1);
                    lemma_split_cell(c);
                    assert(cand(self.poss@, c, d) <==> g[c] == d + 1);
                    assert(bit32(self.poss@[9 * b + d], p));
                    assert forall|e: int| 0 <= e < 9 && e != d implies !bit32(
                        #[trigger] self.poss@[9 * b + e],
                        p,
                    ) by {
                        assert(cand(self.poss@, c, e) <==> g[c] == e + 1);
                    }
                }
                assert(out@ =~= g);
            }
        }
    }
}

/// `w` is `m` without the cells that share a line or box with cell `pos`,
/// other than `pos` itself.
pub open spec fn placed_word(m: u32, pos: int, w: u32) -> bool {
    forall|q: int| #[trigger] bit32(w, q) <==> bit32(m, q) && (q == pos || !near(q, pos))
}

} // verus!
