//! The scans of the lane engine: reducing one lane, and the singles.

use vstd::prelude::*;
use crate::bits::{
    bit16, bit32, bit64, count, group_bits16, group_bits32, group_bits64, lemma_count_lone,
    lemma_count_mono, lemma_count_some, lemma_count_witness, lemma_low_masks32, lemma_nonzero32,
    lemma_pop_band, lemma_small32, lemma_subset32, lowest32, pop32, without_lowest32,
};
use crate::boards::{
    admits, cand, cands, dead, digits_at, keeps, lemma_naked_next, lemma_naked_skip,
    lemma_settled_mono, lemma_within_cands, naked_at, naked_singles, sub32, within,
};
use crate::grid::{is_grid, lemma_grid_facts, settled};
use crate::layout::{
    band_cell, band_pos, closed_off, cut, implied, in_band, laid, lay, lemma_band_cell,
    lemma_band_closure, lemma_band_pos, lemma_closed_off, lemma_cut, lemma_fits_closed,
    lemma_line_cell, lemma_lone, lemma_no_perm, lemma_single, lemma_through, lemma_views, line_cell,
    lone, through, views,
};
use crate::minirow::{
    closed_at, closed_word, closes, closure_of, fits_cells, has_perm, in_perm, in_some_perm,
    is_pattern, lemma_close_cells, lemma_closure_closed, lemma_in_some_perm, lemma_supported_lines,
    shrink_band, supported, BAND_ALL,
};
use crate::rest::{lemma_forced_sole, sole};
use crate::simd::lanes::{and_lanes, or_lanes, Lanes};
use crate::simd::state::{
    entry_cell, entry_digit, lemma_close_cell, same_solved, Queue, State, QUEUE_LEN,
};
use crate::simd::tables::{lemma_lanes, lemma_other, other_lane, other_pos, Tables};

verus! {

broadcast use {group_bits16, group_bits32, group_bits64};

/// Lanes `n` are lanes `o` without the cells at `gone` in lane `lane`, in the
/// other orientation.
pub open spec fn mirror_dropped(o: Lanes, n: Lanes, lane: int, gone: u32) -> bool {
    forall|l: int, p: int|
        0 <= l < 6 ==> (#[trigger] bit32(n[l], p) <==> bit32(o[l], p) && !(0 <= p < 27
            && other_lane(l, p) == lane && bit32(gone, other_pos(l, p))))
}

/// Some cell at `gone` in lane `lane` lies, in the other orientation, in lane
/// `l`.
pub open spec fn mirror_hits(lane: int, gone: u32, l: int) -> bool {
    exists|p: int| #[trigger] bit32(gone, p) && other_lane(lane, p) == l
}

/// One more cell is gone.
proof fn lemma_one_more_hit(lane: int, a: u32, b: u32, i: int)
    requires
        forall|p: int| #[trigger] bit32(b, p) <==> bit32(a, p) || p == i,
    ensures
        forall|l: int| #[trigger]
            mirror_hits(lane, b, l) <==> mirror_hits(lane, a, l) || l == other_lane(lane, i),
{
    assert forall|l: int| #[trigger] mirror_hits(lane, b, l) <==> mirror_hits(lane, a, l) || l
        == other_lane(lane, i) by {
        if mirror_hits(lane, b, l) && l != other_lane(lane, i) {
            let p = choose|p: int| #[trigger] bit32(b, p) && other_lane(lane, p) == l;
            assert(bit32(a, p));
        }
        if mirror_hits(lane, a, l) {
            let p = choose|p: int| #[trigger] bit32(a, p) && other_lane(lane, p) == l;
            assert(bit32(b, p));
        }
        assert(bit32(b, i));
    }
}

/// Removes the cells at `gone` in lane `lane` from the lanes of the other
/// orientation, and marks the lanes that changed.
pub fn drop_mirrored(row: &mut Lanes, dirty: &mut u64, d: usize, lane: usize, gone: u32, t: &Tables)
    requires
        t.ok(),
        d < 9,
        lane < 6,
        gone <= BAND_ALL,
        forall|l: int| 0 <= l < 8 ==> #[trigger] old(row)[l] <= BAND_ALL,
    ensures
        forall|l: int| 0 <= l < 8 ==> #[trigger] final(row)[l] <= BAND_ALL,
        mirror_dropped(*old(row), *final(row), lane as int, gone),
        forall|i: int| #[trigger]
            bit64(*final(dirty), i) <==> bit64(*old(dirty), i) || (6 * d <= i < 6 * d + 6
                && mirror_hits(lane as int, gone, i - 6 * d)),
        forall|l: int|
            0 <= l < 6 && !#[trigger] bit64(*final(dirty), 6 * d + l) ==> final(row)[l]
                == old(row)[l],
{
    let ghost row0 = *row;
    let ghost dirty0 = *dirty;
    let mut rest: u32 = gone;
    proof {
        assert forall|p: int| !bit32(gone & !gone, p) by {}
    }
    while rest != 0
        invariant
            t.ok(),
            d < 9,
            lane < 6,
            gone <= BAND_ALL,
            forall|l: int| 0 <= l < 8 ==> #[trigger] row[l] <= BAND_ALL,
            forall|p: int| #[trigger] bit32(rest, p) ==> bit32(gone, p),
            forall|l: int, p: int|
                0 <= l < 6 ==> (#[trigger] bit32(row[l], p) <==> bit32(row0[l], p) && !(0 <= p < 27
                    && other_lane(l, p) == lane && bit32(gone, other_pos(l, p)) && !bit32(
                    rest,
                    other_pos(l, p),
                ))),
            forall|i: int| #[trigger]
                bit64(*dirty, i) <==> bit64(dirty0, i) || (6 * d <= i < 6 * d + 6 && mirror_hits(
                    lane as int,
                    gone & !rest,
                    i - 6 * d,
                )),
            forall|l: int|
                0 <= l < 6 && !#[trigger] bit64(*dirty, 6 * d + l) ==> row[l] == row0[l],
        decreases rest,
    {
        let i = lowest32(rest);
        let ghost rest0 = rest;
        let ghost row1 = *row;
        let ghost dirty1 = *dirty;
        rest = without_lowest32(rest);
        proof {
            let k = choose|k: int| #![trigger bit32(rest0, k)] 0 <= k < 32 && bit32(rest0, k) && (
            forall|j: int| #[trigger] bit32(rest, j) <==> bit32(rest0, j) && j != k) && (forall|
                j: int,
            |
                0 <= j < k ==> !bit32(rest0, j));
            assert(k == i);
            assert(bit32(gone, i as int));
            lemma_small32(gone, i as int);
        }
        let (ol, ob) = t.mirrored(lane, i);
        let w = row[ol] & !(1u32 << (ob as u32));
        proof {
            lemma_subset32(w, row[ol as int]);
        }
        row[ol] = w;
        *dirty = *dirty | (1u64 << ((d * 6 + ol) as u64));
        proof {
            assert forall|p: int| #[trigger] bit32(gone & !rest, p) <==> bit32(gone & !rest0, p)
                || p == i by {}
            lemma_one_more_hit(lane as int, gone & !rest0, gone & !rest, i as int);
            lemma_other(lane as int, i as int);
            assert(0 <= ol < 6);
            assert forall|l: int, p: int| 0 <= l < 6 implies (#[trigger] bit32(row[l], p) <==> bit32(
                row0[l],
                p,
            ) && !(0 <= p < 27 && other_lane(l, p) == lane && bit32(gone, other_pos(l, p)) && !bit32(
                rest,
                other_pos(l, p),
            ))) by {
                assert(bit32(row1[l], p) <==> bit32(row0[l], p) && !(0 <= p < 27 && other_lane(l, p)
                    == lane && bit32(gone, other_pos(l, p)) && !bit32(rest0, other_pos(l, p))));
                lemma_other(lane as int, i as int);
                if 0 <= p < 27 {
                    lemma_other(l, p);
                }
            }
            assert forall|l: int| 0 <= l < 8 implies #[trigger] row[l] <= BAND_ALL by {
                assert(row1[l] <= BAND_ALL);
            }
            assert forall|l: int| 0 <= l < 6 && !#[trigger] bit64(*dirty, 6 * d + l) implies row[l]
                == row0[l] by {
                assert(!bit64(dirty1, 6 * d + l));
                assert(l != ol);
            }
        }
    }
    proof {
        assert(gone & !rest == gone) by {
            let x = gone & !rest;
            assert forall|p: int| 0 <= p < 32 implies bit32(x, p) == bit32(gone, p) by {
                assert(!bit32(0u32, p));
            }
            crate::bits::lemma_ext32(x, gone);
        }
    }
}

/// How many of the first `n` rows have bit `p` in lane `l`.
pub open spec fn at_lane(b: Seq<Lanes>, l: int, p: int, n: nat) -> nat {
    count(|d: int| bit32(b[d][l], p), n)
}

/// The bits that at least one, two, three and four rows have, lane by lane.
pub fn tally_lanes(b: &[[u32; 8]; 9]) -> (r: (Lanes, Lanes, Lanes, Lanes))
    ensures
        forall|l: int, p: int|
            0 <= l < 8 ==> (#[trigger] bit32(r.0[l], p) <==> at_lane(b@, l, p, 9) >= 1),
        forall|l: int, p: int|
            0 <= l < 8 ==> (#[trigger] bit32(r.1[l], p) <==> at_lane(b@, l, p, 9) >= 2),
        forall|l: int, p: int|
            0 <= l < 8 ==> (#[trigger] bit32(r.2[l], p) <==> at_lane(b@, l, p, 9) >= 3),
        forall|l: int, p: int|
            0 <= l < 8 ==> (#[trigger] bit32(r.3[l], p) <==> at_lane(b@, l, p, 9) >= 4),
{
    let mut one: Lanes = [0;8];
    let mut two: Lanes = [0;8];
    let mut three: Lanes = [0;8];
    let mut four: Lanes = [0;8];
    let mut d: usize = 0;
    while d < 9
        invariant
            d <= 9,
            forall|l: int, p: int|
                0 <= l < 8 ==> (#[trigger] bit32(one[l], p) <==> at_lane(b@, l, p, d as nat) >= 1),
            forall|l: int, p: int|
                0 <= l < 8 ==> (#[trigger] bit32(two[l], p) <==> at_lane(b@, l, p, d as nat) >= 2),
            forall|l: int, p: int|
                0 <= l < 8 ==> (#[trigger] bit32(three[l], p) <==> at_lane(b@, l, p, d as nat)
                    >= 3),
            forall|l: int, p: int|
                0 <= l < 8 ==> (#[trigger] bit32(four[l], p) <==> at_lane(b@, l, p, d as nat) >= 4),
        decreases 9 - d,
    {
        let m = b[d];
        let ghost (o1, o2, o3, o4) = (one, two, three, four);
        let m4 = and_lanes(&three, &m);
        let m3 = and_lanes(&two, &m);
        let m2 = and_lanes(&one, &m);
        four = or_lanes(&four, &m4);
        three = or_lanes(&three, &m3);
        two = or_lanes(&two, &m2);
        one = or_lanes(&one, &m);
        proof {
            assert forall|l: int, p: int| 0 <= l < 8 implies #[trigger] at_lane(
                b@,
                l,
                p,
                (d + 1) as nat,
            ) == at_lane(b@, l, p, d as nat) + if bit32(m[l], p) {
                1nat
            } else {
                0nat
            } by {}
            assert forall|l: int, p: int| 0 <= l < 8 implies (#[trigger] bit32(one[l], p)
                <==> at_lane(b@, l, p, (d + 1) as nat) >= 1) by {
                assert(one[l] == o1[l] | m[l]);
            }
            assert forall|l: int, p: int| 0 <= l < 8 implies (#[trigger] bit32(two[l], p)
                <==> at_lane(b@, l, p, (d + 1) as nat) >= 2) by {
                assert(two[l] == o2[l] | m2[l] && m2[l] == o1[l] & m[l]);
            }
            assert forall|l: int, p: int| 0 <= l < 8 implies (#[trigger] bit32(three[l], p)
                <==> at_lane(b@, l, p, (d + 1) as nat) >= 3) by {
                assert(three[l] == o3[l] | m3[l] && m3[l] == o2[l] & m[l]);
            }
            assert forall|l: int, p: int| 0 <= l < 8 implies (#[trigger] bit32(four[l], p)
                <==> at_lane(b@, l, p, (d + 1) as nat) >= 4) by {
                assert(four[l] == o4[l] | m4[l] && m4[l] == o3[l] & m[l]);
            }
        }
        d = d + 1;
    }
    (one, two, three, four)
}

/// In a horizontal lane the rows count the candidates of a cell.
pub proof fn lemma_at_lane(s: State, b: int, p: int)
    requires
        s.shape(),
        0 <= b < 3,
    ensures
        at_lane(s.b@, b, p, 9) == digits_at(s.boards(), b, p, 9),
{
    s.lemma_boards();
    let f = |d: int| bit32(s.b@[d][b], p);
    let g = |e: int| bit32(s.boards()[9 * b + e], p);
    assert forall|i: int| 0 <= i < 9 implies f(i) == #[trigger] g(i) by {
        assert(s.boards()[9 * b + i] == s.b[i][b]);
    }
    lemma_count_mono(f, g, 9);
    lemma_count_mono(g, f, 9);
}

/// Lanes that changed are due for a reduction, but for one lane.
pub open spec fn changes_marked_but(s0: State, s: State, d0: int, l0: int) -> bool {
    forall|d: int, l: int|
        0 <= d < 9 && 0 <= l < 6 && (d != d0 || l != l0) && !#[trigger] bit64(s.dirty, 6 * d + l)
            ==> !bit64(s0.dirty, 6 * d + l) && s.b[d][l] == s0.b[d][l]
}

/// Exactly the lanes that changed are due anew, but for one lane.
pub open spec fn marked_but(s0: State, s: State, d0: int, l0: int) -> bool {
    forall|i: int| #[trigger]
        bit64(s.dirty, i) <==> bit64(s0.dirty, i) || (0 <= i < 54 && i != 6 * d0 + l0 && s.b[i
            / 6][i % 6] != s0.b[i / 6][i % 6])
}

/// `q` is `q0` with more assignments, each to an open cell and each made by
/// every grid the boards admit.
pub open spec fn pushed(q0: Queue, q: Queue, s: State) -> bool {
    &&& q.ok()
    &&& q0.len <= q.len
    &&& forall|j: int| 0 <= j < q0.len ==> #[trigger] q.buf[j] == q0.buf[j]
    &&& forall|j: int|
        q0.len <= j < q.len ==> s.open(entry_cell(#[trigger] q.buf[j])) && implied(
            s.boards(),
            entry_cell(q.buf[j]),
            entry_digit(q.buf[j]),
        )
}

/// The hidden singles of digit `d` in the first `n` lines of a lane that are
/// not recorded as solved are queued.
pub open spec fn singles_queued(s: State, q: Queue, lane: int, d: int, n: int) -> bool {
    forall|l: int, x: int|
        0 <= l < n && 0 <= x < 9 && !bit32(s.placed[d], 3 * lane + l) && #[trigger] lone(
            s.boards(),
            lane,
            d,
            l,
            x,
        ) ==> q.has(line_cell(lane, l, x), d)
}

/// The hidden single of digit `d` in line `l` of a lane, as a cell and a digit,
/// if the line has one and is not recorded as solved.
pub open spec fn line_single(s: State, lane: int, d: int, l: int) -> Seq<(int, int)> {
    if !bit32(s.placed[d], 3 * lane + l) && exists|x: int|
        0 <= x < 9 && #[trigger] lone(s.boards(), lane, d, l, x) {
        let x = choose|x: int| 0 <= x < 9 && #[trigger] lone(s.boards(), lane, d, l, x);
        seq![(line_cell(lane, l, x), d)]
    } else {
        Seq::empty()
    }
}

/// The hidden singles of digit `d` in the first `n` lines of a lane.
pub open spec fn singles_of(s: State, lane: int, d: int, n: int) -> Seq<(int, int)>
    decreases n,
{
    if n <= 0 {
        Seq::empty()
    } else {
        singles_of(s, lane, d, n - 1) + line_single(s, lane, d, n - 1)
    }
}

/// The naked singles of the first `n` bands.
pub open spec fn naked_below(s: State, n: int) -> Seq<(int, int)>
    decreases n,
{
    if n <= 0 {
        Seq::empty()
    } else {
        naked_below(s, n - 1) + naked_singles(s.boards(), s.unsolved[n - 1], n - 1, 27)
    }
}

/// An open cell of band `b` has no candidate.
pub open spec fn band_bare(s: State, b: int) -> bool {
    exists|p: int| #[trigger] bit32(s.unsolved[b], p) && digits_at(s.boards(), b, p, 9) == 0
}

/// Band `b` is the first with an open cell without candidates.
pub open spec fn first_bare(s: State, b: int) -> bool {
    0 <= b < 3 && band_bare(s, b) && forall|k: int| 0 <= k < b ==> !#[trigger] band_bare(s, k)
}

/// What is queued stays queued.
pub proof fn lemma_has_kept(q0: Queue, q: Queue, c: int, d: int)
    requires
        q0.has(c, d),
        q0.len <= q.len,
        forall|j: int| 0 <= j < q0.len ==> #[trigger] q.buf[j] == q0.buf[j],
    ensures
        q.has(c, d),
{
    let j = choose|j: int|
        0 <= j < q0.len && entry_cell(#[trigger] q0.buf[j]) == c && entry_digit(q0.buf[j]) == d;
    assert(q.buf[j] == q0.buf[j]);
}

/// One more line whose single, if it has one, is queued.
proof fn lemma_singles_kept(s: State, q0: Queue, q: Queue, lane: int, d: int, r: int)
    requires
        0 <= r < 3,
        singles_queued(s, q0, lane, d, r),
        q0.len <= q.len,
        forall|j: int| 0 <= j < q0.len ==> #[trigger] q.buf[j] == q0.buf[j],
        forall|x: int|
            0 <= x < 9 && !bit32(s.placed[d], 3 * lane + r) && #[trigger] lone(
                s.boards(),
                lane,
                d,
                r,
                x,
            ) ==> q.has(line_cell(lane, r, x), d),
    ensures
        singles_queued(s, q, lane, d, r + 1),
{
    assert forall|l: int, x: int|
        0 <= l < r + 1 && 0 <= x < 9 && !bit32(s.placed[d], 3 * lane + l) && #[trigger] lone(
            s.boards(),
            lane,
            d,
            l,
            x,
        ) implies q.has(line_cell(lane, l, x), d) by {
        if l < r {
            lemma_has_kept(q0, q, line_cell(lane, l, x), d);
        }
    }
}

/// One more assignment.
proof fn lemma_pushed(q0: Queue, q1: Queue, q: Queue, s: State)
    requires
        pushed(q0, q1, s),
        q.ok(),
        q.len == q1.len + 1,
        q.buf@ == q1.buf@.update(q1.len as int, q.buf[q1.len as int]),
        s.open(entry_cell(q.buf[q1.len as int])),
        implied(s.boards(), entry_cell(q.buf[q1.len as int]), entry_digit(q.buf[q1.len as int])),
    ensures
        pushed(q0, q, s),
{
    assert forall|j: int| 0 <= j < q0.len implies #[trigger] q.buf[j] == q0.buf[j] by {
        assert(q.buf[j] == q1.buf[j]);
    }
    assert forall|j: int| q0.len <= j < q.len implies s.open(entry_cell(#[trigger] q.buf[j]))
        && implied(s.boards(), entry_cell(q.buf[j]), entry_digit(q.buf[j])) by {
        if j < q1.len {
            assert(q.buf[j] == q1.buf[j]);
        }
    }
}

/// The only candidate of a line not recorded as solved is an open cell.
proof fn lemma_line_single(s: State, m: u32, lane: int, d: int, l: int, x: int)
    requires
        s.solved_ok(),
        0 <= lane < 6,
        0 <= d < 9,
        0 <= l < 3,
        0 <= x < 9,
        views(m, s.boards(), lane, d),
        !bit32(s.placed[d], 3 * lane + l),
        bit32(m, 9 * l + x),
        forall|y: int| 0 <= y < 9 && #[trigger] bit32(m, 9 * l + y) ==> y == x,
    ensures
        0 <= line_cell(lane, l, x) < 81,
        s.open(line_cell(lane, l, x)),
        implied(s.boards(), line_cell(lane, l, x), d),
{
    let p = 9 * l + x;
    let c = band_cell(lane, p);
    assert(p / 9 == l && p % 9 == x);
    lemma_single(m, s.boards(), lane, d, l, x);
    lemma_band_cell(lane, p);
    reveal(views);
    assert(cand(s.boards(), c, d));
    if !s.open(c) {
        assert(s.marked(c, d));
        if lane < 3 {
            assert(c / 9 == 3 * lane + l);
        } else {
            assert(9 + c % 9 == 3 * lane + l);
        }
    }
}

/// A word that holds exactly the members of `f` below `n`.
pub proof fn lemma_word(f: spec_fn(int) -> bool, n: nat) -> (w: u16)
    requires
        n <= 16,
    ensures
        forall|i: int| #[trigger] bit16(w, i) <==> 0 <= i < n && f(i),
    decreases n,
{
    if n == 0 {
        0
    } else {
        let v = lemma_word(f, (n - 1) as nat);
        if f(n - 1) {
            v | (1u16 << ((n - 1) as u16))
        } else {
            v
        }
    }
}

impl State {
    /// A lane that needs no reduction is closed, but for one lane.
    pub open spec fn clean_but(&self, d0: int, l0: int) -> bool {
        forall|d: int, l: int|
            0 <= d < 9 && 0 <= l < 6 && (d != d0 || l != l0) && !#[trigger] bit64(
                self.dirty,
                6 * d + l,
            ) ==> closed_word(self.b[d][l])
    }

    /// Queues the hidden singles of a digit along the lines of a lane.
    fn push_singles(&self, q: &mut Queue, m: u32, lane: usize, d: usize, t: &Tables)
        requires
            self.shape(),
            self.solved_ok(),
            t.ok(),
            lane < 6,
            d < 9,
            views(m, self.boards(), lane as int, d as int),
            supported(m),
            old(q).ok(),
            old(q).len + 3 <= QUEUE_LEN,
        ensures
            pushed(*old(q), *final(q), *self),
            final(q).len <= old(q).len + 3,
            singles_queued(*self, *final(q), lane as int, d as int, 3),
            final(q).list() == old(q).list() + singles_of(*self, lane as int, d as int, 3),
    {
        let ghost q0 = *q;
        let solved = self.placed[d];
        proof {
            lemma_low_masks32();
        }
        let mut r: usize = 0;
        proof {
            assert(q.list() =~= q0.list() + singles_of(*self, lane as int, d as int, 0));
        }
        while r < 3
            invariant
                q.list() == q0.list() + singles_of(*self, lane as int, d as int, r as int),
                r <= 3,
                lane < 6,
                d < 9,
                t.ok(),
                self.shape(),
                self.solved_ok(),
                solved == self.placed[d as int],
                views(m, self.boards(), lane as int, d as int),
                supported(m),
                q0.len + 3 <= QUEUE_LEN,
                pushed(q0, *q, *self),
                q.len <= q0.len + r,
                singles_queued(*self, *q, lane as int, d as int, r as int),
                forall|i: int| #[trigger] bit32(0x1FFu32, i) <==> 0 <= i < 9,
            decreases 3 - r,
        {
            let ghost q2 = *q;
            let line = 3 * lane + r;
            proof {
                assert(bit32(solved, line as int) <==> (solved >> (line as u32)) & 1 == 1) by {
                    reveal(bit32);
                }
            }
            if (solved >> (line as u32)) & 1 != 1 {
                let bits = (m >> (9 * r as u32)) & 0x1FF;
                proof {
                    let x = lemma_supported_lines(m, r as int);
                    assert(bit32(bits, x));
                    assert forall|y: int| #[trigger] bit32(bits, y) <==> 0 <= y < 9 && bit32(
                        m,
                        9 * r + y,
                    ) by {}
                }
                let rest = without_lowest32(bits);
                if rest == 0 {
                    let x = lowest32(bits);
                    proof {
                        assert(bit32(bits, x as int));
                        assert forall|y: int| 0 <= y < 9 && #[trigger] bit32(
                            m,
                            9 * r + y,
                        ) implies y == x by {
                            assert(bit32(bits, y));
                            assert(!bit32(0u32, y));
                        }
                        lemma_line_single(*self, m, lane as int, d as int, r as int, x as int);
                    }
                    let cell = t.cell_on_line(lane, r, x);
                    let ghost q1 = *q;
                    q.push(d, cell);
                    proof {
                        lemma_pushed(q0, q1, *q, *self);
                        assert(entry_cell(q.buf[q1.len as int]) == cell);
                        assert(q.has(line_cell(lane as int, r as int, x as int), d as int));
                        assert forall|y: int|
                            0 <= y < 9 && #[trigger] lone(
                                self.boards(),
                                lane as int,
                                d as int,
                                r as int,
                                y,
                            ) implies y == x by {
                            lemma_lone(m, self.boards(), lane as int, d as int, r as int, y);
                            assert(bit32(m, 9 * r + y));
                        }
                        assert(lone(self.boards(), lane as int, d as int, r as int, x as int)) by {
                            reveal(views);
                            assert forall|y: int|
                                0 <= y < 9 && #[trigger] cand(
                                    self.boards(),
                                    line_cell(lane as int, r as int, y),
                                    d as int,
                                ) implies y == x by {
                                lemma_line_cell(lane as int, r as int, y);
                                assert(bit32(m, 9 * r + y));
                            }
                            lemma_line_cell(lane as int, r as int, x as int);
                            assert(bit32(m, 9 * r + x));
                        }
                        assert(line_single(*self, lane as int, d as int, r as int) == seq![
                            (line_cell(lane as int, r as int, x as int), d as int),
                        ]);
                        assert(q.list() =~= q1.list().push(
                            (line_cell(lane as int, r as int, x as int), d as int),
                        ));
                    }
                } else {
                    proof {
                        let z = lemma_nonzero32(rest);
                        assert(bit32(rest, z));
                        let w = choose|w: int|
                            #![trigger bit32(bits, w)]
                            0 <= w < 32 && bit32(bits, w) && (forall|j: int| #[trigger]
                                bit32(rest, j) <==> bit32(bits, j) && j != w) && (forall|j: int|
                                0 <= j < w ==> !bit32(bits, j));
                        assert(bit32(bits, z) && z != w);
                        assert forall|y: int|
                            0 <= y < 9 implies !#[trigger] lone(
                                self.boards(),
                                lane as int,
                                d as int,
                                r as int,
                                y,
                            ) by {
                            if lone(self.boards(), lane as int, d as int, r as int, y) {
                                lemma_lone(m, self.boards(), lane as int, d as int, r as int, y);
                                assert(bit32(m, 9 * r + z) && bit32(m, 9 * r + w));
                            }
                        }
                    }
                }
            }
            proof {
                lemma_singles_kept(*self, q2, *q, lane as int, d as int, r as int);
                assert(q.list() =~= q2.list() + line_single(
                    *self,
                    lane as int,
                    d as int,
                    r as int,
                ));
                assert(q.list() =~= q0.list() + singles_of(*self, lane as int, d as int, r + 1));
            }
            r = r + 1;
        }
    }

    /// Cuts one lane down to `na` and the other orientation with it.
    fn cut_lane(&mut self, d: usize, lane: usize, na: u32, Ghost(occ): Ghost<u16>, t: &Tables)
        requires
            old(self).shape(),
            old(self).synced(),
            t.ok(),
            d < 9,
            lane < 6,
            forall|p: int| #[trigger]
                bit32(na, p) <==> bit32(old(self).b[d as int][lane as int], p) && 0 <= p < 27
                    && bit16(occ, p / 3),
        ensures
            final(self).shape(),
            final(self).synced(),
            same_solved(*old(self), *final(self)),
            final(self).b[d as int][lane as int] == na,
            cut(old(self).boards(), final(self).boards(), lane as int, d as int, occ),
            final(self).dirty_cells,
            final(self).tdirty,
            forall|i: int| bit64(old(self).dirty, i) ==> #[trigger] bit64(final(self).dirty, i),
            forall|e: int, l: int|
                0 <= e < 9 && 0 <= l < 6 && (e != d || l != lane) && !#[trigger] bit64(
                    final(self).dirty,
                    6 * e + l,
                ) ==> final(self).b[e][l] == old(self).b[e][l],
            marked_but(*old(self), *final(self), d as int, lane as int),
    {
        let ghost s0 = *self;
        let mut row: Lanes = self.b[d];
        let a = row[lane];
        let gone = a & !na;
        proof {
            assert(s0.b[d as int][lane as int] <= BAND_ALL);
            lemma_subset32(na, a);
            lemma_subset32(gone, a);
            assert forall|l: int| 0 <= l < 8 implies #[trigger] row[l] <= BAND_ALL by {
                assert(s0.b[d as int][l] <= BAND_ALL);
            }
        }
        row[lane] = na;
        let ghost row1 = row;
        let mut dirty: u64 = self.dirty;
        drop_mirrored(&mut row, &mut dirty, d, lane, gone, t);
        proof {
            assert forall|p: int| 0 <= p < 32 implies bit32(row[lane as int], p) == bit32(na, p) by {
                assert(bit32(row[lane as int], p) <==> bit32(row1[lane as int], p) && !(0 <= p < 27
                    && other_lane(lane as int, p) == lane && bit32(
                    gone,
                    other_pos(lane as int, p),
                )));
                if 0 <= p < 27 {
                    lemma_other(lane as int, p);
                }
            }
            crate::bits::lemma_ext32(row[lane as int], na);
        }
        self.b[d] = row;
        self.dirty = dirty;
        self.dirty_cells = true;
        self.tdirty = true;
        proof {
            assert(self.shape()) by {
                assert forall|e: int, l: int| 0 <= e < 9 && 0 <= l < 8 implies #[trigger] self.b[e][l]
                    <= BAND_ALL by {
                    assert(s0.b[e][l] <= BAND_ALL);
                }
            }
            assert forall|l: int, p: int| 0 <= l < 6 && 0 <= p < 27 implies (#[trigger] bit32(
                row[l],
                p,
            ) <==> bit32(s0.b[d as int][l], p) && (in_band(lane as int, band_cell(l, p)) ==> bit16(
                occ,
                band_pos(lane as int, band_cell(l, p)) / 3,
            ))) by {
                let x = band_cell(l, p);
                lemma_band_cell(l, p);
                lemma_lanes(x, l);
                lemma_lanes(x, lane as int);
                assert(views(s0.b[d as int][l], s0.boards(), l, d as int));
                assert(views(s0.b[d as int][lane as int], s0.boards(), lane as int, d as int));
                if l == lane {
                    assert(row[l] == na);
                } else {
                    assert(bit32(row[l], p) <==> bit32(row1[l], p) && !(0 <= p < 27 && other_lane(
                        l,
                        p,
                    ) == lane && bit32(gone, other_pos(l, p))));
                    assert(row1[l] == s0.b[d as int][l]);
                    if in_band(lane as int, x) {
                        assert(other_lane(l, p) == lane);
                        lemma_band_pos(lane as int, x);
                        let p2 = band_pos(lane as int, x);
                        reveal(views);
                        assert(bit32(s0.b[d as int][lane as int], p2) <==> cand(
                            s0.boards(),
                            x,
                            d as int,
                        ));
                        assert(bit32(s0.b[d as int][l], p) <==> cand(s0.boards(), x, d as int));
                    } else {
                        assert(other_lane(l, p) != lane);
                    }
                }
            }
            lemma_cut_synced(s0, *self, d as int, lane as int, occ);
            assert(marked_but(s0, *self, d as int, lane as int)) by {
                assert forall|i: int| #[trigger] bit64(self.dirty, i) <==> bit64(s0.dirty, i) || (0
                    <= i < 54 && i != 6 * d + lane && self.b[i / 6][i % 6] != s0.b[i / 6][i
                    % 6]) by {
                    let l = i - 6 * d;
                    if bit64(self.dirty, i) && !bit64(s0.dirty, i) {
                        assert(i / 6 == d && i % 6 == l);
                        let p = choose|p: int| #[trigger]
                            bit32(gone, p) && other_lane(lane as int, p) == l;
                        lemma_small32(gone, p);
                        lemma_other(lane as int, p);
                        let q = other_pos(lane as int, p);
                        assert(l != lane);
                        assert(row1[l] == s0.b[d as int][l]);
                        assert(bit32(row[l], q) <==> bit32(row1[l], q) && !(0 <= q < 27
                            && other_lane(l, q) == lane && bit32(gone, other_pos(l, q))));
                        assert(views(s0.b[d as int][l], s0.boards(), l, d as int));
                        assert(views(
                            s0.b[d as int][lane as int],
                            s0.boards(),
                            lane as int,
                            d as int,
                        ));
                        reveal(views);
                        assert(bit32(s0.b[d as int][lane as int], p) <==> cand(
                            s0.boards(),
                            band_cell(lane as int, p),
                            d as int,
                        ));
                        assert(bit32(s0.b[d as int][l], q) <==> cand(
                            s0.boards(),
                            band_cell(l, q),
                            d as int,
                        ));
                        assert(bit32(s0.b[d as int][l], q) && !bit32(self.b[d as int][l], q));
                    }
                    if 0 <= i < 54 && i != 6 * d + lane && self.b[i / 6][i % 6] != s0.b[i / 6][i
                        % 6] {
                        assert(i / 6 == d);
                        assert(row1[l] == s0.b[d as int][l]);
                        assert(row[l] != row1[l]);
                        assert(bit64(dirty, 6 * d + l));
                    }
                }
            }
            assert forall|e: int, l: int|
                0 <= e < 9 && 0 <= l < 6 && (e != d || l != lane) && !#[trigger] bit64(
                    self.dirty,
                    6 * e + l,
                ) implies self.b[e][l] == s0.b[e][l] by {
                if e == d {
                    assert(row[l] == row1[l]);
                }
            }
        }
    }
}

/// A cut of all lanes of one digit cuts the boards and keeps the orientations
/// in step.
proof fn lemma_cut_synced(s0: State, s: State, d: int, lane: int, occ: u16)
    requires
        s0.shape(),
        s.shape(),
        s0.synced(),
        0 <= d < 9,
        0 <= lane < 6,
        forall|e: int| 0 <= e < 9 && e != d ==> #[trigger] s.b[e] == s0.b[e],
        forall|l: int, p: int|
            0 <= l < 6 && 0 <= p < 27 ==> (#[trigger] bit32(s.b[d][l], p) <==> bit32(s0.b[d][l], p)
                && (in_band(lane, band_cell(l, p)) ==> bit16(
                occ,
                band_pos(lane, band_cell(l, p)) / 3,
            ))),
    ensures
        s.synced(),
        cut(s0.boards(), s.boards(), lane, d, occ),
{
    let (x, y) = (s0.boards(), s.boards());
    s0.lemma_boards();
    s.lemma_boards();
    assert forall|c: int, e: int| 0 <= c < 81 && 0 <= e < 9 implies (#[trigger] cand(y, c, e)
        <==> cand(x, c, e) && (e == d && in_band(lane, c) ==> bit16(occ, band_pos(lane, c) / 3))) by {
        let (l, p) = (c / 27, c % 27);
        lemma_lanes(c, l);
        lemma_band_pos(l, c);
        assert(y[9 * l + e] == s.b[e][l] && x[9 * l + e] == s0.b[e][l]);
        if e == d {
            assert(bit32(s.b[d][l], p) <==> bit32(s0.b[d][l], p) && (in_band(
                lane,
                band_cell(l, p),
            ) ==> bit16(occ, band_pos(lane, band_cell(l, p)) / 3)));
        } else {
            assert(s.b[e] == s0.b[e]);
        }
    }
    assert forall|e: int, l: int| 0 <= e < 9 && 0 <= l < 6 implies views(
        #[trigger] s.b[e][l],
        y,
        l,
        e,
    ) by {
        assert(views(s0.b[e][l], x, l, e));
        reveal(views);
        assert forall|p: int| 0 <= p < 27 implies (#[trigger] bit32(s.b[e][l], p) <==> cand(
            y,
            band_cell(l, p),
            e,
        )) by {
            lemma_band_cell(l, p);
            assert(bit32(s0.b[e][l], p) <==> cand(x, band_cell(l, p), e));
            if e != d {
                assert(s.b[e] == s0.b[e]);
            }
        }
    }
}

/// Fewer candidates leave the solved cells as they are.
pub proof fn lemma_shrunk(s0: State, s: State)
    requires
        s0.solved_ok(),
        same_solved(s0, s),
        s.shape(),
        within(s.boards(), s0.boards()),
    ensures
        s.solved_ok(),
{
    s.lemma_boards();
    assert forall|c: int| 0 <= c < 81 implies #[trigger] s.open(c) == s0.open(c) by {}
    assert forall|c: int| 0 <= c < 81 && !#[trigger] s.open(c) implies settled(
        cands(s.boards()),
        c,
    ) by {
        assert(!s0.open(c));
        lemma_settled_mono(s.boards(), s0.boards(), c);
    }
    assert forall|c: int, d: int|
        0 <= c < 81 && 0 <= d < 9 && !s.open(c) && #[trigger] cand(
            s.boards(),
            c,
            d,
        ) implies s.marked(c, d) by {
        let i = 9 * (c / 27) + d;
        assert(sub32(s.boards()[i], s0.boards()[i]));
        assert(cand(s0.boards(), c, d));
        assert(s0.marked(c, d));
    }
}

/// A lane that holds no permutation leaves no cell.
proof fn lemma_closed_lane(a: u32, na: u32, s: u16)
    requires
        is_pattern(s, a),
        forall|p: int| #[trigger]
            bit32(na, p) <==> bit32(a, p) && 0 <= p < 27 && closed_at(s, p / 3),
    ensures
        na == 0 ==> !has_perm(s),
        na != 0 ==> has_perm(s) && supported(na) && closed_word(na),
        closure_of(na, a),
        has_perm(s) <==> supported(a),
{
    lemma_close_cells(a, s, na);
    lemma_in_some_perm(a, s);
    assert forall|p: int| #[trigger] bit32(na, p) <==> bit32(a, p) && in_some_perm(a, p / 3) by {
        if in_some_perm(a, p / 3) {
            assert(closed_at(s, p / 3));
            crate::minirow::lemma_closed_sub(s, p / 3);
        }
    }
    if has_perm(s) {
        lemma_closure_closed(a, s, na);
    }
    if has_perm(s) {
        let x = lemma_supported_lines(na, 0);
        assert(!bit32(0u32, 9 * 0 + x));
    }
    if na != 0 {
        let p = lemma_nonzero32(na);
        crate::minirow::lemma_closed_sub(s, p / 3);
    }
}

impl State {
    /// Cuts one lane down to the closure of its pattern, and returns it; zero
    /// if the digit has no place there.
    fn close_lane(&mut self, d: usize, lane: usize, t: &Tables) -> (na: u32)
        requires
            old(self).shape(),
            old(self).synced(),
            old(self).solved_ok(),
            old(self).clean_but(d as int, lane as int),
            t.ok(),
            d < 9,
            lane < 6,
        ensures
            na == 0 <==> !supported(old(self).b[d as int][lane as int]),
            na == 0 ==> dead(old(self).boards()) && *final(self) == *old(self),
            changes_marked_but(*old(self), *final(self), d as int, lane as int),
            marked_but(*old(self), *final(self), d as int, lane as int),
            *final(self) == *old(self) || (final(self).dirty_cells && final(self).tdirty),
            na != 0 ==> {
                &&& final(self).ok()
                &&& na == final(self).b[d as int][lane as int]
                &&& closure_of(na, old(self).b[d as int][lane as int])
                &&& closed_off(
                    old(self).boards(),
                    final(self).boards(),
                    lane as int,
                    d as int,
                )
                &&& supported(na)
                &&& within(final(self).boards(), old(self).boards())
                &&& keeps(old(self).boards(), final(self).boards())
                &&& *final(self) == *old(self) || final(self).boards() != old(self).boards()
            },
            same_solved(*old(self), *final(self)),
    {
        let ghost s0 = *self;
        let a = self.b[d][lane];
        proof {
            assert(a <= BAND_ALL);
            assert(views(a, s0.boards(), lane as int, d as int));
        }
        let s = shrink_band(a);
        let na = a & t.closed_cells(s);
        proof {
            assert forall|p: int| #[trigger] bit32(na, p) <==> bit32(a, p) && 0 <= p < 27
                && closed_at(s, p / 3) by {}
            lemma_closed_lane(a, na, s);
        }
        if na == 0 {
            proof {
                lemma_no_perm(a, s0.boards(), lane as int, d as int, s);
            }
            return 0;
        }
        let ghost occ = lemma_word(|i: int| closed_at(s, i), 9);
        proof {
            lemma_occ(s, occ);
            lemma_band_closure(a, s, occ, s0.boards(), lane as int, d as int);
        }
        if na != a {
            proof {
                assert forall|p: int| #[trigger] bit32(na, p) <==> bit32(
                    self.b[d as int][lane as int],
                    p,
                ) && 0 <= p < 27 && bit16(occ, p / 3) by {
                    assert(bit16(occ, p / 3) <==> closed_at(s, p / 3)) by {
                        reveal(closes);
                    }
                }
            }
            self.cut_lane(d, lane, na, Ghost(occ), t);
            proof {
                lemma_cut_ok(s0, *self, d as int, lane as int, occ, s);
                lemma_closed_off(s0.boards(), self.boards(), lane as int, d as int, occ);
            }
        } else {
            proof {
                lemma_closed_already(a, s0.boards(), lane as int, d as int);
                assert(self.clean_ok()) by {
                    assert forall|e: int, l: int|
                        0 <= e < 9 && 0 <= l < 6 && !#[trigger] bit64(
                            self.dirty,
                            6 * e + l,
                        ) implies closed_word(self.b[e][l]) by {}
                }
            }
        }
        na
    }

    /// Reduces one lane of a digit and queues the hidden singles along its
    /// lines; false if the digit has no place there.
    pub fn scan_unit(&mut self, d: usize, lane: usize, q: &mut Queue, t: &Tables) -> (r: bool)
        requires
            old(self).shape(),
            old(self).synced(),
            old(self).solved_ok(),
            old(self).clean_but(d as int, lane as int),
            t.ok(),
            d < 9,
            lane < 6,
            old(q).ok(),
            old(q).len + 3 <= QUEUE_LEN,
        ensures
            r <==> supported(old(self).b[d as int][lane as int]),
            !r ==> dead(old(self).boards()) && *final(self) == *old(self) && *final(q) == *old(q),
            changes_marked_but(*old(self), *final(self), d as int, lane as int),
            marked_but(*old(self), *final(self), d as int, lane as int),
            *final(self) == *old(self) || (final(self).dirty_cells && final(self).tdirty),
            r ==> {
                &&& final(self).ok()
                &&& closed_off(
                    old(self).boards(),
                    final(self).boards(),
                    lane as int,
                    d as int,
                )
                &&& singles_queued(*final(self), *final(q), lane as int, d as int, 3)
                &&& final(q).list() == old(q).list() + singles_of(
                    *final(self),
                    lane as int,
                    d as int,
                    3,
                )
                &&& within(final(self).boards(), old(self).boards())
                &&& keeps(old(self).boards(), final(self).boards())
                &&& *final(self) == *old(self) || final(self).boards() != old(self).boards()
                &&& pushed(*old(q), *final(q), *final(self))
            },
            same_solved(*old(self), *final(self)),
            final(q).ok(),
    {
        let na = self.close_lane(d, lane, t);
        if na == 0 {
            return false;
        }
        proof {
            assert(views(na, self.boards(), lane as int, d as int));
        }
        self.push_singles(q, na, lane, d, t);
        true
    }
}

/// A lane that is its own closure leaves the boards as they are.
proof fn lemma_closed_already(a: u32, bs: Seq<u32>, lane: int, d: int)
    requires
        0 <= lane < 6,
        views(a, bs, lane, d),
        closure_of(a, a),
    ensures
        closed_off(bs, bs, lane, d),
{
    assert forall|x: int, e: int| 0 <= x < 81 && 0 <= e < 9 implies (#[trigger] cand(bs, x, e)
        <==> cand(bs, x, e) && (e == d && in_band(lane, x) ==> laid(
        bs,
        lane,
        d,
        band_pos(lane, x) / 3,
    ))) by {
        if e == d && in_band(lane, x) && cand(bs, x, e) {
            let p = band_pos(lane, x);
            lemma_band_pos(lane, x);
            reveal(views);
            assert(bit32(a, p));
            let k = choose|k: int| #[trigger] fits_cells(a, k) && in_perm(k, p / 3);
            lemma_through(a, bs, lane, d, k);
            assert(through(bs, lane, d, k));
        }
    }
}

/// The word of the closed minirows.
proof fn lemma_occ(s: u16, occ: u16)
    requires
        forall|i: int| #[trigger] bit16(occ, i) <==> 0 <= i < 9 && closed_at(s, i),
    ensures
        closes(occ, s),
{
    reveal(closes);
    assert forall|i: int| closed_at(s, i) implies 0 <= i < 9 by {
        crate::minirow::lemma_closed_sub(s, i);
    }
}

/// The state after a lane was cut down to its closure.
proof fn lemma_cut_ok(s0: State, s: State, d: int, lane: int, occ: u16, pat: u16)
    requires
        s0.shape(),
        s0.synced(),
        s0.solved_ok(),
        s0.clean_but(d, lane),
        0 <= d < 9,
        0 <= lane < 6,
        is_pattern(pat, s0.b[d][lane]),
        closes(occ, pat),
        s.shape(),
        s.synced(),
        same_solved(s0, s),
        cut(s0.boards(), s.boards(), lane, d, occ),
        closed_word(s.b[d][lane]),
        s.b[d][lane] != s0.b[d][lane],
        forall|i: int| bit64(s0.dirty, i) ==> #[trigger] bit64(s.dirty, i),
        forall|e: int, l: int|
            0 <= e < 9 && 0 <= l < 6 && (e != d || l != lane) && !#[trigger] bit64(
                s.dirty,
                6 * e + l,
            ) ==> s.b[e][l] == s0.b[e][l],
    ensures
        s.ok(),
        within(s.boards(), s0.boards()),
        keeps(s0.boards(), s.boards()),
        s.boards() != s0.boards(),
{
    let (x, y) = (s0.boards(), s.boards());
    s.lemma_boards();
    s0.lemma_boards();
    lemma_within_cands(y, x);
    lemma_shrunk(s0, s);
    assert(views(s0.b[d][lane], x, lane, d));
    assert(views(s.b[d][lane], y, lane, d));
    assert forall|g: Seq<u8>| is_grid(g) && #[trigger] admits(x, g) implies admits(y, g) by {
        lemma_views(s0.b[d][lane], x, g, lane, d);
        lemma_fits_closed(pat, occ, lay(g, lane, d));
        lemma_cut(x, y, lane, d, occ, g);
    }
    assert(s.clean_ok()) by {
        assert forall|e: int, l: int|
            0 <= e < 9 && 0 <= l < 6 && !#[trigger] bit64(s.dirty, 6 * e + l) implies closed_word(
            s.b[e][l],
        ) by {
            if e != d || l != lane {
                assert(!bit64(s0.dirty, 6 * e + l));
                assert(closed_word(s0.b[e][l]));
            }
        }
    }
    if x == y {
        lemma_same_view(s0.b[d][lane], s.b[d][lane], x, lane, d);
    }
}

/// A lane is determined by the boards.
pub proof fn lemma_same_view(a: u32, b: u32, bs: Seq<u32>, lane: int, d: int)
    requires
        views(a, bs, lane, d),
        views(b, bs, lane, d),
    ensures
        a == b,
{
    reveal(views);
    assert forall|p: int| 0 <= p < 32 implies bit32(a, p) == bit32(b, p) by {
        if 0 <= p < 27 {
            assert(bit32(a, p) <==> cand(bs, band_cell(lane, p), d));
            assert(bit32(b, p) <==> cand(bs, band_cell(lane, p), d));
        } else {
            if bit32(a, p) {
                lemma_small32(a, p);
            }
            if bit32(b, p) {
                lemma_small32(b, p);
            }
        }
    }
    crate::bits::lemma_ext32(a, b);
}

/// A cell without candidates leaves no grid.
proof fn lemma_empty_cell(bs: Seq<u32>, b: int, p: int)
    requires
        0 <= b < 3,
        0 <= p < 27,
        digits_at(bs, b, p, 9) == 0,
    ensures
        dead(bs),
{
    assert forall|g: Seq<u8>| is_grid(g) implies !#[trigger] admits(bs, g) by {
        if admits(bs, g) {
            reveal(admits);
            lemma_grid_facts(g);
            let c = 27 * b + p;
            assert(c / 27 == b && c % 27 == p);
            assert(cand(bs, c, g[c] - 1));
            let f = |e: int| bit32(bs[9 * b + e], p);
            assert(f(g[c] - 1));
            lemma_count_some(f, 9, g[c] - 1);
        }
    }
}

/// A cell with one candidate holds it.
proof fn lemma_one_digit(bs: Seq<u32>, b: int, p: int, d: int)
    requires
        0 <= b < 3,
        0 <= p < 27,
        0 <= d < 9,
        digits_at(bs, b, p, 9) <= 1,
        bit32(bs[9 * b + d], p),
    ensures
        implied(bs, 27 * b + p, d),
{
    let c = 27 * b + p;
    assert(c / 27 == b && c % 27 == p);
    let f = |e: int| bit32(bs[9 * b + e], p);
    assert forall|g: Seq<u8>| is_grid(g) && #[trigger] admits(bs, g) implies g[c] == d + 1 by {
        reveal(admits);
        lemma_grid_facts(g);
        assert(cand(bs, c, g[c] - 1));
        assert(f(g[c] - 1) && f(d));
        if g[c] - 1 != d {
            lemma_count_lone(f, 9, d, g[c] - 1);
        }
    }
    assert(sole(bs, c, d)) by {
        assert forall|e: int| 0 <= e < 9 && #[trigger] cand(bs, c, e) implies e == d by {
            assert(f(e) && f(d));
            if e != d {
                lemma_count_lone(f, 9, d, e);
            }
        }
    }
    lemma_forced_sole(bs, c, d);
}

/// If cell `p` of band `b` has one candidate, it is queued.
pub open spec fn naked_queued(s: State, q: Queue, b: int, p: int) -> bool {
    digits_at(s.boards(), b, p, 9) == 1 ==> forall|d: int|
        0 <= d < 9 && bit32(#[trigger] s.boards()[9 * b + d], p) ==> q.has(27 * b + p, d)
}

/// What is queued of a cell stays queued.
proof fn lemma_naked_kept(s: State, q0: Queue, q: Queue, b: int, p: int)
    requires
        naked_queued(s, q0, b, p),
        q0.len <= q.len,
        forall|j: int| 0 <= j < q0.len ==> #[trigger] q.buf[j] == q0.buf[j],
    ensures
        naked_queued(s, q, b, p),
{
    if digits_at(s.boards(), b, p, 9) == 1 {
        assert forall|d: int| 0 <= d < 9 && bit32(
            #[trigger] s.boards()[9 * b + d],
            p,
        ) implies q.has(27 * b + p, d) by {
            lemma_has_kept(q0, q, 27 * b + p, d);
        }
    }
}

/// The one candidate of a cell is queued.
proof fn lemma_naked_pushed(s: State, q: Queue, b: int, p: int, d: int)
    requires
        0 <= d < 9,
        bit32(s.boards()[9 * b + d], p),
        q.has(27 * b + p, d),
    ensures
        naked_queued(s, q, b, p),
{
    if digits_at(s.boards(), b, p, 9) == 1 {
        let f = |e: int| bit32(s.boards()[9 * b + e], p);
        assert(f(d));
        assert forall|e: int| 0 <= e < 9 && bit32(
            #[trigger] s.boards()[9 * b + e],
            p,
        ) implies q.has(27 * b + p, e) by {
            if e != d {
                lemma_count_lone(f, 9, d, e);
                assert(f(e));
            }
        }
    }
}

impl State {
    /// Queues the naked singles; false if a cell has no candidate.
    pub fn scan_naked(&self, q: &mut Queue) -> (r: bool)
        requires
            self.shape(),
            old(q).ok(),
            old(q).len + 81 <= QUEUE_LEN,
        ensures
            r <==> forall|b: int, p: int|
                0 <= b < 3 && #[trigger] bit32(self.unsolved[b], p) ==> digits_at(
                    self.boards(),
                    b,
                    p,
                    9,
                ) >= 1,
            !r ==> dead(self.boards()),
            !r ==> exists|k: int| #[trigger]
                first_bare(*self, k) && final(q).list() == old(q).list() + naked_below(*self, k),
            r ==> final(q).list() == old(q).list() + naked_below(*self, 3),
            r ==> pushed(*old(q), *final(q), *self),
            r ==> forall|b: int, p: int|
                0 <= b < 3 && #[trigger] bit32(self.unsolved[b], p) ==> naked_queued(
                    *self,
                    *final(q),
                    b,
                    p,
                ),
            final(q).ok(),
    {
        let ghost q0 = *q;
        let (one, two, _, _) = tally_lanes(&self.b);
        let mut b: usize = 0;
        proof {
            assert(q.list() =~= q0.list() + naked_below(*self, 0));
        }
        while b < 3
            invariant
                q0 == *old(q),
                q.list() == q0.list() + naked_below(*self, b as int),
                b <= 3,
                self.shape(),
                q0.len + 81 <= QUEUE_LEN,
                pushed(q0, *q, *self),
                q.len <= q0.len + 27 * b,
                forall|k: int, p: int|
                    0 <= k < b && #[trigger] bit32(self.unsolved[k], p) ==> digits_at(
                        self.boards(),
                        k,
                        p,
                        9,
                    ) >= 1 && naked_queued(*self, *q, k, p),
                forall|l: int, p: int|
                    0 <= l < 8 ==> (#[trigger] bit32(one[l], p) <==> at_lane(self.b@, l, p, 9)
                        >= 1),
                forall|l: int, p: int|
                    0 <= l < 8 ==> (#[trigger] bit32(two[l], p) <==> at_lane(self.b@, l, p, 9)
                        >= 2),
            decreases 3 - b,
        {
            let uns = self.unsolved[b];
            let o = one[b];
            proof {
                assert(uns <= BAND_ALL);
            }
            if uns & !o != 0 {
                proof {
                    let p = lemma_nonzero32(uns & !o);
                    assert(bit32(uns, p) && !bit32(one[b as int], p));
                    lemma_small32(uns, p);
                    lemma_at_lane(*self, b as int, p);
                    lemma_empty_cell(self.boards(), b as int, p);
                    assert(band_bare(*self, b as int)) by {
                        assert(bit32(self.unsolved[b as int], p));
                    }
                    assert(first_bare(*self, b as int));
                }
                return false;
            }
            let naked = o & !two[b] & uns;
            proof {
                lemma_subset32(naked, uns);
                assert forall|p: int| #[trigger] bit32(naked, p) implies bit32(uns, p)
                    && digits_at(self.boards(), b as int, p, 9) == 1 by {
                    assert(bit32(one[b as int], p) && !bit32(two[b as int], p));
                    lemma_at_lane(*self, b as int, p);
                }
                assert forall|p: int| #[trigger]
                    naked_at(self.boards(), uns, b as int, p) implies bit32(naked, p) by {
                    lemma_small32(uns, p);
                    lemma_at_lane(*self, b as int, p);
                    assert(bit32(one[b as int], p) && !bit32(two[b as int], p));
                }
            }
            let ghost q2 = *q;
            self.push_naked(b, naked, q);
            proof {
                assert(q.list() =~= q0.list() + naked_below(*self, b + 1));
                assert forall|k: int, p: int| 0 <= k < b + 1 && #[trigger] bit32(
                    self.unsolved[k],
                    p,
                ) implies digits_at(self.boards(), k, p, 9) >= 1 && naked_queued(
                    *self,
                    *q,
                    k,
                    p,
                ) by {
                    if k < b {
                        assert(naked_queued(*self, q2, k, p));
                        lemma_naked_kept(*self, q2, *q, k, p);
                    } else {
                        lemma_at_lane(*self, k, p);
                        if !bit32(o, p) {
                            assert(bit32(uns & !o, p));
                            assert(!bit32(0u32, p));
                        }
                        assert(bit32(one[k], p));
                        if digits_at(self.boards(), k, p, 9) == 1 {
                            assert(!bit32(two[k], p));
                            assert(bit32(naked, p));
                        }
                    }
                }
            }
            b = b + 1;
        }
        true
    }

    /// Queues the given naked singles of a band.
    fn push_naked(&self, b: usize, cells: u32, q: &mut Queue)
        requires
            self.shape(),
            b < 3,
            cells <= BAND_ALL,
            forall|p: int| #[trigger]
                bit32(cells, p) ==> bit32(self.unsolved[b as int], p) && digits_at(
                    self.boards(),
                    b as int,
                    p,
                    9,
                ) == 1,
            forall|p: int| #[trigger]
                naked_at(self.boards(), self.unsolved[b as int], b as int, p) ==> bit32(cells, p),
            old(q).ok(),
            old(q).len + 27 <= QUEUE_LEN,
        ensures
            final(q).list() == old(q).list() + naked_singles(
                self.boards(),
                self.unsolved[b as int],
                b as int,
                27,
            ),
            forall|q0: Queue| #[trigger] pushed(q0, *old(q), *self) ==> pushed(q0, *final(q), *self),
            old(q).len <= final(q).len <= old(q).len + 27,
            forall|j: int|
                0 <= j < old(q).len ==> #[trigger] final(q).buf[j] == old(q).buf[j],
            forall|p: int| #[trigger]
                bit32(cells, p) ==> naked_queued(*self, *final(q), b as int, p),
            final(q).ok(),
    {
        let ghost q1 = *q;
        let ghost uns = self.unsolved[b as int];
        let mut naked: u32 = cells;
        proof {
            lemma_pop_band(naked);
            let f = |i: int| bit32(naked, i);
            lemma_count_mono(f, f, 27);
            self.lemma_boards();
            assert(q.list() =~= q1.list() + naked_singles(self.boards(), uns, b as int, 0));
        }
        let ghost mut upto: nat = 0;
        while naked != 0
            invariant
                upto <= 27,
                uns == self.unsolved[b as int],
                q.list() == q1.list() + naked_singles(self.boards(), uns, b as int, upto),
                forall|p: int| #[trigger] bit32(naked, p) ==> upto <= p,
                forall|p: int|
                    upto <= p && #[trigger] naked_at(self.boards(), uns, b as int, p) ==> bit32(
                        naked,
                        p,
                    ),
                b < 3,
                self.shape(),
                cells <= BAND_ALL,
                q1.len + 27 <= QUEUE_LEN,
                q.ok(),
                forall|q0: Queue| #[trigger] pushed(q0, q1, *self) ==> pushed(q0, *q, *self),
                q.len + pop32(naked) <= q1.len + 27,
                q1.len <= q.len,
                forall|j: int| 0 <= j < q1.len ==> #[trigger] q.buf[j] == q1.buf[j],
                forall|p: int| #[trigger]
                    bit32(cells, p) ==> bit32(naked, p) || naked_queued(*self, *q, b as int, p),
                forall|p: int| #[trigger] bit32(naked, p) ==> bit32(cells, p),
                forall|p: int| #[trigger]
                    bit32(cells, p) ==> bit32(self.unsolved[b as int], p) && digits_at(
                        self.boards(),
                        b as int,
                        p,
                        9,
                    ) == 1,
                forall|k: int, d: int|
                    0 <= k < 3 && 0 <= d < 9 ==> #[trigger] self.boards()[9 * k + d]
                        == self.b[d][k],
            decreases naked,
        {
            let i = lowest32(naked);
            let ghost n0 = naked;
            let ghost q3 = *q;
            naked = without_lowest32(naked);
            proof {
                let k = choose|k: int| #![trigger bit32(n0, k)] 0 <= k < 32 && bit32(n0, k) && (
                forall|j: int| #[trigger] bit32(naked, j) <==> bit32(n0, j) && j != k) && (forall|
                    j: int,
                |
                    0 <= j < k ==> !bit32(n0, j));
                assert(k == i);
                assert(bit32(cells, i as int));
                lemma_small32(cells, i as int);
                lemma_close_cell(n0, naked, i as int);
                lemma_naked_skip(self.boards(), uns, b as int, upto, i as nat);
            }
            let cell = (b * 3 + i / 9) * 9 + i % 9;
            let ghost f = |e: int| bit32(self.boards()[9 * b + e], i as int);
            let ghost w = lemma_count_witness(f, 9);
            let mut d: usize = 0;
            proof {
                assert(f(w));
                assert(cell == 27 * b + i);
            }
            while d < 9
                invariant_except_break
                    d <= 9,
                    forall|e: int| 0 <= e < d ==> !#[trigger] f(e),
                    forall|q0: Queue| #[trigger] pushed(q0, q1, *self) ==> pushed(q0, *q, *self),
                    q.len + pop32(naked) + 1 <= q1.len + 27,
                    q.ok(),
                    *q == q3,
                invariant
                    b < 3,
                    i < 27,
                    cell == 27 * b + i,
                    self.shape(),
                    q1.len + 27 <= QUEUE_LEN,
                    bit32(self.unsolved[b as int], i as int),
                    digits_at(self.boards(), b as int, i as int, 9) == 1,
                    f == |e: int| bit32(self.boards()[9 * b + e], i as int),
                    0 <= w < 9,
                    f(w),
                    forall|k: int, e: int|
                        0 <= k < 3 && 0 <= e < 9 ==> #[trigger] self.boards()[9 * k + e]
                            == self.b[e][k],
                ensures
                    forall|q0: Queue| #[trigger] pushed(q0, q1, *self) ==> pushed(q0, *q, *self),
                    q.len + pop32(naked) <= q1.len + 27,
                    q.ok(),
                    q3.len <= q.len,
                    forall|j: int| 0 <= j < q3.len ==> #[trigger] q.buf[j] == q3.buf[j],
                    naked_queued(*self, *q, b as int, i as int),
                    q.list() == q3.list().push((27 * b + i, d as int)),
                    d < 9,
                    f(d as int),
                decreases 9 - d,
            {
                let m = self.b[d][b];
                proof {
                    assert(bit32(m, i as int) <==> (m >> (i as u32)) & 1 == 1) by {
                        reveal(bit32);
                    }
                    assert(self.boards()[9 * b + d] == m);
                    assert(f(d as int) <==> bit32(m, i as int));
                }
                if (m >> (i as u32)) & 1 == 1 {
                    let ghost q2 = *q;
                    q.push(d, cell);
                    proof {
                        let c = 27 * b + i;
                        assert(c / 27 == b && c % 27 == i);
                        assert(self.open(c));
                        lemma_one_digit(self.boards(), b as int, i as int, d as int);
                        assert forall|q0: Queue| #[trigger] pushed(q0, q1, *self) implies pushed(
                            q0,
                            *q,
                            *self,
                        ) by {
                            lemma_pushed(q0, q2, *q, *self);
                        }
                        assert(entry_cell(q.buf[q2.len as int]) == c);
                        assert(q.has(c, d as int));
                        lemma_naked_pushed(*self, *q, b as int, i as int, d as int);
                        assert(q.list() =~= q2.list().push((c, d as int)));
                    }
                    break;
                }
                d = d + 1;
            }
            proof {
                assert(naked_at(self.boards(), uns, b as int, i as int));
                lemma_naked_next(self.boards(), uns, b as int, i as nat, d as int);
                assert(q.list() =~= q1.list() + naked_singles(
                    self.boards(),
                    uns,
                    b as int,
                    (i + 1) as nat,
                ));
                upto = (i + 1) as nat;
                assert forall|p: int| #[trigger] bit32(cells, p) implies bit32(naked, p)
                    || naked_queued(*self, *q, b as int, p) by {
                    if !bit32(naked, p) && p != i {
                        assert(!bit32(n0, p));
                        lemma_naked_kept(*self, q3, *q, b as int, p);
                    }
                }
            }
        }
        proof {
            assert forall|p: int| upto <= p < 27 implies !#[trigger] naked_at(
                self.boards(),
                uns,
                b as int,
                p,
            ) by {
                assert(!bit32(0u32, p));
            }
            lemma_naked_skip(self.boards(), uns, b as int, upto, 27);
            assert forall|p: int| #[trigger] bit32(cells, p) implies naked_queued(
                *self,
                *q,
                b as int,
                p,
            ) by {
                assert(!bit32(0u32, p));
            }
        }
    }
}

} // verus!
