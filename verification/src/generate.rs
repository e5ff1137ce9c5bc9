//! Random complete grids and random minimal puzzles.

use vstd::prelude::*;
use crate::baseline::cells::{
    admits, cell_solutions, keeps, lemma_dead_cells, lemma_multi_narrower, lemma_same_cells,
    narrower, only, single,
};
use crate::baseline::first::{
    first_fewest, lemma_fewest, lemma_first_fewest, lemma_guess_less, lemma_spelled, spelled,
};
use crate::baseline::propagate::{lemma_all_single, lemma_marks_grown, marks};
use crate::baseline::search::with_digits;
use crate::baseline::settle::{all_single, crossed, every_mark, settled};
use crate::baseline::state::{placed_or_open, unit_clean, Queue, State, ALL};
use crate::baseline::tables::Tables;
use crate::bits::{bit16, group_bits16, total16, lemma_low_masks16, lemma_nonzero16, lemma_small9};
use crate::branch::{ascending, listed};
use crate::grid::{
    box_of, clues_ok, grids, is_grid, lemma_grid_facts, lemma_grids_finite, lemma_only, lemma_some,
    peers, solution_count, solutions, unit_cell,
};
use crate::laws::random::{halfway, law_thinning, visits};
use crate::rng::{drawn, draws, lemma_draws_trans, xorshift, Rng};

verus! {

broadcast use group_bits16;

// ---------------------------------------------------------------------------
// Shuffling
// ---------------------------------------------------------------------------

/// `s` with two elements exchanged.
pub open spec fn swapped(s: Seq<u8>, i: int, j: int) -> Seq<u8> {
    s.update(i, s[j]).update(j, s[i])
}

/// The Fisher-Yates shuffle of the elements up to `i`, from generator state
/// `x`: each element from `i` down to 1 is exchanged with a drawn one that is
/// not behind it.
pub open spec fn shuffled(s: Seq<u8>, i: int, x: u64) -> Seq<u8>
    decreases i,
{
    if i <= 0 {
        s
    } else {
        let y = xorshift(x);
        shuffled(swapped(s, i, y as int % (i + 1)), i - 1, y)
    }
}

/// A shuffle keeps the elements.
pub proof fn lemma_shuffled(s: Seq<u8>, i: int, x: u64, n: int)
    requires
        i < n <= s.len(),
    ensures
        shuffled(s, i, x).len() == s.len(),
        forall|d: int| #[trigger] listed(shuffled(s, i, x), 0, n, d) <==> listed(s, 0, n, d),
    decreases i,
{
    if i > 0 {
        let y = xorshift(x);
        let j = y as int % (i + 1);
        let t = swapped(s, i, j);
        lemma_shuffled(t, i - 1, y, n);
        assert forall|d: int| #[trigger] listed(shuffled(s, i, x), 0, n, d) <==> listed(
            s,
            0,
            n,
            d,
        ) by {
            assert(listed(shuffled(t, i - 1, y), 0, n, d) <==> listed(t, 0, n, d));
            if listed(s, 0, n, d) {
                let k = choose|k: int| 0 <= k < n && #[trigger] s[k] == d;
                let m = if k == i {
                    j
                } else if k == j {
                    i
                } else {
                    k
                };
                assert(t[m] == d);
            }
            if listed(t, 0, n, d) {
                let k = choose|k: int| 0 <= k < n && #[trigger] t[k] == d;
                let m = if k == i {
                    j
                } else if k == j {
                    i
                } else {
                    k
                };
                assert(s[m] == d);
            }
        }
    }
}

/// Shuffles the first `n` elements.
fn shuffle<const N: usize>(a: &mut [u8; N], n: usize, rng: &mut Rng)
    requires
        1 <= n <= N,
    ensures
        final(a)@ == shuffled(old(a)@, n - 1, old(rng).0),
        final(rng).0 == drawn(old(rng).0, (n - 1) as nat),
{
    let ghost a0 = a@;
    let ghost x0 = rng.0;
    let mut i: usize = n - 1;
    while i > 0
        invariant
            i < n <= N,
            a@.len() == N,
            shuffled(a0, n - 1, x0) == shuffled(a@, i as int, rng.0),
            rng.0 == drawn(x0, (n - 1 - i) as nat),
        decreases i,
    {
        let ghost before = a@;
        let ghost x = rng.0;
        let j = rng.below(i as u64 + 1) as usize;
        let (p, q) = (a[i], a[j]);
        a[i] = q;
        a[j] = p;
        proof {
            assert(a@ =~= swapped(before, i as int, j as int));
        }
        i = i - 1;
    }
}

// ---------------------------------------------------------------------------
// Complete grids
// ---------------------------------------------------------------------------

/// The first `n` of `list` are the digits of a set in increasing order.
pub open spec fn digits_in(mask: u16, list: Seq<u8>, n: int) -> bool {
    &&& ascending(list, n)
    &&& forall|d: int| #[trigger] bit16(mask, d) <==> listed(list, 0, n, d)
}

/// One guess of a random fill, from generator state `x`: the `n` candidates
/// of the chosen cell are shuffled, those before place `k` of the order have
/// no grid, the one at `k` is entered, and nothing but candidates without a
/// grid is removed in consequence. Dead ends may have drawn more numbers, and
/// nothing else does.
pub open spec fn guessed(
    cand: Seq<u16>,
    x: u64,
    c: int,
    list: Seq<u8>,
    n: int,
    k: int,
    next: Seq<u16>,
    y: u64,
) -> bool {
    let order = shuffled(list, n - 1, x);
    &&& first_fewest(cand, c)
    &&& list.len() == 9
    &&& digits_in(cand[c], list, n)
    &&& 0 <= k < n
    &&& forall|j: int|
        0 <= j < k ==> cell_solutions(
            cand.update(c, 1u16 << (#[trigger] order[j] as u16)),
        ).len() == 0
    &&& narrower(next, cand.update(c, 1u16 << (order[k] as u16)))
    &&& keeps(cand.update(c, 1u16 << (order[k] as u16)), next)
    &&& draws(drawn(x, (n - 1) as nat), y, 0)
    &&& k == 0 ==> y == drawn(x, (n - 1) as nat)
}

/// A random fill takes the candidates `cand` and generator state `x` to the
/// grid `g` and state `y` in `depth` guesses.
pub open spec fn filled(cand: Seq<u16>, x: u64, g: Seq<u8>, y: u64, depth: nat) -> bool
    decreases depth,
{
    if depth == 0 {
        x == y && forall|c: int| 0 <= c < 81 ==> only(cand[c], #[trigger] g[c] - 1)
    } else {
        exists|c: int, list: Seq<u8>, n: int, k: int, next: Seq<u16>, z: u64| #[trigger]
            guessed(cand, x, c, list, n, k, next, z) && filled(next, z, g, y, (depth - 1) as nat)
    }
}

/// Nothing is known of any cell.
pub open spec fn all_open() -> Seq<u16> {
    Seq::new(81, |c: int| ALL)
}

/// The digits of a set below `d` in increasing order.
pub open spec fn digits_below(mask: u16, d: nat) -> Seq<u8>
    decreases d,
{
    if d == 0 {
        Seq::empty()
    } else {
        let list = digits_below(mask, (d - 1) as nat);
        if bit16(mask, d - 1) {
            list.push((d - 1) as u8)
        } else {
            list
        }
    }
}

/// Nine places, filled up with zeros.
pub open spec fn padded(list: Seq<u8>) -> Seq<u8> {
    Seq::new(
        9,
        |i: int|
            if i < list.len() {
                list[i]
            } else {
                0
            },
    )
}

/// A random fill from candidates, marked intersections and generator state:
/// the grid found, if any, and the state after. The first cell with the fewest
/// candidates is branched on, its digits in shuffled order.
pub open spec fn fill(cand: Seq<u16>, marks: Set<int>, x: u64) -> (Option<Seq<u8>>, u64)
    decreases total16(cand), 11nat,
{
    if all_single(cand) {
        (Some(spelled(cand)), x)
    } else {
        let c = choose|c: int| first_fewest(cand, c);
        let list = digits_below(cand[c], 9);
        let n = list.len() as int;
        fill_from(
            cand,
            marks,
            c,
            shuffled(padded(list), n - 1, x),
            n,
            0,
            drawn(x, (n - 1) as nat),
        )
    }
}

/// The digits of `order` from place `k` on are tried in cell `c`: the first
/// that leads to a grid stands.
pub open spec fn fill_from(
    cand: Seq<u16>,
    marks: Set<int>,
    c: int,
    order: Seq<u8>,
    n: int,
    k: nat,
    x: u64,
) -> (Option<Seq<u8>>, u64)
    decreases total16(cand), (10 - k) as nat,
{
    if k >= n || k >= 9 {
        (None, x)
    } else {
        let start = cand.update(c, 1u16 << (order[k as int] as u16));
        match settled(start, marks.union(crossed(cand, start))) {
            None => fill_from(cand, marks, c, order, n, k + 1, x),
            Some(left) => if total16(left.0) < total16(cand) {
                let found = fill(left.0, left.1, x);
                if found.0 is Some {
                    found
                } else {
                    fill_from(cand, marks, c, order, n, k + 1, found.1)
                }
            } else {
                (None, x)
            },
        }
    }
}

/// What a fill returns, as a value of the model.
spec fn grid_view(out: Option<[u8; 81]>) -> Option<Seq<u8>> {
    match out {
        Some(g) => Some(g@),
        None => None,
    }
}

/// The digits of a set in increasing order, and how many there are.
fn digits_of(mask: u16) -> (r: ([u8; 9], usize))
    requires
        mask != 0,
        mask <= 0x1FF,
    ensures
        1 <= r.1 <= 9,
        digits_in(mask, r.0@, r.1 as int),
        mask == ALL ==> r.1 == 9,
        r.1 == digits_below(mask, 9).len(),
        r.0@ == padded(digits_below(mask, 9)),
{
    let mut digits: [u8; 9] = [0;9];
    let mut n: usize = 0;
    let mut d: usize = 0;
    proof {
        lemma_low_masks16();
    }
    while d < 9
        invariant
            d <= 9,
            n <= d,
            forall|e: int| #[trigger] bit16(ALL, e) <==> 0 <= e < 9,
            forall|k: int| 0 <= k < n ==> #[trigger] digits[k] < d,
            ascending(digits@, n as int),
            forall|e: int|
                0 <= e < d ==> (#[trigger] bit16(mask, e) <==> listed(digits@, 0, n as int, e)),
            mask == ALL ==> n == d,
            n == digits_below(mask, d as nat).len(),
            digits@ == padded(digits_below(mask, d as nat)),
        decreases 9 - d,
    {
        let ghost (digits0, n0) = (digits@, n as int);
        proof {
            assert(bit16(mask, d as int) <==> (mask >> (d as u16)) & 1 == 1) by {
                reveal(bit16);
            }
        }
        if (mask >> (d as u16)) & 1 == 1 {
            digits[n] = d as u8;
            n = n + 1;
        }
        proof {
            assert forall|e: int| 0 <= e < d + 1 implies (#[trigger] bit16(mask, e) <==> listed(
                digits@,
                0,
                n as int,
                e,
            )) by {
                if listed(digits@, 0, n as int, e) {
                    let k = choose|k: int| 0 <= k < n && #[trigger] digits@[k] == e;
                    if k < n0 {
                        assert(digits0[k] == e);
                        assert(listed(digits0, 0, n0, e));
                    }
                }
                if e < d && bit16(mask, e) {
                    assert(listed(digits0, 0, n0, e));
                    let k = choose|k: int| 0 <= k < n0 && #[trigger] digits0[k] == e;
                    assert(digits@[k] == e);
                }
                if e == d && bit16(mask, e) {
                    assert(digits@[n0] == e);
                }
                if e == d && listed(digits0, 0, n0, e) {
                    let k = choose|k: int| 0 <= k < n0 && #[trigger] digits0[k] == e;
                    assert(digits0[k] < d);
                }
            }
        }
        proof {
            assert(digits@ =~= padded(digits_below(mask, (d + 1) as nat)));
        }
        d = d + 1;
    }
    proof {
        assert forall|e: int| #[trigger] bit16(mask, e) <==> listed(digits@, 0, n as int, e) by {
            if bit16(mask, e) {
                lemma_small9(mask, e);
            }
            if listed(digits@, 0, n as int, e) {
                let k = choose|k: int| 0 <= k < n && #[trigger] digits@[k] == e;
                assert(digits[k] < 9);
            }
        }
        let e = lemma_nonzero16(mask);
        assert(listed(digits@, 0, n as int, e));
    }
    (digits, n)
}

/// Searches like the baseline engine, but tries the candidates of a cell in
/// random order; finds a grid exactly if the state admits one.
fn fill_search(st: &State, q: &mut Queue, t: &Tables, rng: &mut Rng) -> (out: Option<[u8; 81]>)
    requires
        t.ok(),
        st.ok(),
        st.singles_done(),
        old(q).len == 0,
    ensures
        final(q).len == 0,
        out is Some <==> cell_solutions(st.cand@).len() > 0,
        (grid_view(out), final(rng).0) == fill(st.cand@, marks(*st), old(rng).0),
        out matches Some(g) ==> cell_solutions(st.cand@).contains(g@),
        out matches Some(g) ==> exists|depth: nat| #[trigger]
            filled(st.cand@, old(rng).0, g@, final(rng).0, depth),
        draws(old(rng).0, final(rng).0, 0),
        st.n_unsolved > 0 && (forall|c: int| #[trigger] st.open(c) ==> st.cand[c] == ALL) ==> draws(
            old(rng).0,
            final(rng).0,
            8,
        ),
    decreases st.n_unsolved,
{
    let ghost x0 = rng.0;
    proof {
        assert(drawn(x0, 0) == x0);
    }
    if st.n_unsolved == 0 {
        let ghost g0 = st.lemma_leaf();
        let mut g: [u8; 81] = [0;81];
        st.write_grid(&mut g);
        proof {
            assert(is_grid(g0));
            assert(g@ == g0);
            assert(filled(st.cand@, x0, g@, x0, 0));
            lemma_grid_facts(g0);
            lemma_spelled(st.cand@, g@);
        }
        return Some(g);
    }
    let c = st.best_cell();
    let ghost cc = c as int;
    let ghost s = cell_solutions(st.cand@);
    let mask = st.cand[c];
    proof {
        assert(st.cand@[cc] != 0 && st.cand@[cc] <= 0x1FF);
        assert(s.subset_of(grids()));
        lemma_first_fewest(*st, cc);
        lemma_fewest(st.cand@, cc);
        lemma_all_single(*st);
    }
    let (list, n) = digits_of(mask);
    let mut digits: [u8; 9] = list;
    shuffle(&mut digits, n, rng);
    let ghost x1 = rng.0;
    proof {
        lemma_shuffled(list@, n - 1, x0, n as int);
        assert(drawn(x0, (n - 1) as nat) == x1);
        assert(drawn(x1, 0) == x1);
        assert forall|k: int| 0 <= k < n implies bit16(mask, #[trigger] digits@[k] as int)
            && digits@[k] < 9 by {
            let d = digits@[k] as int;
            assert(listed(digits@, 0, n as int, d));
            assert(listed(list@, 0, n as int, d));
            assert(bit16(mask, d));
            lemma_small9(mask, d);
        }
    }
    let mut j: usize = 0;
    while j < n
        invariant
            fill(st.cand@, marks(*st), x0) == fill_from(
                st.cand@,
                marks(*st),
                cc,
                digits@,
                n as int,
                j as nat,
                rng.0,
            ),
            t.ok(),
            st.ok(),
            st.singles_done(),
            q.len == 0,
            c < 81,
            cc == c,
            j <= n <= 9,
            st.open(cc),
            mask == st.cand[cc],
            s == cell_solutions(st.cand@),
            s.subset_of(grids()),
            forall|k: int|
                0 <= k < n ==> bit16(mask, #[trigger] digits@[k] as int) && digits@[k] < 9,
            draws(x1, rng.0, 0),
            j == 0 ==> rng.0 == x1,
            x0 == old(rng).0,
            x1 == drawn(x0, (n - 1) as nat),
            mask == ALL ==> n == 9,
            first_fewest(st.cand@, cc),
            digits_in(mask, list@, n as int),
            digits@ == shuffled(list@, n - 1, x0),
            forall|k: int|
                0 <= k < j ==> with_digits(s, cc, 1u16 << (#[trigger] digits@[k] as u16)).len()
                    == 0 && cell_solutions(
                    st.cand@.update(cc, 1u16 << (digits@[k] as u16)),
                ).len() == 0,
        decreases n - j,
    {
        let d = digits[j] as usize;
        let ghost x2 = rng.0;
        proof {
            assert(bit16(mask, digits@[j as int] as int));
        }
        let ghost part = with_digits(s, cc, 1u16 << (d as u16));
        let mut s2 = st.guess(c, d, q, t);
        let ghost s2_0 = s2;
        proof {
            lemma_multi_narrower(s2.cand@, s2.cand@);
            lemma_marks_grown(*st, s2);
        }
        if s2.propagate_all(q, t) {
            proof {
                lemma_same_cells(s2_0.cand@, s2.cand@);
                lemma_guess_less(st.cand@, cc, d as int, s2.cand@);
                assert(cell_solutions(s2.cand@) == part);
            }
            let out = fill_search(&s2, q, t, rng);
            proof {
                lemma_draws_trans(x1, x2, rng.0, 0, 0);
            }
            if out.is_some() {
                proof {
                    let g = out->0;
                    assert(part.contains(g@));
                    assert(s.contains(g@));
                    lemma_some(s, g@);
                    lemma_total_draws(x0, x1, rng.0, (n - 1) as nat);
                    let depth = choose|depth: nat| #[trigger]
                        filled(s2.cand@, x2, g@, rng.0, depth);
                    assert(guessed(
                        st.cand@,
                        x0,
                        cc,
                        list@,
                        n as int,
                        j as int,
                        s2.cand@,
                        x2,
                    ));
                    assert(filled(st.cand@, x0, g@, rng.0, depth + 1));
                }
                return out;
            }
        } else {
            proof {
                lemma_dead_cells(s2_0.cand@);
            }
        }
        j = j + 1;
    }
    proof {
        if s.len() > 0 {
            lemma_grids_finite(s);
            let g = s.choose();
            assert(s.contains(g));
            lemma_grid_facts(g);
            reveal(admits);
            let d = g[cc] - 1;
            assert(bit16(st.cand@[cc], d));
            assert(listed(list@, 0, n as int, d));
            assert(listed(digits@, 0, n as int, d));
            let k = choose|k: int| 0 <= k < n && #[trigger] digits@[k] == d;
            let part = with_digits(s, cc, 1u16 << (digits@[k] as u16));
            assert(part.contains(g)) by {
                assert(bit16(1u16 << (digits@[k] as u16), d));
            }
            lemma_some(part, g);
        }
        lemma_total_draws(x0, x1, rng.0, (n - 1) as nat);
    }
    None
}

/// Draws before and after a point.
proof fn lemma_total_draws(x0: u64, x1: u64, x: u64, n: nat)
    requires
        x1 == drawn(x0, n),
        draws(x1, x, 0),
    ensures
        draws(x0, x, n),
        draws(x0, x, 0),
{
    assert(draws(x0, x1, n)) by {
        assert(drawn(x0, n) == x1);
    }
    lemma_draws_trans(x0, x1, x, n, 0);
    let k = choose|k: nat| k >= n && #[trigger] drawn(x0, k) == x;
    assert(drawn(x0, k) == x);
}

/// The digit that the canonical grid has at cell `c`, counted from 0.
pub open spec fn canonical_digit(c: int) -> int {
    (3 * ((c / 9) % 3) + c / 27 + c % 9) % 9
}

/// A complete grid: each row is the row above shifted by three, each band the
/// band above shifted by one.
pub open spec fn canonical_grid() -> Seq<u8> {
    Seq::new(81, |c: int| (canonical_digit(c) + 1) as u8)
}

/// There is a complete grid.
pub proof fn lemma_canonical_grid()
    ensures
        is_grid(canonical_grid()),
{
    reveal(is_grid);
    let g = canonical_grid();
    assert forall|a: int, b: int| 0 <= a < 81 && 0 <= b < 81 && peers(a, b) implies #[trigger] g[a]
        != #[trigger] g[b] by {
        lemma_canonical_peers(a, b);
    }
}

/// Numbers less than nine apart have different remainders.
pub proof fn lemma_rem9(p: int, q: int)
    requires
        0 <= p < 18,
        0 <= q < 18,
        p != q,
        -9 < p - q < 9,
    ensures
        p % 9 != q % 9,
{
}

/// Peers have different digits in the canonical grid.
pub proof fn lemma_canonical_peers(a: int, b: int)
    requires
        0 <= a < 81,
        0 <= b < 81,
        peers(a, b),
    ensures
        canonical_digit(a) != canonical_digit(b),
{
    let (ra, ca, rb, cb) = (a / 9, a % 9, b / 9, b % 9);
    let (ia, ja, ib, jb) = (ra % 3, ra / 3, rb % 3, rb / 3);
    assert(a / 27 == ja && b / 27 == jb);
    assert(a == 9 * ra + ca && b == 9 * rb + cb);
    assert(ra == 3 * ja + ia && rb == 3 * jb + ib);
    let ka = 3 * ia + ja;
    let kb = 3 * ib + jb;
    assert(0 <= ia < 3 && 0 <= ib < 3 && 0 <= ja < 3 && 0 <= jb < 3);
    assert(canonical_digit(a) == (ka + ca) % 9 && canonical_digit(b) == (kb + cb) % 9);
    if ra == rb {
        lemma_rem9(ka + ca, kb + cb);
    } else if ca == cb {
        assert(ka != kb);
        lemma_rem9(ka + ca, kb + cb);
    } else {
        assert(box_of(a) == box_of(b));
        assert(box_of(a) == 3 * ja + ca / 3 && box_of(b) == 3 * jb + cb / 3);
        assert(ja == jb && ca / 3 == cb / 3);
        assert(ia != ib);
        assert(-2 <= ca - cb <= 2);
        lemma_rem9(ka + ca, kb + cb);
    }
}

/// In a fresh state there is nothing to deduce.
proof fn lemma_fresh(st: State)
    requires
        st.ok(),
        forall|c: int| 0 <= c < 81 ==> #[trigger] st.cand[c] == ALL,
        forall|c: int| #[trigger] st.open(c) <==> 0 <= c < 81,
    ensures
        st.singles_done(),
        cell_solutions(st.cand@) =~= grids(),
{
    lemma_low_masks16();
    assert forall|c: int| #[trigger] st.open(c) implies !single(st.cand[c]) by {
        if single(st.cand[c]) {
            let d = choose|d: int| #[trigger] only(st.cand[c], d);
            assert(st.cand[c] == ALL);
            assert(bit16(ALL, 0) && bit16(ALL, 1));
        }
    }
    assert forall|u: int| 0 <= u < 27 implies #[trigger] unit_clean(st, u) by {
        assert forall|d: int| 0 <= d < 9 implies #[trigger] placed_or_open(st, u, d) by {
            crate::grid::lemma_unit_cells(u, 0, 1);
            assert(bit16(st.cand[unit_cell(u, 0)], d) && bit16(st.cand[unit_cell(u, 1)], d));
        }
    }
    assert forall|g: Seq<u8>| is_grid(g) implies #[trigger] admits(st.cand@, g) by {
        reveal(admits);
        lemma_grid_facts(g);
        assert forall|c: int| 0 <= c < 81 implies bit16(st.cand@[c], #[trigger] g[c] - 1) by {
            assert(st.cand[c] == ALL);
        }
    }
}

/// Produces a random complete grid: from no clues, a search that tries the
/// candidates of a cell in random order. The state of the generator decides
/// which.
pub fn random_solved_grid(rng: &mut Rng) -> (g: [u8; 81])
    ensures
        is_grid(g@),
        fill(all_open(), every_mark(), old(rng).0) == (Some(g@), final(rng).0),
        exists|depth: nat| #[trigger] filled(all_open(), old(rng).0, g@, final(rng).0, depth),
        draws(old(rng).0, final(rng).0, 8),
{
    let st = State::new();
    let mut q = Queue::new();
    let t = Tables::new();
    proof {
        assert(st.cand@ =~= all_open());
        assert(marks(st) =~= every_mark());
        lemma_fresh(st);
        lemma_canonical_grid();
        assert(cell_solutions(st.cand@).contains(canonical_grid()));
        lemma_some(cell_solutions(st.cand@), canonical_grid());
    }
    // The search is complete and a grid exists, so it finds one.
    match fill_search(&st, &mut q, &t, rng) {
        Some(g) => g,
        None => [0;81],
    }
}

// ---------------------------------------------------------------------------
// Minimal puzzles
// ---------------------------------------------------------------------------

/// `a` has every clue of `b`.
pub open spec fn has_clues_of(a: Seq<u8>, b: Seq<u8>) -> bool {
    forall|c: int| 0 <= c < 81 && #[trigger] b[c] != 0 ==> a[c] == b[c]
}

/// Every clue is needed: without it the puzzle has two solutions or more.
pub open spec fn minimal(clues: Seq<u8>) -> bool {
    forall|c: int|
        0 <= c < 81 && #[trigger] clues[c] != 0 ==> solution_count(clues.update(c, 0)) >= 2
}

/// The cells 0..81 in order.
pub open spec fn all_cells() -> Seq<u8> {
    Seq::new(81, |i: int| i as u8)
}

/// `clues` after the first `k` cells of `order` were visited: each visited
/// clue is blanked if that leaves exactly one solution.
pub open spec fn stripped(clues: Seq<u8>, order: Seq<u8>, k: int) -> Seq<u8>
    decreases k,
{
    if k <= 0 {
        clues
    } else {
        let t = stripped(clues, order, k - 1);
        let u = t.update(order[k - 1] as int, 0);
        if solution_count(u) == 1 {
            u
        } else {
            t
        }
    }
}

/// `puzzle` comes of the complete grid `sol` and generator state `x`: the
/// cells are shuffled from `x` and the grid is stripped in that order.
pub open spec fn comes_of(puzzle: Seq<u8>, sol: Seq<u8>, x: u64) -> bool {
    is_grid(sol) && puzzle == stripped(sol, shuffled(all_cells(), 80, x), 81)
}

/// Fewer clues, more solutions.
pub proof fn lemma_fewer_clues(a: Seq<u8>, b: Seq<u8>)
    requires
        has_clues_of(a, b),
    ensures
        solutions(a).subset_of(solutions(b)),
        solution_count(a) <= solution_count(b),
{
    assert forall|g: Seq<u8>| solutions(a).contains(g) implies solutions(b).contains(g) by {
        assert forall|c: int| 0 <= c < 81 && #[trigger] b[c] != 0 implies g[c] == b[c] by {
            assert(a[c] == b[c]);
            assert(a[c] != 0);
        }
    }
    lemma_grids_finite(solutions(b));
    vstd::set_lib::lemma_len_subset(solutions(a), solutions(b));
}

/// A complete grid is its own only solution.
pub proof fn lemma_grid_alone(g: Seq<u8>)
    requires
        is_grid(g),
    ensures
        clues_ok(g),
        solution_count(g) == 1,
{
    lemma_grid_facts(g);
    assert(solutions(g).contains(g));
    assert forall|h: Seq<u8>| #[trigger] solutions(g).contains(h) implies h == g by {
        lemma_grid_facts(h);
        assert forall|c: int| 0 <= c < 81 implies h[c] == g[c] by {
            assert(g[c] != 0);
        }
        assert(h =~= g);
    }
    lemma_only(solutions(g), g);
}

/// Cell `c` is blank or its clue is needed.
spec fn settled_cell(clues: Seq<u8>, c: int) -> bool {
    clues[c] == 0 || solution_count(clues.update(c, 0)) >= 2
}

/// Blanking another cell leaves a settled cell settled.
proof fn lemma_still_settled(clues: Seq<u8>, x: int, c: int)
    requires
        clues.len() == 81,
        0 <= x < 81,
        0 <= c < 81,
        settled_cell(clues, c),
    ensures
        settled_cell(clues.update(x, 0), c),
{
    let n = clues.update(x, 0);
    if n[c] != 0 {
        lemma_fewer_clues(clues.update(c, 0), n.update(c, 0));
    }
}

/// Generates a random minimal puzzle with a unique solution: a random complete
/// grid, stripped of clues in random order as long as the solution stays
/// unique.
pub fn generate_puzzle(rng: &mut Rng) -> (clues: [u8; 81])
    ensures
        clues_ok(clues@),
        solution_count(clues@) == 1,
        minimal(clues@),
        ({
            let (sol, x) = fill(all_open(), every_mark(), old(rng).0);
            sol is Some && comes_of(clues@, sol->0, x) && final(rng).0 == drawn(x, 80)
        }),
        ({
            let (sol, x) = fill(all_open(), every_mark(), old(rng).0);
            let order = visits(x);
            forall|k: int|
                0 <= k < 81 ==> {
                    let c = #[trigger] order[k] as int;
                    let n = solution_count(halfway(sol->0, clues@, order, k).update(c, 0));
                    &&& n == 1 ==> clues[c] == 0
                    &&& n != 1 ==> clues[c] == sol->0[c] && clues[c] != 0
                    &&& k == 0 ==> clues[c] == 0
                }
        }),
        exists|sol: Seq<u8>, x: u64, depth: nat|
            #![trigger comes_of(clues@, sol, x), filled(all_open(), old(rng).0, sol, x, depth)]
            filled(all_open(), old(rng).0, sol, x, depth) && draws(old(rng).0, x, 8) && final(rng).0
                == drawn(x, 80) && comes_of(clues@, sol, x),
{
    let sol = random_solved_grid(rng);
    let ghost x = rng.0;
    let ghost depth = choose|depth: nat| #[trigger]
        filled(all_open(), old(rng).0, sol@, x, depth);
    let mut clues: [u8; 81] = sol;
    let mut order: [u8; 81] = [0;81];
    let mut i: usize = 0;
    while i < 81
        invariant
            i <= 81,
            forall|k: int| 0 <= k < i ==> #[trigger] order[k] == k,
        decreases 81 - i,
    {
        order[i] = i as u8;
        i = i + 1;
    }
    proof {
        assert(order@ =~= all_cells());
    }
    shuffle(&mut order, 81, rng);
    let ghost ord = order@;
    proof {
        lemma_shuffled(all_cells(), 80, x, 81);
        lemma_grid_alone(sol@);
        assert forall|k: int| 0 <= k < 81 implies #[trigger] ord[k] < 81 by {
            assert(listed(ord, 0, 81, ord[k] as int));
            assert(listed(all_cells(), 0, 81, ord[k] as int));
        }
    }
    let mut k: usize = 0;
    while k < 81
        invariant
            k <= 81,
            order@ == ord,
            forall|j: int| 0 <= j < 81 ==> #[trigger] ord[j] < 81,
            clues_ok(clues@),
            solution_count(clues@) == 1,
            clues@ == stripped(sol@, ord, k as int),
            forall|j: int| 0 <= j < k ==> settled_cell(clues@, #[trigger] ord[j] as int),
        decreases 81 - k,
    {
        let c = order[k] as usize;
        let d = clues[c];
        let ghost before = clues@;
        let ghost cc = c as int;
        proof {
            assert(ord[k as int] < 81);
        }
        clues[c] = 0;
        let ghost bare = before.update(cc, 0);
        proof {
            assert(clues@ =~= bare);
            lemma_fewer_clues(before, bare);
        }
        if crate::triad::count_solutions(&clues, 2) != 1 {
            clues[c] = d;
            proof {
                assert(clues@ =~= before);
                assert(solution_count(bare) >= 2);
            }
        } else {
            proof {
                assert(solution_count(bare) == 1);
                assert forall|j: int| 0 <= j < k implies settled_cell(
                    clues@,
                    #[trigger] ord[j] as int,
                ) by {
                    lemma_still_settled(before, cc, ord[j] as int);
                }
            }
        }
        k = k + 1;
    }
    proof {
        assert forall|c: int| 0 <= c < 81 && #[trigger] clues@[c] != 0 implies solution_count(
            clues@.update(c, 0),
        ) >= 2 by {
            assert(all_cells()[c] == c);
            assert(listed(all_cells(), 0, 81, c));
            assert(listed(ord, 0, 81, c));
            let j = choose|j: int| 0 <= j < 81 && #[trigger] ord[j] == c;
            assert(settled_cell(clues@, ord[j] as int));
        }
        assert(comes_of(clues@, sol@, x));
        let visited = visits(x);
        assert forall|k: int| 0 <= k < 81 implies {
            let c = #[trigger] visited[k] as int;
            let n = solution_count(halfway(sol@, clues@, visited, k).update(c, 0));
            &&& n == 1 ==> clues[c] == 0
            &&& n != 1 ==> clues[c] == sol@[c] && clues[c] != 0
            &&& k == 0 ==> clues[c] == 0
        } by {
            law_thinning(clues@, sol@, x, k);
        }
    }
    clues
}

} // verus!
