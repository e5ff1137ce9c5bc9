//! Reasoning across digits: each minirow of a band holds exactly three
//! digits.

use vstd::prelude::*;
use crate::band::tables::Tables;
use crate::bits::{
    bit16, count, group_bits16, lemma_count_mono, lemma_count_witness, lemma_ext16,
    lemma_low_masks16, lemma_nonzero16, lemma_small9, lemma_subset16, lowest16, without_lowest16,
};
use crate::layout::{
    fits_all, having, is_layout, lemma_exactly_three, lemma_fits_closed, lemma_fits_part,
    lemma_forced_used, lemma_full, lemma_no_linked, lemma_too_few, linked,
};
use crate::minirow::{closes, fits, forced_at, has_perm, in_perm, lemma_closed_sub};

verus! {

broadcast use group_bits16;

/// Every layout that fits `a` fits `b`.
pub open spec fn keeps_layouts(a: Seq<u16>, b: Seq<u16>) -> bool {
    forall|k: spec_fn(int) -> int| is_layout(k) && #[trigger] fits_all(a, k) ==> fits_all(b, k)
}

/// No layout fits.
pub open spec fn no_layout(a: Seq<u16>) -> bool {
    forall|k: spec_fn(int) -> int| is_layout(k) ==> !#[trigger] fits_all(a, k)
}

/// Word `a` has no bit that `b` lacks.
pub open spec fn sub16(a: u16, b: u16) -> bool {
    forall|i: int| #[trigger] bit16(a, i) ==> bit16(b, i)
}

/// Nine patterns, each with a permutation.
pub open spec fn patterns_ok(occ: Seq<u16>) -> bool {
    occ.len() == 9 && forall|d: int| 0 <= d < 9 ==> #[trigger] occ[d] <= 0x1FF && has_perm(occ[d])
}

/// `a` has, digit by digit, no minirow that `b` lacks.
pub open spec fn patterns_in(a: Seq<u16>, b: Seq<u16>) -> bool {
    forall|d: int| 0 <= d < 9 ==> sub16(#[trigger] a[d], b[d])
}

/// A digit that has minirow `t` has no minirow linked to it.
pub open spec fn pinned_digit(m: u16, t: int) -> bool {
    bit16(m, t) ==> forall|i: int| 0 <= i < 9 && #[trigger] linked(t, i) ==> !bit16(m, i)
}

/// Every digit that has minirow `t` has no minirow linked to it.
pub open spec fn pinned(occ: Seq<u16>, t: int) -> bool {
    forall|d: int| 0 <= d < 9 ==> pinned_digit(#[trigger] occ[d], t)
}

/// How many digits are forced into minirow `t`.
pub open spec fn forcing(occ: Seq<u16>, t: int) -> nat {
    count(|d: int| forced_at(occ[d], t), 9)
}

/// Every digit that has minirow `t` is forced into it.
pub open spec fn all_forced(occ: Seq<u16>, t: int) -> bool {
    forall|d: int| 0 <= d < 9 && bit16(#[trigger] occ[d], t) ==> forced_at(occ[d], t)
}

/// The cardinality rules took `a` to `b`: every minirow has three digits or
/// more, the digits of one with exactly three are pinned to it, and one into
/// which three are forced is left by the others. No layout is lost.
pub open spec fn ruled(a: Seq<u16>, b: Seq<u16>) -> bool {
    &&& patterns_ok(b)
    &&& patterns_in(b, a)
    &&& keeps_layouts(a, b)
    &&& forall|t: int| 0 <= t < 9 ==> #[trigger] having(a, t, 9) >= 3
    &&& forall|t: int| 0 <= t < 9 && having(a, t, 9) == 3 ==> #[trigger] pinned(b, t)
    &&& forall|t: int| 0 <= t < 9 && forcing(a, t) >= 3 ==> #[trigger] all_forced(b, t)
}

/// Digits pinned to a minirow stay so as patterns shrink.
proof fn lemma_pinned_in(a: Seq<u16>, b: Seq<u16>, t: int)
    requires
        pinned(a, t),
        patterns_in(b, a),
    ensures
        pinned(b, t),
{
    assert forall|d: int| 0 <= d < 9 implies pinned_digit(#[trigger] b[d], t) by {
        assert(sub16(b[d], a[d]));
        assert(pinned_digit(a[d], t));
    }
}

/// What a digit is forced into stays forced as its pattern shrinks.
proof fn lemma_forced_in(a: u16, b: u16, t: int)
    requires
        forced_at(a, t),
        sub16(b, a),
        has_perm(b),
    ensures
        forced_at(b, t),
{
    assert forall|k: int| #[trigger] fits(b, k) implies in_perm(k, t) by {
        assert(fits(a, k));
    }
}

/// The minirows that at least one, two, three and four patterns have.
pub fn tally_minirows(occ: &[u16; 9]) -> (r: (u16, u16, u16, u16))
    ensures
        forall|t: int| #[trigger] bit16(r.0, t) <==> having(occ@, t, 9) >= 1,
        forall|t: int| #[trigger] bit16(r.1, t) <==> having(occ@, t, 9) >= 2,
        forall|t: int| #[trigger] bit16(r.2, t) <==> having(occ@, t, 9) >= 3,
        forall|t: int| #[trigger] bit16(r.3, t) <==> having(occ@, t, 9) >= 4,
{
    let mut one: u16 = 0;
    let mut two: u16 = 0;
    let mut three: u16 = 0;
    let mut four: u16 = 0;
    let mut d: usize = 0;
    while d < 9
        invariant
            d <= 9,
            forall|t: int| #[trigger] bit16(one, t) <==> having(occ@, t, d as nat) >= 1,
            forall|t: int| #[trigger] bit16(two, t) <==> having(occ@, t, d as nat) >= 2,
            forall|t: int| #[trigger] bit16(three, t) <==> having(occ@, t, d as nat) >= 3,
            forall|t: int| #[trigger] bit16(four, t) <==> having(occ@, t, d as nat) >= 4,
        decreases 9 - d,
    {
        let s = occ[d];
        proof {
            assert forall|t: int| #[trigger] having(occ@, t, (d + 1) as nat) == having(
                occ@,
                t,
                d as nat,
            ) + if bit16(s, t) {
                1nat
            } else {
                0nat
            } by {}
        }
        four = four | (three & s);
        three = three | (two & s);
        two = two | (one & s);
        one = one | s;
        d = d + 1;
    }
    (one, two, three, four)
}

/// The closure of a pattern with a permutation has it too.
pub proof fn lemma_closure_perm(n: u16, s: u16)
    requires
        closes(n, s),
        has_perm(s),
    ensures
        has_perm(n),
        sub16(n, s),
{
    let k = choose|k: int| #[trigger] fits(s, k);
    lemma_fits_closed(s, n, k);
    assert(fits(n, k));
    assert forall|i: int| #[trigger] bit16(n, i) implies bit16(s, i) by {
        reveal(closes);
        lemma_closed_sub(s, i);
    }
}

/// A pattern cut down to what every layout uses.
proof fn lemma_narrowed(occ0: Seq<u16>, occ: Seq<u16>, d: int, part: u16, n: u16)
    requires
        occ0.len() == 9,
        patterns_ok(occ),
        patterns_in(occ, occ0),
        keeps_layouts(occ0, occ),
        0 <= d < 9,
        sub16(part, occ[d]),
        closes(n, part),
        n <= 0x1FF,
        n == 0 <==> !has_perm(part),
        forall|k: spec_fn(int) -> int|
            is_layout(k) && #[trigger] fits_all(occ0, k) ==> fits(part, k(d)),
    ensures
        n == 0 ==> no_layout(occ0),
        n != 0 ==> {
            &&& patterns_ok(occ.update(d, n))
            &&& patterns_in(occ.update(d, n), occ0)
            &&& keeps_layouts(occ0, occ.update(d, n))
        },
{
    if n == 0 {
        assert forall|k: spec_fn(int) -> int| is_layout(k) implies !#[trigger] fits_all(occ0, k) by {
            if fits_all(occ0, k) {
                assert(fits(part, k(d)));
            }
        }
    } else {
        lemma_closure_perm(n, part);
        let b = occ.update(d, n);
        assert forall|e: int| 0 <= e < 9 implies sub16(#[trigger] b[e], occ0[e]) by {
            assert(sub16(occ[e], occ0[e]));
        }
        assert forall|k: spec_fn(int) -> int| is_layout(k) && #[trigger] fits_all(
            occ0,
            k,
        ) implies fits_all(b, k) by {
            assert(fits_all(occ, k));
            assert(fits(part, k(d)));
            lemma_fits_closed(part, n, k(d));
            assert forall|e: int| 0 <= e < 9 implies fits(b[e], #[trigger] k(e)) by {
                assert(fits(occ[e], k(e)));
            }
        }
    }
}

/// The digits of minirow `tt`, if there are only three, use no minirow linked
/// to it. False if that leaves a digit without a permutation.
fn pin_minirow(occ: &mut [u16; 9], Ghost(occ0): Ghost<Seq<u16>>, tt: usize, t: &Tables) -> (r: bool)
    requires
        t.ok(),
        tt < 9,
        occ0.len() == 9,
        having(occ0, tt as int, 9) == 3,
        patterns_ok(old(occ)@),
        patterns_in(old(occ)@, occ0),
        keeps_layouts(occ0, old(occ)@),
    ensures
        !r ==> no_layout(occ0),
        r ==> patterns_ok(final(occ)@),
        r ==> patterns_in(final(occ)@, old(occ)@),
        r ==> patterns_in(final(occ)@, occ0),
        r ==> keeps_layouts(occ0, final(occ)@),
        r ==> pinned(final(occ)@, tt as int),
{
    let tb = 1u16 << (tt as u16);
    let around = t.minirow_row[tt] | t.minirow_box[tt];
    let keep = !around | tb;
    proof {
        assert forall|i: int| 0 <= i < 9 implies (#[trigger] bit16(keep, i) <==> !linked(
            tt as int,
            i,
        )) by {
            reveal(Tables::ok);
            assert(i == 3 * (i / 3) + i % 3 && tt as int == 3 * (tt as int / 3) + tt as int % 3);
        }
    }
    let ghost occ1 = occ@;
    let mut d: usize = 0;
    while d < 9
        invariant
            d <= 9,
            t.ok(),
            tt < 9,
            occ1 == old(occ)@,
            patterns_in(occ@, occ1),
            forall|e: int| 0 <= e < d ==> pinned_digit(#[trigger] occ@[e], tt as int),
            forall|e: int| d <= e < 9 ==> #[trigger] occ@[e] == occ1[e],
            tb == 1u16 << (tt as u16),
            occ0.len() == 9,
            having(occ0, tt as int, 9) == 3,
            patterns_ok(occ@),
            patterns_in(occ@, occ0),
            keeps_layouts(occ0, occ@),
            forall|i: int|
                0 <= i < 9 ==> (#[trigger] bit16(keep, i) <==> !linked(tt as int, i)),
        decreases 9 - d,
    {
        let o = occ[d];
        proof {
            assert(patterns_ok(occ@));
            assert(o <= 0x1FF);
        }
        if o & tb != 0 && o & !keep != 0 {
            let part = o & keep;
            proof {
                lemma_subset16(part, o);
                let w = lemma_nonzero16(o & tb);
                assert(bit16(o, w) && bit16(tb, w));
                assert(bit16(o, tt as int));
                assert(sub16(occ@[d as int], occ0[d as int]));
                assert forall|k: spec_fn(int) -> int|
                    is_layout(k) && #[trigger] fits_all(occ0, k) implies fits(part, k(d as int)) by {
                    lemma_exactly_three(occ0, k, tt as int, d as int);
                    assert(fits_all(occ@, k));
                    assert(fits(o, k(d as int)));
                    assert forall|i: int|
                        0 <= i < 9 && #[trigger] bit16(o, i) && in_perm(
                            k(d as int),
                            i,
                        ) implies bit16(part, i) by {
                        lemma_no_linked(k(d as int), tt as int, i);
                        assert(bit16(keep, i));
                    }
                    lemma_fits_part(o, part, k(d as int));
                }
            }
            let no = t.closure(part);
            proof {
                lemma_narrowed(occ0, occ@, d as int, part, no);
            }
            if no == 0 {
                return false;
            }
            occ[d] = no;
            proof {
                lemma_closure_perm(no, part);
                assert(sub16(no, o));
                assert(sub16(o, occ1[d as int]));
            }
        } else {
            proof {
                if bit16(o, tt as int) {
                    assert(bit16(o & tb, tt as int));
                    assert(!bit16(0u16, tt as int));
                    assert forall|i: int| 0 <= i < 9 && #[trigger] linked(
                        tt as int,
                        i,
                    ) implies !bit16(o, i) by {
                        if bit16(o, i) {
                            assert(bit16(o & !keep, i));
                            assert(!bit16(0u16, i));
                        }
                    }
                }
            }
        }
        d = d + 1;
    }
    true
}

/// Digits that are not forced into a full minirow leave it. False if that
/// leaves a digit without a permutation.
fn clear_full(occ: &mut [u16; 9], t: &Tables) -> (r: bool)
    requires
        t.ok(),
        patterns_ok(old(occ)@),
    ensures
        !r ==> no_layout(old(occ)@),
        r ==> patterns_ok(final(occ)@),
        r ==> patterns_in(final(occ)@, old(occ)@),
        r ==> keeps_layouts(old(occ)@, final(occ)@),
        r ==> forall|i: int|
            0 <= i < 9 && forcing(old(occ)@, i) >= 3 ==> #[trigger] all_forced(final(occ)@, i),
{
    let ghost occ0 = occ@;
    let mut forced: [u16; 9] = [0;9];
    let mut d: usize = 0;
    while d < 9
        invariant
            d <= 9,
            t.ok(),
            occ@ == occ0,
            patterns_ok(occ0),
            forall|e: int, i: int|
                0 <= e < d ==> (#[trigger] bit16(forced[e], i) <==> forced_at(occ0[e], i)),
        decreases 9 - d,
    {
        proof {
            assert(occ0[d as int] <= 0x1FF);
        }
        forced[d] = t.forced_in(occ[d]);
        d = d + 1;
    }
    let (_, _, f3, _) = tally_minirows(&forced);
    let mut d: usize = 0;
    while d < 9
        invariant
            d <= 9,
            t.ok(),
            occ0 == old(occ)@,
            patterns_ok(occ0),
            patterns_ok(occ@),
            patterns_in(occ@, occ0),
            keeps_layouts(occ0, occ@),
            forall|e: int, i: int|
                0 <= e < 9 ==> (#[trigger] bit16(forced[e], i) <==> forced_at(occ0[e], i)),
            forall|i: int| #[trigger] bit16(f3, i) <==> having(forced@, i, 9) >= 3,
            forall|e: int, i: int|
                0 <= e < d && bit16(f3, i) && #[trigger] bit16(occ@[e], i) ==> forced_at(
                    occ0[e],
                    i,
                ),
            forall|e: int| d <= e < 9 ==> #[trigger] occ@[e] == occ0[e],
        decreases 9 - d,
    {
        let o = occ[d];
        proof {
            assert(patterns_ok(occ@));
            assert(o <= 0x1FF);
        }
        let drop = f3 & !forced[d] & o;
        if drop != 0 {
            let part = o & !drop;
            proof {
                lemma_subset16(part, o);
                assert forall|k: spec_fn(int) -> int|
                    is_layout(k) && #[trigger] fits_all(occ0, k) implies fits(part, k(d as int)) by {
                    assert(fits_all(occ@, k));
                    assert(fits(o, k(d as int)));
                    assert forall|i: int|
                        0 <= i < 9 && #[trigger] bit16(o, i) && in_perm(
                            k(d as int),
                            i,
                        ) implies bit16(part, i) by {
                        if bit16(drop, i) {
                            assert forall|e: int|
                                0 <= e < 9 && bit16(#[trigger] forced@[e], i) implies in_perm(
                                k(e),
                                i,
                            ) by {
                                assert(bit16(forced[e], i));
                                assert(fits(occ0[e], k(e)));
                                lemma_forced_used(occ0[e], k(e), i);
                            }
                            lemma_full(forced@, k, i, d as int);
                        }
                    }
                    lemma_fits_part(o, part, k(d as int));
                }
            }
            let no = t.closure(part);
            proof {
                lemma_narrowed(occ0, occ@, d as int, part, no);
            }
            if no == 0 {
                return false;
            }
            occ[d] = no;
            proof {
                lemma_closure_perm(no, part);
            }
        }
        proof {
            assert forall|i: int| bit16(f3, i) && #[trigger] bit16(
                occ@[d as int],
                i,
            ) implies forced_at(occ0[d as int], i) by {
                if !bit16(forced[d as int], i) {
                    assert(bit16(drop, i));
                    assert(!bit16(0u16, i));
                }
            }
        }
        d = d + 1;
    }
    proof {
        assert forall|i: int| 0 <= i < 9 && forcing(occ0, i) >= 3 implies #[trigger] all_forced(
            occ@,
            i,
        ) by {
            let f = |e: int| forced_at(occ0[e], i);
            let h = |e: int| bit16(forced@[e], i);
            assert forall|e: int| 0 <= e < 9 && f(e) implies #[trigger] h(e) by {
                assert(bit16(forced[e], i) <==> forced_at(occ0[e], i));
            }
            lemma_count_mono(f, h, 9);
            assert(bit16(f3, i));
            assert forall|e: int| 0 <= e < 9 && bit16(#[trigger] occ@[e], i) implies forced_at(
                occ@[e],
                i,
            ) by {
                assert(sub16(occ@[e], occ0[e]));
                lemma_forced_in(occ0[e], occ@[e], i);
            }
        }
    }
    true
}

/// The cardinality rules over the patterns of the nine digits: a minirow that
/// only three digits can use is theirs, and one that three digits must use is
/// full. False if no layout is left.
pub fn apply_cardinality(occ: &mut [u16; 9], t: &Tables) -> (r: bool)
    requires
        t.ok(),
        patterns_ok(old(occ)@),
    ensures
        !r ==> no_layout(old(occ)@),
        r ==> ruled(old(occ)@, final(occ)@),
{
    let ghost occ0 = occ@;
    let (_, _, three, four) = tally_minirows(occ);
    proof {
        lemma_low_masks16();
    }
    if three != 0x1FF {
        proof {
            let i = lemma_missing(occ0, three);
            assert forall|k: spec_fn(int) -> int| is_layout(k) implies !#[trigger] fits_all(
                occ0,
                k,
            ) by {
                lemma_too_few(occ0, k, i);
            }
        }
        return false;
    }
    let mut exact: u16 = three & !four;
    proof {
        assert forall|i: int| 0 <= i < 9 implies #[trigger] having(occ0, i, 9) >= 3 by {
            assert(bit16(0x1FFu16, i));
        }
    }
    while exact != 0
        invariant
            forall|i: int|
                0 <= i < 9 && having(occ0, i, 9) == 3 ==> bit16(exact, i) || #[trigger] pinned(
                    occ@,
                    i,
                ),
            t.ok(),
            occ0 == old(occ)@,
            patterns_ok(occ0),
            patterns_ok(occ@),
            patterns_in(occ@, occ0),
            keeps_layouts(occ0, occ@),
            forall|i: int| #[trigger]
                bit16(exact, i) ==> 0 <= i < 9 && having(occ0, i, 9) == 3,
        decreases exact,
    {
        let ghost e0 = exact;
        let ghost occ1 = occ@;
        let tt = lowest16(exact);
        exact = without_lowest16(exact);
        proof {
            let x = choose|x: int|
                #![trigger bit16(e0, x)]
                bit16(e0, x) && (forall|j: int| 0 <= j < x ==> !bit16(e0, j)) && (forall|i: int|
                    bit16(exact, i) <==> bit16(e0, i) && i != x);
            assert(x == tt) by {
                if x < tt {
                    assert(!bit16(e0, x));
                }
                if tt < x {
                    assert(!bit16(e0, tt as int));
                }
            }
        }
        if !pin_minirow(occ, Ghost(occ0), tt, t) {
            return false;
        }
        proof {
            assert forall|i: int| 0 <= i < 9 && having(occ0, i, 9) == 3 implies bit16(exact, i)
                || #[trigger] pinned(occ@, i) by {
                if i != tt && !bit16(exact, i) {
                    assert(!bit16(e0, i));
                    lemma_pinned_in(occ1, occ@, i);
                }
            }
        }
    }
    let ghost occ1 = occ@;
    if !clear_full(occ, t) {
        proof {
            assert forall|k: spec_fn(int) -> int| is_layout(k) implies !#[trigger] fits_all(
                occ0,
                k,
            ) by {
                if fits_all(occ0, k) {
                    assert(fits_all(occ1, k));
                }
            }
        }
        return false;
    }
    proof {
        assert forall|k: spec_fn(int) -> int| is_layout(k) && #[trigger] fits_all(
            occ0,
            k,
        ) implies fits_all(occ@, k) by {
            assert(fits_all(occ1, k));
        }
        assert forall|d: int| 0 <= d < 9 implies sub16(#[trigger] occ@[d], occ0[d]) by {
            assert(sub16(occ@[d], occ1[d]));
            assert(sub16(occ1[d], occ0[d]));
        }
        assert forall|i: int| 0 <= i < 9 && having(occ0, i, 9) == 3 implies #[trigger] pinned(
            occ@,
            i,
        ) by {
            assert(!bit16(0u16, i));
            assert(pinned(occ1, i));
            lemma_pinned_in(occ1, occ@, i);
        }
        assert forall|i: int| 0 <= i < 9 && forcing(occ0, i) >= 3 implies #[trigger] all_forced(
            occ@,
            i,
        ) by {
            let f = |e: int| forced_at(occ0[e], i);
            let h = |e: int| forced_at(occ1[e], i);
            assert forall|e: int| 0 <= e < 9 && f(e) implies #[trigger] h(e) by {
                assert(sub16(occ1[e], occ0[e]));
                lemma_forced_in(occ0[e], occ1[e], i);
            }
            lemma_count_mono(f, h, 9);
        }
    }
    true
}

/// A minirow that fewer than three patterns have.
proof fn lemma_missing(occ: Seq<u16>, three: u16) -> (i: int)
    requires
        patterns_ok(occ),
        forall|t: int| #[trigger] bit16(three, t) <==> having(occ, t, 9) >= 3,
        three != 0x1FF,
    ensures
        0 <= i < 9,
        having(occ, i, 9) < 3,
{
    lemma_low_masks16();
    let x = three ^ 0x1FF;
    if x == 0 {
        assert forall|j: int| 0 <= j < 16 implies bit16(three, j) == bit16(0x1FFu16, j) by {
            assert(!bit16(x, j));
        }
        lemma_ext16(three, 0x1FF);
    }
    let i = lemma_nonzero16(x);
    assert(bit16(x, i));
    if !(0 <= i < 9) {
        assert(bit16(three, i));
        let f = |d: int| bit16(occ[d], i);
        let d = lemma_count_witness(f, 9);
        assert(occ[d] <= 0x1FF);
        lemma_small9(occ[d], i);
    }
    i
}

} // verus!
