//! The closure of a minirow pattern by repeated elimination: a line confined
//! to one box takes the box from the other lines, a box confined to one line
//! takes the line from the other boxes. Run to the end this finds exactly the
//! union of the permutations, which is what the support table holds.

use vstd::prelude::*;
use crate::bits::{
    bit16, group_bits16, lemma_low_masks16, lemma_nonzero16, lemma_small9, lemma_subset16, lowest16,
    without_lowest16,
};
use crate::minirow::{closed_at, fits, has_perm, in_perm, lemma_closed_sub, perm_box};

verus! {

broadcast use group_bits16;

/// Line `r` of `s` has box `j`.
pub open spec fn has(s: u16, r: int, j: int) -> bool {
    bit16(s, 3 * r + j)
}

/// Line `r` of `s` is not empty, and if it has a single box, no other line
/// has that box.
pub open spec fn line_stable(s: u16, r: int) -> bool {
    &&& has(s, r, 0) || has(s, r, 1) || has(s, r, 2)
    &&& forall|q: int, j: int|
        0 <= q < 3 && 0 <= j < 3 && q != r && alone_in_line(s, r, j) ==> !#[trigger] has(s, q, j)
}

/// Line `r` of `s` has box `j` and no other.
pub open spec fn alone_in_line(s: u16, r: int, j: int) -> bool {
    has(s, r, j) && forall|x: int| 0 <= x < 3 && x != j ==> !#[trigger] has(s, r, x)
}

/// Box `j` of `s` is not empty, and if it has a single line, no other box has
/// that line.
pub open spec fn box_stable(s: u16, j: int) -> bool {
    &&& has(s, 0, j) || has(s, 1, j) || has(s, 2, j)
    &&& forall|r: int, x: int|
        0 <= r < 3 && 0 <= x < 3 && x != j && alone_in_box(s, j, r) ==> !#[trigger] has(s, r, x)
}

/// Box `j` of `s` has line `r` and no other.
pub open spec fn alone_in_box(s: u16, j: int, r: int) -> bool {
    has(s, r, j) && forall|q: int| 0 <= q < 3 && q != r ==> !#[trigger] has(s, q, j)
}

/// The same permutations fit both patterns.
spec fn same_perms(a: u16, b: u16) -> bool {
    forall|k: int| #[trigger] fits(a, k) <==> fits(b, k)
}

/// `a` is a part of `b`.
spec fn sub16(a: u16, b: u16) -> bool {
    forall|i: int| #[trigger] bit16(a, i) ==> bit16(b, i)
}

/// A permutation that fits runs through every line and every box.
proof fn lemma_perm_cells(s: u16, k: int)
    requires
        fits(s, k),
    ensures
        forall|r: int| 0 <= r < 3 ==> bit16(s, 3 * r + #[trigger] perm_box(k, r)),
        forall|r: int| 0 <= r < 3 ==> 0 <= #[trigger] perm_box(k, r) < 3,
        perm_box(k, 0) != perm_box(k, 1),
        perm_box(k, 0) != perm_box(k, 2),
        perm_box(k, 1) != perm_box(k, 2),
{
    assert(k == 0 || k == 1 || k == 2 || k == 3 || k == 4 || k == 5);
}

/// Takes box `j` from the other lines if line `r` is confined to it; `None`
/// if the line is empty.
fn settle_line(s: u16, r: u16) -> (n: Option<u16>)
    requires
        s <= 0x1FF,
        r < 3,
    ensures
        n is None ==> !has_perm(s),
        n matches Some(m) ==> m <= 0x1FF && sub16(m, s) && same_perms(m, s) && (m == s
            ==> line_stable(s, r as int)),
{
    let row = (s >> (3 * r)) & 7;
    proof {
        lemma_low_masks16();
        assert forall|j: int| #[trigger] bit16(row, j) <==> 0 <= j < 3 && bit16(s, 3 * r + j) by {}
    }
    if row == 0 {
        proof {
            assert(!bit16(row, 0) && !bit16(row, 1) && !bit16(row, 2));
            if has_perm(s) {
                let k = choose|k: int| #[trigger] fits(s, k);
                lemma_perm_cells(s, k);
                let x = perm_box(k, r as int);
                assert(bit16(row, x));
            }
        }
        return None;
    }
    let j = lowest16(row) as u16;
    let rest = without_lowest16(row);
    if rest == 0 {
        let col = (1u16 << j) | (1u16 << (j + 3)) | (1u16 << (j + 6));
        let m = (s & !col) | (1u16 << (3 * r + j));
        proof {
            assert(alone_in_line(s, r as int, j as int)) by {
                assert forall|x: int| 0 <= x < 3 && x != j implies !#[trigger] has(s, r as int, x) by {
                    assert(bit16(row, x) <==> bit16(s, 3 * r + x));
                    assert(!bit16(0u16, x));
                }
            }
            lemma_subset16(m, s);
            assert forall|k: int| #[trigger] fits(m, k) <==> fits(s, k) by {
                if fits(s, k) {
                    lemma_perm_cells(s, k);
                    assert(has(s, r as int, perm_box(k, r as int)));
                    assert(perm_box(k, r as int) == j);
                    assert forall|q: int| 0 <= q < 3 implies bit16(m, 3 * q + #[trigger] perm_box(
                        k,
                        q,
                    )) by {}
                    assert(has(m, 0, perm_box(k, 0)));
                    assert(has(m, 1, perm_box(k, 1)));
                    assert(has(m, 2, perm_box(k, 2)));
                }
            }
            if m == s {
                assert forall|q: int, x: int|
                    0 <= q < 3 && 0 <= x < 3 && q != r && alone_in_line(
                        s,
                        r as int,
                        x,
                    ) implies !#[trigger] has(s, q, x) by {
                    assert(x == j);
                    assert(!bit16(m, 3 * q + j));
                }
            }
        }
        Some(m)
    } else {
        proof {
            assert forall|x: int| 0 <= x < 3 implies !#[trigger] alone_in_line(s, r as int, x) by {
                let t = lemma_nonzero16(rest);
                assert(bit16(row, t) && t != j);
                assert(has(s, r as int, t) && has(s, r as int, j as int));
            }
        }
        Some(s)
    }
}

/// Takes line `r` from the other boxes if box `j` is confined to it; `None`
/// if the box is empty.
fn settle_box(s: u16, j: u16) -> (n: Option<u16>)
    requires
        s <= 0x1FF,
        j < 3,
    ensures
        n is None ==> !has_perm(s),
        n matches Some(m) ==> m <= 0x1FF && sub16(m, s) && same_perms(m, s) && (m == s
            ==> box_stable(s, j as int)),
{
    let cut = (1u16 << j) | (1u16 << (j + 3)) | (1u16 << (j + 6));
    let col = s & cut;
    proof {
        lemma_low_masks16();
        assert forall|i: int| #[trigger] bit16(col, i) <==> 0 <= i < 9 && i % 3 == j && bit16(
            s,
            i,
        ) by {
            if bit16(s, i) {
                lemma_small9(s, i);
            }
        }
    }
    if col == 0 {
        proof {
            assert(!bit16(col, j as int) && !bit16(col, 3 + j) && !bit16(col, 6 + j));
            if has_perm(s) {
                let k = choose|k: int| #[trigger] fits(s, k);
                lemma_perm_cells(s, k);
                let r = if perm_box(k, 0) == j {
                    0
                } else if perm_box(k, 1) == j {
                    1
                } else {
                    2int
                };
                assert(perm_box(k, r) == j);
                assert(bit16(col, 3 * r + j));
            }
        }
        return None;
    }
    let m0 = lowest16(col) as u16;
    let r = m0 / 3;
    let rest = without_lowest16(col);
    if rest == 0 {
        let m = (s & !(7u16 << (3 * r))) | (1u16 << m0);
        proof {
            assert(m0 == 3 * r + j);
            assert(alone_in_box(s, j as int, r as int)) by {
                assert forall|q: int| 0 <= q < 3 && q != r implies !#[trigger] has(s, q, j as int) by {
                    assert(bit16(col, 3 * q + j) <==> bit16(s, 3 * q + j));
                    assert(!bit16(0u16, 3 * q + j));
                }
            }
            lemma_subset16(m, s);
            assert forall|k: int| #[trigger] fits(m, k) <==> fits(s, k) by {
                if fits(s, k) {
                    lemma_perm_cells(s, k);
                    assert(perm_box(k, r as int) == j) by {
                        if perm_box(k, 0) == j {
                            assert(has(s, 0, j as int));
                        } else if perm_box(k, 1) == j {
                            assert(has(s, 1, j as int));
                        } else {
                            assert(has(s, 2, j as int));
                        }
                    }
                    assert(has(m, 0, perm_box(k, 0)));
                    assert(has(m, 1, perm_box(k, 1)));
                    assert(has(m, 2, perm_box(k, 2)));
                }
            }
            if m == s {
                assert forall|q: int, x: int|
                    0 <= q < 3 && 0 <= x < 3 && x != j && alone_in_box(
                        s,
                        j as int,
                        q,
                    ) implies !#[trigger] has(s, q, x) by {
                    assert(q == r);
                    assert(!bit16(m, 3 * r + x));
                }
            }
        }
        Some(m)
    } else {
        proof {
            assert forall|q: int| 0 <= q < 3 implies !#[trigger] alone_in_box(s, j as int, q) by {
                let t = lemma_nonzero16(rest);
                assert(bit16(col, t) && t != m0);
                assert(has(s, t / 3, j as int) && has(s, m0 as int / 3, j as int));
            }
        }
        Some(s)
    }
}

/// In a stable pattern every minirow is in a permutation.
pub proof fn lemma_stable(s: u16)
    requires
        s <= 0x1FF,
        forall|r: int| 0 <= r < 3 ==> #[trigger] line_stable(s, r),
        forall|j: int| 0 <= j < 3 ==> #[trigger] box_stable(s, j),
    ensures
        forall|i: int| #[trigger] bit16(s, i) <==> closed_at(s, i),
{
    let (a0, a1, a2) = (has(s, 0, 0), has(s, 0, 1), has(s, 0, 2));
    let (b0, b1, b2) = (has(s, 1, 0), has(s, 1, 1), has(s, 1, 2));
    let (c0, c1, c2) = (has(s, 2, 0), has(s, 2, 1), has(s, 2, 2));
    assert(line_stable(s, 0) && line_stable(s, 1) && line_stable(s, 2));
    assert(box_stable(s, 0) && box_stable(s, 1) && box_stable(s, 2));
    assert(a0 && !a1 && !a2 ==> alone_in_line(s, 0, 0));
    assert(!a0 && a1 && !a2 ==> alone_in_line(s, 0, 1));
    assert(!a0 && !a1 && a2 ==> alone_in_line(s, 0, 2));
    assert(b0 && !b1 && !b2 ==> alone_in_line(s, 1, 0));
    assert(!b0 && b1 && !b2 ==> alone_in_line(s, 1, 1));
    assert(!b0 && !b1 && b2 ==> alone_in_line(s, 1, 2));
    assert(c0 && !c1 && !c2 ==> alone_in_line(s, 2, 0));
    assert(!c0 && c1 && !c2 ==> alone_in_line(s, 2, 1));
    assert(!c0 && !c1 && c2 ==> alone_in_line(s, 2, 2));
    assert(a0 && !b0 && !c0 ==> alone_in_box(s, 0, 0));
    assert(!a0 && b0 && !c0 ==> alone_in_box(s, 0, 1));
    assert(!a0 && !b0 && c0 ==> alone_in_box(s, 0, 2));
    assert(a1 && !b1 && !c1 ==> alone_in_box(s, 1, 0));
    assert(!a1 && b1 && !c1 ==> alone_in_box(s, 1, 1));
    assert(!a1 && !b1 && c1 ==> alone_in_box(s, 1, 2));
    assert(a2 && !b2 && !c2 ==> alone_in_box(s, 2, 0));
    assert(!a2 && b2 && !c2 ==> alone_in_box(s, 2, 1));
    assert(!a2 && !b2 && c2 ==> alone_in_box(s, 2, 2));
    assert forall|i: int| #[trigger] bit16(s, i) <==> closed_at(s, i) by {
        if closed_at(s, i) {
            lemma_closed_sub(s, i);
        }
        if bit16(s, i) {
            lemma_small9(s, i);
            let k = if fits(s, 0) && in_perm(0, i) {
                0
            } else if fits(s, 1) && in_perm(1, i) {
                1
            } else if fits(s, 2) && in_perm(2, i) {
                2
            } else if fits(s, 3) && in_perm(3, i) {
                3
            } else if fits(s, 4) && in_perm(4, i) {
                4
            } else {
                5int
            };
            assert(fits(s, k) && in_perm(k, i));
        }
    }
}

/// The closure of `s0` by repeated elimination: the minirows in some
/// permutation of `s0`, none if there is no permutation.
pub fn complex_entry(s0: u16) -> (r: u16)
    requires
        s0 <= 0x1FF,
    ensures
        forall|i: int| #[trigger] bit16(r, i) <==> closed_at(s0, i),
{
    let mut s: u16 = s0;
    loop
        invariant
            s <= 0x1FF,
            same_perms(s, s0),
        decreases s,
    {
        let mut ns: u16 = s;
        let mut r: u16 = 0;
        while r < 3
            invariant
                r <= 3,
                ns <= 0x1FF,
                sub16(ns, s),
                same_perms(ns, s),
                same_perms(s, s0),
                ns == s ==> forall|q: int| 0 <= q < r ==> #[trigger] line_stable(s, q),
            decreases 3 - r,
        {
            match settle_line(ns, r) {
                None => {
                    proof {
                        lemma_empty_closure(s0, ns);
                    }
                    return 0;
                },
                Some(m) => {
                    proof {
                        lemma_subset16(m, ns);
                        lemma_subset16(ns, s);
                    }
                    ns = m;
                },
            }
            r = r + 1;
        }
        let mut j: u16 = 0;
        while j < 3
            invariant
                j <= 3,
                ns <= 0x1FF,
                sub16(ns, s),
                same_perms(ns, s),
                same_perms(s, s0),
                ns == s ==> forall|q: int| 0 <= q < 3 ==> #[trigger] line_stable(s, q),
                ns == s ==> forall|q: int| 0 <= q < j ==> #[trigger] box_stable(s, q),
            decreases 3 - j,
        {
            match settle_box(ns, j) {
                None => {
                    proof {
                        lemma_empty_closure(s0, ns);
                    }
                    return 0;
                },
                Some(m) => {
                    proof {
                        lemma_subset16(m, ns);
                        lemma_subset16(ns, s);
                    }
                    ns = m;
                },
            }
            j = j + 1;
        }
        if ns == s {
            proof {
                lemma_stable(s);
                lemma_same_closure(s, s0);
            }
            return s;
        }
        proof {
            lemma_subset16(ns, s);
        }
        s = ns;
    }
}

/// Patterns with the same permutations have the same closure.
proof fn lemma_same_closure(a: u16, b: u16)
    requires
        same_perms(a, b),
    ensures
        forall|i: int| #[trigger] closed_at(a, i) <==> closed_at(b, i),
        has_perm(a) <==> has_perm(b),
{
    assert forall|i: int| #[trigger] closed_at(a, i) <==> closed_at(b, i) by {
        if closed_at(a, i) {
            let k = choose|k: int| #[trigger] fits(a, k) && in_perm(k, i);
            assert(fits(b, k));
        }
        if closed_at(b, i) {
            let k = choose|k: int| #[trigger] fits(b, k) && in_perm(k, i);
            assert(fits(a, k));
        }
    }
    if has_perm(a) {
        let k = choose|k: int| #[trigger] fits(a, k);
        assert(fits(b, k));
    }
    if has_perm(b) {
        let k = choose|k: int| #[trigger] fits(b, k);
        assert(fits(a, k));
    }
}

/// Without a permutation the closure is empty.
proof fn lemma_empty_closure(s0: u16, s: u16)
    requires
        same_perms(s, s0),
        !has_perm(s),
    ensures
        forall|i: int| #[trigger] bit16(0u16, i) <==> closed_at(s0, i),
{
    lemma_same_closure(s, s0);
    assert forall|i: int| !closed_at(s0, i) by {
        if closed_at(s0, i) {
            lemma_closed_sub(s0, i);
        }
    }
}

/// The closure by elimination of every pattern.
pub fn build_complex() -> (t: [u16; 512])
    ensures
        forall|s: int, i: int|
            0 <= s < 512 ==> (#[trigger] bit16(t[s], i) <==> closed_at(s as u16, i)),
{
    let mut t: [u16; 512] = [0;512];
    let mut v: usize = 0;
    while v < 512
        invariant
            v <= 512,
            forall|s: int, i: int|
                0 <= s < v ==> (#[trigger] bit16(t[s], i) <==> closed_at(s as u16, i)),
        decreases 512 - v,
    {
        t[v] = complex_entry(v as u16);
        v = v + 1;
    }
    t
}

} // verus!
