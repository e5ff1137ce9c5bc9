//! What the figures that summarise a batch come to.

use vstd::arithmetic::power::pow;
use vstd::prelude::*;
use crate::route::{batch_count, batch_sum, checksum_of, verdicts_of, Verdict};

verus! {

/// The first `n` digits, the last one of the whole weighing 1 and every other
/// 31 times as much as the one behind it.
pub open spec fn weighed(s: Seq<u8>, n: nat) -> int
    decreases n,
{
    if n == 0 {
        0
    } else {
        weighed(s, (n - 1) as nat) + s[n - 1] * pow(31, (s.len() - n) as nat)
    }
}

/// One more digit behind makes all the others weigh 31 times as much.
proof fn lemma_heavier(s: Seq<u8>, n: nat)
    requires
        n < s.len(),
    ensures
        weighed(s, n) == 31 * weighed(s.drop_last(), n),
    decreases n,
{
    if n > 0 {
        lemma_heavier(s, (n - 1) as nat);
        reveal(pow);
        let d = s[n - 1] as int;
        let w = pow(31, (s.len() - 1 - n) as nat);
        assert(pow(31, (s.len() - n) as nat) == 31 * w);
        assert(d * (31 * w) == 31 * (d * w)) by (nonlinear_arith);
        assert(s.drop_last()[n - 1] == s[n - 1]);
    }
}

/// The checksum of a grid is the sum of its digits, digit `i` times 31 to the
/// power of the digits behind it, modulo 2^64.
pub proof fn law_checksum(s: Seq<u8>)
    ensures
        checksum_of(s) == weighed(s, s.len()) % 0x1_0000_0000_0000_0000,
    decreases s.len(),
{
    if s.len() > 0 {
        let t = s.drop_last();
        law_checksum(t);
        lemma_heavier(s, t.len());
        assert(pow(31, 0) == 1) by {
            reveal(pow);
        }
        let m = 0x1_0000_0000_0000_0000int;
        let (x, d) = (weighed(t, t.len()), s.last() as int);
        assert(weighed(s, s.len()) == 31 * x + d * pow(31, 0));
        assert(d * 1 == d);
        assert(((x % m) * 31 + d) % m == (31 * x + d) % m);
    }
}

/// The sum over one answer is its checksum, that over no answer is zero, and
/// only answers are counted.
pub proof fn law_batch_of_one(a: Option<Seq<u8>>)
    ensures
        batch_sum(seq![a]) == (match a {
            Some(g) => weighed(g, g.len()) % 0x1_0000_0000_0000_0000,
            None => 0,
        }),
        batch_count(seq![a]) == (if a is Some {
            1nat
        } else {
            0
        }),
        batch_sum(Seq::<Option<Seq<u8>>>::empty()) == 0,
        batch_count(Seq::<Option<Seq<u8>>>::empty()) == 0,
{
    reveal_with_fuel(batch_sum, 2);
    reveal_with_fuel(batch_count, 2);
    assert(seq![a].drop_last() =~= Seq::<Option<Seq<u8>>>::empty());
    assert(seq![a].last() == a);
    if let Some(g) = a {
        law_checksum(g);
    }
}

/// The number of answers is the number of places that hold one.
pub proof fn law_batch_count(sols: Seq<Option<Seq<u8>>>)
    ensures
        batch_count(sols) == sols.filter(|a: Option<Seq<u8>>| a is Some).len(),
    decreases sols.len(),
{
    reveal(Seq::filter);
    if sols.len() > 0 {
        law_batch_count(sols.drop_last());
    }
}

/// A verdict is counted as often as it stands in the list.
pub proof fn law_verdicts(vs: Seq<Verdict>, v: Verdict)
    ensures
        verdicts_of(vs, v) == vs.filter(|w: Verdict| w == v).len(),
    decreases vs.len(),
{
    reveal(Seq::filter);
    if vs.len() > 0 {
        law_verdicts(vs.drop_last(), v);
    }
}

} // verus!
