//! A small deterministic random number generator.

use vstd::prelude::*;

verus! {

/// xorshift64: deterministic, with the whole state in one word.
pub struct Rng(pub u64);

/// The state after `x`.
pub open spec fn xorshift(x: u64) -> u64 {
    let a = x ^ (x << 13);
    let b = a ^ (a >> 7);
    b ^ (b << 17)
}

/// The state `n` draws after `x`.
pub open spec fn drawn(x: u64, n: nat) -> u64
    decreases n,
{
    if n == 0 {
        x
    } else {
        xorshift(drawn(x, (n - 1) as nat))
    }
}

/// State `y` comes `n` draws or more after state `x`.
pub open spec fn draws(x: u64, y: u64, n: nat) -> bool {
    exists|k: nat| k >= n && #[trigger] drawn(x, k) == y
}

/// Drawing `m` and then `n` times is drawing `m + n` times.
pub proof fn lemma_drawn_add(x: u64, m: nat, n: nat)
    ensures
        drawn(drawn(x, m), n) == drawn(x, m + n),
    decreases n,
{
    if n > 0 {
        lemma_drawn_add(x, m, (n - 1) as nat);
    }
}

/// Draws add up.
pub proof fn lemma_draws_trans(x: u64, y: u64, z: u64, m: nat, n: nat)
    requires
        draws(x, y, m),
        draws(y, z, n),
    ensures
        draws(x, z, m + n),
{
    let a = choose|k: nat| k >= m && #[trigger] drawn(x, k) == y;
    let b = choose|k: nat| k >= n && #[trigger] drawn(y, k) == z;
    lemma_drawn_add(x, a, b);
    assert(drawn(x, a + b) == z);
}

impl Rng {
    /// Moves to the next state and returns it.
    pub fn next(&mut self) -> (r: u64)
        ensures
            final(self).0 == xorshift(old(self).0),
            r == final(self).0,
    {
        let mut x: u64 = self.0;
        x = x ^ (x << 13);
        x = x ^ (x >> 7);
        x = x ^ (x << 17);
        self.0 = x;
        x
    }

    /// A number below `n`.
    pub fn below(&mut self, n: u64) -> (r: u64)
        requires
            n > 0,
        ensures
            final(self).0 == xorshift(old(self).0),
            r == xorshift(old(self).0) % n,
            r < n,
    {
        self.next() % n
    }
}

} // verus!
