//! Pseudo-random start index for a fair scan.

use vstd::prelude::*;

verus! {

/// One round of the 32-bit xorshift generator.
pub open spec fn xorshift(x: u32) -> u32 {
    let a = x ^ (x << 13u32);
    let b = a ^ (a >> 17u32);
    b ^ (b << 5u32)
}

/// Scales a 32-bit word `x` into `[0, n)`: the high half of the 64-bit
/// product `x * n`.
pub open spec fn scale(x: u32, n: u32) -> int {
    (x as int * n as int) / 0x1_0000_0000
}

/// The word that a generator seeded with 0 starts from.
pub const ZERO_SEED: u32 = 0x9E37_79B9;

/// The word that a generator seeded with `seed` starts from. The word 0 is
/// the one that xorshift never leaves, so a seed of 0 is replaced.
pub open spec fn seeded(seed: u32) -> u32 {
    if seed == 0 {
        ZERO_SEED
    } else {
        seed
    }
}

/// One round of xorshift never leads from another word to 0: a generator
/// that is not stuck at 0 never gets stuck.
pub proof fn lemma_xorshift_moves(x: u32)
    requires
        x != 0,
    ensures
        xorshift(x) != 0,
{
    let a = x ^ (x << 13u32);
    let b = a ^ (a >> 17u32);
    assert(a != 0) by (bit_vector)
        requires
            x != 0,
            a == x ^ (x << 13u32),
    ;
    assert(b != 0) by (bit_vector)
        requires
            a != 0,
            b == a ^ (a >> 17u32),
    ;
    assert(b ^ (b << 5u32) != 0) by (bit_vector)
        requires
            b != 0,
    ;
}

/// Xorshift generator that picks where a scan over `n` slots starts.
pub struct RandomGenerator {
    state: u32,
}

impl RandomGenerator {
    /// The word the next call of `generate` starts from.
    pub closed spec fn state(&self) -> u32 {
        self.state
    }

    /// A generator that starts from `seed`, or from `ZERO_SEED` where
    /// `seed` is 0. Its word is never 0.
    pub fn new(seed: u32) -> (r: Self)
        ensures
            r.state() == seeded(seed),
            r.state() != 0,
    {
        if seed == 0 {
            RandomGenerator { state: ZERO_SEED }
        } else {
            RandomGenerator { state: seed }
        }
    }

    /// Advances the generator by one round and scales the new word into
    /// `[0, n)`. With `n == 0` the result is 0.
    pub fn generate(&mut self, n: u32) -> (r: u32)
        ensures
            final(self).state() == xorshift(old(self).state()),
            old(self).state() != 0 ==> final(self).state() != 0,
            r == scale(final(self).state(), n),
            n > 0 ==> r < n,
            n == 0 ==> r == 0,
    {
        proof {
            if self.state != 0 {
                lemma_xorshift_moves(self.state);
            }
        }
        let mut x: u32 = self.state;
        x = x ^ (x << 13u32);
        x = x ^ (x >> 17u32);
        x = x ^ (x << 5u32);
        self.state = x;
        let wide: u64 = x as u64;
        let bound: u64 = n as u64;
        proof {
            lemma_scale_bounds(x, n);
        }
        let product: u64 = wide * bound;
        let high: u64 = product >> 32u64;
        assert(high == product / 0x1_0000_0000) by (bit_vector)
            requires
                high == product >> 32u64,
        ;
        high as u32
    }
}

/// The product of two 32-bit words fits in 64 bits, and its high half
/// stays below the second factor.
pub proof fn lemma_scale_bounds(x: u32, n: u32)
    ensures
        0 <= x as int * n as int <= 0xffff_ffff_ffff_ffff,
        0 <= scale(x, n) <= 0xffff_ffff,
        n > 0 ==> scale(x, n) < n,
        n == 0 ==> scale(x, n) == 0,
{
    let p: int = x as int * n as int;
    assert(0 <= p <= 0xffff_ffff * 0xffff_ffff) by (nonlinear_arith)
        requires
            p == x as int * n as int,
            0 <= x <= 0xffff_ffff,
            0 <= n <= 0xffff_ffff,
    ;
    assert(p <= 0xffff_ffff * n as int) by (nonlinear_arith)
        requires
            p == x as int * n as int,
            0 <= x <= 0xffff_ffff,
            0 <= n,
    ;
    assert(n == 0 ==> p == 0) by (nonlinear_arith)
        requires
            p == x as int * n as int,
    ;
}

} // verus!
