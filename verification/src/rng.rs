//! A seeded xorshift64* generator: the same seed gives the same stream on
//! every replica.
use vstd::prelude::*;

verus! {

/// The state a zero seed is replaced by, since xorshift is stuck at zero.
pub const ZERO_SEED_SUBSTITUTE: u64 = 0x9E37_79B9_7F4A_7C15;

/// How many draws `below` makes before it keeps the last one; no run
/// reaches it.
pub const DRAW_LIMIT: u64 = 0xffff_ffff_ffff_ffff;

/// One xorshift step of the state.
pub open spec fn step(x: u64) -> u64 {
    let a = x ^ (x >> 12u64);
    let b = a ^ (a << 25u64);
    b ^ (b >> 27u64)
}

/// The output scrambled from a state.
pub open spec fn scramble(x: u64) -> u64 {
    ((x as nat * 0x2545_F491_4F6C_DD1Dnat) % 0x1_0000_0000_0000_0000nat) as u64
}

/// The state a seed starts the stream at.
pub open spec fn seeded(seed: u64) -> u64 {
    if seed == 0 {
        ZERO_SEED_SUBSTITUTE
    } else {
        seed
    }
}

/// The values a draw of `below(n)` keeps: those below the largest multiple of `n`.
pub open spec fn zone(n: u32) -> u32 {
    (u32::MAX - (u32::MAX % n)) as u32
}

/// The high half of the output for state `x`.
pub open spec fn high(x: u64) -> u32 {
    (scramble(step(x)) >> 32u64) as u32
}

/// The value `below(n)` returns from state `x` and the state it leaves,
/// drawing at most `fuel + 1` times.
pub open spec fn sample(x: u64, n: u32, fuel: nat) -> (u32, u64)
    decreases fuel,
{
    let y = step(x);
    let v = high(x);
    if v < zone(n) || fuel == 0 {
        ((v % n) as u32, y)
    } else {
        sample(y, n, (fuel - 1) as nat)
    }
}

#[derive(Debug, Clone, PartialEq, Eq)]
pub struct Rng {
    state: u64,
}

impl View for Rng {
    type V = u64;

    closed spec fn view(&self) -> u64 {
        self.state
    }
}

/// A xorshift step never leaves a nonzero state at zero.
pub proof fn lemma_step_nonzero(x: u64)
    requires
        x != 0,
    ensures
        step(x) != 0,
{
    let a = x ^ (x >> 12u64);
    let b = a ^ (a << 25u64);
    let c = b ^ (b >> 27u64);
    assert(x != 0 ==> x ^ (x >> 12u64) != 0) by (bit_vector);
    assert(a != 0 ==> a ^ (a << 25u64) != 0) by (bit_vector);
    assert(b != 0 ==> b ^ (b >> 27u64) != 0) by (bit_vector);
}

impl Rng {
    pub fn from_seed(seed: u64) -> (r: Self)
        ensures
            r@ == seeded(seed),
            r@ != 0,
    {
        Self {
            state: if seed == 0 {
                0x9E37_79B9_7F4A_7C15
            } else {
                seed
            },
        }
    }

    pub fn next_u64(&mut self) -> (v: u64)
        ensures
            final(self)@ == step(old(self)@),
            v == scramble(step(old(self)@)),
            old(self)@ != 0 ==> final(self)@ != 0,
    {
        let mut x = self.state;
        x = x ^ (x >> 12);
        x = x ^ (x << 25);
        x = x ^ (x >> 27);
        self.state = x;
        proof {
            if old(self)@ != 0 {
                lemma_step_nonzero(old(self)@);
            }
        }
        x.wrapping_mul(0x2545_F491_4F6C_DD1D)
    }

    /// A uniform draw below `n`, by rejecting the values past the largest
    /// multiple of `n`; zero for `n == 0`.
    pub fn below(&mut self, n: u32) -> (v: u32)
        ensures
            n == 0 ==> v == 0 && final(self)@ == old(self)@,
            n > 0 ==> (v, final(self)@) == sample(old(self)@, n, DRAW_LIMIT as nat),
            n > 0 ==> v < n,
    {
        if n == 0 {
            return 0;
        }
        let keep = u32::MAX - (u32::MAX % n);
        let mut fuel: u64 = DRAW_LIMIT;
        loop
            invariant
                n > 0,
                keep == zone(n),
                sample(old(self)@, n, DRAW_LIMIT as nat) == sample(self@, n, fuel as nat),
            decreases fuel,
        {
            let ghost before = self@;
            let v = (self.next_u64() >> 32) as u32;
            assert(v == high(before));
            if v < keep || fuel == 0 {
                return v % n;
            }
            fuel = fuel - 1;
        }
    }
}

} // verus!
