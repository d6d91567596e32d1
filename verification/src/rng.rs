//! A tiny xorshift64* pseudo-random number generator.
//!
//! It is only a source of initial weights: fast, reproducible, and not meant
//! for cryptography.
use vstd::prelude::*;

verus! {

/// The multiplier that xorshift64* applies to each state to form an output.
pub const OUTPUT_MULTIPLIER: u64 = 0x2545_F491_4F6C_DD1D;

/// One xorshift step on the 64-bit state.
pub open spec fn xorshift(x: u64) -> u64 {
    let a = x ^ (x >> 12u64);
    let b = a ^ (a << 25u64);
    b ^ (b >> 27u64)
}

/// The output drawn from a freshly stepped state: the state times the
/// multiplier, modulo 2^64.
pub open spec fn scramble(x: u64) -> u64 {
    ((x as nat * OUTPUT_MULTIPLIER as nat) % 0x1_0000_0000_0000_0000nat) as u64
}

/// The state a generator built from `seed` starts in.
pub open spec fn seeded_state(seed: u64) -> u64 {
    seed | 1u64
}

/// The xorshift64* generator. Its state is never zero: zero is the one
/// state that xorshift maps to itself.
pub struct Rng {
    state: u64,
}

impl View for Rng {
    type V = u64;

    closed spec fn view(&self) -> u64 {
        self.state
    }
}

impl Rng {
    #[verifier::type_invariant]
    spec fn state_is_nonzero(self) -> bool {
        self.state != 0
    }

    /// A generator seeded with `seed`. Any seed is accepted: the low bit is
    /// forced on so that the state can never be zero.
    pub fn new(seed: u64) -> (rng: Self)
        ensures
            rng@ == seeded_state(seed),
            rng@ == seed | 1u64,
            rng@ != 0,
    {
        proof {
            lemma_seeded_state_nonzero(seed);
        }
        Self { state: seed | 1 }
    }

    /// Advance the state by one xorshift step and return the scrambled new
    /// state.
    pub fn next_u64(&mut self) -> (x: u64)
        ensures
            final(self)@ == xorshift(old(self)@),
            x == scramble(xorshift(old(self)@)),
            x as int == (final(self)@ as int * 0x2545_F491_4F6C_DD1Dint) % 0x1_0000_0000_0000_0000int,
            final(self)@ != 0,
    {
        proof {
            use_type_invariant(&*self);
            lemma_xorshift_keeps_nonzero(self.state);
        }
        let mut x = self.state;
        x ^= x >> 12u64;
        x ^= x << 25u64;
        x ^= x >> 27u64;
        self.state = x;
        x.wrapping_mul(OUTPUT_MULTIPLIER)
    }

    /// The top 53 bits of the next output: the integer that, divided by
    /// 2^53, gives a uniformly spread float in [0, 1).
    pub fn next_bits53(&mut self) -> (bits: u64)
        ensures
            final(self)@ == xorshift(old(self)@),
            bits == scramble(xorshift(old(self)@)) >> 11u64,
            bits as int == ((final(self)@ as int * 0x2545_F491_4F6C_DD1Dint) % 0x1_0000_0000_0000_0000int)
                / 0x800,
            bits < 0x20_0000_0000_0000u64,
            final(self)@ != 0,
    {
        let x = self.next_u64();
        assert(x >> 11u64 < 0x20_0000_0000_0000u64) by (bit_vector);
        assert(x >> 11u64 == x / 0x800u64) by (bit_vector);
        x >> 11
    }
}

/// An output is the state it was drawn from times 0x2545F4914F6CDD1D,
/// modulo 2^64.
pub proof fn lemma_output_is_product(x: u64)
    ensures
        scramble(x) as int == (x as int * 0x2545_F491_4F6C_DD1Dint) % 0x1_0000_0000_0000_0000int,
{
}

/// A seeded generator starts from the seed with its lowest bit set: the
/// seed itself when it is odd, the seed plus one when it is even.
pub proof fn lemma_seeded_state_is_seed_made_odd(seed: u64)
    ensures
        seeded_state(seed) == seed | 1u64,
        seeded_state(seed) as int == (if seed % 2 == 0 {
            seed as int + 1
        } else {
            seed as int
        }),
{
    assert(seed % 2 == 0 ==> seed | 1u64 == seed + 1) by (bit_vector);
    assert(seed % 2 == 1 ==> seed | 1u64 == seed) by (bit_vector);
}

/// Two seeds build the same generator exactly when they differ at most in
/// their lowest bit.
pub proof fn lemma_seeds_agree_iff_equal_but_low_bit(a: u64, b: u64)
    ensures
        seeded_state(a) == seeded_state(b) <==> a / 2 == b / 2,
{
    assert((a | 1u64) == (b | 1u64) <==> a / 2 == b / 2) by (bit_vector);
}

/// Distinct states step to distinct states: xorshift loses no information.
pub proof fn lemma_xorshift_injective(x: u64, y: u64)
    ensures
        xorshift(x) == xorshift(y) ==> x == y,
{
    let xa = x ^ (x >> 12u64);
    let ya = y ^ (y >> 12u64);
    let xb = xa ^ (xa << 25u64);
    let yb = ya ^ (ya << 25u64);
    assert(xb ^ (xb >> 27u64) == yb ^ (yb >> 27u64) ==> xb == yb) by (bit_vector);
    assert(xa ^ (xa << 25u64) == ya ^ (ya << 25u64) ==> xa == ya) by (bit_vector);
    assert(x ^ (x >> 12u64) == y ^ (y >> 12u64) ==> x == y) by (bit_vector);
}

/// Forcing the low bit on yields a nonzero state.
pub proof fn lemma_seeded_state_nonzero(seed: u64)
    ensures
        seeded_state(seed) != 0,
{
    assert(seed | 1u64 != 0u64) by (bit_vector);
}

/// Two seeds that differ only in their lowest bit build the same generator,
/// since that bit is forced on.
pub proof fn lemma_low_seed_bit_is_ignored(seed: u64)
    ensures
        seeded_state(seed) == seeded_state(seed ^ 1u64),
{
    assert(seed | 1u64 == (seed ^ 1u64) | 1u64) by (bit_vector);
}

/// A nonzero state stays nonzero under xorshift: each of the three shifts
/// is a bijection of the 64-bit words, and zero is mapped to zero.
pub proof fn lemma_xorshift_keeps_nonzero(x: u64)
    requires
        x != 0,
    ensures
        xorshift(x) != 0,
{
    let a = x ^ (x >> 12u64);
    assert(x != 0u64 ==> x ^ (x >> 12u64) != 0u64) by (bit_vector);
    let b = a ^ (a << 25u64);
    assert(a != 0u64 ==> a ^ (a << 25u64) != 0u64) by (bit_vector);
    assert(b != 0u64 ==> b ^ (b >> 27u64) != 0u64) by (bit_vector);
}

} // verus!
