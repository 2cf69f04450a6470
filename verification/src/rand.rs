//! Deterministic pseudo-random number source.
//!
//! A permuted congruential generator over a 128-bit state: each draw advances
//! the state by one wrapping multiplication and reads a 32-bit value off the
//! new state through an xor-shift and a data-dependent rotation. A draw `r`
//! stands for the uniform real number `r / 2^32` in `[0, 1)`; callers scale it
//! as they need. The whole computation is specified exactly, so the sequence
//! of draws from a given seed is pinned down bit for bit.

use vstd::prelude::*;

verus! {

/// The odd multiplier of the congruential step.
pub const MULTIPLIER: u128 = 0x2360ED051FC65DA44385DF649FCCF645;

/// The default seed; forced odd so that the state never collapses to zero.
pub const DEFAULT_SEED: u128 = 0xB57D6A35CFD25BDBD774231501440A94 | 1;

/// Pseudo-random number generator with a 128-bit congruential state.
pub struct Rng {
    state: u128,
}

impl View for Rng {
    type V = u128;

    closed spec fn view(&self) -> u128 {
        self.state
    }
}

/// The state reached after one congruential step from `s`.
pub open spec fn rng_step(s: u128) -> u128 {
    s.wrapping_mul(MULTIPLIER)
}

/// The 32-bit value read off a state: the high and low halves are xored, the
/// result is rotated right by the state's top six bits, and the low 32 bits
/// are kept.
pub open spec fn rng_out(s: u128) -> u32 {
    let rot = (s >> 122) as u32;
    let hi = (s >> 64) as u64;
    let lo = (s & 0xFFFF_FFFF_FFFF_FFFF) as u64;
    let xsl = hi ^ lo;
    let rotated = if rot == 0 {
        xsl
    } else {
        (xsl >> rot) | (xsl << (64 - rot))
    };
    (rotated & 0xFFFF_FFFF) as u32
}

/// The state reached after `k` draws from `s`.
pub open spec fn rng_state_after(s: u128, k: nat) -> u128
    decreases k,
{
    if k == 0 {
        s
    } else {
        rng_step(rng_state_after(s, (k - 1) as nat))
    }
}

/// The `k`-th draw (counting from zero) made from starting state `s`.
pub open spec fn rng_draw(s: u128, k: nat) -> u32 {
    rng_out(rng_state_after(s, k + 1))
}

/// A draw made at the state reached after `k` draws advances to the state
/// after `k + 1` draws and yields draw `k`.
pub proof fn lemma_rng_draw_at(s: u128, k: nat)
    ensures
        rng_step(rng_state_after(s, k)) == rng_state_after(s, k + 1),
        rng_out(rng_state_after(s, k + 1)) == rng_draw(s, k),
{
    assert(rng_state_after(s, k + 1) == rng_step(rng_state_after(s, ((k + 1) - 1) as nat)));
}

impl Default for Rng {
    /// A generator seeded with the fixed default seed.
    fn default() -> (r: Self)
        ensures
            r@ == DEFAULT_SEED,
    {
        Rng { state: DEFAULT_SEED }
    }
}

impl Rng {
    /// One draw: advance the state by one step and read a 32-bit value off the
    /// new state. The result stands for the uniform value `r / 2^32` in `[0, 1)`.
    pub fn next(&mut self) -> (r: u32)
        ensures
            final(self)@ == rng_step(old(self)@),
            r == rng_out(final(self)@),
            r == rng_draw(old(self)@, 0),
    {
        self.state = self.state.wrapping_mul(MULTIPLIER);
        let s = self.state;
        proof {
            assert(s >> 122 < 64) by (bit_vector);
            assert(s >> 64 <= 0xFFFF_FFFF_FFFF_FFFFu128) by (bit_vector);
            assert(s & 0xFFFF_FFFF_FFFF_FFFF <= 0xFFFF_FFFF_FFFF_FFFFu128) by (bit_vector);
        }
        let rot: u32 = (s >> 122) as u32;
        let hi: u64 = (s >> 64) as u64;
        let lo: u64 = (s & 0xFFFF_FFFF_FFFF_FFFF) as u64;
        let xsl: u64 = hi ^ lo;
        let rotated: u64 = if rot == 0 {
            xsl
        } else {
            (xsl >> rot) | (xsl << (64 - rot))
        };
        proof {
            assert(rotated & 0xFFFF_FFFF <= 0xFFFF_FFFFu64) by (bit_vector);
            assert(rng_state_after(old(self)@, 0) == old(self)@);
            assert(rng_state_after(old(self)@, 1) == rng_step(old(self)@));
        }
        (rotated & 0xFFFF_FFFF) as u32
    }
}

} // verus!
