//! Simulation clock and addressable noise.
//!
//! The noise is not drawn from a sequential stream: the kick of agent `slot`
//! at step `step` is a pure function of `(seed, step, slot, stream)`. Neither
//! the order in which agents are visited nor the number of threads enters the
//! formula, so a trajectory is the same whichever way the agents are walked.

pub mod stream;

use vstd::arithmetic::div_mod::{lemma_mod_multiples_vanish, lemma_mul_mod_noop_left};
use vstd::arithmetic::mul::lemma_mul_is_associative;
use vstd::prelude::*;
use vstd::wrapping::u64_specs;

use crate::config;

verus! {

/// 2^64, the modulus of wrapping arithmetic on `u64`.
pub open spec fn word_modulus() -> nat {
    0x1_0000_0000_0000_0000nat
}

/// Additive constant of the SplitMix64 finaliser.
pub const GOLDEN_GAMMA: u64 = 0x9E37_79B9_7F4A_7C15;

/// First multiplier of the SplitMix64 finaliser.
pub const MIX_MUL_1: u64 = 0xBF58_476D_1CE4_E5B9;

/// Second multiplier of the SplitMix64 finaliser.
pub const MIX_MUL_2: u64 = 0x94D0_49BB_1331_11EB;

/// Odd multiplier that spreads the step over the whole word before it meets
/// the seed.
pub const STEP_MUL: u64 = 0xD1B5_4A32_D192_ED03;

/// The SplitMix64 finaliser: three rounds of xor-shift and multiplication.
pub open spec fn mixed(x: u64) -> u64 {
    let z0 = u64_specs::wrapping_add(x, GOLDEN_GAMMA);
    let z1 = u64_specs::wrapping_mul(z0 ^ (z0 >> 30u64), MIX_MUL_1);
    let z2 = u64_specs::wrapping_mul(z1 ^ (z1 >> 27u64), MIX_MUL_2);
    z2 ^ (z2 >> 31u64)
}

/// The time half of a noise coordinate: seed and step, mixed.
pub open spec fn time_word(seed: u64, step: u64) -> u64 {
    mixed(seed ^ u64_specs::wrapping_mul(step, STEP_MUL))
}

/// The two 32-bit space coordinates packed side by side in one word.
pub open spec fn packed_space(slot: u32, stream: u32) -> u64 {
    ((slot as u64) << 32u64) | (stream as u64)
}

/// The space half of a noise coordinate: slot and stream, mixed.
pub open spec fn space_word(slot: u32, stream: u32) -> u64 {
    mixed(packed_space(slot, stream))
}

/// The noise word addressed by `(seed, step, slot, stream)`.
pub open spec fn noise_word(seed: u64, step: u64, slot: u32, stream: u32) -> u64 {
    mixed(time_word(seed, step) ^ space_word(slot, stream))
}

/// Current step of the simulation and seed of the episode.
///
/// The step counter is the time coordinate of the noise, so it advances once
/// per simulation step, no more and no less.
#[derive(Debug, Clone, Copy)]
pub struct SimClock {
    pub seed: u64,
    pub step: u64,
}

/// The clock `c` after `k` calls of `advance`.
pub open spec fn advanced_by(c: SimClock, k: nat) -> SimClock
    decreases k,
{
    if k == 0 {
        c
    } else {
        let prev = advanced_by(c, (k - 1) as nat);
        SimClock { seed: prev.seed, step: u64_specs::wrapping_add(prev.step, 1) }
    }
}

impl Default for SimClock {
    fn default() -> (clock: Self)
        ensures
            clock.seed == config::RNG_SEED,
            clock.step == 0,
    {
        SimClock { seed: config::RNG_SEED, step: 0 }
    }
}

impl SimClock {
    /// Starts a new episode: the seed is replaced and the counter goes back to
    /// zero, so that two episodes with the same seed get the same noise.
    pub fn reset(&mut self, seed: u64)
        ensures
            final(self).seed == seed,
            final(self).step == 0,
    {
        self.seed = seed;
        self.step = 0;
    }

    /// Moves to the next step, wrapping around at the end of the `u64` range.
    pub fn advance(&mut self)
        ensures
            final(self).seed == old(self).seed,
            final(self).step == u64_specs::wrapping_add(old(self).step, 1),
            *final(self) == advanced_by(*old(self), 1),
    {
        proof {
            reveal_with_fuel(advanced_by, 2);
        }
        self.step = self.step.wrapping_add(1);
    }

    /// Whether the episode has run out of steps. It is a truncation, not an
    /// end state: the world simply stops being run.
    pub fn truncated(&self) -> (r: bool)
        ensures
            r == (self.step >= config::MAX_EPISODE_STEPS),
    {
        self.step >= config::MAX_EPISODE_STEPS
    }
}

/// A reset replays the episode: two clocks reset with the same seed, whatever
/// state each was in before, are equal after any number `k` of advances; their
/// seed is that seed and their step is `k` (modulo 2^64), so both address the
/// same noise words.
pub proof fn lemma_reset_replays_the_episode(c1: SimClock, c2: SimClock, seed: u64, k: nat)
    requires
        c1.seed == seed,
        c1.step == 0,
        c2.seed == seed,
        c2.step == 0,
    ensures
        advanced_by(c1, k) == advanced_by(c2, k),
        advanced_by(c1, k).seed == seed,
        advanced_by(c1, k).step == k % word_modulus(),
        forall|slot: u32, stream: u32|
            noise_word(advanced_by(c1, k).seed, advanced_by(c1, k).step, slot, stream)
                == noise_word(advanced_by(c2, k).seed, advanced_by(c2, k).step, slot, stream),
    decreases k,
{
    if k > 0 {
        lemma_reset_replays_the_episode(c1, c2, seed, (k - 1) as nat);
        let m: int = word_modulus() as int;
        let ki: int = k as int;
        assert(advanced_by(c1, (k - 1) as nat).step == (ki - 1) % m);
        if ki % m == 0 {
            assert((ki - 1) % m == m - 1) by (nonlinear_arith)
                requires
                    ki >= 1,
                    ki % m == 0,
                    m == 0x1_0000_0000_0000_0000int,
            ;
        } else {
            assert((ki - 1) % m == ki % m - 1) by (nonlinear_arith)
                requires
                    ki >= 1,
                    ki % m != 0,
                    m == 0x1_0000_0000_0000_0000int,
            ;
        }
    }
}

/// SplitMix64 finaliser. Stateless and cheap enough to call once per agent and
/// step.
pub fn mix(x: u64) -> (r: u64)
    ensures
        r == mixed(x),
{
    let mut z = x.wrapping_add(GOLDEN_GAMMA);
    z = (z ^ (z >> 30)).wrapping_mul(MIX_MUL_1);
    z = (z ^ (z >> 27)).wrapping_mul(MIX_MUL_2);
    z ^ (z >> 31)
}

/// 64-bit noise word for the coordinate `(seed, step, slot, stream)`.
///
/// Each half of the coordinate is mixed before they are combined; combining
/// them raw would make `step + 1, slot` and `step, slot + 1` collide.
pub fn noise(seed: u64, step: u64, slot: u32, stream: u32) -> (r: u64)
    ensures
        r == noise_word(seed, step, slot, stream),
{
    let time = mix(seed ^ step.wrapping_mul(STEP_MUL));
    let space = mix(((slot as u64) << 32) | stream as u64);
    mix(time ^ space)
}

/// The 24 high bits of the noise word: the numerator of the uniform sample in
/// `[0, 1)` whose denominator is `2^24`. Twenty-four bits are what an `f32`
/// mantissa holds, and the high ones are the best mixed.
pub fn noise_unit_numerator(seed: u64, step: u64, slot: u32, stream: u32) -> (r: u32)
    ensures
        r as u64 == noise_word(seed, step, slot, stream) >> 40u64,
        r < 0x100_0000,
{
    let w = noise(seed, step, slot, stream);
    assert(w >> 40u64 < 0x100_0000u64) by (bit_vector);
    (w >> 40) as u32
}

// ---------------------------------------------------------------------------
// Why no two coordinates that differ in one component share a word.
// ---------------------------------------------------------------------------

proof fn lemma_xor_shift_30_injective(a: u64, b: u64)
    requires
        a ^ (a >> 30u64) == b ^ (b >> 30u64),
    ensures
        a == b,
{
    assert(a ^ (a >> 30u64) == b ^ (b >> 30u64) ==> a == b) by (bit_vector);
}

proof fn lemma_xor_shift_27_injective(a: u64, b: u64)
    requires
        a ^ (a >> 27u64) == b ^ (b >> 27u64),
    ensures
        a == b,
{
    assert(a ^ (a >> 27u64) == b ^ (b >> 27u64) ==> a == b) by (bit_vector);
}

proof fn lemma_xor_shift_31_injective(a: u64, b: u64)
    requires
        a ^ (a >> 31u64) == b ^ (b >> 31u64),
    ensures
        a == b,
{
    assert(a ^ (a >> 31u64) == b ^ (b >> 31u64) ==> a == b) by (bit_vector);
}

proof fn lemma_xor_cancels(a: u64, b: u64, c: u64)
    requires
        a ^ c == b ^ c,
    ensures
        a == b,
{
    assert(a ^ c == b ^ c ==> a == b) by (bit_vector);
}

/// Multiplying by `c` and then by `c_inv` gives back the factor when
/// `c * c_inv` is one more than a multiple of `2^64`.
proof fn lemma_wrapping_mul_undone(a: u64, c: u64, c_inv: u64)
    requires
        (c as int * c_inv as int) % (word_modulus() as int) == 1,
    ensures
        u64_specs::wrapping_mul(u64_specs::wrapping_mul(a, c), c_inv) == a,
{
    let m = word_modulus() as int;
    let k = (c as int * c_inv as int) / m;
    assert(c as int * c_inv as int == m * k + 1);
    lemma_mul_mod_noop_left(a as int * c as int, c_inv as int, m);
    lemma_mul_is_associative(a as int, c as int, c_inv as int);
    assert(a as int * (c as int * c_inv as int) == m * (a as int * k) + a as int) by (nonlinear_arith)
        requires
            c as int * c_inv as int == m * k + 1,
    ;
    lemma_mod_multiples_vanish(a as int * k, a as int, m);
    assert((a as int) % m == a as int);
}

proof fn lemma_wrapping_mul_injective(a: u64, b: u64, c: u64, c_inv: u64)
    requires
        (c as int * c_inv as int) % (word_modulus() as int) == 1,
        u64_specs::wrapping_mul(a, c) == u64_specs::wrapping_mul(b, c),
    ensures
        a == b,
{
    lemma_wrapping_mul_undone(a, c, c_inv);
    lemma_wrapping_mul_undone(b, c, c_inv);
}

proof fn lemma_wrapping_add_injective(a: u64, b: u64, c: u64)
    requires
        u64_specs::wrapping_add(a, c) == u64_specs::wrapping_add(b, c),
    ensures
        a == b,
{
}

/// The finaliser is a bijection on 64-bit words: distinct inputs never share
/// an output.
pub proof fn lemma_mix_injective(a: u64, b: u64)
    requires
        mixed(a) == mixed(b),
    ensures
        a == b,
{
    let a0 = u64_specs::wrapping_add(a, GOLDEN_GAMMA);
    let b0 = u64_specs::wrapping_add(b, GOLDEN_GAMMA);
    let a1 = u64_specs::wrapping_mul(a0 ^ (a0 >> 30u64), MIX_MUL_1);
    let b1 = u64_specs::wrapping_mul(b0 ^ (b0 >> 30u64), MIX_MUL_1);
    let a2 = u64_specs::wrapping_mul(a1 ^ (a1 >> 27u64), MIX_MUL_2);
    let b2 = u64_specs::wrapping_mul(b1 ^ (b1 >> 27u64), MIX_MUL_2);
    lemma_xor_shift_31_injective(a2, b2);
    assert((MIX_MUL_2 as int * 0x3196_42B2_D24D_8EC3int) % (word_modulus() as int) == 1);
    lemma_wrapping_mul_injective(a1 ^ (a1 >> 27u64), b1 ^ (b1 >> 27u64), MIX_MUL_2, 0x3196_42B2_D24D_8EC3);
    lemma_xor_shift_27_injective(a1, b1);
    assert((MIX_MUL_1 as int * 0x96DE_1B17_3F11_9089int) % (word_modulus() as int) == 1);
    lemma_wrapping_mul_injective(a0 ^ (a0 >> 30u64), b0 ^ (b0 >> 30u64), MIX_MUL_1, 0x96DE_1B17_3F11_9089);
    lemma_xor_shift_30_injective(a0, b0);
    lemma_wrapping_add_injective(a, b, GOLDEN_GAMMA);
}

proof fn lemma_packed_space_injective(slot1: u32, stream1: u32, slot2: u32, stream2: u32)
    requires
        packed_space(slot1, stream1) == packed_space(slot2, stream2),
    ensures
        slot1 == slot2,
        stream1 == stream2,
{
    assert(((slot1 as u64) << 32u64) | (stream1 as u64) == ((slot2 as u64) << 32u64) | (
    stream2 as u64) ==> slot1 == slot2 && stream1 == stream2) by (bit_vector);
}

/// Within one step of one episode, no two agents and no two streams receive
/// the same noise word.
pub proof fn lemma_noise_separates_slots_and_streams(
    seed: u64,
    step: u64,
    slot1: u32,
    stream1: u32,
    slot2: u32,
    stream2: u32,
)
    requires
        slot1 != slot2 || stream1 != stream2,
    ensures
        noise_word(seed, step, slot1, stream1) != noise_word(seed, step, slot2, stream2),
{
    if noise_word(seed, step, slot1, stream1) == noise_word(seed, step, slot2, stream2) {
        let t = time_word(seed, step);
        lemma_mix_injective(t ^ space_word(slot1, stream1), t ^ space_word(slot2, stream2));
        assert(space_word(slot1, stream1) ^ t == space_word(slot2, stream2) ^ t) by {
            let (x, y) = (space_word(slot1, stream1), space_word(slot2, stream2));
            assert(t ^ x == x ^ t && t ^ y == y ^ t) by (bit_vector);
        }
        lemma_xor_cancels(space_word(slot1, stream1), space_word(slot2, stream2), t);
        lemma_mix_injective(packed_space(slot1, stream1), packed_space(slot2, stream2));
        lemma_packed_space_injective(slot1, stream1, slot2, stream2);
    }
}

/// The time half of the coordinate tells apart both the steps of one episode
/// and the seeds of two episodes.
proof fn lemma_time_word_injective(seed1: u64, step1: u64, seed2: u64, step2: u64)
    requires
        time_word(seed1, step1) == time_word(seed2, step2),
        seed1 == seed2 || step1 == step2,
    ensures
        seed1 == seed2,
        step1 == step2,
{
    let s1 = u64_specs::wrapping_mul(step1, STEP_MUL);
    let s2 = u64_specs::wrapping_mul(step2, STEP_MUL);
    lemma_mix_injective(seed1 ^ s1, seed2 ^ s2);
    if seed1 == seed2 {
        assert(s1 ^ seed1 == s2 ^ seed1) by {
            assert(seed1 ^ s1 == s1 ^ seed1 && seed1 ^ s2 == s2 ^ seed1) by (bit_vector);
        }
        lemma_xor_cancels(s1, s2, seed1);
        assert((STEP_MUL as int * 0x0610_6CCF_A448_E5ABint) % (word_modulus() as int) == 1);
        lemma_wrapping_mul_injective(step1, step2, STEP_MUL, 0x0610_6CCF_A448_E5AB);
    } else {
        lemma_xor_cancels(seed1, seed2, s1);
    }
}

/// For one agent and one stream, two different steps of an episode never
/// share a noise word.
pub proof fn lemma_noise_separates_steps(seed: u64, step1: u64, step2: u64, slot: u32, stream: u32)
    requires
        step1 != step2,
    ensures
        noise_word(seed, step1, slot, stream) != noise_word(seed, step2, slot, stream),
{
    if noise_word(seed, step1, slot, stream) == noise_word(seed, step2, slot, stream) {
        let s = space_word(slot, stream);
        lemma_mix_injective(time_word(seed, step1) ^ s, time_word(seed, step2) ^ s);
        lemma_xor_cancels(time_word(seed, step1), time_word(seed, step2), s);
        lemma_time_word_injective(seed, step1, seed, step2);
    }
}

/// For one agent, stream and step, two different seeds never share a noise
/// word.
pub proof fn lemma_noise_separates_seeds(seed1: u64, seed2: u64, step: u64, slot: u32, stream: u32)
    requires
        seed1 != seed2,
    ensures
        noise_word(seed1, step, slot, stream) != noise_word(seed2, step, slot, stream),
{
    if noise_word(seed1, step, slot, stream) == noise_word(seed2, step, slot, stream) {
        let s = space_word(slot, stream);
        lemma_mix_injective(time_word(seed1, step) ^ s, time_word(seed2, step) ^ s);
        lemma_xor_cancels(time_word(seed1, step), time_word(seed2, step), s);
        lemma_time_word_injective(seed1, step, seed2, step);
    }
}

} // verus!
