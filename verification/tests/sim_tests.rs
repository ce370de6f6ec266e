use brownian::config;
use brownian::sim::stream;
use brownian::sim::{mix, noise, noise_unit_numerator, SimClock};

/// The property the whole module exists for: an agent's noise does not depend
/// on when it is asked for, nor on how many were asked for before.
#[test]
fn noise_is_independent_of_query_order() {
    let (seed, step) = (0xABCD_1234, 42);
    let forward: Vec<u64> = (0..64).map(|s| noise(seed, step, s, 0)).collect();
    let backward: Vec<u64> = (0..64).rev().map(|s| noise(seed, step, s, 0)).collect();

    for (slot, value) in backward.iter().rev().enumerate() {
        assert_eq!(*value, forward[slot], "el slot {slot} cambio con el orden");
    }
}

/// None of the four coordinates may be left without effect.
#[test]
fn every_coordinate_changes_the_result() {
    let base = noise(1, 1, 1, 1);
    assert_ne!(base, noise(2, 1, 1, 1), "la semilla no entra en la mezcla");
    assert_ne!(base, noise(1, 2, 1, 1), "el paso no entra en la mezcla");
    assert_ne!(base, noise(1, 1, 2, 1), "el slot no entra en la mezcla");
    assert_ne!(base, noise(1, 1, 1, 2), "el flujo no entra en la mezcla");
}

/// A shift of the step against a shift of the slot must not collide.
#[test]
fn step_and_slot_do_not_alias() {
    for k in 1..1000u64 {
        assert_ne!(noise(7, k, 3, 0), noise(7, k - 1, 4, 0));
        assert_ne!(noise(7, k, 3, 0), noise(7, k + 1, 2, 0));
    }
}

/// The Brownian kick needs an unbiased angle: the unit sample built from the
/// 24-bit numerator must be uniform on `[0, 1)`.
#[test]
fn unit_noise_is_uniform() {
    const N: u32 = 100_000;
    let scale: f32 = 1.0 / (1u32 << 24) as f32;
    let mut sum = 0.0f64;
    let mut buckets = [0u32; 10];

    for slot in 0..N {
        let u = noise_unit_numerator(0xDEAD_BEEF, 1, slot, 0) as f32 * scale;
        assert!((0.0..1.0).contains(&u), "fuera de rango: {u}");
        sum += u as f64;
        buckets[(u * 10.0) as usize] += 1;
    }

    let mean = sum / N as f64;
    assert!((mean - 0.5).abs() < 0.01, "media sesgada: {mean}");

    let expected = N as f64 / 10.0;
    for (i, count) in buckets.iter().enumerate() {
        let deviation = (*count as f64 - expected).abs() / expected;
        assert!(deviation < 0.15, "cubo {i} desviado un {:.1}%", deviation * 100.0);
    }
}

#[test]
fn mix_matches_the_splitmix64_finaliser() {
    // First output of SplitMix64 seeded with 0, and with 1.
    assert_eq!(mix(0), 0xE220_A839_7B1D_CDAF);
    assert_eq!(mix(1), 0x910A_2DEC_8902_5CC1);
}

#[test]
fn noise_has_the_expected_words() {
    assert_eq!(noise(1, 1, 1, 1), 0x9C45_709E_6C06_B5DA);
    // Both halves equal: the word is the mix of zero.
    assert_eq!(noise(0, 0, 0, 0), mix(0));
    assert_eq!(noise(config::RNG_SEED, 42, 7, stream::IMPULSE_ANGLE), 0xD49B_DCF5_64BC_D907);
}

#[test]
fn unit_numerator_is_the_high_24_bits() {
    assert_eq!(noise_unit_numerator(1, 1, 1, 1), 10_241_392);
    assert_eq!(noise_unit_numerator(1, 1, 1, 1) as u64, noise(1, 1, 1, 1) >> 40);
    assert_eq!(noise_unit_numerator(0xDEAD_BEEF, 1, 0, 0), 9_614_927);
    for slot in 0..1000 {
        assert!(noise_unit_numerator(3, 9, slot, 0) < (1 << 24));
    }
}

/// Within one step, all agents of a large world get different words, and so
/// do the streams of one agent (the separation law on concrete values).
#[test]
fn agents_and_streams_of_one_step_never_share_a_word() {
    let mut words: Vec<u64> = Vec::new();
    for slot in 0..200u32 {
        for s in 0..5u32 {
            words.push(noise(99, 17, slot, s));
        }
    }
    let n = words.len();
    words.sort_unstable();
    words.dedup();
    assert_eq!(words.len(), n);
}

/// Steps of one agent never repeat a word, nor do seeds of one step.
#[test]
fn steps_and_seeds_never_share_a_word() {
    let mut by_step: Vec<u64> = (0..5000u64).map(|k| noise(5, k, 2, 0)).collect();
    by_step.sort_unstable();
    by_step.dedup();
    assert_eq!(by_step.len(), 5000);

    let mut by_seed: Vec<u64> = (0..5000u64).map(|s| noise(s, 8, 2, 0)).collect();
    by_seed.sort_unstable();
    by_seed.dedup();
    assert_eq!(by_seed.len(), 5000);
}

#[test]
fn clock_starts_at_the_fixed_seed() {
    let clock = SimClock::default();
    assert_eq!(clock.seed, config::RNG_SEED);
    assert_eq!(clock.step, 0);
}

#[test]
fn clock_advances_once_per_step_and_wraps() {
    let mut clock = SimClock { seed: 3, step: 41 };
    clock.advance();
    assert_eq!((clock.seed, clock.step), (3, 42));

    let mut end = SimClock { seed: 3, step: u64::MAX };
    end.advance();
    assert_eq!(end.step, 0);
}

/// The episode truncates after its last step, and `reset` starts it over.
#[test]
fn clock_truncates_and_resets() {
    let mut clock = SimClock { seed: 4, step: 0 };
    assert!(!clock.truncated());
    for _ in 0..config::MAX_EPISODE_STEPS - 1 {
        clock.advance();
    }
    assert!(!clock.truncated());
    clock.advance();
    assert!(clock.truncated());

    clock.reset(77);
    assert!(!clock.truncated());
    assert_eq!((clock.seed, clock.step), (77, 0));
}

/// Two clocks reset with the same seed read the same noise from then on,
/// whatever they went through before.
#[test]
fn reset_makes_the_noise_reproducible() {
    let mut a = SimClock { seed: 1, step: 300 };
    let mut b = SimClock { seed: 999, step: 0 };
    a.reset(77);
    b.reset(77);
    for _ in 0..250 {
        a.advance();
        b.advance();
        assert_eq!(
            noise(a.seed, a.step, 0, stream::IMPULSE_ANGLE),
            noise(b.seed, b.step, 0, stream::IMPULSE_ANGLE)
        );
    }
}

#[test]
fn reset_with_one_seed_replays_from_any_state() {
    let mut a = SimClock { seed: 1, step: 77 };
    let mut b = SimClock { seed: 0xFFFF, step: u64::MAX };
    a.reset(42);
    b.reset(42);
    for k in 1..=500u64 {
        a.advance();
        b.advance();
        assert_eq!((a.seed, a.step), (b.seed, b.step));
        assert_eq!(a.step, k);
        assert_eq!(noise(a.seed, a.step, 3, 1), noise(b.seed, b.step, 3, 1));
    }
}
