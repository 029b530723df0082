use md5::{Digest, Md5};
use md5_many::dispatch::{hash_many_with_level, lanes_with_level, SimdLevel};
use md5_many::tuning::{X86Tuning, X86TuningClass};

const LEVELS: [SimdLevel; 7] = [
    SimdLevel::Fallback,
    SimdLevel::Neon,
    SimdLevel::WasmSimd128,
    SimdLevel::Sse2,
    SimdLevel::Sse4_2,
    SimdLevel::Avx2,
    SimdLevel::Avx512,
];

const TUNINGS: [X86Tuning; 4] = [
    X86Tuning { class: X86TuningClass::Generic, has_bmi1: false },
    X86Tuning { class: X86TuningClass::AmdFamily19h, has_bmi1: true },
    X86Tuning { class: X86TuningClass::AmdFamily19h, has_bmi1: false },
    X86Tuning { class: X86TuningClass::IntelFamily06ModelCf, has_bmi1: true },
];

const COUNTS: [usize; 30] = [
    0, 1, 2, 3, 4, 5, 7, 8, 9, 12, 15, 16, 17, 20, 23, 24, 25, 26, 30, 31, 32, 33, 40, 47, 48,
    49, 50, 53, 57, 64,
];

fn reference(input: &[u8]) -> [u8; 16] {
    let mut hasher = Md5::new();
    hasher.update(input);
    hasher.finalize().into()
}

fn message(lane: usize, len: usize) -> Vec<u8> {
    (0..len)
        .map(|index| (index as u8).wrapping_mul(29).wrapping_add((lane as u8).wrapping_mul(13)))
        .collect()
}

fn check_batch(level: SimdLevel, tuning: &X86Tuning, data: &[Vec<u8>]) {
    let inputs: Vec<&[u8]> = data.iter().map(Vec::as_slice).collect();
    let sentinel = [0xa5u8; 16];
    let mut outputs = vec![sentinel; inputs.len() + 2];
    hash_many_with_level(level, tuning, &inputs, &mut outputs);
    for (lane, input) in inputs.iter().enumerate() {
        assert_eq!(
            outputs[lane],
            reference(input),
            "level={level:?} tuning={tuning:?} count={} lane={lane} len={}",
            inputs.len(),
            input.len()
        );
    }
    assert_eq!(outputs[inputs.len()], sentinel);
    assert_eq!(outputs[inputs.len() + 1], sentinel);
}

fn run_shape(lengths: impl Fn(usize, usize) -> usize) {
    for level in LEVELS {
        for tuning in &TUNINGS {
            for &count in &COUNTS {
                let data: Vec<Vec<u8>> =
                    (0..count).map(|lane| message(lane, lengths(lane, count))).collect();
                check_batch(level, tuning, &data);
            }
        }
    }
}

#[test]
fn equal_length_batches_match_reference_at_every_level() {
    run_shape(|_, _| 150);
}

#[test]
fn mixed_length_batches_match_reference_at_every_level() {
    run_shape(|lane, _| 64 + (lane * 37) % 300);
}

#[test]
fn skewed_batches_match_reference_at_every_level() {
    run_shape(|lane, count| if lane % 3 == 0 || lane + 1 == count { 1500 } else { 20 });
}

#[test]
fn mostly_short_batches_match_reference_at_every_level() {
    run_shape(|lane, _| if lane % 5 == 1 { 1100 } else { (lane * 7) % 70 });
}

#[test]
fn long_equal_batches_use_padded_zmm_on_intel_cf() {
    let tuning = X86Tuning { class: X86TuningClass::IntelFamily06ModelCf, has_bmi1: false };
    for count in [2usize, 5, 8] {
        let data: Vec<Vec<u8>> = (0..count).map(|lane| message(lane, 700)).collect();
        check_batch(SimdLevel::Avx512, &tuning, &data);
        let mixed: Vec<Vec<u8>> = (0..count).map(|lane| message(lane, 520 + lane * 3)).collect();
        check_batch(SimdLevel::Avx512, &tuning, &mixed);
    }
}

#[test]
fn padding_boundary_lengths_match_reference() {
    for len in [0usize, 1, 55, 56, 57, 63, 64, 65, 119, 120, 127, 128] {
        for count in [1usize, 3, 8, 16, 24, 48] {
            let data: Vec<Vec<u8>> = (0..count).map(|lane| message(lane, len)).collect();
            check_batch(SimdLevel::Avx512, &TUNINGS[0], &data);
            check_batch(SimdLevel::Avx2, &TUNINGS[1], &data);
            check_batch(SimdLevel::Sse2, &TUNINGS[0], &data);
        }
    }
}

#[test]
fn growing_lengths_batch_matches_reference_at_every_level() {
    let data: Vec<Vec<u8>> = (0..19).map(|lane| message(lane, 40 * lane)).collect();
    let inputs: Vec<&[u8]> = data.iter().map(Vec::as_slice).collect();
    for level in [
        SimdLevel::Fallback,
        SimdLevel::Neon,
        SimdLevel::WasmSimd128,
        SimdLevel::Sse2,
        SimdLevel::Sse4_2,
        SimdLevel::Avx2,
        SimdLevel::Avx512,
    ] {
        let mut outputs = vec![[0u8; 16]; inputs.len()];
        hash_many_with_level(level, &TUNINGS[0], &inputs, &mut outputs);
        for (lane, input) in inputs.iter().enumerate() {
            assert_eq!(outputs[lane], reference(input), "level={level:?}, lane={lane}");
        }
    }
}

#[test]
fn readme_batch_example() {
    let inputs: [&[u8]; 4] = [b"alpha", b"beta", b"gamma", b"delta"];
    let mut outputs = [[0u8; 16]; 4];
    hash_many_with_level(SimdLevel::Avx2, &TUNINGS[0], &inputs, &mut outputs);
    for (input, output) in inputs.iter().zip(outputs.iter()) {
        assert_eq!(*output, reference(input));
    }
}

#[test]
fn lane_counts_per_level() {
    assert_eq!(lanes_with_level(SimdLevel::Avx512), 16);
    assert_eq!(lanes_with_level(SimdLevel::Avx2), 8);
    assert_eq!(lanes_with_level(SimdLevel::Sse4_2), 4);
    assert_eq!(lanes_with_level(SimdLevel::Sse2), 4);
    assert_eq!(lanes_with_level(SimdLevel::Neon), 4);
    assert_eq!(lanes_with_level(SimdLevel::WasmSimd128), 4);
    assert_eq!(lanes_with_level(SimdLevel::Fallback), 1);
}
