use md5::{Digest, Md5};
use md5_many::consts::STATE_INIT;
use md5_many::dispatch::{
    compress_many_blocks_with_level, compress_md5_states_blocks_validated_with_level, SimdLevel,
};
use md5_many::neon::{hash_equal_len_run, transpose4};
use md5_many::portable::Md5State;
use md5_many::scalar::{
    build_padded_block, compress_block, padded_blocks_for_len, padded_byte, state_digest,
};
use md5_many::schedule::{skew_partition, skew_partition_dynamic};
use md5_many::tuning::{
    amd_family_19h, intel_family_06_model_cf, prefer_dual_scalar_pair, saturating_mul,
    x86_has_bmi1, x86_tuning_class, CpuidLeaf, X86Tuning, X86TuningClass,
};

fn reference(input: &[u8]) -> [u8; 16] {
    let mut hasher = Md5::new();
    hasher.update(input);
    hasher.finalize().into()
}

fn message(lane: usize, len: usize) -> Vec<u8> {
    (0..len)
        .map(|index| (index as u8).wrapping_mul(31).wrapping_add((lane as u8).wrapping_mul(7)))
        .collect()
}

const AMD_LEAF0: CpuidLeaf = CpuidLeaf { eax: 0x10, ebx: 0x6874_7541, ecx: 0x444d_4163, edx: 0x6974_6e65 };
const INTEL_LEAF0: CpuidLeaf = CpuidLeaf { eax: 0x20, ebx: 0x756e_6547, ecx: 0x6c65_746e, edx: 0x4965_6e69 };

fn leaf1(eax: u32) -> CpuidLeaf {
    CpuidLeaf { eax, ebx: 0, ecx: 0, edx: 0 }
}

#[test]
fn tuning_class_from_cpuid_signatures() {
    // Zen 3: base family 0xF, extended family 0xA, so family 0x19.
    assert_eq!(x86_tuning_class(&AMD_LEAF0, &leaf1(0x00A2_0F10)), X86TuningClass::AmdFamily19h);
    // Zen 2: family 0x17.
    assert_eq!(x86_tuning_class(&AMD_LEAF0, &leaf1(0x0083_0F10)), X86TuningClass::Generic);
    // Family 6, extended model 0xC, base model 0xF: model 0xCF.
    assert_eq!(
        x86_tuning_class(&INTEL_LEAF0, &leaf1(0x000C_06F0)),
        X86TuningClass::IntelFamily06ModelCf
    );
    // Family 6 model 0x8F is not the measured part.
    assert_eq!(x86_tuning_class(&INTEL_LEAF0, &leaf1(0x0008_06F0)), X86TuningClass::Generic);
    // An AMD signature with an Intel family is generic, and so is a swapped vendor.
    assert_eq!(x86_tuning_class(&INTEL_LEAF0, &leaf1(0x00A2_0F10)), X86TuningClass::Generic);
    assert_eq!(x86_tuning_class(&AMD_LEAF0, &leaf1(0x000C_06F0)), X86TuningClass::Generic);
}

#[test]
fn bmi1_feature_bit() {
    assert!(x86_has_bmi1(7, 1 << 3));
    assert!(x86_has_bmi1(0x10, 0xffff_ffff));
    assert!(!x86_has_bmi1(6, 1 << 3));
    assert!(!x86_has_bmi1(7, !(1u32 << 3)));
}

#[test]
fn tuning_predicates() {
    let amd = X86Tuning { class: X86TuningClass::AmdFamily19h, has_bmi1: true };
    let intel = X86Tuning { class: X86TuningClass::IntelFamily06ModelCf, has_bmi1: true };
    assert!(amd_family_19h(&amd) && !intel_family_06_model_cf(&amd));
    assert!(intel_family_06_model_cf(&intel) && !amd_family_19h(&intel));
}

#[test]
fn saturating_multiplication() {
    assert_eq!(saturating_mul(3, 16), 48);
    assert_eq!(saturating_mul(0, usize::MAX), 0);
    assert_eq!(saturating_mul(usize::MAX / 2 + 1, 2), usize::MAX);
}

#[test]
fn dual_scalar_pair_preference() {
    let amd = X86Tuning { class: X86TuningClass::AmdFamily19h, has_bmi1: true };
    let no_bmi = X86Tuning { class: X86TuningClass::AmdFamily19h, has_bmi1: false };
    let generic = X86Tuning { class: X86TuningClass::Generic, has_bmi1: true };
    let short = vec![0u8; 100];
    let long = vec![0u8; 64 * 40];
    let very_long = vec![0u8; 64 * 1000];
    assert!(prefer_dual_scalar_pair(&amd, &[&short, &short]));
    // 41 padded blocks against 2: more skewed than 1:16 and above the tiny-pair limit.
    assert!(!prefer_dual_scalar_pair(&amd, &[&short, &long]));
    assert!(prefer_dual_scalar_pair(&amd, &[&long, &long]));
    assert!(!prefer_dual_scalar_pair(&amd, &[&long, &very_long]));
    assert!(!prefer_dual_scalar_pair(&no_bmi, &[&short, &short]));
    assert!(!prefer_dual_scalar_pair(&generic, &[&short, &short]));
    assert!(!prefer_dual_scalar_pair(&amd, &[&short, &short, &short]));
}

#[test]
fn padded_block_counts() {
    assert_eq!(padded_blocks_for_len(0), 1);
    assert_eq!(padded_blocks_for_len(55), 1);
    assert_eq!(padded_blocks_for_len(56), 2);
    assert_eq!(padded_blocks_for_len(63), 2);
    assert_eq!(padded_blocks_for_len(64), 2);
    assert_eq!(padded_blocks_for_len(119), 2);
    assert_eq!(padded_blocks_for_len(120), 3);
    assert_eq!(padded_blocks_for_len(1024), 17);
}

#[test]
fn padded_blocks_and_bytes() {
    let input = message(0, 70);
    let blocks = padded_blocks_for_len(input.len());
    assert_eq!(blocks, 2);
    let first = build_padded_block(&input, blocks, 0);
    assert_eq!(&first[..], &input[..64]);
    let last = build_padded_block(&input, blocks, 1);
    assert_eq!(&last[..6], &input[64..]);
    assert_eq!(last[6], 0x80);
    assert!(last[7..56].iter().all(|&b| b == 0));
    assert_eq!(&last[56..], &(70u64 * 8).to_le_bytes());
    for k in 0..128 {
        let expected = if k < 64 { first[k] } else { last[k - 64] };
        assert_eq!(padded_byte(&input, blocks, k), expected, "k={k}");
    }
    // The length field is written over the last block of the requested count.
    let short = b"abc";
    let overwritten = build_padded_block(short, 1, 0);
    assert_eq!(&overwritten[..3], b"abc");
    assert_eq!(overwritten[3], 0x80);
    assert_eq!(&overwritten[56..], &24u64.to_le_bytes());
}

#[test]
fn one_block_compression_is_md5_of_short_message() {
    let input = b"The quick brown fox jumps over the lazy dog";
    let block = build_padded_block(input, 1, 0);
    let mut state = STATE_INIT;
    compress_block(&mut state, &block);
    assert_eq!(
        state_digest(&state),
        [
            0x9e, 0x10, 0x7d, 0x9d, 0x37, 0x2b, 0xb6, 0x82, 0x6b, 0xd8, 0x1d, 0x35, 0x42, 0xa4,
            0x19, 0xd6
        ]
    );
}

#[test]
fn transpose_of_rows() {
    let rows = [[1u32, 2, 3, 4], [5, 6, 7, 8], [9, 10, 11, 12], [13, 14, 15, 16]];
    let cols = transpose4(rows);
    assert_eq!(cols, [[1, 5, 9, 13], [2, 6, 10, 14], [3, 7, 11, 15], [4, 8, 12, 16]]);
    assert_eq!(transpose4(cols), rows);
}

#[test]
fn fixed_skew_partition_orders_short_lanes_first() {
    // Lanes 1, 3, 5, ... are long (20 blocks); the rest are short (2 blocks).
    let data: Vec<Vec<u8>> =
        (0..16).map(|lane| vec![0u8; if lane % 2 == 1 { 64 * 19 } else { 64 }]).collect();
    let inputs: Vec<&[u8]> = data.iter().map(Vec::as_slice).collect();
    let order = skew_partition::<16, 8>(&inputs).expect("eight short lanes");
    assert_eq!(order, [0, 2, 4, 6, 8, 10, 12, 14, 1, 3, 5, 7, 9, 11, 13, 15]);
    // Ten short lanes: only the first eight go to the front.
    let data: Vec<Vec<u8>> =
        (0..16).map(|lane| vec![0u8; if lane < 6 { 64 * 19 } else { 10 }]).collect();
    let inputs: Vec<&[u8]> = data.iter().map(Vec::as_slice).collect();
    let order = skew_partition::<16, 8>(&inputs).expect("ten short lanes");
    assert_eq!(order, [6, 7, 8, 9, 10, 11, 12, 13, 0, 1, 2, 3, 4, 5, 14, 15]);
    // Seven short lanes are not enough.
    let data: Vec<Vec<u8>> =
        (0..16).map(|lane| vec![0u8; if lane < 9 { 64 * 19 } else { 10 }]).collect();
    let inputs: Vec<&[u8]> = data.iter().map(Vec::as_slice).collect();
    assert_eq!(skew_partition::<16, 8>(&inputs), None);
}

#[test]
fn dynamic_skew_partition_splits_short_and_long() {
    let lens = [1000usize, 10, 2000, 20, 30, 1500];
    let data: Vec<Vec<u8>> = lens.iter().map(|&len| vec![1u8; len]).collect();
    let inputs: Vec<&[u8]> = data.iter().map(Vec::as_slice).collect();
    let (order, split) = skew_partition_dynamic::<8>(&inputs).expect("mixed batch");
    // Padded blocks 16, 1, 32, 1, 1, 24: at most half of 32 is short.
    assert_eq!(split, 4);
    assert_eq!(order, [0, 1, 3, 4, 2, 5, 0, 0]);
    // All equally long, or all short: no split.
    let data: Vec<Vec<u8>> = (0..5).map(|_| vec![1u8; 300]).collect();
    let inputs: Vec<&[u8]> = data.iter().map(Vec::as_slice).collect();
    assert_eq!(skew_partition_dynamic::<8>(&inputs), None);
}

fn compressed_then_finished(state: [u32; 4], input: &[u8]) -> [u8; 16] {
    // `input` is block aligned, so its padding is one extra block.
    let blocks = input.len() / 64;
    let tail = build_padded_block(input, blocks + 1, blocks);
    let mut state = state;
    compress_block(&mut state, &tail);
    state_digest(&state)
}

#[test]
fn block_compression_at_every_level_matches_reference() {
    for level in [
        SimdLevel::Fallback,
        SimdLevel::Sse2,
        SimdLevel::Sse4_2,
        SimdLevel::Avx2,
        SimdLevel::Avx512,
        SimdLevel::Neon,
    ] {
        for count in [0usize, 1, 2, 3, 4, 5, 8, 12, 16, 20, 24, 32, 40, 48] {
            let data: Vec<Vec<u8>> = (0..count).map(|lane| message(lane, 192)).collect();
            let inputs: Vec<&[u8]> = data.iter().map(Vec::as_slice).collect();
            let mut states = vec![STATE_INIT; count];
            compress_many_blocks_with_level(level, &mut states, &inputs);
            for lane in 0..count {
                assert_eq!(
                    compressed_then_finished(states[lane], inputs[lane]),
                    reference(inputs[lane]),
                    "level={level:?} count={count} lane={lane}"
                );
            }
            if count > 0 {
                let mut streams = vec![Md5State { state: STATE_INIT }; count];
                compress_md5_states_blocks_validated_with_level(level, &mut streams, &inputs);
                for lane in 0..count {
                    assert_eq!(streams[lane].state, states[lane], "level={level:?} count={count}");
                }
            }
        }
    }
}

#[test]
fn block_compression_in_two_steps_equals_one_step() {
    let data: Vec<Vec<u8>> = (0..9).map(|lane| message(lane, 256)).collect();
    let whole: Vec<&[u8]> = data.iter().map(Vec::as_slice).collect();
    let heads: Vec<&[u8]> = data.iter().map(|d| &d[..128]).collect();
    let tails: Vec<&[u8]> = data.iter().map(|d| &d[128..]).collect();
    let mut one_step = vec![STATE_INIT; 9];
    compress_many_blocks_with_level(SimdLevel::Avx2, &mut one_step, &whole);
    let mut two_steps = vec![STATE_INIT; 9];
    compress_many_blocks_with_level(SimdLevel::Avx512, &mut two_steps, &heads);
    compress_many_blocks_with_level(SimdLevel::Sse2, &mut two_steps, &tails);
    assert_eq!(one_step, two_steps);
}

#[test]
fn equal_length_run_leaves_the_remainder_untouched() {
    for &count in &[0usize, 1, 3, 7, 14] {
        let data: Vec<Vec<u8>> = (0..count).map(|lane| message(lane, 70)).collect();
        let inputs: Vec<&[u8]> = data.iter().map(Vec::as_slice).collect();
        let sentinel = [0xa5u8; 16];
        let mut outputs = vec![sentinel; count + 2];
        let processed = hash_equal_len_run(&inputs, &mut outputs);
        assert_eq!(processed, count - count % 4, "count={count}");
        for lane in 0..processed {
            assert_eq!(outputs[lane], reference(inputs[lane]), "count={count}, lane={lane}");
        }
        for lane in processed..outputs.len() {
            assert_eq!(outputs[lane], sentinel, "count={count}, lane={lane}");
        }
    }
}

#[test]
fn equal_length_run_of_fewer_than_four_mixed_lengths_hashes_nothing() {
    let data: Vec<Vec<u8>> = vec![message(0, 3), message(1, 90), message(2, 0)];
    let inputs: Vec<&[u8]> = data.iter().map(Vec::as_slice).collect();
    let sentinel = [0x5au8; 16];
    let mut outputs = vec![sentinel; 3];
    assert_eq!(hash_equal_len_run(&inputs, &mut outputs), 0);
    assert!(outputs.iter().all(|digest| *digest == sentinel));
}

#[test]
fn padded_byte_inside_the_message_needs_no_padded_length() {
    let input = b"abcdef";
    assert_eq!(padded_byte(input, usize::MAX, 2), b'c');
    assert_eq!(padded_byte(input, usize::MAX, 6), 0x80);
}
