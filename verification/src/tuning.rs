//! CPU tuning classes and the small-batch scalar-pair heuristics that depend on them.
//!
//! Reading CPUID is left to the caller; these functions decide from the register values.
use vstd::prelude::*;

use crate::scalar::padded_blocks_for_len;
use crate::spec::padded_block_count;

verus! {

/// The four registers returned by one CPUID query.
#[derive(Clone, Copy, Debug)]
pub struct CpuidLeaf {
    pub eax: u32,
    pub ebx: u32,
    pub ecx: u32,
    pub edx: u32,
}

/// The model-specific crossover classes that the x86 scheduler distinguishes.
#[derive(Clone, Copy, Debug, PartialEq, Eq, Structural)]
pub enum X86TuningClass {
    Generic,
    AmdFamily19h,
    IntelFamily06ModelCf,
}

/// What the x86 scheduler knows of the CPU: its tuning class and whether BMI1 is usable.
#[derive(Clone, Copy, Debug)]
pub struct X86Tuning {
    pub class: X86TuningClass,
    pub has_bmi1: bool,
}

/// The displayed family of a CPUID leaf-1 signature.
pub open spec fn cpu_family(eax: u32) -> u32 {
    let base = (eax >> 8u32) & 0x0f;
    if base == 0x0f {
        (base + ((eax >> 20u32) & 0xff)) as u32
    } else {
        base
    }
}

/// The displayed model of a CPUID leaf-1 signature.
pub open spec fn cpu_model(eax: u32) -> u32 {
    let base_family = (eax >> 8u32) & 0x0f;
    let base_model = (eax >> 4u32) & 0x0f;
    if base_family == 0x06 || base_family == 0x0f {
        base_model | (((eax >> 16u32) & 0x0f) << 4u32)
    } else {
        base_model
    }
}

/// The vendor string of leaf 0 reads "AuthenticAMD".
pub open spec fn is_authentic_amd(leaf0: CpuidLeaf) -> bool {
    leaf0.ebx == 0x6874_7541 && leaf0.edx == 0x6974_6e65 && leaf0.ecx == 0x444d_4163
}

/// The vendor string of leaf 0 reads "GenuineIntel".
pub open spec fn is_genuine_intel(leaf0: CpuidLeaf) -> bool {
    leaf0.ebx == 0x756e_6547 && leaf0.edx == 0x4965_6e69 && leaf0.ecx == 0x6c65_746e
}

/// The tuning class of a CPU described by CPUID leaves 0 and 1.
pub open spec fn tuning_class_of(leaf0: CpuidLeaf, leaf1: CpuidLeaf) -> X86TuningClass {
    if is_authentic_amd(leaf0) && cpu_family(leaf1.eax) == 0x19 {
        X86TuningClass::AmdFamily19h
    } else if is_genuine_intel(leaf0) && cpu_family(leaf1.eax) == 0x06 && cpu_model(leaf1.eax)
        == 0xcf {
        X86TuningClass::IntelFamily06ModelCf
    } else {
        X86TuningClass::Generic
    }
}

/// A CPU is in the AMD family 19h class exactly when its vendor string reads "AuthenticAMD"
/// and its signature has base family 0xF with extended family 0x0A, the one encoding of
/// displayed family 0x19: every other family, 0x17 and 0x1A among them, is not.
pub proof fn lemma_amd_family_19h_class_exact(leaf0: CpuidLeaf, leaf1: CpuidLeaf)
    ensures
        (tuning_class_of(leaf0, leaf1) == X86TuningClass::AmdFamily19h) <==> (leaf0.ebx
            == 0x6874_7541 && leaf0.edx == 0x6974_6e65 && leaf0.ecx == 0x444d_4163 && (leaf1.eax
            >> 8u32) & 0xf == 0xf && (leaf1.eax >> 20u32) & 0xff == 0x0a),
{
    let eax = leaf1.eax;
    assert((cpu_family(eax) == 0x19) <==> ((eax >> 8u32) & 0xf == 0xf && (eax >> 20u32) & 0xff
        == 0x0a)) by (bit_vector);
}

/// A CPU is in the Intel family 6 model 0xCF class exactly when its vendor string reads
/// "GenuineIntel" and its signature has base family 6, base model 0xF and extended model
/// 0xC.
pub proof fn lemma_intel_model_cf_class_exact(leaf0: CpuidLeaf, leaf1: CpuidLeaf)
    ensures
        (tuning_class_of(leaf0, leaf1) == X86TuningClass::IntelFamily06ModelCf) <==> (leaf0.ebx
            == 0x756e_6547 && leaf0.edx == 0x4965_6e69 && leaf0.ecx == 0x6c65_746e && (leaf1.eax
            >> 8u32) & 0xf == 0x6 && (leaf1.eax >> 4u32) & 0xf == 0xf && (leaf1.eax >> 16u32)
            & 0xf == 0xc),
{
    let eax = leaf1.eax;
    assert((cpu_family(eax) == 0x06 && cpu_model(eax) == 0xcf) <==> ((eax >> 8u32) & 0xf == 0x6
        && (eax >> 4u32) & 0xf == 0xf && (eax >> 16u32) & 0xf == 0xc)) by (bit_vector);
}

/// Classify a CPU from CPUID leaves 0 and 1: AMD family 19h, Intel family 6 model 0xCF, or
/// generic.
pub fn x86_tuning_class(leaf0: &CpuidLeaf, leaf1: &CpuidLeaf) -> (class: X86TuningClass)
    ensures
        class == tuning_class_of(*leaf0, *leaf1),
{
    let eax = leaf1.eax;
    let base_family = (eax >> 8) & 0x0f;
    let ext_family = (eax >> 20) & 0xff;
    let family = if base_family == 0x0f {
        assert(base_family + ext_family <= 0xff + 0x0f) by (bit_vector)
            requires
                base_family == (eax >> 8u32) & 0x0f,
                ext_family == (eax >> 20u32) & 0xff,
        ;
        base_family + ext_family
    } else {
        base_family
    };
    let base_model = (eax >> 4) & 0x0f;
    let ext_model = (eax >> 16) & 0x0f;
    let model = if base_family == 0x06 || base_family == 0x0f {
        base_model | (ext_model << 4)
    } else {
        base_model
    };
    let authentic_amd = leaf0.ebx == 0x6874_7541 && leaf0.edx == 0x6974_6e65 && leaf0.ecx
        == 0x444d_4163;
    let genuine_intel = leaf0.ebx == 0x756e_6547 && leaf0.edx == 0x4965_6e69 && leaf0.ecx
        == 0x6c65_746e;
    if authentic_amd && family == 0x19 {
        X86TuningClass::AmdFamily19h
    } else if genuine_intel && family == 0x06 && model == 0xcf {
        X86TuningClass::IntelFamily06ModelCf
    } else {
        X86TuningClass::Generic
    }
}

/// Whether CPUID reports BMI1 (leaf 7, sub-leaf 0, EBX bit 3); `leaf7_ebx` is only consulted
/// when the highest basic leaf `max_leaf` is at least 7.
pub fn x86_has_bmi1(max_leaf: u32, leaf7_ebx: u32) -> (available: bool)
    ensures
        available == (max_leaf >= 7 && leaf7_ebx & 8 != 0),
{
    assert(1u32 << 3u32 == 8) by (bit_vector);
    max_leaf >= 7 && (leaf7_ebx & (1 << 3)) != 0
}

/// Whether the CPU is in the AMD family 19h tuning class.
pub fn amd_family_19h(tuning: &X86Tuning) -> (b: bool)
    ensures
        b == (tuning.class == X86TuningClass::AmdFamily19h),
{
    tuning.class == X86TuningClass::AmdFamily19h
}

/// Whether the CPU is in the Intel family 6 model 0xCF tuning class.
pub fn intel_family_06_model_cf(tuning: &X86Tuning) -> (b: bool)
    ensures
        b == (tuning.class == X86TuningClass::IntelFamily06ModelCf),
{
    tuning.class == X86TuningClass::IntelFamily06ModelCf
}

/// `a * k`, or `usize::MAX` where that overflows.
pub open spec fn sat_mul_spec(a: nat, k: nat) -> nat {
    if a * k > usize::MAX {
        usize::MAX as nat
    } else {
        a * k
    }
}

/// `a * k`, saturating at `usize::MAX`.
pub fn saturating_mul(a: usize, k: usize) -> (r: usize)
    ensures
        r == sat_mul_spec(a as nat, k as nat),
{
    match a.checked_mul(k) {
        Some(v) => v,
        None => usize::MAX,
    }
}

/// Whether a two-message batch should take the interleaved dual-scalar path: only on AMD
/// family 19h with BMI1, and only where the pair is tiny or the shorter message has at least
/// one sixteenth of the longer one's padded blocks.
pub fn prefer_dual_scalar_pair(tuning: &X86Tuning, inputs: &[&[u8]]) -> (prefer: bool)
    ensures
        prefer == (tuning.class == X86TuningClass::AmdFamily19h && tuning.has_bmi1
            && inputs@.len() == 2 && {
            let b0 = padded_block_count(inputs@[0]@.len());
            let b1 = padded_block_count(inputs@[1]@.len());
            let lo = if b0 < b1 {
                b0
            } else {
                b1
            };
            let hi = if b0 < b1 {
                b1
            } else {
                b0
            };
            hi <= 32 || sat_mul_spec(lo, 16) >= hi
        }),
{
    if !amd_family_19h(tuning) || !tuning.has_bmi1 || inputs.len() != 2 {
        return false;
    }
    let blocks0 = padded_blocks_for_len(inputs[0].len());
    let blocks1 = padded_blocks_for_len(inputs[1].len());
    let min_blocks = if blocks0 < blocks1 {
        blocks0
    } else {
        blocks1
    };
    let max_blocks = if blocks0 < blocks1 {
        blocks1
    } else {
        blocks0
    };
    max_blocks <= 32 || saturating_mul(min_blocks, 16) >= max_blocks
}

} // verus!
