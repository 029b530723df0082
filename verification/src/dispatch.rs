//! Feature-level dispatch: which kernel family hashes or compresses a batch at each SIMD
//! level, and the runtime detection of that level.
use vstd::prelude::*;

use crate::kernels::compress_equal_len_state_kernel;
use crate::portable::{compress_many_blocks_inner, compress_md5_states_inner, hash_many_inner, Md5State};
use crate::schedule::{hash_many_avx2, hash_many_avx512};
use crate::spec::{digests_stored, md5_blocks, messages_fit, quad_of, same_lengths};
use crate::tuning::X86Tuning;

verus! {

/// The SIMD feature levels that the kernels are chosen by.
#[derive(Clone, Copy, Debug, PartialEq, Eq, Structural)]
pub enum SimdLevel {
    Fallback,
    Neon,
    WasmSimd128,
    Sse2,
    Sse4_2,
    Avx2,
    Avx512,
}

/// The number of `u32` lanes of one native vector at `level`.
pub open spec fn native_lanes(level: SimdLevel) -> nat {
    match level {
        SimdLevel::Avx512 => 16,
        SimdLevel::Avx2 => 8,
        _ => 4,
    }
}

/// The number of messages one native vector hashes at once, as reported to callers: 16 for
/// AVX-512, 8 for AVX2, 4 for SSE2, SSE4.2, Neon and WASM SIMD, and 1 for the scalar fallback.
pub fn lanes_with_level(level: SimdLevel) -> (lanes: usize)
    ensures
        lanes == match level {
            SimdLevel::Avx512 => 16usize,
            SimdLevel::Avx2 => 8usize,
            SimdLevel::Sse4_2 | SimdLevel::Sse2 | SimdLevel::Neon | SimdLevel::WasmSimd128 => 4usize,
            SimdLevel::Fallback => 1usize,
        },
{
    match level {
        SimdLevel::Avx512 => 16,
        SimdLevel::Avx2 => 8,
        SimdLevel::Sse4_2 | SimdLevel::Sse2 => 4,
        SimdLevel::Neon => 4,
        SimdLevel::WasmSimd128 => 4,
        SimdLevel::Fallback => 1,
    }
}

/// The lane count of the native vector type at `level`.
fn native_lane_count(level: SimdLevel) -> (lanes: usize)
    ensures
        lanes == native_lanes(level),
        1 <= lanes <= 16,
{
    match level {
        SimdLevel::Avx512 => 16,
        SimdLevel::Avx2 => 8,
        _ => 4,
    }
}

/// Hash every message at the given SIMD level: AVX-512 and AVX2 through their schedulers,
/// every other level through the portable chunked path. Digest `m` goes to `outputs[m]`;
/// entries past the inputs are untouched.
pub fn hash_many_with_level(
    level: SimdLevel,
    tuning: &X86Tuning,
    inputs: &[&[u8]],
    outputs: &mut [[u8; 16]],
)
    requires
        old(outputs)@.len() >= inputs@.len(),
        messages_fit(inputs@),
    ensures
        digests_stored(old(outputs)@, final(outputs)@, 0, inputs@),
{
    match level {
        SimdLevel::Avx512 => hash_many_avx512(tuning, inputs, outputs, 0),
        SimdLevel::Avx2 => hash_many_avx2(tuning, inputs, outputs, 0),
        _ => hash_many_inner(native_lane_count(level), inputs, outputs),
    }
}

/// Compress equal-length, block-aligned fragments into their chaining states, choosing the
/// narrowest native x86 kernel that holds the batch: AVX-512 triple, dual or native kernels
/// for 48, 32 or 16 streams, AVX2 triple, dual or native kernels for 24, 16 or 8, and the
/// portable path otherwise.
pub fn compress_many_blocks_with_level(
    level: SimdLevel,
    states: &mut [[u32; 4]],
    inputs: &[&[u8]],
)
    requires
        old(states)@.len() == inputs@.len(),
        inputs@.len() > 0 ==> inputs@[0]@.len() % 64 == 0,
        same_lengths(inputs@),
    ensures
        final(states)@.len() == old(states)@.len(),
        forall|m: int|
            0 <= m < inputs@.len() ==> #[trigger] quad_of(final(states)@[m]) == md5_blocks(
                quad_of(old(states)@[m]),
                inputs@[m]@,
                (inputs@[0]@.len() / 64) as nat,
            ),
{
    let n = states.len();
    if n == 0 {
        return;
    }
    if n == 48 && level == SimdLevel::Avx512 {
        compress_equal_len_state_kernel(3, 16, states, inputs);
        return;
    }
    if n == 32 && level == SimdLevel::Avx512 {
        compress_equal_len_state_kernel(2, 16, states, inputs);
        return;
    }
    if n == 24 && (level == SimdLevel::Avx2 || level == SimdLevel::Avx512) {
        compress_equal_len_state_kernel(3, 8, states, inputs);
        return;
    }
    if n == 16 {
        if level == SimdLevel::Avx512 {
            compress_equal_len_state_kernel(1, 16, states, inputs);
            return;
        }
        if level == SimdLevel::Avx2 {
            compress_equal_len_state_kernel(2, 8, states, inputs);
            return;
        }
    }
    let sse2 = level == SimdLevel::Sse2 || level == SimdLevel::Sse4_2 || level == SimdLevel::Avx2
        || level == SimdLevel::Avx512;
    if n <= 4 && sse2 {
        compress_many_blocks_inner(4, states, inputs);
        return;
    }
    let avx2 = level == SimdLevel::Avx2 || level == SimdLevel::Avx512;
    if n == 8 && avx2 {
        compress_equal_len_state_kernel(1, 8, states, inputs);
        return;
    }
    if n <= 8 && avx2 {
        compress_many_blocks_inner(8, states, inputs);
        return;
    }
    compress_many_blocks_inner(native_lane_count(level), states, inputs);
}

/// Compress equal-length, block-aligned fragments into the chaining states of `groups * width`
/// streams with the native kernel of that shape.
fn compress_md5_states_kernel(
    groups: usize,
    width: usize,
    streams: &mut [Md5State],
    inputs: &[&[u8]],
)
    requires
        crate::kernels::kernel_shape(groups as nat, width as nat),
        inputs@.len() == groups * width,
        old(streams)@.len() == inputs@.len(),
        same_lengths(inputs@),
        inputs@[0]@.len() % 64 == 0,
    ensures
        final(streams)@.len() == old(streams)@.len(),
        forall|m: int|
            0 <= m < inputs@.len() ==> #[trigger] quad_of(final(streams)@[m].state) == md5_blocks(
                quad_of(old(streams)@[m].state),
                inputs@[m]@,
                (inputs@[0]@.len() / 64) as nat,
            ),
{
    let n = streams.len();
    let mut states: Vec<[u32; 4]> = Vec::new();
    let mut m: usize = 0;
    while m < n
        invariant
            m <= n,
            n == streams@.len(),
            states@.len() == m,
            forall|k: int| 0 <= k < m ==> #[trigger] states@[k] == streams@[k].state,
        decreases n - m,
    {
        states.push(streams[m].state);
        m += 1;
    }
    let ghost init = states@;
    compress_equal_len_state_kernel(groups, width, states.as_mut_slice(), inputs);
    let ghost init_streams = streams@;
    let mut m: usize = 0;
    while m < n
        invariant
            m <= n,
            n == streams@.len(),
            n == inputs@.len(),
            states@.len() == n,
            init.len() == n,
            forall|k: int| 0 <= k < n ==> #[trigger] init[k] == init_streams[k].state,
            forall|k: int|
                0 <= k < n ==> #[trigger] quad_of(states@[k]) == md5_blocks(
                    quad_of(init[k]),
                    inputs@[k]@,
                    (inputs@[0]@.len() / 64) as nat,
                ),
            forall|k: int|
                0 <= k < m ==> #[trigger] quad_of(streams@[k].state) == md5_blocks(
                    quad_of(init_streams[k].state),
                    inputs@[k]@,
                    (inputs@[0]@.len() / 64) as nat,
                ),
        decreases n - m,
    {
        streams[m] = Md5State { state: states[m] };
        m += 1;
    }
}

/// Compress block-aligned lockstep fragments of a validated batch straight into the streams'
/// chaining states: native AVX-512 or AVX2 kernels for 48, 32, 24, 16 or 8 streams, the
/// four-lane path for up to four, and otherwise a temporary state array through
/// `compress_many_blocks_with_level`.
pub fn compress_md5_states_blocks_validated_with_level(
    level: SimdLevel,
    streams: &mut [Md5State],
    inputs: &[&[u8]],
)
    requires
        old(streams)@.len() == inputs@.len(),
        1 <= inputs@.len() <= 48,
        inputs@[0]@.len() % 64 == 0,
        same_lengths(inputs@),
    ensures
        final(streams)@.len() == old(streams)@.len(),
        forall|m: int|
            0 <= m < inputs@.len() ==> #[trigger] quad_of(final(streams)@[m].state) == md5_blocks(
                quad_of(old(streams)@[m].state),
                inputs@[m]@,
                (inputs@[0]@.len() / 64) as nat,
            ),
{
    let n = streams.len();
    let avx512 = level == SimdLevel::Avx512;
    let avx2 = level == SimdLevel::Avx2 || level == SimdLevel::Avx512;
    let sse2 = avx2 || level == SimdLevel::Sse2 || level == SimdLevel::Sse4_2;
    if n == 48 && avx512 {
        compress_md5_states_kernel(3, 16, streams, inputs);
        return;
    }
    if n == 32 && avx512 {
        compress_md5_states_kernel(2, 16, streams, inputs);
        return;
    }
    if n == 24 && avx2 {
        compress_md5_states_kernel(3, 8, streams, inputs);
        return;
    }
    if n == 16 {
        if avx512 {
            compress_md5_states_kernel(1, 16, streams, inputs);
            return;
        }
        if avx2 {
            compress_md5_states_kernel(2, 8, streams, inputs);
            return;
        }
    }
    if n == 8 && avx2 {
        compress_md5_states_kernel(1, 8, streams, inputs);
        return;
    }
    if n <= 4 && sse2 {
        compress_md5_states_inner(4, streams, inputs);
        return;
    }
    let mut states: Vec<[u32; 4]> = Vec::new();
    let mut m: usize = 0;
    while m < n
        invariant
            m <= n,
            n == streams@.len(),
            states@.len() == m,
            forall|k: int| 0 <= k < m ==> #[trigger] states@[k] == streams@[k].state,
        decreases n - m,
    {
        states.push(streams[m].state);
        m += 1;
    }
    let ghost init = states@;
    compress_many_blocks_with_level(level, states.as_mut_slice(), inputs);
    let ghost init_streams = streams@;
    let mut m: usize = 0;
    while m < n
        invariant
            m <= n,
            n == streams@.len(),
            n == inputs@.len(),
            states@.len() == n,
            init.len() == n,
            forall|k: int| 0 <= k < n ==> #[trigger] init[k] == init_streams[k].state,
            forall|k: int|
                0 <= k < n ==> #[trigger] quad_of(states@[k]) == md5_blocks(
                    quad_of(init[k]),
                    inputs@[k]@,
                    (inputs@[0]@.len() / 64) as nat,
                ),
            forall|k: int|
                0 <= k < m ==> #[trigger] quad_of(streams@[k].state) == md5_blocks(
                    quad_of(init_streams[k].state),
                    inputs@[k]@,
                    (inputs@[0]@.len() / 64) as nat,
                ),
        decreases n - m,
    {
        streams[m] = Md5State { state: states[m] };
        m += 1;
    }
}

} // verus!
