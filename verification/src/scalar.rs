//! Single-message MD5: word helpers, padding, the block compressor and the one-shot hash.
use vstd::prelude::*;

use crate::consts::{K, S, STATE_INIT};
use crate::spec::{
    bit_length, block_words, built_block_byte, compress, digest_bytes, init_quad,
    lemma_built_block_is_pad, lemma_pad_index, lemma_padded_count, md5, md5_blocks, md5_pad,
    md5_rounds, msg_index, padded_block_count, padding_byte, quad_of, rotl, round_mix, u32_le_bytes,
    u64_le_bytes, word_at,
};

verus! {

/// The Boolean mix of round `r` on one 32-bit word triple.
pub fn mix_word(r: usize, x: u32, y: u32, z: u32) -> (v: u32)
    ensures
        v == round_mix(r as int, x, y, z),
{
    if r < 16 {
        (x & y) | (!x & z)
    } else if r < 32 {
        (x & z) | (y & !z)
    } else if r < 48 {
        x ^ y ^ z
    } else {
        y ^ (x | !z)
    }
}

/// The message word index consumed by round `r`.
pub fn msg_index_of(r: usize) -> (i: usize)
    requires
        r < 64,
    ensures
        i as int == msg_index(r as int),
        i < 16,
{
    if r < 16 {
        r
    } else if r < 32 {
        (5 * r + 1) % 16
    } else if r < 48 {
        (3 * r + 5) % 16
    } else {
        (7 * r) % 16
    }
}

/// Left rotation of one word.
pub fn rotl_word(x: u32, s: u32) -> (v: u32)
    requires
        0 < s < 32,
    ensures
        v == rotl(x, s),
{
    (x << s) | (x >> (32 - s))
}

/// The new B word of round `r`, given A, B, C, D and the message word the round consumes.
pub fn round_word(r: usize, a: u32, b: u32, c: u32, d: u32, w: u32) -> (v: u32)
    requires
        r < 64,
    ensures
        v == b.wrapping_add(
            rotl(
                a.wrapping_add(round_mix(r as int, b, c, d)).wrapping_add(K[r as int]).wrapping_add(
                    w,
                ),
                S[r as int],
            ),
        ),
{
    proof {
        crate::consts::lemma_shift_range(r as int);
    }
    let t = a.wrapping_add(mix_word(r, b, c, d)).wrapping_add(K[r]).wrapping_add(w);
    b.wrapping_add(rotl_word(t, S[r]))
}

/// The little-endian word at byte offset `off`.
pub fn load_word(bytes: &[u8], off: usize) -> (w: u32)
    requires
        off + 4 <= bytes@.len(),
    ensures
        w == word_at(bytes@, off as int),
{
    bytes[off] as u32 + 256 * (bytes[off + 1] as u32) + 65536 * (bytes[off + 2] as u32)
        + 16777216 * (bytes[off + 3] as u32)
}

/// The sixteen message words of a 64-byte block.
pub fn block_to_words(block: &[u8; 64]) -> (m: [u32; 16])
    ensures
        m@ == block_words(block@, 0),
{
    let mut m = [0u32; 16];
    let mut w: usize = 0;
    while w < 16
        invariant
            w <= 16,
            forall|j: int| 0 <= j < w ==> m[j] == word_at(block@, 4 * j),
        decreases 16 - w,
    {
        m[w] = load_word(block.as_slice(), 4 * w);
        w += 1;
    }
    assert(m@ =~= block_words(block@, 0));
    m
}

/// Apply the MD5 compression function to `state` with sixteen message words.
pub fn compress_words_scalar(state: &mut [u32; 4], m: &[u32; 16])
    ensures
        quad_of(*final(state)) == compress(quad_of(*old(state)), m@),
{
    let ghost q0 = quad_of(*state);
    let mut a = state[0];
    let mut b = state[1];
    let mut c = state[2];
    let mut d = state[3];
    let mut r: usize = 0;
    while r < 64
        invariant
            r <= 64,
            (a, b, c, d) == md5_rounds(q0, m@, r as nat),
        decreases 64 - r,
    {
        let w = m[msg_index_of(r)];
        let nb = round_word(r, a, b, c, d, w);
        a = d;
        d = c;
        c = b;
        b = nb;
        r += 1;
    }
    state[0] = state[0].wrapping_add(a);
    state[1] = state[1].wrapping_add(b);
    state[2] = state[2].wrapping_add(c);
    state[3] = state[3].wrapping_add(d);
}

/// Compress one 64-byte block into `state`.
pub fn compress_block(state: &mut [u32; 4], block: &[u8; 64])
    ensures
        quad_of(*final(state)) == compress(quad_of(*old(state)), block_words(block@, 0)),
{
    let m = block_to_words(block);
    compress_words_scalar(state, &m);
}

/// Number of 64-byte blocks of the padded form of a `len`-byte message.
pub fn padded_blocks_for_len(len: usize) -> (blocks: usize)
    ensures
        blocks == padded_block_count(len as nat),
        blocks * 64 >= len + 9,
        blocks * 64 < len + 73,
{
    proof {
        lemma_padded_count(len as nat);
    }
    let full_blocks = len / 64;
    let tail = len & 63;
    assert(len & 63 == len % 64) by (bit_vector);
    full_blocks + if tail <= 55 {
        1
    } else {
        2
    }
}

/// The message length in bits, modulo 2^64.
pub fn bit_length_of(len: usize) -> (v: u64)
    ensures
        v == bit_length(len as nat),
{
    (len as u64).wrapping_mul(8)
}

/// Byte `i` of the little-endian encoding of `v`.
pub fn u64_le_byte(v: u64, i: usize) -> (b: u8)
    requires
        i < 8,
    ensures
        b == u64_le_bytes(v)[i as int],
{
    (v >> (8 * i as u64)) as u8
}

/// Block `block_index` of `input` padded to `padded_blocks` blocks.
pub fn build_padded_block(input: &[u8], padded_blocks: usize, block_index: usize) -> (block: [u8;
    64])
    requires
        block_index * 64 + 64 <= usize::MAX,
    ensures
        forall|k: int|
            0 <= k < 64 ==> block[k] == built_block_byte(
                input@,
                padded_blocks as nat,
                block_index as nat,
                k,
            ),
{
    let mut block = [0u8; 64];
    let base = block_index * 64;
    let len = input.len();
    let bits = bit_length_of(len);
    let mut k: usize = 0;
    while k < 64
        invariant
            k <= 64,
            base == block_index * 64,
            len == input@.len(),
            bits == bit_length(len as nat),
            forall|j: int|
                0 <= j < k ==> block[j] == built_block_byte(
                    input@,
                    padded_blocks as nat,
                    block_index as nat,
                    j,
                ),
        decreases 64 - k,
    {
        let a = base + k;
        let byte = if block_index + 1 == padded_blocks && k >= 56 {
            u64_le_byte(bits, k - 56)
        } else if a < len {
            input[a]
        } else if a == len {
            0x80u8
        } else {
            0u8
        };
        block[k] = byte;
        k += 1;
    }
    block
}

/// Byte `absolute` of `input` padded to `padded_blocks` blocks.
pub fn padded_byte(input: &[u8], padded_blocks: usize, absolute: usize) -> (b: u8)
    requires
        absolute > input@.len() ==> padded_blocks * 64 <= usize::MAX && 8 <= padded_blocks * 64
            && absolute < padded_blocks * 64,
    ensures
        b == padding_byte(input@, padded_blocks as nat, absolute as int),
{
    if absolute < input.len() {
        return input[absolute];
    }
    if absolute == input.len() {
        return 0x80;
    }
    let total_len = padded_blocks * 64;
    if absolute >= total_len - 8 {
        let length_byte = absolute - (total_len - 8);
        return u64_le_byte(bit_length_of(input.len()), length_byte);
    }
    0
}

/// The 16-byte digest encoded by a chaining state.
pub fn state_digest(state: &[u32; 4]) -> (digest: [u8; 16])
    ensures
        digest@ == digest_bytes(quad_of(*state)),
{
    let mut digest = [0u8; 16];
    let mut w: usize = 0;
    while w < 4
        invariant
            w <= 4,
            forall|j: int|
                0 <= j < 4 * w ==> digest[j] == u32_le_bytes(state[j / 4])[j % 4],
        decreases 4 - w,
    {
        let v = state[w];
        digest[4 * w] = v as u8;
        digest[4 * w + 1] = (v >> 8) as u8;
        digest[4 * w + 2] = (v >> 16) as u8;
        digest[4 * w + 3] = (v >> 24) as u8;
        w += 1;
    }
    assert(digest@ =~= digest_bytes(quad_of(*state)));
    digest
}

/// The first `n` bytes of the padded message are the message itself.
proof fn lemma_pad_prefix(msg: Seq<u8>, k: int)
    requires
        0 <= k < msg.len(),
    ensures
        md5_pad(msg)[k] == msg[k],
{
    lemma_pad_index(msg, k);
}

/// A copy of the 64-byte block at byte offset `offset`.
pub fn block_at(input: &[u8], offset: usize) -> (block: [u8; 64])
    requires
        offset + 64 <= input@.len(),
    ensures
        block@ == input@.subrange(offset as int, offset + 64),
{
    let mut block = [0u8; 64];
    let n = input.len();
    let mut k: usize = 0;
    while k < 64
        invariant
            k <= 64,
            n == input@.len(),
            offset + 64 <= input@.len(),
            forall|j: int| 0 <= j < k ==> #[trigger] block[j] == input@[offset + j],
        decreases 64 - k,
    {
        block[k] = input[offset + k];
        k += 1;
    }
    assert(block@ =~= input@.subrange(offset as int, offset + 64));
    block
}

/// The MD5 digest of one message.
pub fn hash(input: &[u8]) -> (digest: [u8; 16])
    requires
        input@.len() <= isize::MAX,
    ensures
        digest@ == md5(input@),
{
    let ghost p = md5_pad(input@);
    let len = input.len();
    let full_blocks = len / 64;
    let padded_blocks = padded_blocks_for_len(len);
    let mut state = STATE_INIT;
    let mut bi: usize = 0;
    while bi < full_blocks
        invariant
            bi <= full_blocks,
            full_blocks == len / 64,
            len == input@.len(),
            len <= isize::MAX,
            p == md5_pad(input@),
            quad_of(state) == md5_blocks(init_quad(), p, bi as nat),
        decreases full_blocks - bi,
    {
        let mut m = [0u32; 16];
        let mut w: usize = 0;
        while w < 16
            invariant
                w <= 16,
                bi < full_blocks,
                full_blocks == len / 64,
                len == input@.len(),
                p == md5_pad(input@),
                forall|j: int| 0 <= j < w ==> m[j] == word_at(p, 64 * bi + 4 * j),
            decreases 16 - w,
        {
            let off = 64 * bi + 4 * w;
            proof {
                assert(off + 4 <= len) by (nonlinear_arith)
                    requires
                        off == 64 * bi + 4 * w,
                        w < 16,
                        bi < len / 64,
                ;
                lemma_pad_prefix(input@, off as int);
                lemma_pad_prefix(input@, off + 1);
                lemma_pad_prefix(input@, off + 2);
                lemma_pad_prefix(input@, off + 3);
            }
            m[w] = load_word(input, off);
            w += 1;
        }
        assert(m@ =~= block_words(p, bi as int));
        compress_words_scalar(&mut state, &m);
        bi += 1;
    }
    while bi < padded_blocks
        invariant
            full_blocks <= bi <= padded_blocks,
            padded_blocks == padded_block_count(len as nat),
            padded_blocks * 64 < len + 73,
            len == input@.len(),
            len <= isize::MAX,
            p == md5_pad(input@),
            quad_of(state) == md5_blocks(init_quad(), p, bi as nat),
        decreases padded_blocks - bi,
    {
        let block = build_padded_block(input, padded_blocks, bi);
        proof {
            assert forall|k: int| 0 <= k < 64 implies block[k] == p[64 * bi + k] by {
                lemma_built_block_is_pad(input@, bi as nat, k);
            }
            assert forall|w: int| 0 <= w < 16 implies #[trigger] word_at(block@, 4 * w) == word_at(
                p,
                64 * bi + 4 * w,
            ) by {
                assert(block[4 * w] == p[64 * bi + 4 * w]);
                assert(block[4 * w + 1] == p[64 * bi + 4 * w + 1]);
                assert(block[4 * w + 2] == p[64 * bi + 4 * w + 2]);
                assert(block[4 * w + 3] == p[64 * bi + 4 * w + 3]);
            }
            assert(block_words(block@, 0) =~= block_words(p, bi as int));
        }
        compress_block(&mut state, &block);
        bi += 1;
    }
    state_digest(&state)
}

} // verus!
