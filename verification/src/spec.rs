//! The mathematical definition of MD5 (RFC 1321) that the executable code is proved against.
use vstd::prelude::*;

use crate::consts::{K, S, STATE_INIT};

verus! {

/// The four 32-bit chaining words (A, B, C, D).
pub type Quad = (u32, u32, u32, u32);

/// Left rotation of a 32-bit word by `s` bits, for `0 < s < 32`.
pub open spec fn rotl(x: u32, s: u32) -> u32 {
    (x << s) | (x >> ((32 - s) as u32))
}

/// Round function of rounds 0..16.
pub open spec fn fun_f(x: u32, y: u32, z: u32) -> u32 {
    (x & y) | (!x & z)
}

/// Round function of rounds 16..32.
pub open spec fn fun_g(x: u32, y: u32, z: u32) -> u32 {
    (x & z) | (y & !z)
}

/// Round function of rounds 32..48.
pub open spec fn fun_h(x: u32, y: u32, z: u32) -> u32 {
    x ^ y ^ z
}

/// Round function of rounds 48..64.
pub open spec fn fun_i(x: u32, y: u32, z: u32) -> u32 {
    y ^ (x | !z)
}

/// The Boolean function that round `r` applies to (B, C, D).
pub open spec fn round_mix(r: int, x: u32, y: u32, z: u32) -> u32 {
    if r < 16 {
        fun_f(x, y, z)
    } else if r < 32 {
        fun_g(x, y, z)
    } else if r < 48 {
        fun_h(x, y, z)
    } else {
        fun_i(x, y, z)
    }
}

/// The index of the message word that round `r` consumes.
pub open spec fn msg_index(r: int) -> int {
    if r < 16 {
        r
    } else if r < 32 {
        (5 * r + 1) % 16
    } else if r < 48 {
        (3 * r + 5) % 16
    } else {
        (7 * r) % 16
    }
}

/// The new B word computed by round `r` from the chaining words `q` and message words `m`.
pub open spec fn round_value(r: int, q: Quad, m: Seq<u32>) -> u32 {
    q.1.wrapping_add(
        rotl(
            q.0.wrapping_add(round_mix(r, q.1, q.2, q.3)).wrapping_add(K[r]).wrapping_add(
                m[msg_index(r)],
            ),
            S[r],
        ),
    )
}

/// One MD5 round: (A, B, C, D) becomes (D, B + rotl(...), B, C).
pub open spec fn md5_round(q: Quad, m: Seq<u32>, r: int) -> Quad {
    (q.3, round_value(r, q, m), q.1, q.2)
}

/// The chaining words after the first `n` rounds.
pub open spec fn md5_rounds(q: Quad, m: Seq<u32>, n: nat) -> Quad
    decreases n,
{
    if n == 0 {
        q
    } else {
        md5_round(md5_rounds(q, m, (n - 1) as nat), m, n - 1)
    }
}

/// Word-wise wrapping sum of two chaining values.
pub open spec fn quad_add(x: Quad, y: Quad) -> Quad {
    (x.0.wrapping_add(y.0), x.1.wrapping_add(y.1), x.2.wrapping_add(y.2), x.3.wrapping_add(y.3))
}

/// The MD5 compression function on one block of sixteen message words.
pub open spec fn compress(q: Quad, m: Seq<u32>) -> Quad {
    quad_add(q, md5_rounds(q, m, 64))
}

/// The chaining words held in a `[u32; 4]`.
pub open spec fn quad_of(s: [u32; 4]) -> Quad {
    (s[0], s[1], s[2], s[3])
}

/// The initial chaining value.
pub open spec fn init_quad() -> Quad {
    quad_of(STATE_INIT)
}

/// The little-endian 32-bit word made of four bytes.
pub open spec fn le_u32(b0: u8, b1: u8, b2: u8, b3: u8) -> u32 {
    (b0 as int + 256 * (b1 as int) + 65536 * (b2 as int) + 16777216 * (b3 as int)) as u32
}

/// The little-endian word stored at byte offset `off` of `p`.
pub open spec fn word_at(p: Seq<u8>, off: int) -> u32 {
    le_u32(p[off], p[off + 1], p[off + 2], p[off + 3])
}

/// The sixteen message words of the 64-byte block `bi` of `p`.
pub open spec fn block_words(p: Seq<u8>, bi: int) -> Seq<u32> {
    Seq::new(16, |w: int| word_at(p, 64 * bi + 4 * w))
}

/// The chaining value after compressing the first `n` blocks of `p`, starting from `q`.
pub open spec fn md5_blocks(q: Quad, p: Seq<u8>, n: nat) -> Quad
    decreases n,
{
    if n == 0 {
        q
    } else {
        compress(md5_blocks(q, p, (n - 1) as nat), block_words(p, n - 1))
    }
}

/// Number of 64-byte blocks of the padded form of a `len`-byte message.
pub open spec fn padded_block_count(len: nat) -> nat {
    len / 64 + if len % 64 <= 55 {
        1nat
    } else {
        2nat
    }
}

/// The message length in bits, modulo 2^64.
pub open spec fn bit_length(len: nat) -> u64 {
    ((len * 8) % 0x1_0000_0000_0000_0000) as u64
}

/// The eight little-endian bytes of a 64-bit word.
pub open spec fn u64_le_bytes(v: u64) -> Seq<u8> {
    Seq::new(8, |i: int| (v >> ((8 * i) as u64)) as u8)
}

/// The four little-endian bytes of a 32-bit word.
pub open spec fn u32_le_bytes(w: u32) -> Seq<u8> {
    seq![w as u8, (w >> 8u32) as u8, (w >> 16u32) as u8, (w >> 24u32) as u8]
}

/// The padded message: the message, the byte 0x80, zero bytes up to 8 bytes short of a block
/// boundary, and the 64-bit little-endian bit length.
pub open spec fn md5_pad(msg: Seq<u8>) -> Seq<u8> {
    let total = padded_block_count(msg.len()) * 64;
    msg + seq![0x80u8] + Seq::new((total - msg.len() - 9) as nat, |i: int| 0u8) + u64_le_bytes(
        bit_length(msg.len()),
    )
}

/// The 16-byte digest that a chaining value encodes.
pub open spec fn digest_bytes(q: Quad) -> Seq<u8> {
    u32_le_bytes(q.0) + u32_le_bytes(q.1) + u32_le_bytes(q.2) + u32_le_bytes(q.3)
}

/// The MD5 digest of a message.
pub open spec fn md5(msg: Seq<u8>) -> Seq<u8> {
    digest_bytes(md5_blocks(init_quad(), md5_pad(msg), padded_block_count(msg.len())))
}

/// Byte `k` of a message padded to `padded_blocks` blocks, in the order the padding is laid
/// down: message bytes, then the 0x80 marker, then the length field, else zero.
pub open spec fn padding_byte(msg: Seq<u8>, padded_blocks: nat, k: int) -> u8 {
    let total = padded_blocks * 64;
    if k < msg.len() {
        msg[k]
    } else if k == msg.len() {
        0x80u8
    } else if k >= total - 8 {
        u64_le_bytes(bit_length(msg.len()))[k - (total - 8)]
    } else {
        0u8
    }
}

/// Byte `k` of block `bi` as a block builder lays it down: message bytes and the 0x80
/// marker first, then the length field over bytes 56..64 of the block numbered
/// `padded_blocks - 1`.
pub open spec fn built_block_byte(msg: Seq<u8>, padded_blocks: nat, bi: nat, k: int) -> u8 {
    let a = 64 * bi + k;
    if bi + 1 == padded_blocks && k >= 56 {
        u64_le_bytes(bit_length(msg.len()))[k - 56]
    } else if a < msg.len() {
        msg[a]
    } else if a == msg.len() {
        0x80u8
    } else {
        0u8
    }
}

/// Every message fits in its padded form with room for the marker and length field, and the
/// padded length is the least multiple of 64 that does.
pub proof fn lemma_padded_count(len: nat)
    ensures
        padded_block_count(len) * 64 >= len + 9,
        padded_block_count(len) * 64 < len + 9 + 64,
        padded_block_count(len) >= 1,
        padded_block_count(len) > len / 64,
{
}

/// The padded message has the padded length and reads as `padding_byte` at every index.
pub proof fn lemma_pad_index(msg: Seq<u8>, k: int)
    requires
        0 <= k < padded_block_count(msg.len()) * 64,
    ensures
        md5_pad(msg).len() == padded_block_count(msg.len()) * 64,
        md5_pad(msg)[k] == padding_byte(msg, padded_block_count(msg.len()), k),
{
    lemma_padded_count(msg.len());
}

/// With the canonical block count, a built block is exactly the corresponding slice of the
/// padded message.
pub proof fn lemma_built_block_is_pad(msg: Seq<u8>, bi: nat, k: int)
    requires
        bi < padded_block_count(msg.len()),
        0 <= k < 64,
    ensures
        built_block_byte(msg, padded_block_count(msg.len()), bi, k) == md5_pad(msg)[64 * bi + k],
{
    lemma_padded_count(msg.len());
    let pb = padded_block_count(msg.len());
    assert(64 * bi + k < pb * 64) by (nonlinear_arith)
        requires
            bi < pb,
            k < 64,
    ;
    lemma_pad_index(msg, 64 * bi + k);
    if bi + 1 != pb {
        assert(64 * bi + 64 <= pb * 64 - 64) by (nonlinear_arith)
            requires
                bi + 1 < pb,
        ;
    } else {
        assert(64 * bi == pb * 64 - 64);
    }
}

/// Loading a stored word gives the word back.
pub proof fn lemma_le_roundtrip(w: u32)
    ensures
        le_u32(w as u8, (w >> 8u32) as u8, (w >> 16u32) as u8, (w >> 24u32) as u8) == w,
{
    let b0 = w as u8;
    let b1 = (w >> 8u32) as u8;
    let b2 = (w >> 16u32) as u8;
    let b3 = (w >> 24u32) as u8;
    assert(b0 as u32 + 256 * (b1 as u32) + 65536 * (b2 as u32) + 16777216 * (b3 as u32) == w)
        by (bit_vector)
        requires
            b0 == w as u8,
            b1 == (w >> 8u32) as u8,
            b2 == (w >> 16u32) as u8,
            b3 == (w >> 24u32) as u8,
    ;
}

/// Every message is no longer than a Rust slice can be.
pub open spec fn messages_fit(msgs: Seq<&[u8]>) -> bool {
    forall|m: int| 0 <= m < msgs.len() ==> (#[trigger] msgs[m])@.len() <= isize::MAX
}

/// All messages have the length of the first.
pub open spec fn same_lengths(msgs: Seq<&[u8]>) -> bool {
    forall|m: int| 0 <= m < msgs.len() ==> (#[trigger] msgs[m])@.len() == msgs[0]@.len()
}

/// `after` holds the MD5 digest of `msgs[k]` at index `start + k`, and agrees with `before`
/// everywhere else.
pub open spec fn digests_stored(
    before: Seq<[u8; 16]>,
    after: Seq<[u8; 16]>,
    start: int,
    msgs: Seq<&[u8]>,
) -> bool {
    &&& after.len() == before.len()
    &&& 0 <= start
    &&& start + msgs.len() <= after.len()
    &&& forall|k: int| 0 <= k < msgs.len() ==> (#[trigger] after[start + k])@ == md5(msgs[k]@)
    &&& forall|k: int|
        0 <= k < after.len() && !(start <= k < start + msgs.len()) ==> #[trigger] after[k]
            == before[k]
}

/// A whole block of the message is the same block of the padded message.
pub proof fn lemma_full_block_is_pad(msg: Seq<u8>, bi: int)
    requires
        0 <= bi,
        64 * bi + 64 <= msg.len(),
    ensures
        block_words(msg, bi) == block_words(md5_pad(msg), bi),
{
    lemma_padded_count(msg.len());
    assert forall|k: int| 0 <= k < 64 implies #[trigger] md5_pad(msg)[64 * bi + k] == msg[64 * bi
        + k] by {
        lemma_pad_index(msg, 64 * bi + k);
    }
    assert forall|w: int| 0 <= w < 16 implies #[trigger] block_words(msg, bi)[w] == block_words(
        md5_pad(msg),
        bi,
    )[w] by {
        assert(md5_pad(msg)[64 * bi + 4 * w] == msg[64 * bi + 4 * w]);
        assert(md5_pad(msg)[64 * bi + (4 * w + 1)] == msg[64 * bi + (4 * w + 1)]);
        assert(md5_pad(msg)[64 * bi + (4 * w + 2)] == msg[64 * bi + (4 * w + 2)]);
        assert(md5_pad(msg)[64 * bi + (4 * w + 3)] == msg[64 * bi + (4 * w + 3)]);
    }
    assert(block_words(msg, bi) =~= block_words(md5_pad(msg), bi));
}

/// Storing the digests of `x` and then, right behind them, those of `y` stores the digests
/// of `x + y`.
pub proof fn lemma_digests_stored_append(
    a: Seq<[u8; 16]>,
    b: Seq<[u8; 16]>,
    c: Seq<[u8; 16]>,
    start: int,
    x: Seq<&[u8]>,
    y: Seq<&[u8]>,
)
    requires
        digests_stored(a, b, start, x),
        digests_stored(b, c, start + x.len(), y),
        0 <= start,
    ensures
        digests_stored(a, c, start, x + y),
{
    assert forall|k: int| 0 <= k < (x + y).len() implies (#[trigger] c[start + k])@ == md5(
        (x + y)[k]@,
    ) by {
        if k < x.len() {
            assert(b[start + k]@ == md5(x[k]@));
            assert(!(start + x.len() <= start + k < start + x.len() + y.len()));
            assert(c[start + k] == b[start + k]);
        } else {
            let k2 = k - x.len();
            assert(c[start + x.len() + k2]@ == md5(y[k2]@));
            assert(start + x.len() + k2 == start + k);
        }
    }
    assert forall|k: int|
        0 <= k < c.len() && !(start <= k < start + (x + y).len()) implies #[trigger] c[k] == a[k] by {
        assert(!(start + x.len() <= k < start + x.len() + y.len()));
        assert(c[k] == b[k]);
        assert(!(start <= k < start + x.len()));
    }
}

/// Some entry among the first `n` of `order` is `l`.
pub open spec fn has_preimage(order: Seq<usize>, n: nat, l: int) -> bool {
    exists|k: int| 0 <= k < n && #[trigger] order[k] == l
}

/// The first `n` entries of `order` are a rearrangement of `0..n`.
pub open spec fn is_permutation(order: Seq<usize>, n: nat) -> bool {
    &&& n <= order.len()
    &&& forall|k: int| 0 <= k < n ==> #[trigger] order[k] < n
    &&& forall|k: int, j: int|
        0 <= k < n && 0 <= j < n && k != j ==> #[trigger] order[k] != #[trigger] order[j]
    &&& forall|l: int| 0 <= l < n ==> #[trigger] has_preimage(order, n, l)
}

/// The blocks of `y` read at their offset inside `x + y`, when `x` is `a` whole blocks long.
proof fn lemma_block_words_shift(x: Seq<u8>, y: Seq<u8>, a: nat, bi: int)
    requires
        x.len() == 64 * a,
        0 <= bi,
        64 * bi + 64 <= y.len(),
    ensures
        block_words(x + y, a + bi) == block_words(y, bi),
{
    assert forall|w: int| 0 <= w < 16 implies #[trigger] block_words(x + y, a + bi)[w]
        == block_words(y, bi)[w] by {
        let off = 64 * bi + 4 * w;
        assert(64 * (a + bi) + 4 * w == x.len() + off);
        assert((x + y)[x.len() + off] == y[off]);
        assert((x + y)[x.len() + off + 1] == y[off + 1]);
        assert((x + y)[x.len() + off + 2] == y[off + 2]);
        assert((x + y)[x.len() + off + 3] == y[off + 3]);
    }
    assert(block_words(x + y, a + bi) =~= block_words(y, bi));
}

/// The first blocks of `x + y` are the blocks of `x`.
proof fn lemma_block_words_prefix(x: Seq<u8>, y: Seq<u8>, bi: int)
    requires
        0 <= bi,
        64 * bi + 64 <= x.len(),
    ensures
        block_words(x + y, bi) == block_words(x, bi),
{
    assert(block_words(x + y, bi) =~= block_words(x, bi));
}

proof fn lemma_blocks_prefix(q: Quad, x: Seq<u8>, y: Seq<u8>, n: nat)
    requires
        64 * n <= x.len(),
    ensures
        md5_blocks(q, x + y, n) == md5_blocks(q, x, n),
    decreases n,
{
    if n > 0 {
        lemma_blocks_prefix(q, x, y, (n - 1) as nat);
        lemma_block_words_prefix(x, y, n - 1);
    }
}

/// Compressing block-aligned fragments in two steps gives what compressing their
/// concatenation in one step gives: an incremental stream may be fed in any block-aligned
/// pieces.
pub proof fn lemma_blocks_concat(q: Quad, x: Seq<u8>, y: Seq<u8>, a: nat, b: nat)
    requires
        x.len() == 64 * a,
        64 * b <= y.len(),
    ensures
        md5_blocks(q, x + y, a + b) == md5_blocks(md5_blocks(q, x, a), y, b),
    decreases b,
{
    if b == 0 {
        lemma_blocks_prefix(q, x, y, a);
    } else {
        lemma_blocks_concat(q, x, y, a, (b - 1) as nat);
        lemma_block_words_shift(x, y, a, b - 1);
        assert((a + b - 1) as nat == a + (b - 1) as nat);
    }
}

/// Whatever batch a message is hashed in, and wherever it sits in it, the digest stored for
/// it is the digest of the message alone.
pub proof fn lemma_batch_digest_is_single_digest(
    before: Seq<[u8; 16]>,
    after: Seq<[u8; 16]>,
    start: int,
    msgs: Seq<&[u8]>,
    k: int,
)
    requires
        digests_stored(before, after, start, msgs),
        0 <= k < msgs.len(),
    ensures
        after[start + k]@ == md5(msgs[k]@),
{
}

} // verus!
