//! The four-lane kernel family: messages in groups of four lanes, block words loaded by
//! 4x4 transposes, and two or three groups interleaved round by round.
use vstd::prelude::*;

use crate::consts::STATE_INIT;
use crate::lanes::{
    compress_words_interleaved, group_words_shaped, lane_quad, lane_words, shaped, splat,
    state_shaped, states_shaped,
};
use crate::portable::lane_digest;
use crate::scalar::{block_at, build_padded_block, load_word, padded_blocks_for_len};
use crate::spec::{
    block_words, built_block_byte, compress, init_quad, lemma_built_block_is_pad,
    lemma_full_block_is_pad, md5, md5_blocks, md5_pad, messages_fit, padded_block_count,
    digests_stored, lemma_digests_stored_append, same_lengths, word_at,
};

verus! {

/// Interleave the even-numbered lanes of two rows.
fn trn1(x: [u32; 4], y: [u32; 4]) -> (r: [u32; 4])
    ensures
        r@ == seq![x[0], y[0], x[2], y[2]],
{
    [x[0], y[0], x[2], y[2]]
}

/// Interleave the odd-numbered lanes of two rows.
fn trn2(x: [u32; 4], y: [u32; 4]) -> (r: [u32; 4])
    ensures
        r@ == seq![x[1], y[1], x[3], y[3]],
{
    [x[1], y[1], x[3], y[3]]
}

/// The low halves of two rows, side by side.
fn combine_low(x: [u32; 4], y: [u32; 4]) -> (r: [u32; 4])
    ensures
        r@ == seq![x[0], x[1], y[0], y[1]],
{
    [x[0], x[1], y[0], y[1]]
}

/// The high halves of two rows, side by side.
fn combine_high(x: [u32; 4], y: [u32; 4]) -> (r: [u32; 4])
    ensures
        r@ == seq![x[2], x[3], y[2], y[3]],
{
    [x[2], x[3], y[2], y[3]]
}

/// Transpose a 4x4 matrix of words: column `i` of `rows` becomes row `i`.
pub fn transpose4(rows: [[u32; 4]; 4]) -> (cols: [[u32; 4]; 4])
    ensures
        forall|i: int, j: int| 0 <= i < 4 && 0 <= j < 4 ==> #[trigger] cols[i][j] == rows[j][i],
{
    let t0 = trn1(rows[0], rows[1]);
    let t1 = trn2(rows[0], rows[1]);
    let t2 = trn1(rows[2], rows[3]);
    let t3 = trn2(rows[2], rows[3]);
    [combine_low(t0, t2), combine_low(t1, t3), combine_high(t0, t2), combine_high(t1, t3)]
}

/// Transposing twice gives the matrix back.
pub proof fn lemma_transpose_involution(m: [[u32; 4]; 4], t: [[u32; 4]; 4], u: [[u32; 4]; 4])
    requires
        forall|i: int, j: int| 0 <= i < 4 && 0 <= j < 4 ==> #[trigger] t[i][j] == m[j][i],
        forall|i: int, j: int| 0 <= i < 4 && 0 <= j < 4 ==> #[trigger] u[i][j] == t[j][i],
    ensures
        forall|i: int, j: int| 0 <= i < 4 && 0 <= j < 4 ==> #[trigger] u[i][j] == m[i][j],
{
    assert forall|i: int, j: int| 0 <= i < 4 && 0 <= j < 4 implies #[trigger] u[i][j] == m[i][j] by {
        assert(u[i][j] == t[j][i]);
    }
}

/// The sixteen message words of four 64-byte blocks, one block per lane.
pub fn load_words(blocks: [&[u8; 64]; 4]) -> (words: Vec<Vec<u32>>)
    ensures
        shaped(words@, 16, 4),
        forall|l: int| 0 <= l < 4 ==> #[trigger] lane_words(words@, l) == block_words(blocks[l]@, 0),
{
    let mut words: Vec<Vec<u32>> = Vec::new();
    let mut group: usize = 0;
    while group < 4
        invariant
            group <= 4,
            shaped(words@, (4 * group) as nat, 4),
            forall|w: int, l: int|
                0 <= w < 4 * group && 0 <= l < 4 ==> #[trigger] words@[w]@[l] == word_at(
                    blocks[l]@,
                    4 * w,
                ),
        decreases 4 - group,
    {
        let offset = group * 16;
        let mut rows = [[0u32; 4]; 4];
        let mut lane: usize = 0;
        while lane < 4
            invariant
                lane <= 4,
                group < 4,
                offset == group * 16,
                forall|l: int, k: int|
                    0 <= l < lane && 0 <= k < 4 ==> #[trigger] rows[l][k] == word_at(
                        blocks[l]@,
                        offset + 4 * k,
                    ),
            decreases 4 - lane,
        {
            let block = blocks[lane];
            let row = [
                load_word(block.as_slice(), offset),
                load_word(block.as_slice(), offset + 4),
                load_word(block.as_slice(), offset + 8),
                load_word(block.as_slice(), offset + 12),
            ];
            rows[lane] = row;
            lane += 1;
        }
        let transposed = transpose4(rows);
        let mut k: usize = 0;
        while k < 4
            invariant
                k <= 4,
                group < 4,
                offset == group * 16,
                shaped(words@, (4 * group + k) as nat, 4),
                forall|i: int, j: int|
                    0 <= i < 4 && 0 <= j < 4 ==> #[trigger] transposed[i][j] == rows[j][i],
                forall|l: int, kk: int|
                    0 <= l < 4 && 0 <= kk < 4 ==> #[trigger] rows[l][kk] == word_at(
                        blocks[l]@,
                        offset + 4 * kk,
                    ),
                forall|w: int, l: int|
                    0 <= w < 4 * group + k && 0 <= l < 4 ==> #[trigger] words@[w]@[l] == word_at(
                        blocks[l]@,
                        4 * w,
                    ),
            decreases 4 - k,
        {
            let row = transposed[k];
            let v = vec![row[0], row[1], row[2], row[3]];
            proof {
                assert forall|l: int| 0 <= l < 4 implies #[trigger] v@[l] == word_at(
                    blocks[l]@,
                    4 * (4 * group + k),
                ) by {
                    assert(transposed[k as int][l] == rows[l][k as int]);
                }
            }
            words.push(v);
            k += 1;
        }
        group += 1;
    }
    assert forall|l: int| 0 <= l < 4 implies #[trigger] lane_words(words@, l) == block_words(
        blocks[l]@,
        0,
    ) by {
        assert(lane_words(words@, l) =~= block_words(blocks[l]@, 0));
    }
    words
}

/// `GROUPS` four-lane states at the initial chaining value.
fn initial_group_states(groups: usize) -> (states: Vec<[Vec<u32>; 4]>)
    ensures
        states_shaped(states@, groups as nat, 4),
        forall|gr: int, l: int|
            0 <= gr < groups && 0 <= l < 4 ==> #[trigger] lane_quad(states@[gr], l) == init_quad(),
{
    let mut states: Vec<[Vec<u32>; 4]> = Vec::new();
    let mut gr: usize = 0;
    while gr < groups
        invariant
            gr <= groups,
            states_shaped(states@, gr as nat, 4),
            forall|k: int, l: int|
                0 <= k < gr && 0 <= l < 4 ==> #[trigger] lane_quad(states@[k], l) == init_quad(),
        decreases groups - gr,
    {
        let st = [
            splat(4, STATE_INIT[0]),
            splat(4, STATE_INIT[1]),
            splat(4, STATE_INIT[2]),
            splat(4, STATE_INIT[3]),
        ];
        states.push(st);
        gr += 1;
    }
    states
}

/// Hash `LANES = 4 * GROUPS` messages of one length, each group of four in one four-lane
/// state, with the groups' rounds interleaved.
pub fn hash_equal_len_groups<const GROUPS: usize, const LANES: usize>(
    inputs: [&[u8]; LANES],
    outputs: &mut [[u8; 16]; LANES],
)
    requires
        LANES == GROUPS * 4,
        GROUPS >= 1,
        same_lengths(inputs@),
        messages_fit(inputs@),
    ensures
        forall|k: int| 0 <= k < LANES ==> (#[trigger] final(outputs)[k])@ == md5(inputs[k]@),
{
    let len = inputs[0].len();
    let mut states = initial_group_states(GROUPS);
    let full_blocks = len / 64;
    let mut bi: usize = 0;
    while bi < full_blocks
        invariant
            bi <= full_blocks,
            full_blocks == len / 64,
            LANES == GROUPS * 4,
            GROUPS >= 1,
            len == inputs@[0]@.len(),
            same_lengths(inputs@),
            states_shaped(states@, GROUPS as nat, 4),
            forall|gr: int, l: int|
                0 <= gr < GROUPS && 0 <= l < 4 ==> #[trigger] lane_quad(states@[gr], l)
                    == md5_blocks(init_quad(), md5_pad(inputs[4 * gr + l]@), bi as nat),
        decreases full_blocks - bi,
    {
        assert(bi * 64 + 64 <= len) by (nonlinear_arith)
            requires
                bi < len / 64,
        ;
        let offset = bi * 64;
        let mut words: Vec<Vec<Vec<u32>>> = Vec::new();
        let mut gr: usize = 0;
        while gr < GROUPS
            invariant
                gr <= GROUPS,
                bi < full_blocks,
                LANES == GROUPS * 4,
                offset == bi * 64,
                offset + 64 <= len,
                len == inputs@[0]@.len(),
                same_lengths(inputs@),
                group_words_shaped(words@, gr as nat, 4),
                forall|k: int, l: int|
                    0 <= k < gr && 0 <= l < 4 ==> #[trigger] lane_words(words@[k]@, l)
                        == block_words(inputs[4 * k + l]@, bi as int),
            decreases GROUPS - gr,
        {
            assert(inputs@[4 * gr as int]@.len() == len);
            assert(inputs@[4 * gr + 1]@.len() == len);
            assert(inputs@[4 * gr + 2]@.len() == len);
            assert(inputs@[4 * gr + 3]@.len() == len);
            let b0 = block_at(inputs[4 * gr], offset);
            let b1 = block_at(inputs[4 * gr + 1], offset);
            let b2 = block_at(inputs[4 * gr + 2], offset);
            let b3 = block_at(inputs[4 * gr + 3], offset);
            let w = load_words([&b0, &b1, &b2, &b3]);
            proof {
                assert forall|l: int| 0 <= l < 4 implies #[trigger] lane_words(w@, l)
                    == block_words(inputs[4 * gr + l]@, bi as int) by {
                    let blk = if l == 0 {
                        b0
                    } else if l == 1 {
                        b1
                    } else if l == 2 {
                        b2
                    } else {
                        b3
                    };
                    assert(block_words(blk@, 0) =~= block_words(inputs[4 * gr + l]@, bi as int));
                }
            }
            words.push(w);
            gr += 1;
        }
        let ghost before = states@;
        compress_words_interleaved(&mut states, &words);
        proof {
            assert forall|gr: int, l: int| 0 <= gr < GROUPS && 0 <= l < 4 implies #[trigger]
                lane_quad(states@[gr], l) == md5_blocks(
                init_quad(),
                md5_pad(inputs[4 * gr + l]@),
                (bi + 1) as nat,
            ) by {
                assert(inputs@[4 * gr + l]@.len() == len);
                lemma_full_block_is_pad(inputs[4 * gr + l]@, bi as int);
                assert(lane_quad(states@[gr], l) == compress(
                    lane_quad(before[gr], l),
                    lane_words(words@[gr]@, l),
                ));
            }
        }
        bi += 1;
    }
    let padded_blocks = padded_blocks_for_len(len);
    while bi < padded_blocks
        invariant
            full_blocks <= bi <= padded_blocks,
            full_blocks == len / 64,
            padded_blocks == padded_block_count(len as nat),
            padded_blocks * 64 < len + 73,
            LANES == GROUPS * 4,
            GROUPS >= 1,
            len == inputs@[0]@.len(),
            len <= isize::MAX,
            same_lengths(inputs@),
            states_shaped(states@, GROUPS as nat, 4),
            forall|gr: int, l: int|
                0 <= gr < GROUPS && 0 <= l < 4 ==> #[trigger] lane_quad(states@[gr], l)
                    == md5_blocks(init_quad(), md5_pad(inputs[4 * gr + l]@), bi as nat),
        decreases padded_blocks - bi,
    {
        let mut words: Vec<Vec<Vec<u32>>> = Vec::new();
        let mut gr: usize = 0;
        while gr < GROUPS
            invariant
                gr <= GROUPS,
                bi < padded_blocks,
                padded_blocks == padded_block_count(len as nat),
                padded_blocks * 64 < len + 73,
                len <= isize::MAX,
                LANES == GROUPS * 4,
                len == inputs@[0]@.len(),
                same_lengths(inputs@),
                group_words_shaped(words@, gr as nat, 4),
                forall|k: int, l: int|
                    0 <= k < gr && 0 <= l < 4 ==> #[trigger] lane_words(words@[k]@, l)
                        == block_words(md5_pad(inputs[4 * k + l]@), bi as int),
            decreases GROUPS - gr,
        {
            let b0 = build_padded_block(inputs[4 * gr], padded_blocks, bi);
            let b1 = build_padded_block(inputs[4 * gr + 1], padded_blocks, bi);
            let b2 = build_padded_block(inputs[4 * gr + 2], padded_blocks, bi);
            let b3 = build_padded_block(inputs[4 * gr + 3], padded_blocks, bi);
            let w = load_words([&b0, &b1, &b2, &b3]);
            proof {
                assert forall|l: int| 0 <= l < 4 implies #[trigger] lane_words(w@, l)
                    == block_words(md5_pad(inputs[4 * gr + l]@), bi as int) by {
                    let msg = inputs[4 * gr + l]@;
                    assert(msg.len() == len);
                    let blk = if l == 0 {
                        b0
                    } else if l == 1 {
                        b1
                    } else if l == 2 {
                        b2
                    } else {
                        b3
                    };
                    assert forall|k: int| 0 <= k < 64 implies #[trigger] blk[k] == md5_pad(msg)[64
                        * bi + k] by {
                        assert(blk[k] == built_block_byte(msg, padded_blocks as nat, bi as nat, k));
                        lemma_built_block_is_pad(msg, bi as nat, k);
                    }
                    assert forall|ww: int| 0 <= ww < 16 implies #[trigger] block_words(blk@, 0)[ww]
                        == block_words(md5_pad(msg), bi as int)[ww] by {
                        assert(blk[4 * ww] == md5_pad(msg)[64 * bi + 4 * ww]);
                        assert(blk[4 * ww + 1] == md5_pad(msg)[64 * bi + (4 * ww + 1)]);
                        assert(blk[4 * ww + 2] == md5_pad(msg)[64 * bi + (4 * ww + 2)]);
                        assert(blk[4 * ww + 3] == md5_pad(msg)[64 * bi + (4 * ww + 3)]);
                    }
                    assert(block_words(blk@, 0) =~= block_words(md5_pad(msg), bi as int));
                }
            }
            words.push(w);
            gr += 1;
        }
        let ghost before = states@;
        compress_words_interleaved(&mut states, &words);
        proof {
            assert forall|gr: int, l: int| 0 <= gr < GROUPS && 0 <= l < 4 implies #[trigger]
                lane_quad(states@[gr], l) == md5_blocks(
                init_quad(),
                md5_pad(inputs[4 * gr + l]@),
                (bi + 1) as nat,
            ) by {
                assert(lane_quad(states@[gr], l) == compress(
                    lane_quad(before[gr], l),
                    lane_words(words@[gr]@, l),
                ));
            }
        }
        bi += 1;
    }
    let mut k: usize = 0;
    while k < LANES
        invariant
            k <= LANES,
            LANES == GROUPS * 4,
            bi == padded_blocks,
            padded_blocks == padded_block_count(len as nat),
            len == inputs@[0]@.len(),
            same_lengths(inputs@),
            states_shaped(states@, GROUPS as nat, 4),
            forall|gr: int, l: int|
                0 <= gr < GROUPS && 0 <= l < 4 ==> #[trigger] lane_quad(states@[gr], l)
                    == md5_blocks(init_quad(), md5_pad(inputs[4 * gr + l]@), bi as nat),
            forall|j: int| 0 <= j < k ==> (#[trigger] outputs[j])@ == md5(inputs[j]@),
        decreases LANES - k,
    {
        let gr = k / 4;
        let l = k % 4;
        assert(state_shaped(states@[gr as int], 4));
        let digest = lane_digest(&states[gr], l);
        assert(inputs@[k as int]@.len() == len);
        assert(4 * gr + l == k);
        outputs[k] = digest;
        k += 1;
    }
}

/// Hash four equal-length messages in one four-lane group.
pub fn hash_equal_len4(inputs: [&[u8]; 4]) -> (digests: [[u8; 16]; 4])
    requires
        same_lengths(inputs@),
        messages_fit(inputs@),
    ensures
        forall|k: int| 0 <= k < 4 ==> (#[trigger] digests[k])@ == md5(inputs[k]@),
{
    let mut outputs = [[0u8; 16]; 4];
    hash_equal_len_groups::<1, 4>(inputs, &mut outputs);
    outputs
}

/// Hash eight equal-length messages as two round-interleaved four-lane groups.
pub fn hash_equal_len8(inputs: [&[u8]; 8]) -> (digests: [[u8; 16]; 8])
    requires
        same_lengths(inputs@),
        messages_fit(inputs@),
    ensures
        forall|k: int| 0 <= k < 8 ==> (#[trigger] digests[k])@ == md5(inputs[k]@),
{
    let mut outputs = [[0u8; 16]; 8];
    hash_equal_len_groups::<2, 8>(inputs, &mut outputs);
    outputs
}

/// Hash twelve equal-length messages as three round-interleaved four-lane groups.
pub fn hash_equal_len12(inputs: [&[u8]; 12]) -> (digests: [[u8; 16]; 12])
    requires
        same_lengths(inputs@),
        messages_fit(inputs@),
    ensures
        forall|k: int| 0 <= k < 12 ==> (#[trigger] digests[k])@ == md5(inputs[k]@),
{
    let mut outputs = [[0u8; 16]; 12];
    hash_equal_len_groups::<3, 12>(inputs, &mut outputs);
    outputs
}

/// The `N` messages starting at `start`, as an array.
fn group_at<'a, const N: usize>(inputs: &[&'a [u8]], start: usize) -> (group: [&'a [u8]; N])
    requires
        N >= 1,
        start + N <= inputs@.len(),
    ensures
        group@ == inputs@.subrange(start as int, start + N),
{
    let mut group: [&'a [u8]; N] = [inputs[start]; N];
    let n = inputs.len();
    let mut k: usize = 0;
    while k < N
        invariant
            k <= N,
            n == inputs@.len(),
            start + N <= inputs@.len(),
            forall|j: int| 0 <= j < k ==> #[trigger] group[j] == inputs@[start + j],
        decreases N - k,
    {
        group[k] = inputs[start + k];
        k += 1;
    }
    assert(group@ =~= inputs@.subrange(start as int, start + N));
    group
}

/// Hash one `GROUPS`-group batch of the run starting at `start` into `outputs[start..]`.
fn hash_run_batch<const GROUPS: usize, const LANES: usize>(
    inputs: &[&[u8]],
    outputs: &mut [[u8; 16]],
    start: usize,
)
    requires
        LANES == GROUPS * 4,
        GROUPS >= 1,
        start + LANES <= inputs@.len(),
        inputs@.len() <= old(outputs)@.len(),
        same_lengths(inputs@),
        messages_fit(inputs@),
    ensures
        digests_stored(
            old(outputs)@,
            final(outputs)@,
            start as int,
            inputs@.subrange(start as int, start + LANES),
        ),
{
    let group: [&[u8]; LANES] = group_at::<LANES>(inputs, start);
    assert forall|m: int| 0 <= m < LANES implies (#[trigger] group@[m])@.len() == group@[0]@.len() by {
        assert(inputs@[start + m]@.len() == inputs@[0]@.len());
        assert(inputs@[start as int]@.len() == inputs@[0]@.len());
    }
    let mut digests = [[0u8; 16]; LANES];
    hash_equal_len_groups::<GROUPS, LANES>(group, &mut digests);
    let ghost before = outputs@;
    let out_len = outputs.len();
    let mut k: usize = 0;
    while k < LANES
        invariant
            k <= LANES,
            out_len == before.len(),
            start + LANES <= inputs@.len(),
            inputs@.len() <= before.len(),
            group@ == inputs@.subrange(start as int, start + LANES),
            forall|j: int| 0 <= j < LANES ==> (#[trigger] digests[j])@ == md5(group@[j]@),
            outputs@.len() == before.len(),
            forall|j: int| 0 <= j < k ==> #[trigger] outputs@[start + j] == digests[j],
            forall|j: int|
                0 <= j < outputs@.len() && !(start <= j < start + k) ==> #[trigger] outputs@[j]
                    == before[j],
        decreases LANES - k,
    {
        outputs[start + k] = digests[k];
        k += 1;
    }
}

/// Hash the largest multiple-of-four prefix of an equal-length run in four-lane groups,
/// preferring three interleaved groups, but splitting a final sixteen as eight and eight
/// rather than twelve and four. Returns how many messages were hashed.
pub fn hash_equal_len_run(inputs: &[&[u8]], outputs: &mut [[u8; 16]]) -> (processed: usize)
    requires
        inputs@.len() <= old(outputs)@.len(),
        inputs@.len() >= 4 ==> same_lengths(inputs@),
        messages_fit(inputs@),
    ensures
        processed == inputs@.len() - inputs@.len() % 4,
        digests_stored(
            old(outputs)@,
            final(outputs)@,
            0,
            inputs@.subrange(0, processed as int),
        ),
{
    let n = inputs.len();
    if n < 4 {
        assert(inputs@.subrange(0, 0) =~= Seq::<&[u8]>::empty());
        return 0;
    }
    let full = n & !3usize;
    assert(n & !3usize == n - n % 4) by (bit_vector);
    let mut twelve_groups = full / 12;
    let remainder = full % 12;
    let eight_groups: usize;
    let four_groups: usize;
    if remainder == 0 {
        eight_groups = 0;
        four_groups = 0;
    } else if remainder == 4 && twelve_groups != 0 {
        twelve_groups -= 1;
        eight_groups = 2;
        four_groups = 0;
    } else if remainder == 4 {
        eight_groups = 0;
        four_groups = 1;
    } else {
        assert(remainder == 8);
        eight_groups = 1;
        four_groups = 0;
    }
    assert(12 * twelve_groups + 8 * eight_groups + 4 * four_groups == full);
    let ghost before = outputs@;
    assert(digests_stored(before, outputs@, 0, inputs@.subrange(0, 0)));
    let mut start: usize = 0;
    let mut t: usize = 0;
    while t < twelve_groups
        invariant
            t <= twelve_groups,
            start == 12 * t,
            12 * twelve_groups + 8 * eight_groups + 4 * four_groups == full,
            full <= n,
            n == inputs@.len(),
            n <= before.len(),
            same_lengths(inputs@),
            messages_fit(inputs@),
            digests_stored(before, outputs@, 0, inputs@.subrange(0, start as int)),
        decreases twelve_groups - t,
    {
        let ghost mid = outputs@;
        hash_run_batch::<3, 12>(inputs, outputs, start);
        proof {
            lemma_digests_stored_append(
                before,
                mid,
                outputs@,
                0,
                inputs@.subrange(0, start as int),
                inputs@.subrange(start as int, start + 12),
            );
            assert(inputs@.subrange(0, start as int) + inputs@.subrange(start as int, start + 12)
                =~= inputs@.subrange(0, start + 12));
        }
        start += 12;
        t += 1;
    }
    let mut e: usize = 0;
    while e < eight_groups
        invariant
            e <= eight_groups,
            start == 12 * twelve_groups + 8 * e,
            12 * twelve_groups + 8 * eight_groups + 4 * four_groups == full,
            full <= n,
            n == inputs@.len(),
            n <= before.len(),
            same_lengths(inputs@),
            messages_fit(inputs@),
            digests_stored(before, outputs@, 0, inputs@.subrange(0, start as int)),
        decreases eight_groups - e,
    {
        let ghost mid = outputs@;
        hash_run_batch::<2, 8>(inputs, outputs, start);
        proof {
            lemma_digests_stored_append(
                before,
                mid,
                outputs@,
                0,
                inputs@.subrange(0, start as int),
                inputs@.subrange(start as int, start + 8),
            );
            assert(inputs@.subrange(0, start as int) + inputs@.subrange(start as int, start + 8)
                =~= inputs@.subrange(0, start + 8));
        }
        start += 8;
        e += 1;
    }
    let mut f: usize = 0;
    while f < four_groups
        invariant
            f <= four_groups,
            start == 12 * twelve_groups + 8 * eight_groups + 4 * f,
            12 * twelve_groups + 8 * eight_groups + 4 * four_groups == full,
            full <= n,
            n == inputs@.len(),
            n <= before.len(),
            same_lengths(inputs@),
            messages_fit(inputs@),
            digests_stored(before, outputs@, 0, inputs@.subrange(0, start as int)),
        decreases four_groups - f,
    {
        let ghost mid = outputs@;
        hash_run_batch::<1, 4>(inputs, outputs, start);
        proof {
            lemma_digests_stored_append(
                before,
                mid,
                outputs@,
                0,
                inputs@.subrange(0, start as int),
                inputs@.subrange(start as int, start + 4),
            );
            assert(inputs@.subrange(0, start as int) + inputs@.subrange(start as int, start + 4)
                =~= inputs@.subrange(0, start + 4));
        }
        start += 4;
        f += 1;
    }
    start
}

} // verus!
