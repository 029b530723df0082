//! The level-independent multi-message paths: hash or compress up to one vector's worth of
//! messages per chunk, for any lane count.
use vstd::prelude::*;

use crate::consts::{MAX_LANES, STATE_INIT};
use crate::lanes::{
    compress_words, full_block_words, lane_quad, lane_words, lemma_padded_words_canonical,
    mixed_block_words, padded_block_words, padded_words, splat, state_shaped,
};
use crate::scalar::{block_at, compress_block, hash, padded_blocks_for_len, state_digest};
use crate::spec::{
    block_words, compress, digest_bytes, digests_stored, init_quad, lemma_digests_stored_append,
    lemma_full_block_is_pad,
    lemma_padded_count, md5, md5_blocks, md5_pad, messages_fit, padded_block_count, quad_of,
    same_lengths,
};

verus! {

/// The digest held in lane `lane` of a four-vector state.
pub fn lane_digest(state: &[Vec<u32>; 4], lane: usize) -> (digest: [u8; 16])
    requires
        lane < state[0]@.len(),
        state_shaped(*state, state[0]@.len()),
    ensures
        digest@ == digest_bytes(lane_quad(*state, lane as int)),
{
    let s = [state[0][lane], state[1][lane], state[2][lane], state[3][lane]];
    state_digest(&s)
}

/// A four-vector state with every lane at the initial chaining value.
pub fn initial_state(lanes: usize) -> (state: [Vec<u32>; 4])
    ensures
        state_shaped(state, lanes as nat),
        forall|l: int| 0 <= l < lanes ==> #[trigger] lane_quad(state, l) == init_quad(),
{
    [
        splat(lanes, STATE_INIT[0]),
        splat(lanes, STATE_INIT[1]),
        splat(lanes, STATE_INIT[2]),
        splat(lanes, STATE_INIT[3]),
    ]
}

/// Whether every message in `inputs[start..end]` has the length of `inputs[start]`.
pub fn lengths_agree(inputs: &[&[u8]], start: usize, end: usize) -> (same: bool)
    requires
        start <= end <= inputs@.len(),
    ensures
        same == (forall|k: int| start <= k < end ==> (#[trigger] inputs@[k])@.len() == inputs@[start as int]@.len()),
{
    if start == end {
        return true;
    }
    let first = inputs[start].len();
    let mut k = start;
    while k < end
        invariant
            start <= k <= end,
            end <= inputs@.len(),
            start < end,
            first == inputs@[start as int]@.len(),
            forall|m: int| start <= m < k ==> (#[trigger] inputs@[m])@.len() == first,
        decreases end - k,
    {
        if inputs[k].len() != first {
            return false;
        }
        k += 1;
    }
    true
}

/// Hash `inputs`, all of one length, in one vector of `lanes` lanes; digest `k` goes to
/// `outputs[out_start + k]`.
pub fn hash_equal_len_chunk(
    lanes: usize,
    inputs: &[&[u8]],
    outputs: &mut [[u8; 16]],
    out_start: usize,
)
    requires
        1 <= inputs@.len() <= lanes <= MAX_LANES,
        same_lengths(inputs@),
        messages_fit(inputs@),
        out_start + inputs@.len() <= old(outputs)@.len(),
    ensures
        digests_stored(old(outputs)@, final(outputs)@, out_start as int, inputs@),
{
    let active = inputs.len();
    let len = inputs[0].len();
    let ghost msgs = inputs@;
    let mut state = initial_state(lanes);
    let full_blocks = len / 64;
    let mut bi: usize = 0;
    while bi < full_blocks
        invariant
            bi <= full_blocks,
            full_blocks == len / 64,
            active == msgs.len(),
            inputs@ == msgs,
            1 <= active <= lanes <= MAX_LANES,
            len == msgs[0]@.len(),
            same_lengths(msgs),
            state_shaped(state, lanes as nat),
            forall|l: int|
                0 <= l < active ==> #[trigger] lane_quad(state, l) == md5_blocks(
                    init_quad(),
                    md5_pad(msgs[l]@),
                    bi as nat,
                ),
        decreases full_blocks - bi,
    {
        assert forall|l: int| 0 <= l < active implies 64 * bi + 64 <= (#[trigger] inputs@[l])@.len() by {
            assert(msgs[l]@.len() == len);
            assert(64 * bi + 64 <= len) by (nonlinear_arith)
                requires
                    bi < len / 64,
            ;
        }
        let words = full_block_words(lanes, inputs, active, bi);
        let ghost before = state;
        compress_words(&mut state, &words);
        proof {
            assert forall|l: int| 0 <= l < active implies #[trigger] lane_quad(state, l)
                == md5_blocks(init_quad(), md5_pad(msgs[l]@), (bi + 1) as nat) by {
                assert(lane_words(words@, l) == block_words(msgs[l]@, bi as int));
                lemma_full_block_is_pad(msgs[l]@, bi as int);
                assert(lane_quad(state, l) == compress(lane_quad(before, l), lane_words(words@, l)));
            }
        }
        bi += 1;
    }
    let padded_blocks = padded_blocks_for_len(len);
    while bi < padded_blocks
        invariant
            full_blocks <= bi <= padded_blocks,
            full_blocks == len / 64,
            padded_blocks == padded_block_count(len as nat),
            padded_blocks * 64 < len + 73,
            active == msgs.len(),
            inputs@ == msgs,
            1 <= active <= lanes <= MAX_LANES,
            len == msgs[0]@.len(),
            len <= isize::MAX,
            same_lengths(msgs),
            state_shaped(state, lanes as nat),
            forall|l: int|
                0 <= l < active ==> #[trigger] lane_quad(state, l) == md5_blocks(
                    init_quad(),
                    md5_pad(msgs[l]@),
                    bi as nat,
                ),
        decreases padded_blocks - bi,
    {
        let words = padded_block_words(lanes, inputs, active, padded_blocks, bi);
        let ghost before = state;
        compress_words(&mut state, &words);
        proof {
            assert forall|l: int| 0 <= l < active implies #[trigger] lane_quad(state, l)
                == md5_blocks(init_quad(), md5_pad(msgs[l]@), (bi + 1) as nat) by {
                assert(msgs[l]@.len() == len);
                assert(lane_words(words@, l) == padded_words(
                    msgs[l]@,
                    padded_blocks as nat,
                    bi as int,
                ));
                lemma_padded_words_canonical(msgs[l]@, bi as int);
                assert(lane_quad(state, l) == compress(lane_quad(before, l), lane_words(words@, l)));
            }
        }
        bi += 1;
    }
    let ghost before_out = outputs@;
    let out_len = outputs.len();
    let mut lane: usize = 0;
    while lane < active
        invariant
            lane <= active,
            out_len == before_out.len(),
            active == msgs.len(),
            inputs@ == msgs,
            active <= lanes,
            out_start + active <= before_out.len(),
            bi == padded_blocks,
            padded_blocks == padded_block_count(len as nat),
            len == msgs[0]@.len(),
            same_lengths(msgs),
            state_shaped(state, lanes as nat),
            forall|l: int|
                0 <= l < active ==> #[trigger] lane_quad(state, l) == md5_blocks(
                    init_quad(),
                    md5_pad(msgs[l]@),
                    bi as nat,
                ),
            outputs@.len() == before_out.len(),
            forall|k: int| 0 <= k < lane ==> (#[trigger] outputs@[out_start + k])@ == md5(msgs[k]@),
            forall|k: int|
                0 <= k < outputs@.len() && !(out_start <= k < out_start + lane) ==> #[trigger] outputs@[k]
                    == before_out[k],
        decreases active - lane,
    {
        let digest = lane_digest(&state, lane);
        assert(msgs[lane as int]@.len() == len);
        outputs[out_start + lane] = digest;
        lane += 1;
    }
}

/// Hash `inputs` of any lengths in one vector of `lanes` lanes. Each lane stops being
/// meaningful after its own last padded block, so its digest is taken right then.
pub fn hash_mixed_len_chunk(
    lanes: usize,
    inputs: &[&[u8]],
    outputs: &mut [[u8; 16]],
    out_start: usize,
)
    requires
        1 <= inputs@.len() <= lanes <= MAX_LANES,
        messages_fit(inputs@),
        out_start + inputs@.len() <= old(outputs)@.len(),
    ensures
        digests_stored(old(outputs)@, final(outputs)@, out_start as int, inputs@),
{
    let active = inputs.len();
    let ghost msgs = inputs@;
    let mut block_counts = [0usize; MAX_LANES];
    let mut max_blocks: usize = 0;
    let mut lane: usize = 0;
    while lane < active
        invariant
            lane <= active,
            active == msgs.len(),
            inputs@ == msgs,
            active <= MAX_LANES,
            messages_fit(msgs),
            forall|l: int|
                0 <= l < lane ==> #[trigger] block_counts[l] == padded_block_count(msgs[l]@.len())
                    && block_counts[l] <= max_blocks,
            forall|l: int| 0 <= l < lane ==> #[trigger] block_counts[l] * 64 <= usize::MAX,
        decreases active - lane,
    {
        let blocks = padded_blocks_for_len(inputs[lane].len());
        block_counts[lane] = blocks;
        if blocks > max_blocks {
            max_blocks = blocks;
        }
        lane += 1;
    }
    let mut state = initial_state(lanes);
    let ghost before_out = outputs@;
    let out_len = outputs.len();
    let mut bi: usize = 0;
    while bi < max_blocks
        invariant
            bi <= max_blocks,
            out_len == before_out.len(),
            active == msgs.len(),
            inputs@ == msgs,
            1 <= active <= lanes <= MAX_LANES,
            messages_fit(msgs),
            out_start + active <= before_out.len(),
            forall|l: int|
                0 <= l < active ==> #[trigger] block_counts[l] == padded_block_count(msgs[l]@.len())
                    && block_counts[l] <= max_blocks,
            forall|l: int| 0 <= l < active ==> #[trigger] block_counts[l] * 64 <= usize::MAX,
            state_shaped(state, lanes as nat),
            forall|l: int|
                0 <= l < active && bi <= block_counts[l] ==> #[trigger] lane_quad(state, l)
                    == md5_blocks(init_quad(), md5_pad(msgs[l]@), bi as nat),
            outputs@.len() == before_out.len(),
            forall|k: int|
                0 <= k < active && block_counts[k] <= bi ==> (#[trigger] outputs@[out_start + k])@
                    == md5(msgs[k]@),
            forall|k: int|
                0 <= k < active && block_counts[k] > bi ==> #[trigger] outputs@[out_start + k]
                    == before_out[out_start + k],
            forall|k: int|
                0 <= k < outputs@.len() && !(out_start <= k < out_start + active) ==> #[trigger] outputs@[k]
                    == before_out[k],
        decreases max_blocks - bi,
    {
        let words = mixed_block_words(lanes, inputs, active, &block_counts, bi);
        let ghost before = state;
        compress_words(&mut state, &words);
        proof {
            assert forall|l: int| 0 <= l < active && bi + 1 <= block_counts[l] implies #[trigger] lane_quad(state, l)
                == md5_blocks(init_quad(), md5_pad(msgs[l]@), (bi + 1) as nat) by {
                assert(lane_words(words@, l) == padded_words(
                    msgs[l]@,
                    block_counts[l] as nat,
                    bi as int,
                ));
                lemma_padded_words_canonical(msgs[l]@, bi as int);
                assert(lane_quad(state, l) == compress(lane_quad(before, l), lane_words(words@, l)));
            }
        }
        let ghost mid_out = outputs@;
        let mut lane: usize = 0;
        while lane < active
            invariant
                lane <= active,
                bi < max_blocks,
                out_len == before_out.len(),
                active <= MAX_LANES,
                active == msgs.len(),
                inputs@ == msgs,
                active <= lanes,
                out_start + active <= before_out.len(),
                state_shaped(state, lanes as nat),
                forall|l: int|
                    0 <= l < active && bi + 1 <= block_counts[l] ==> #[trigger] lane_quad(state, l)
                        == md5_blocks(init_quad(), md5_pad(msgs[l]@), (bi + 1) as nat),
                forall|l: int|
                    0 <= l < active ==> #[trigger] block_counts[l] == padded_block_count(msgs[l]@.len()),
                outputs@.len() == before_out.len(),
                forall|k: int|
                    0 <= k < lane && block_counts[k] == bi + 1 ==> (#[trigger] outputs@[out_start + k])@
                        == md5(msgs[k]@),
                forall|k: int|
                    0 <= k < outputs@.len() && !(out_start <= k < out_start + lane && block_counts[k - out_start] == bi + 1)
                        ==> #[trigger] outputs@[k] == mid_out[k],
            decreases active - lane,
        {
            if block_counts[lane] == bi + 1 {
                let digest = lane_digest(&state, lane);
                outputs[out_start + lane] = digest;
            }
            lane += 1;
        }
        bi += 1;
    }
}

/// The chaining state of one incremental MD5 stream.
#[derive(Clone, Copy, Debug)]
pub struct Md5State {
    pub state: [u32; 4],
}

/// Whole block `bi` of `input` read as a block of `input` itself.
proof fn lemma_block_at_words(input: Seq<u8>, block: Seq<u8>, bi: int)
    requires
        0 <= bi,
        64 * bi + 64 <= input.len(),
        block == input.subrange(64 * bi, 64 * bi + 64),
    ensures
        block_words(block, 0) == block_words(input, bi),
{
    assert forall|w: int| 0 <= w < 16 implies #[trigger] block_words(block, 0)[w] == block_words(
        input,
        bi,
    )[w] by {
        assert(block[4 * w] == input[64 * bi + 4 * w]);
        assert(block[4 * w + 1] == input[64 * bi + (4 * w + 1)]);
        assert(block[4 * w + 2] == input[64 * bi + (4 * w + 2)]);
        assert(block[4 * w + 3] == input[64 * bi + (4 * w + 3)]);
    }
    assert(block_words(block, 0) =~= block_words(input, bi));
}

/// Compress the first `blocks` whole blocks of `input` into `state` one block at a time.
pub fn compress_blocks_scalar(state: &mut [u32; 4], input: &[u8], blocks: usize)
    requires
        64 * blocks <= input@.len(),
    ensures
        quad_of(*final(state)) == md5_blocks(quad_of(*old(state)), input@, blocks as nat),
{
    let ghost q0 = quad_of(*state);
    let n = input.len();
    let mut bi: usize = 0;
    while bi < blocks
        invariant
            bi <= blocks,
            n == input@.len(),
            64 * blocks <= input@.len(),
            quad_of(*state) == md5_blocks(q0, input@, bi as nat),
        decreases blocks - bi,
    {
        let block = block_at(input, bi * 64);
        proof {
            lemma_block_at_words(input@, block@, bi as int);
        }
        compress_block(state, &block);
        bi += 1;
    }
}

/// Hash each message on its own with the scalar hash; digest `m` goes to
/// `outputs[out_start + m]`.
pub fn hash_each_scalar(inputs: &[&[u8]], outputs: &mut [[u8; 16]], out_start: usize)
    requires
        out_start + inputs@.len() <= old(outputs)@.len(),
        messages_fit(inputs@),
    ensures
        digests_stored(old(outputs)@, final(outputs)@, out_start as int, inputs@),
{
    let ghost before = outputs@;
    let out_len = outputs.len();
    let mut m: usize = 0;
    while m < inputs.len()
        invariant
            m <= inputs@.len(),
            out_len == before.len(),
            out_start + inputs@.len() <= before.len(),
            messages_fit(inputs@),
            outputs@.len() == before.len(),
            forall|k: int| 0 <= k < m ==> (#[trigger] outputs@[out_start + k])@ == md5(inputs@[k]@),
            forall|k: int|
                0 <= k < outputs@.len() && !(out_start <= k < out_start + m) ==> #[trigger] outputs@[k]
                    == before[k],
        decreases inputs@.len() - m,
    {
        let digest = hash(inputs[m]);
        outputs[out_start + m] = digest;
        m += 1;
    }
}

/// A four-vector state whose first `active` lanes hold `states[start..start + active]` and the
/// rest the initial chaining value.
fn load_states(lanes: usize, states: &[[u32; 4]], start: usize, active: usize) -> (v: [Vec<
    u32,
>; 4])
    requires
        active <= lanes,
        start + active <= states@.len(),
    ensures
        state_shaped(v, lanes as nat),
        forall|l: int| 0 <= l < active ==> #[trigger] lane_quad(v, l) == quad_of(states@[start + l]),
{
    let mut a: Vec<u32> = Vec::new();
    let mut b: Vec<u32> = Vec::new();
    let mut c: Vec<u32> = Vec::new();
    let mut d: Vec<u32> = Vec::new();
    let n = states.len();
    let mut l: usize = 0;
    while l < lanes
        invariant
            l <= lanes,
            active <= lanes,
            n == states@.len(),
            start + active <= states@.len(),
            a@.len() == l,
            b@.len() == l,
            c@.len() == l,
            d@.len() == l,
            forall|k: int|
                0 <= k < l && k < active ==> (a@[k], b@[k], c@[k], d@[k]) == quad_of(
                    #[trigger] states@[start + k],
                ),
        decreases lanes - l,
    {
        let s = if l < active {
            states[start + l]
        } else {
            STATE_INIT
        };
        a.push(s[0]);
        b.push(s[1]);
        c.push(s[2]);
        d.push(s[3]);
        l += 1;
    }
    [a, b, c, d]
}

/// Compress equal-length, block-aligned fragments into their chaining states, up to one
/// vector of `lanes` lanes at a time; a chunk of fewer than three goes through the scalar
/// compressor instead.
pub fn compress_many_blocks_inner(lanes: usize, states: &mut [[u32; 4]], inputs: &[&[u8]])
    requires
        1 <= lanes <= MAX_LANES,
        old(states)@.len() == inputs@.len(),
        same_lengths(inputs@),
        inputs@.len() > 0 ==> inputs@[0]@.len() % 64 == 0,
    ensures
        final(states)@.len() == old(states)@.len(),
        forall|m: int|
            0 <= m < inputs@.len() ==> #[trigger] quad_of(final(states)@[m]) == md5_blocks(
                quad_of(old(states)@[m]),
                inputs@[m]@,
                (inputs@[0]@.len() / 64) as nat,
            ),
{
    let n = inputs.len();
    if n == 0 {
        return;
    }
    let ghost msgs = inputs@;
    let ghost init = states@;
    let len = inputs[0].len();
    let block_count = len / 64;
    let mut start: usize = 0;
    while start < n
        invariant
            start <= n,
            n == msgs.len(),
            inputs@ == msgs,
            1 <= lanes <= MAX_LANES,
            len == msgs[0]@.len(),
            block_count == len / 64,
            same_lengths(msgs),
            init.len() == n,
            states@.len() == n,
            forall|m: int|
                0 <= m < start ==> #[trigger] quad_of(states@[m]) == md5_blocks(
                    quad_of(init[m]),
                    msgs[m]@,
                    block_count as nat,
                ),
            forall|m: int| start <= m < n ==> #[trigger] states@[m] == init[m],
        decreases n - start,
    {
        let end = if n - start < lanes {
            n
        } else {
            start + lanes
        };
        let active = end - start;
        assert(64 * block_count <= len) by (nonlinear_arith)
            requires
                block_count == len / 64,
        ;
        if active < 3 {
            let mut m = start;
            while m < end
                invariant
                    start <= m <= end,
                    end <= n,
                    n == msgs.len(),
                    inputs@ == msgs,
                    len == msgs[0]@.len(),
                    64 * block_count <= len,
                    same_lengths(msgs),
                    init.len() == n,
                    states@.len() == n,
                    forall|k: int|
                        0 <= k < m ==> #[trigger] quad_of(states@[k]) == md5_blocks(
                            quad_of(init[k]),
                            msgs[k]@,
                            block_count as nat,
                        ),
                    forall|k: int| m <= k < n ==> #[trigger] states@[k] == init[k],
                decreases end - m,
            {
                let mut st = states[m];
                assert(msgs[m as int]@.len() == len);
                compress_blocks_scalar(&mut st, inputs[m], block_count);
                states[m] = st;
                m += 1;
            }
        } else {
            let chunk = vstd::slice::slice_subrange(inputs, start, end);
            let mut vector_state = load_states(lanes, states, start, active);
            let ghost v0 = vector_state;
            let mut bi: usize = 0;
            while bi < block_count
                invariant
                    bi <= block_count,
                    block_count == len / 64,
                    start + active == end,
                    end <= n,
                    active <= lanes <= MAX_LANES,
                    n == msgs.len(),
                    chunk@ == msgs.subrange(start as int, end as int),
                    len == msgs[0]@.len(),
                    same_lengths(msgs),
                    state_shaped(vector_state, lanes as nat),
                    forall|l: int|
                        0 <= l < active ==> #[trigger] lane_quad(vector_state, l) == md5_blocks(
                            lane_quad(v0, l),
                            msgs[start + l]@,
                            bi as nat,
                        ),
                decreases block_count - bi,
            {
                assert forall|l: int| 0 <= l < active implies 64 * bi + 64 <= (
                #[trigger] chunk@[l])@.len() by {
                    assert(msgs[start + l]@.len() == len);
                    assert(64 * bi + 64 <= len) by (nonlinear_arith)
                        requires
                            bi < len / 64,
                    ;
                }
                let words = full_block_words(lanes, chunk, active, bi);
                let ghost before = vector_state;
                compress_words(&mut vector_state, &words);
                proof {
                    assert forall|l: int| 0 <= l < active implies #[trigger] lane_quad(
                        vector_state,
                        l,
                    ) == md5_blocks(lane_quad(v0, l), msgs[start + l]@, (bi + 1) as nat) by {
                        assert(lane_words(words@, l) == block_words(chunk@[l]@, bi as int));
                        assert(lane_quad(vector_state, l) == compress(
                            lane_quad(before, l),
                            lane_words(words@, l),
                        ));
                    }
                }
                bi += 1;
            }
            let mut l: usize = 0;
            while l < active
                invariant
                    l <= active,
                    start + active == end,
                    end <= n,
                    active <= lanes,
                    n == msgs.len(),
                    init.len() == n,
                    states@.len() == n,
                    state_shaped(vector_state, lanes as nat),
                    forall|k: int|
                        0 <= k < active ==> #[trigger] lane_quad(vector_state, k) == md5_blocks(
                            lane_quad(v0, k),
                            msgs[start + k]@,
                            block_count as nat,
                        ),
                    forall|k: int| 0 <= k < active ==> #[trigger] lane_quad(v0, k) == quad_of(init[start + k]),
                    forall|k: int|
                        0 <= k < start + l ==> #[trigger] quad_of(states@[k]) == md5_blocks(
                            quad_of(init[k]),
                            msgs[k]@,
                            block_count as nat,
                        ),
                    forall|k: int| start + l <= k < n ==> #[trigger] states@[k] == init[k],
                decreases active - l,
            {
                let q = [
                    vector_state[0][l],
                    vector_state[1][l],
                    vector_state[2][l],
                    vector_state[3][l],
                ];
                assert(quad_of(q) == lane_quad(vector_state, l as int));
                states[start + l] = q;
                l += 1;
            }
        }
        start = end;
    }
}

/// Compress equal-length, block-aligned fragments into the chaining states of at most one
/// vector's worth of streams.
pub fn compress_md5_states_inner(lanes: usize, streams: &mut [Md5State], inputs: &[&[u8]])
    requires
        1 <= lanes <= MAX_LANES,
        1 <= inputs@.len() <= lanes,
        old(streams)@.len() == inputs@.len(),
        same_lengths(inputs@),
        inputs@[0]@.len() % 64 == 0,
    ensures
        final(streams)@.len() == old(streams)@.len(),
        forall|m: int|
            0 <= m < inputs@.len() ==> #[trigger] quad_of(final(streams)@[m].state) == md5_blocks(
                quad_of(old(streams)@[m].state),
                inputs@[m]@,
                (inputs@[0]@.len() / 64) as nat,
            ),
{
    let active = streams.len();
    let ghost msgs = inputs@;
    let ghost init = streams@;
    let mut a: Vec<u32> = Vec::new();
    let mut b: Vec<u32> = Vec::new();
    let mut c: Vec<u32> = Vec::new();
    let mut d: Vec<u32> = Vec::new();
    let mut l: usize = 0;
    while l < lanes
        invariant
            l <= lanes,
            active <= lanes,
            active == init.len(),
            streams@ == init,
            a@.len() == l,
            b@.len() == l,
            c@.len() == l,
            d@.len() == l,
            forall|k: int|
                0 <= k < l && k < active ==> (a@[k], b@[k], c@[k], d@[k]) == quad_of(
                    (#[trigger] init[k]).state,
                ),
        decreases lanes - l,
    {
        let s = if l < active {
            streams[l].state
        } else {
            STATE_INIT
        };
        a.push(s[0]);
        b.push(s[1]);
        c.push(s[2]);
        d.push(s[3]);
        l += 1;
    }
    let mut vector_state = [a, b, c, d];
    let ghost v0 = vector_state;
    let len = inputs[0].len();
    let block_count = len / 64;
    let mut bi: usize = 0;
    while bi < block_count
        invariant
            bi <= block_count,
            block_count == len / 64,
            active == msgs.len(),
            inputs@ == msgs,
            1 <= active <= lanes <= MAX_LANES,
            len == msgs[0]@.len(),
            same_lengths(msgs),
            state_shaped(vector_state, lanes as nat),
            forall|k: int|
                0 <= k < active ==> #[trigger] lane_quad(vector_state, k) == md5_blocks(
                    lane_quad(v0, k),
                    msgs[k]@,
                    bi as nat,
                ),
        decreases block_count - bi,
    {
        assert forall|k: int| 0 <= k < active implies 64 * bi + 64 <= (#[trigger] msgs[k])@.len() by {
            assert(msgs[k]@.len() == len);
            assert(64 * bi + 64 <= len) by (nonlinear_arith)
                requires
                    bi < len / 64,
            ;
        }
        let words = full_block_words(lanes, inputs, active, bi);
        let ghost before = vector_state;
        compress_words(&mut vector_state, &words);
        proof {
            assert forall|k: int| 0 <= k < active implies #[trigger] lane_quad(vector_state, k)
                == md5_blocks(lane_quad(v0, k), msgs[k]@, (bi + 1) as nat) by {
                assert(lane_words(words@, k) == block_words(msgs[k]@, bi as int));
                assert(lane_quad(vector_state, k) == compress(
                    lane_quad(before, k),
                    lane_words(words@, k),
                ));
            }
        }
        bi += 1;
    }
    let mut l: usize = 0;
    while l < active
        invariant
            l <= active,
            active <= lanes,
            active == init.len(),
            streams@.len() == active,
            state_shaped(vector_state, lanes as nat),
            forall|k: int|
                0 <= k < active ==> #[trigger] lane_quad(vector_state, k) == md5_blocks(
                    lane_quad(v0, k),
                    msgs[k]@,
                    block_count as nat,
                ),
            forall|k: int| 0 <= k < active ==> #[trigger] lane_quad(v0, k) == quad_of(init[k].state),
            forall|k: int|
                0 <= k < l ==> #[trigger] quad_of(streams@[k].state) == md5_blocks(
                    quad_of(init[k].state),
                    msgs[k]@,
                    block_count as nat,
                ),
        decreases active - l,
    {
        let q = [vector_state[0][l], vector_state[1][l], vector_state[2][l], vector_state[3][l]];
        assert(quad_of(q) == lane_quad(vector_state, l as int));
        streams[l] = Md5State { state: q };
        l += 1;
    }
}

/// Hash every message, up to one vector of `lanes` lanes at a time; a chunk of fewer than
/// three goes through the scalar hash instead.
pub fn hash_many_inner(lanes: usize, inputs: &[&[u8]], outputs: &mut [[u8; 16]])
    requires
        1 <= lanes <= MAX_LANES,
        inputs@.len() <= old(outputs)@.len(),
        messages_fit(inputs@),
    ensures
        digests_stored(old(outputs)@, final(outputs)@, 0, inputs@),
{
    let n = inputs.len();
    let ghost before = outputs@;
    assert(digests_stored(before, outputs@, 0, inputs@.subrange(0, 0)));
    let mut start: usize = 0;
    while start < n
        invariant
            start <= n,
            n == inputs@.len(),
            n <= before.len(),
            1 <= lanes <= MAX_LANES,
            messages_fit(inputs@),
            digests_stored(before, outputs@, 0, inputs@.subrange(0, start as int)),
        decreases n - start,
    {
        let end = if n - start < lanes {
            n
        } else {
            start + lanes
        };
        let ghost mid = outputs@;
        let chunk = vstd::slice::slice_subrange(inputs, start, end);
        assert(messages_fit(chunk@));
        if end - start < 3 {
            hash_each_scalar(chunk, outputs, start);
        } else {
            if lengths_agree(inputs, start, end) {
                assert(same_lengths(chunk@)) by {
                    assert forall|m: int| 0 <= m < chunk@.len() implies (#[trigger] chunk@[m])@.len()
                        == chunk@[0]@.len() by {
                        assert(chunk@[m] == inputs@[start + m]);
                    }
                }
                hash_equal_len_chunk(lanes, chunk, outputs, start);
            } else {
                hash_mixed_len_chunk(lanes, chunk, outputs, start);
            }
        }
        proof {
            lemma_digests_stored_append(
                before,
                mid,
                outputs@,
                0,
                inputs@.subrange(0, start as int),
                inputs@.subrange(start as int, end as int),
            );
            assert(inputs@.subrange(0, start as int) + inputs@.subrange(start as int, end as int)
                =~= inputs@.subrange(0, end as int));
        }
        start = end;
    }
    assert(inputs@.subrange(0, n as int) =~= inputs@);
}

} // verus!
