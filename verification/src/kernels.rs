//! Native-width kernels of the x86 scheduler: `groups` vectors of `width` lanes each, with
//! the MD5 rounds of the groups interleaved. One group is a native kernel, two a dual and
//! three a triple kernel.
use vstd::prelude::*;

use crate::consts::{MAX_LANES, STATE_INIT};
use crate::lanes::{
    compress_words_interleaved, full_block_words, group_words_shaped, lane_quad, lane_words,
    lemma_padded_words_canonical, mixed_block_words, padded_block_words, padded_words, splat,
    state_shaped, states_shaped,
};
use crate::portable::lane_digest;
use crate::scalar::padded_blocks_for_len;
use crate::spec::{
    block_words, compress, digests_stored, init_quad, lemma_full_block_is_pad, md5, md5_blocks,
    md5_pad, messages_fit, padded_block_count, quad_of, same_lengths,
};

verus! {

/// Group `gr` of `width` messages.
fn group_inputs<'a>(inputs: &'a [&'a [u8]], width: usize, gr: usize) -> (group: &'a [&'a [u8]])
    requires
        (gr + 1) * width <= inputs@.len(),
    ensures
        group@ == inputs@.subrange(gr * width, gr * width + width),
        group@.len() == width,
        forall|l: int| 0 <= l < width ==> #[trigger] group@[l] == inputs@[gr * width + l],
{
    let n = inputs.len();
    assert((gr + 1) * width == gr * width + width) by (nonlinear_arith);
    assert(0 <= gr * width) by (nonlinear_arith);
    let start = gr * width;
    vstd::slice::slice_subrange(inputs, start, start + width)
}

/// `groups * width` lanes fit the scheduler's widest kernel.
pub open spec fn kernel_shape(groups: nat, width: nat) -> bool {
    1 <= groups <= 3 && 1 <= width <= MAX_LANES
}

proof fn lemma_lane_index(groups: nat, width: nat, gr: int, l: int)
    requires
        0 <= gr < groups,
        0 <= l < width,
    ensures
        0 <= gr * width + l < groups * width,
        gr * width <= gr * width + l,
        (gr + 1) * width <= groups * width,
{
    assert(gr * width + l < groups * width) by (nonlinear_arith)
        requires
            gr < groups,
            l < width,
    ;
    assert((gr + 1) * width <= groups * width) by (nonlinear_arith)
        requires
            gr < groups,
    ;
    assert(0 <= gr * width) by (nonlinear_arith)
        requires
            0 <= gr,
    ;
}

/// The words of whole block `bi` for every group.
fn group_full_words(groups: usize, width: usize, inputs: &[&[u8]], bi: usize) -> (words: Vec<
    Vec<Vec<u32>>,
>)
    requires
        kernel_shape(groups as nat, width as nat),
        inputs@.len() == groups * width,
        forall|m: int| 0 <= m < inputs@.len() ==> 64 * bi + 64 <= (#[trigger] inputs@[m])@.len(),
    ensures
        group_words_shaped(words@, groups as nat, width as nat),
        forall|gr: int, l: int|
            0 <= gr < groups && 0 <= l < width ==> #[trigger] lane_words(words@[gr]@, l)
                == block_words(inputs@[gr * width + l]@, bi as int),
{
    let mut words: Vec<Vec<Vec<u32>>> = Vec::new();
    let mut gr: usize = 0;
    while gr < groups
        invariant
            gr <= groups,
            kernel_shape(groups as nat, width as nat),
            inputs@.len() == groups * width,
            forall|m: int|
                0 <= m < inputs@.len() ==> 64 * bi + 64 <= (#[trigger] inputs@[m])@.len(),
            group_words_shaped(words@, gr as nat, width as nat),
            forall|k: int, l: int|
                0 <= k < gr && 0 <= l < width ==> #[trigger] lane_words(words@[k]@, l)
                    == block_words(inputs@[k * width + l]@, bi as int),
        decreases groups - gr,
    {
        proof {
            lemma_lane_index(groups as nat, width as nat, gr as int, 0);
        }
        let group = group_inputs(inputs, width, gr);
        assert forall|l: int| 0 <= l < width implies 64 * bi + 64 <= (#[trigger] group@[l])@.len() by {
            lemma_lane_index(groups as nat, width as nat, gr as int, l);
            assert(group@[l] == inputs@[gr * width + l]);
        }
        let w = full_block_words(width, group, width, bi);
        proof {
            assert forall|l: int| 0 <= l < width implies #[trigger] lane_words(w@, l)
                == block_words(inputs@[gr * width + l]@, bi as int) by {
                lemma_lane_index(groups as nat, width as nat, gr as int, l);
                assert(group@[l] == inputs@[gr * width + l]);
            }
        }
        words.push(w);
        gr += 1;
    }
    words
}

/// The words of padded block `bi` for every group, all messages padded to `padded_blocks`.
fn group_padded_words(
    groups: usize,
    width: usize,
    inputs: &[&[u8]],
    padded_blocks: usize,
    bi: usize,
) -> (words: Vec<Vec<Vec<u32>>>)
    requires
        kernel_shape(groups as nat, width as nat),
        inputs@.len() == groups * width,
        bi < padded_blocks,
        padded_blocks * 64 <= usize::MAX,
    ensures
        group_words_shaped(words@, groups as nat, width as nat),
        forall|gr: int, l: int|
            0 <= gr < groups && 0 <= l < width ==> #[trigger] lane_words(words@[gr]@, l)
                == padded_words(inputs@[gr * width + l]@, padded_blocks as nat, bi as int),
{
    let mut words: Vec<Vec<Vec<u32>>> = Vec::new();
    let mut gr: usize = 0;
    while gr < groups
        invariant
            gr <= groups,
            kernel_shape(groups as nat, width as nat),
            inputs@.len() == groups * width,
            bi < padded_blocks,
            padded_blocks * 64 <= usize::MAX,
            group_words_shaped(words@, gr as nat, width as nat),
            forall|k: int, l: int|
                0 <= k < gr && 0 <= l < width ==> #[trigger] lane_words(words@[k]@, l)
                    == padded_words(inputs@[k * width + l]@, padded_blocks as nat, bi as int),
        decreases groups - gr,
    {
        proof {
            lemma_lane_index(groups as nat, width as nat, gr as int, 0);
        }
        let group = group_inputs(inputs, width, gr);
        let w = padded_block_words(width, group, width, padded_blocks, bi);
        proof {
            assert forall|l: int| 0 <= l < width implies #[trigger] lane_words(w@, l)
                == padded_words(inputs@[gr * width + l]@, padded_blocks as nat, bi as int) by {
                lemma_lane_index(groups as nat, width as nat, gr as int, l);
                assert(group@[l] == inputs@[gr * width + l]);
            }
        }
        words.push(w);
        gr += 1;
    }
    words
}

/// The words of block `bi` for every group, message `m` padded to its own `counts[m]` blocks
/// and zero once past them.
fn group_mixed_words(
    groups: usize,
    width: usize,
    inputs: &[&[u8]],
    counts: &Vec<usize>,
    bi: usize,
) -> (words: Vec<Vec<Vec<u32>>>)
    requires
        kernel_shape(groups as nat, width as nat),
        inputs@.len() == groups * width,
        counts@.len() == inputs@.len(),
        forall|m: int| 0 <= m < counts@.len() ==> #[trigger] counts@[m] * 64 <= usize::MAX,
    ensures
        group_words_shaped(words@, groups as nat, width as nat),
        forall|gr: int, l: int|
            0 <= gr < groups && 0 <= l < width && bi < counts@[gr * width + l] ==> #[trigger]
                lane_words(words@[gr]@, l) == padded_words(
                inputs@[gr * width + l]@,
                counts@[gr * width + l] as nat,
                bi as int,
            ),
{
    let mut words: Vec<Vec<Vec<u32>>> = Vec::new();
    let n = counts.len();
    let mut gr: usize = 0;
    while gr < groups
        invariant
            gr <= groups,
            kernel_shape(groups as nat, width as nat),
            inputs@.len() == groups * width,
            n == counts@.len(),
            counts@.len() == inputs@.len(),
            forall|m: int| 0 <= m < counts@.len() ==> #[trigger] counts@[m] * 64 <= usize::MAX,
            group_words_shaped(words@, gr as nat, width as nat),
            forall|k: int, l: int|
                0 <= k < gr && 0 <= l < width && bi < counts@[k * width + l] ==> #[trigger]
                    lane_words(words@[k]@, l) == padded_words(
                    inputs@[k * width + l]@,
                    counts@[k * width + l] as nat,
                    bi as int,
                ),
        decreases groups - gr,
    {
        proof {
            lemma_lane_index(groups as nat, width as nat, gr as int, 0);
        }
        let group = group_inputs(inputs, width, gr);
        let mut group_counts = [0usize; MAX_LANES];
        let mut l: usize = 0;
        while l < width
            invariant
                l <= width,
                gr < groups,
                kernel_shape(groups as nat, width as nat),
                inputs@.len() == groups * width,
                counts@.len() == inputs@.len(),
                n == counts@.len(),
                forall|m: int|
                    0 <= m < counts@.len() ==> #[trigger] counts@[m] * 64 <= usize::MAX,
                forall|k: int|
                    0 <= k < l ==> #[trigger] group_counts[k] == counts@[gr * width + k],
            decreases width - l,
        {
            proof {
                lemma_lane_index(groups as nat, width as nat, gr as int, l as int);
            }
            group_counts[l] = counts[gr * width + l];
            l += 1;
        }
        assert forall|k: int| 0 <= k < width implies #[trigger] group_counts[k] * 64 <= usize::MAX by {
            lemma_lane_index(groups as nat, width as nat, gr as int, k);
            assert(group_counts[k] == counts@[gr * width + k]);
        }
        let w = mixed_block_words(width, group, width, &group_counts, bi);
        proof {
            assert forall|l: int| 0 <= l < width && bi < counts@[gr * width + l] implies
                #[trigger] lane_words(w@, l) == padded_words(
                inputs@[gr * width + l]@,
                counts@[gr * width + l] as nat,
                bi as int,
            ) by {
                lemma_lane_index(groups as nat, width as nat, gr as int, l);
                assert(group@[l] == inputs@[gr * width + l]);
                assert(group_counts[l] == counts@[gr * width + l]);
            }
        }
        words.push(w);
        gr += 1;
    }
    words
}

/// Four-vector states for every group, lane `l` of group `gr` holding `init[gr * width + l]`.
fn group_states(groups: usize, width: usize, init: &[[u32; 4]]) -> (states: Vec<[Vec<u32>; 4]>)
    requires
        kernel_shape(groups as nat, width as nat),
        init@.len() == groups * width,
    ensures
        states_shaped(states@, groups as nat, width as nat),
        forall|gr: int, l: int|
            0 <= gr < groups && 0 <= l < width ==> #[trigger] lane_quad(states@[gr], l) == quad_of(
                init@[gr * width + l],
            ),
{
    let mut states: Vec<[Vec<u32>; 4]> = Vec::new();
    let mut gr: usize = 0;
    while gr < groups
        invariant
            gr <= groups,
            kernel_shape(groups as nat, width as nat),
            init@.len() == groups * width,
            states_shaped(states@, gr as nat, width as nat),
            forall|k: int, l: int|
                0 <= k < gr && 0 <= l < width ==> #[trigger] lane_quad(states@[k], l) == quad_of(
                    init@[k * width + l],
                ),
        decreases groups - gr,
    {
        let mut a: Vec<u32> = Vec::new();
        let mut b: Vec<u32> = Vec::new();
        let mut c: Vec<u32> = Vec::new();
        let mut d: Vec<u32> = Vec::new();
        let mut l: usize = 0;
        while l < width
            invariant
                l <= width,
                gr < groups,
                kernel_shape(groups as nat, width as nat),
                init@.len() == groups * width,
                a@.len() == l,
                b@.len() == l,
                c@.len() == l,
                d@.len() == l,
                forall|k: int|
                    0 <= k < l ==> (a@[k], b@[k], c@[k], d@[k]) == quad_of(
                        #[trigger] init@[gr * width + k],
                    ),
            decreases width - l,
        {
            proof {
                lemma_lane_index(groups as nat, width as nat, gr as int, l as int);
            }
            assert(gr * width + l < init@.len());
            let s = init[gr * width + l];
            a.push(s[0]);
            b.push(s[1]);
            c.push(s[2]);
            d.push(s[3]);
            l += 1;
        }
        states.push([a, b, c, d]);
        gr += 1;
    }
    states
}

/// Initial-value states for every group.
fn initial_group_states(groups: usize, width: usize) -> (states: Vec<[Vec<u32>; 4]>)
    ensures
        states_shaped(states@, groups as nat, width as nat),
        forall|gr: int, l: int|
            0 <= gr < groups && 0 <= l < width ==> #[trigger] lane_quad(states@[gr], l)
                == init_quad(),
{
    let mut states: Vec<[Vec<u32>; 4]> = Vec::new();
    let mut gr: usize = 0;
    while gr < groups
        invariant
            gr <= groups,
            states_shaped(states@, gr as nat, width as nat),
            forall|k: int, l: int|
                0 <= k < gr && 0 <= l < width ==> #[trigger] lane_quad(states@[k], l)
                    == init_quad(),
        decreases groups - gr,
    {
        states.push(
            [
                splat(width, STATE_INIT[0]),
                splat(width, STATE_INIT[1]),
                splat(width, STATE_INIT[2]),
                splat(width, STATE_INIT[3]),
            ],
        );
        gr += 1;
    }
    states
}

/// Hash `groups * width` equal-length messages; digest `m` goes to `outputs[out_start + m]`.
pub fn hash_equal_len_kernel(
    groups: usize,
    width: usize,
    inputs: &[&[u8]],
    outputs: &mut [[u8; 16]],
    out_start: usize,
)
    requires
        kernel_shape(groups as nat, width as nat),
        inputs@.len() == groups * width,
        same_lengths(inputs@),
        messages_fit(inputs@),
        out_start + inputs@.len() <= old(outputs)@.len(),
    ensures
        digests_stored(old(outputs)@, final(outputs)@, out_start as int, inputs@),
{
    assert(groups * width >= 1) by (nonlinear_arith)
        requires
            groups >= 1,
            width >= 1,
    ;
    let len = inputs[0].len();
    let ghost msgs = inputs@;
    let mut states = initial_group_states(groups, width);
    let full_blocks = len / 64;
    let mut bi: usize = 0;
    while bi < full_blocks
        invariant
            bi <= full_blocks,
            full_blocks == len / 64,
            kernel_shape(groups as nat, width as nat),
            inputs@ == msgs,
            msgs.len() == groups * width,
            len == msgs[0]@.len(),
            same_lengths(msgs),
            states_shaped(states@, groups as nat, width as nat),
            forall|gr: int, l: int|
                0 <= gr < groups && 0 <= l < width ==> #[trigger] lane_quad(states@[gr], l)
                    == md5_blocks(init_quad(), md5_pad(msgs[gr * width + l]@), bi as nat),
        decreases full_blocks - bi,
    {
        assert(64 * bi + 64 <= len) by (nonlinear_arith)
            requires
                bi < len / 64,
        ;
        assert forall|m: int| 0 <= m < msgs.len() implies 64 * bi + 64 <= (#[trigger] msgs[m])@.len() by {
            assert(msgs[m]@.len() == len);
        }
        let words = group_full_words(groups, width, inputs, bi);
        let ghost before = states@;
        compress_words_interleaved(&mut states, &words);
        proof {
            assert forall|gr: int, l: int| 0 <= gr < groups && 0 <= l < width implies #[trigger]
                lane_quad(states@[gr], l) == md5_blocks(
                init_quad(),
                md5_pad(msgs[gr * width + l]@),
                (bi + 1) as nat,
            ) by {
                lemma_lane_index(groups as nat, width as nat, gr, l);
                assert(msgs[gr * width + l]@.len() == len);
                lemma_full_block_is_pad(msgs[gr * width + l]@, bi as int);
                assert(lane_quad(states@[gr], l) == compress(
                    lane_quad(before[gr], l),
                    lane_words(words@[gr]@, l),
                ));
            }
        }
        bi += 1;
    }
    let padded_blocks = padded_blocks_for_len(len);
    while bi < padded_blocks
        invariant
            full_blocks <= bi <= padded_blocks,
            padded_blocks == padded_block_count(len as nat),
            padded_blocks * 64 < len + 73,
            kernel_shape(groups as nat, width as nat),
            inputs@ == msgs,
            msgs.len() == groups * width,
            len == msgs[0]@.len(),
            len <= isize::MAX,
            same_lengths(msgs),
            states_shaped(states@, groups as nat, width as nat),
            forall|gr: int, l: int|
                0 <= gr < groups && 0 <= l < width ==> #[trigger] lane_quad(states@[gr], l)
                    == md5_blocks(init_quad(), md5_pad(msgs[gr * width + l]@), bi as nat),
        decreases padded_blocks - bi,
    {
        let words = group_padded_words(groups, width, inputs, padded_blocks, bi);
        let ghost before = states@;
        compress_words_interleaved(&mut states, &words);
        proof {
            assert forall|gr: int, l: int| 0 <= gr < groups && 0 <= l < width implies #[trigger]
                lane_quad(states@[gr], l) == md5_blocks(
                init_quad(),
                md5_pad(msgs[gr * width + l]@),
                (bi + 1) as nat,
            ) by {
                lemma_lane_index(groups as nat, width as nat, gr, l);
                assert(msgs[gr * width + l]@.len() == len);
                lemma_padded_words_canonical(msgs[gr * width + l]@, bi as int);
                assert(lane_quad(states@[gr], l) == compress(
                    lane_quad(before[gr], l),
                    lane_words(words@[gr]@, l),
                ));
            }
        }
        bi += 1;
    }
    let ghost before_out = outputs@;
    let out_len = outputs.len();
    let mut gr: usize = 0;
    while gr < groups
        invariant
            gr <= groups,
            kernel_shape(groups as nat, width as nat),
            inputs@ == msgs,
            msgs.len() == groups * width,
            out_len == before_out.len(),
            out_start + msgs.len() <= before_out.len(),
            bi == padded_blocks,
            padded_blocks == padded_block_count(len as nat),
            len == msgs[0]@.len(),
            same_lengths(msgs),
            states_shaped(states@, groups as nat, width as nat),
            forall|k: int, l: int|
                0 <= k < groups && 0 <= l < width ==> #[trigger] lane_quad(states@[k], l)
                    == md5_blocks(init_quad(), md5_pad(msgs[k * width + l]@), bi as nat),
            outputs@.len() == before_out.len(),
            forall|m: int|
                0 <= m < gr * width ==> (#[trigger] outputs@[out_start + m])@ == md5(msgs[m]@),
            forall|m: int|
                0 <= m < outputs@.len() && !(out_start <= m < out_start + gr * width) ==> #[trigger] outputs@[m]
                    == before_out[m],
        decreases groups - gr,
    {
        let mut l: usize = 0;
        while l < width
            invariant
                l <= width,
                gr < groups,
                kernel_shape(groups as nat, width as nat),
                inputs@ == msgs,
                msgs.len() == groups * width,
                out_len == before_out.len(),
                out_start + msgs.len() <= before_out.len(),
                bi == padded_blocks,
                padded_blocks == padded_block_count(len as nat),
                len == msgs[0]@.len(),
                same_lengths(msgs),
                states_shaped(states@, groups as nat, width as nat),
                forall|k: int, j: int|
                    0 <= k < groups && 0 <= j < width ==> #[trigger] lane_quad(states@[k], j)
                        == md5_blocks(init_quad(), md5_pad(msgs[k * width + j]@), bi as nat),
                outputs@.len() == before_out.len(),
                forall|m: int|
                    0 <= m < gr * width + l ==> (#[trigger] outputs@[out_start + m])@ == md5(
                        msgs[m]@,
                    ),
                forall|m: int|
                    0 <= m < outputs@.len() && !(out_start <= m < out_start + gr * width + l)
                        ==> #[trigger] outputs@[m] == before_out[m],
            decreases width - l,
        {
            proof {
                lemma_lane_index(groups as nat, width as nat, gr as int, l as int);
                assert(msgs[gr * width + l]@.len() == len);
                assert(state_shaped(states@[gr as int], width as nat));
            }
            let digest = lane_digest(&states[gr], l);
            outputs[out_start + gr * width + l] = digest;
            l += 1;
        }
        assert(gr * width + width == (gr + 1) * width) by (nonlinear_arith);
        gr += 1;
    }
}

/// Message `m` sits in lane `m % width` of group `m / width`.
proof fn lemma_split_index(groups: int, width: int, m: int)
    requires
        width >= 1,
        0 <= m < groups * width,
    ensures
        0 <= m / width < groups,
        0 <= m % width < width,
        m == (m / width) * width + m % width,
{
    vstd::arithmetic::div_mod::lemma_fundamental_div_mod(m, width);
    vstd::arithmetic::div_mod::lemma_div_pos_is_pos(m, width);
    vstd::arithmetic::div_mod::lemma_mod_pos_bound(m, width);
    assert(m / width < groups) by (nonlinear_arith)
        requires
            m == width * (m / width) + m % width,
            0 <= m % width,
            m < groups * width,
            width >= 1,
    ;
    assert(width * (m / width) == (m / width) * width) by (nonlinear_arith);
}

/// Hash `groups * width` messages of any lengths; each lane's digest is taken right after its
/// own last padded block, and digest `m` goes to `outputs[out_start + m]`.
pub fn hash_mixed_len_kernel(
    groups: usize,
    width: usize,
    inputs: &[&[u8]],
    outputs: &mut [[u8; 16]],
    out_start: usize,
)
    requires
        kernel_shape(groups as nat, width as nat),
        inputs@.len() == groups * width,
        messages_fit(inputs@),
        out_start + inputs@.len() <= old(outputs)@.len(),
    ensures
        digests_stored(old(outputs)@, final(outputs)@, out_start as int, inputs@),
{
    let n = inputs.len();
    let ghost msgs = inputs@;
    let mut counts: Vec<usize> = Vec::new();
    let mut max_blocks: usize = 0;
    let mut m: usize = 0;
    while m < n
        invariant
            m <= n,
            n == msgs.len(),
            inputs@ == msgs,
            messages_fit(msgs),
            counts@.len() == m,
            forall|k: int|
                0 <= k < m ==> #[trigger] counts@[k] == padded_block_count(msgs[k]@.len())
                    && counts@[k] <= max_blocks && counts@[k] * 64 <= usize::MAX,
        decreases n - m,
    {
        let blocks = padded_blocks_for_len(inputs[m].len());
        counts.push(blocks);
        if blocks > max_blocks {
            max_blocks = blocks;
        }
        m += 1;
    }
    let mut states = initial_group_states(groups, width);
    let ghost before_out = outputs@;
    let out_len = outputs.len();
    let mut bi: usize = 0;
    while bi < max_blocks
        invariant
            bi <= max_blocks,
            kernel_shape(groups as nat, width as nat),
            n == msgs.len(),
            inputs@ == msgs,
            msgs.len() == groups * width,
            messages_fit(msgs),
            out_len == before_out.len(),
            out_start + n <= before_out.len(),
            counts@.len() == n,
            forall|k: int|
                0 <= k < n ==> #[trigger] counts@[k] == padded_block_count(msgs[k]@.len())
                    && counts@[k] <= max_blocks && counts@[k] * 64 <= usize::MAX,
            states_shaped(states@, groups as nat, width as nat),
            forall|gr: int, l: int|
                0 <= gr < groups && 0 <= l < width && bi <= counts@[gr * width + l] ==> #[trigger]
                    lane_quad(states@[gr], l) == md5_blocks(
                    init_quad(),
                    md5_pad(msgs[gr * width + l]@),
                    bi as nat,
                ),
            outputs@.len() == before_out.len(),
            forall|k: int|
                0 <= k < n && counts@[k] <= bi ==> (#[trigger] outputs@[out_start + k])@ == md5(
                    msgs[k]@,
                ),
            forall|k: int|
                0 <= k < n && counts@[k] > bi ==> #[trigger] outputs@[out_start + k]
                    == before_out[out_start + k],
            forall|k: int|
                0 <= k < outputs@.len() && !(out_start <= k < out_start + n) ==> #[trigger] outputs@[k]
                    == before_out[k],
        decreases max_blocks - bi,
    {
        let words = group_mixed_words(groups, width, inputs, &counts, bi);
        let ghost before = states@;
        compress_words_interleaved(&mut states, &words);
        proof {
            assert forall|gr: int, l: int|
                0 <= gr < groups && 0 <= l < width && bi + 1 <= counts@[gr * width + l] implies #[trigger]
                lane_quad(states@[gr], l) == md5_blocks(
                init_quad(),
                md5_pad(msgs[gr * width + l]@),
                (bi + 1) as nat,
            ) by {
                lemma_lane_index(groups as nat, width as nat, gr, l);
                lemma_padded_words_canonical(msgs[gr * width + l]@, bi as int);
                assert(lane_quad(states@[gr], l) == compress(
                    lane_quad(before[gr], l),
                    lane_words(words@[gr]@, l),
                ));
            }
        }
        let ghost mid_out = outputs@;
        let mut m: usize = 0;
        while m < n
            invariant
                m <= n,
                bi < max_blocks,
                kernel_shape(groups as nat, width as nat),
                n == msgs.len(),
                inputs@ == msgs,
                msgs.len() == groups * width,
                out_len == before_out.len(),
                out_start + n <= before_out.len(),
                counts@.len() == n,
                forall|k: int|
                    0 <= k < n ==> #[trigger] counts@[k] == padded_block_count(msgs[k]@.len()),
                states_shaped(states@, groups as nat, width as nat),
                forall|gr: int, l: int|
                    0 <= gr < groups && 0 <= l < width && bi + 1 <= counts@[gr * width + l]
                        ==> #[trigger] lane_quad(states@[gr], l) == md5_blocks(
                        init_quad(),
                        md5_pad(msgs[gr * width + l]@),
                        (bi + 1) as nat,
                    ),
                outputs@.len() == before_out.len(),
                forall|k: int|
                    0 <= k < m && counts@[k] == bi + 1 ==> (#[trigger] outputs@[out_start + k])@
                        == md5(msgs[k]@),
                forall|k: int|
                    0 <= k < outputs@.len() && !(out_start <= k < out_start + m && counts@[k
                        - out_start] == bi + 1) ==> #[trigger] outputs@[k] == mid_out[k],
            decreases n - m,
        {
            if counts[m] == bi + 1 {
                proof {
                    lemma_split_index(groups as int, width as int, m as int);
                }
                let gr = m / width;
                let l = m % width;
                assert(state_shaped(states@[gr as int], width as nat));
                let digest = lane_digest(&states[gr], l);
                outputs[out_start + m] = digest;
            }
            m += 1;
        }
        bi += 1;
    }
}

/// Compress `groups * width` block-aligned fragments of one length into their chaining
/// states, the lanes' rounds interleaved group by group.
pub fn compress_equal_len_state_kernel(
    groups: usize,
    width: usize,
    states: &mut [[u32; 4]],
    inputs: &[&[u8]],
)
    requires
        kernel_shape(groups as nat, width as nat),
        inputs@.len() == groups * width,
        old(states)@.len() == inputs@.len(),
        same_lengths(inputs@),
        inputs@[0]@.len() % 64 == 0,
    ensures
        final(states)@.len() == old(states)@.len(),
        forall|m: int|
            0 <= m < inputs@.len() ==> #[trigger] quad_of(final(states)@[m]) == md5_blocks(
                quad_of(old(states)@[m]),
                inputs@[m]@,
                (inputs@[0]@.len() / 64) as nat,
            ),
{
    assert(groups * width >= 1) by (nonlinear_arith)
        requires
            groups >= 1,
            width >= 1,
    ;
    let n = inputs.len();
    let len = inputs[0].len();
    let ghost msgs = inputs@;
    let ghost init = states@;
    let mut vstates = group_states(groups, width, states);
    let block_count = len / 64;
    let mut bi: usize = 0;
    while bi < block_count
        invariant
            bi <= block_count,
            block_count == len / 64,
            kernel_shape(groups as nat, width as nat),
            inputs@ == msgs,
            msgs.len() == groups * width,
            init.len() == msgs.len(),
            len == msgs[0]@.len(),
            same_lengths(msgs),
            states_shaped(vstates@, groups as nat, width as nat),
            forall|gr: int, l: int|
                0 <= gr < groups && 0 <= l < width ==> #[trigger] lane_quad(vstates@[gr], l)
                    == md5_blocks(quad_of(init[gr * width + l]), msgs[gr * width + l]@, bi as nat),
        decreases block_count - bi,
    {
        assert(64 * bi + 64 <= len) by (nonlinear_arith)
            requires
                bi < len / 64,
        ;
        assert forall|m: int| 0 <= m < msgs.len() implies 64 * bi + 64 <= (#[trigger] msgs[m])@.len() by {
            assert(msgs[m]@.len() == len);
        }
        let words = group_full_words(groups, width, inputs, bi);
        let ghost before = vstates@;
        compress_words_interleaved(&mut vstates, &words);
        proof {
            assert forall|gr: int, l: int| 0 <= gr < groups && 0 <= l < width implies #[trigger]
                lane_quad(vstates@[gr], l) == md5_blocks(
                quad_of(init[gr * width + l]),
                msgs[gr * width + l]@,
                (bi + 1) as nat,
            ) by {
                lemma_lane_index(groups as nat, width as nat, gr, l);
                assert(lane_quad(vstates@[gr], l) == compress(
                    lane_quad(before[gr], l),
                    lane_words(words@[gr]@, l),
                ));
            }
        }
        bi += 1;
    }
    let mut m: usize = 0;
    while m < n
        invariant
            m <= n,
            n == msgs.len(),
            bi == block_count,
            block_count == len / 64,
            kernel_shape(groups as nat, width as nat),
            inputs@ == msgs,
            msgs.len() == groups * width,
            init.len() == msgs.len(),
            len == msgs[0]@.len(),
            states@.len() == n,
            states_shaped(vstates@, groups as nat, width as nat),
            forall|gr: int, l: int|
                0 <= gr < groups && 0 <= l < width ==> #[trigger] lane_quad(vstates@[gr], l)
                    == md5_blocks(quad_of(init[gr * width + l]), msgs[gr * width + l]@, bi as nat),
            forall|k: int|
                0 <= k < m ==> #[trigger] quad_of(states@[k]) == md5_blocks(
                    quad_of(init[k]),
                    msgs[k]@,
                    block_count as nat,
                ),
        decreases n - m,
    {
        proof {
            lemma_split_index(groups as int, width as int, m as int);
        }
        let gr = m / width;
        let l = m % width;
        assert(state_shaped(vstates@[gr as int], width as nat));
        let q = [vstates[gr][0][l], vstates[gr][1][l], vstates[gr][2][l], vstates[gr][3][l]];
        proof {
            assert(lane_quad(vstates@[gr as int], l as int) == md5_blocks(
                quad_of(init[gr * width + l]),
                msgs[gr * width + l]@,
                bi as nat,
            ));
            assert(gr * width + l == m);
            assert(quad_of(q) == lane_quad(vstates@[gr as int], l as int));
        }
        states[m] = q;
        m += 1;
    }
}

} // verus!
