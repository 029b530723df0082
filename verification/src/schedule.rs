//! The x86 multi-buffer scheduler: skew partitions, scalar-pair shortcuts and the choice of
//! native, dual or triple interleaved kernels for AVX2 and AVX-512 widths.
use vstd::prelude::*;

use crate::kernels::{hash_equal_len_kernel, hash_mixed_len_kernel, kernel_shape};
use crate::portable::{hash_each_scalar, lengths_agree};
use crate::scalar::{hash, padded_blocks_for_len};
use crate::spec::{
    digests_stored, has_preimage, is_permutation, lemma_digests_stored_append, md5, messages_fit,
    padded_block_count, same_lengths,
};
use crate::tuning::{
    amd_family_19h, intel_family_06_model_cf, prefer_dual_scalar_pair, sat_mul_spec,
    saturating_mul, X86Tuning, X86TuningClass,
};

verus! {

/// Padded block count of message `l`.
pub open spec fn lane_blocks(inputs: Seq<&[u8]>, l: int) -> nat {
    padded_block_count(inputs[l]@.len())
}

/// The largest padded block count among the first `k` messages (0 for none).
pub open spec fn max_blocks_upto(inputs: Seq<&[u8]>, k: nat) -> nat
    decreases k,
{
    if k == 0 {
        0
    } else {
        let prev = max_blocks_upto(inputs, (k - 1) as nat);
        let b = lane_blocks(inputs, k - 1);
        if b > prev {
            b
        } else {
            prev
        }
    }
}

/// The maximum over the first `k` messages is their largest padded block count: no one of
/// them has more, and some one of them (when there is one) has exactly that many.
pub proof fn lemma_max_blocks_is_maximum(inputs: Seq<&[u8]>, k: nat)
    requires
        k <= inputs.len(),
    ensures
        forall|l: int| 0 <= l < k ==> #[trigger] lane_blocks(inputs, l) <= max_blocks_upto(inputs, k),
        k > 0 ==> exists|l: int|
            0 <= l < k && #[trigger] lane_blocks(inputs, l) == max_blocks_upto(inputs, k),
        k == 0 ==> max_blocks_upto(inputs, k) == 0,
    decreases k,
{
    if k > 0 {
        lemma_max_blocks_is_maximum(inputs, (k - 1) as nat);
        if k == 1 {
            assert(lane_blocks(inputs, 0) == max_blocks_upto(inputs, 1));
        } else if lane_blocks(inputs, k - 1) > max_blocks_upto(inputs, (k - 1) as nat) {
            assert(lane_blocks(inputs, k - 1) == max_blocks_upto(inputs, k));
        } else {
            let w = choose|l: int|
                0 <= l < k - 1 && #[trigger] lane_blocks(inputs, l) == max_blocks_upto(
                    inputs,
                    (k - 1) as nat,
                );
            assert(lane_blocks(inputs, w) == max_blocks_upto(inputs, k));
        }
    }
}

/// Message `l` is short: twice its padded block count (saturating) is at most `max_blocks`.
pub open spec fn is_short(inputs: Seq<&[u8]>, l: int, max_blocks: nat) -> bool {
    sat_mul_spec(lane_blocks(inputs, l), 2) <= max_blocks
}

/// The number of short messages among the first `k`.
pub open spec fn short_before(inputs: Seq<&[u8]>, max_blocks: nat, k: nat) -> nat
    decreases k,
{
    if k == 0 {
        0
    } else {
        short_before(inputs, max_blocks, (k - 1) as nat) + if is_short(
            inputs,
            k - 1,
            max_blocks,
        ) {
            1nat
        } else {
            0nat
        }
    }
}

/// The short count over the first `k` messages is the number of short messages among them.
pub proof fn lemma_short_before_is_count(inputs: Seq<&[u8]>, max_blocks: nat, k: nat)
    ensures
        Set::new(|l: int| 0 <= l < k && is_short(inputs, l, max_blocks)).finite(),
        short_before(inputs, max_blocks, k) == Set::new(
            |l: int| 0 <= l < k && is_short(inputs, l, max_blocks),
        ).len(),
    decreases k,
{
    let cur = Set::new(|l: int| 0 <= l < k && is_short(inputs, l, max_blocks));
    if k == 0 {
        assert(cur =~= Set::empty());
    } else {
        lemma_short_before_is_count(inputs, max_blocks, (k - 1) as nat);
        let prev = Set::new(|l: int| 0 <= l < k - 1 && is_short(inputs, l, max_blocks));
        if is_short(inputs, k - 1, max_blocks) {
            assert(cur =~= prev.insert(k - 1));
            assert(!prev.contains(k - 1));
        } else {
            assert(cur =~= prev);
        }
    }
}

/// Where lane `l` goes in a fixed half/half partition: the first `half` short lanes keep their
/// order at the front, every other lane keeps its order behind them.
pub open spec fn half_partition_position(inputs: Seq<&[u8]>, half: nat, l: int) -> int {
    let max_blocks = max_blocks_upto(inputs, inputs.len());
    let before = short_before(inputs, max_blocks, l as nat);
    if is_short(inputs, l, max_blocks) && before < half {
        before as int
    } else {
        half + l - if before < half {
            before as int
        } else {
            half as int
        }
    }
}

/// Where lane `l` goes in a short/long partition: short lanes in order at the front, long
/// lanes in order behind them.
pub open spec fn split_partition_position(inputs: Seq<&[u8]>, l: int) -> int {
    let max_blocks = max_blocks_upto(inputs, inputs.len());
    let before = short_before(inputs, max_blocks, l as nat);
    if is_short(inputs, l, max_blocks) {
        before as int
    } else {
        short_before(inputs, max_blocks, inputs.len()) + l - before
    }
}

/// In a batch, a message counts as short exactly when some message of the batch, itself
/// included, has at least twice its padded blocks (the doubling saturating).
pub proof fn lemma_short_iff_some_twice_as_long(inputs: Seq<&[u8]>, l: int)
    requires
        0 <= l < inputs.len(),
    ensures
        is_short(inputs, l, max_blocks_upto(inputs, inputs.len())) <==> exists|j: int|
            0 <= j < inputs.len() && sat_mul_spec(lane_blocks(inputs, l), 2)
                <= #[trigger] lane_blocks(inputs, j),
{
    lemma_max_blocks_is_maximum(inputs, inputs.len());
}

proof fn lemma_short_before_bounds(inputs: Seq<&[u8]>, max_blocks: nat, k: nat)
    ensures
        short_before(inputs, max_blocks, k) <= k,
    decreases k,
{
    if k > 0 {
        lemma_short_before_bounds(inputs, max_blocks, (k - 1) as nat);
    }
}

proof fn lemma_short_before_mono(inputs: Seq<&[u8]>, max_blocks: nat, j: nat, k: nat)
    requires
        j <= k,
    ensures
        short_before(inputs, max_blocks, j) <= short_before(inputs, max_blocks, k),
        k - j >= short_before(inputs, max_blocks, k) - short_before(inputs, max_blocks, j),
    decreases k - j,
{
    if j < k {
        lemma_short_before_mono(inputs, max_blocks, j, (k - 1) as nat);
    }
}

/// The padded block counts of all messages and their maximum.
fn block_counts_and_max<const N: usize>(inputs: &[&[u8]]) -> (res: ([usize; N], usize))
    requires
        inputs@.len() <= N,
        messages_fit(inputs@),
    ensures
        forall|l: int| 0 <= l < inputs@.len() ==> #[trigger] res.0[l] == lane_blocks(inputs@, l),
        forall|l: int| inputs@.len() <= l < N ==> #[trigger] res.0[l] == 0,
        res.1 == max_blocks_upto(inputs@, inputs@.len()),
        forall|l: int| 0 <= l < inputs@.len() ==> #[trigger] lane_blocks(inputs@, l) <= res.1,
        inputs@.len() > 0 ==> exists|l: int|
            0 <= l < inputs@.len() && #[trigger] lane_blocks(inputs@, l) == res.1,
{
    let mut counts = [0usize; N];
    let mut max_blocks: usize = 0;
    let mut lane: usize = 0;
    while lane < inputs.len()
        invariant
            lane <= inputs@.len() <= N,
            messages_fit(inputs@),
            forall|l: int| 0 <= l < lane ==> #[trigger] counts[l] == lane_blocks(inputs@, l),
            forall|l: int| lane <= l < N ==> #[trigger] counts[l] == 0,
            max_blocks == max_blocks_upto(inputs@, lane as nat),
        decreases inputs@.len() - lane,
    {
        let blocks = padded_blocks_for_len(inputs[lane].len());
        counts[lane] = blocks;
        if blocks > max_blocks {
            max_blocks = blocks;
        }
        lane += 1;
    }
    proof {
        lemma_max_blocks_is_maximum(inputs@, inputs@.len());
    }
    (counts, max_blocks)
}

/// An array with a two-sided inverse on `0..n` is a permutation of `0..n`.
proof fn lemma_inverse_is_permutation(order: Seq<usize>, n: nat, pos: spec_fn(int) -> int)
    requires
        n <= order.len(),
        forall|k: int| 0 <= k < n ==> #[trigger] order[k] < n && pos(order[k] as int) == k,
        forall|l: int| 0 <= l < n ==> 0 <= #[trigger] pos(l) < n && order[pos(l)] == l,
    ensures
        is_permutation(order, n),
{
    assert forall|l: int| 0 <= l < n implies #[trigger] has_preimage(order, n, l) by {
        assert(order[pos(l)] == l);
    }
    assert forall|k: int, j: int| 0 <= k < n && 0 <= j < n && k != j implies #[trigger] order[k]
        != #[trigger] order[j] by {
        assert(pos(order[k] as int) == k);
        assert(pos(order[j] as int) == j);
    }
}

/// A short lane is ahead of every later one in the short count.
proof fn lemma_short_strict(inputs: Seq<&[u8]>, max_blocks: nat, l: nat, k: nat)
    requires
        l < k,
        is_short(inputs, l as int, max_blocks),
    ensures
        short_before(inputs, max_blocks, l) < short_before(inputs, max_blocks, k),
{
    lemma_short_before_mono(inputs, max_blocks, l + 1, k);
}

/// A long lane is ahead of every later one in the long count.
proof fn lemma_long_strict(inputs: Seq<&[u8]>, max_blocks: nat, l: nat, k: nat)
    requires
        l < k,
        !is_short(inputs, l as int, max_blocks),
    ensures
        l - short_before(inputs, max_blocks, l) < k - short_before(inputs, max_blocks, k),
{
    lemma_short_before_mono(inputs, max_blocks, l + 1, k);
    lemma_short_before_bounds(inputs, max_blocks, l);
}

/// A lane left out of the first `half` short lanes is ahead of every later one in the count
/// of lanes left out.
proof fn lemma_unselected_strict(inputs: Seq<&[u8]>, max_blocks: nat, half: nat, l: nat, k: nat)
    requires
        l < k,
        !(is_short(inputs, l as int, max_blocks) && short_before(inputs, max_blocks, l) < half),
    ensures
        l - (if short_before(inputs, max_blocks, l) < half {
            short_before(inputs, max_blocks, l)
        } else {
            half
        }) < k - (if short_before(inputs, max_blocks, k) < half {
            short_before(inputs, max_blocks, k)
        } else {
            half
        }),
{
    lemma_short_before_mono(inputs, max_blocks, l + 1, k);
    lemma_short_before_mono(inputs, max_blocks, l, l + 1);
    lemma_short_before_bounds(inputs, max_blocks, l);
}

/// An order that puts every lane at its short/long position lists exactly the short lanes
/// before `split`, the long ones after, each group in increasing lane order.
proof fn lemma_split_order_groups(inputs: Seq<&[u8]>, o: Seq<usize>, split: nat)
    requires
        inputs.len() <= o.len(),
        split == short_before(inputs, max_blocks_upto(inputs, inputs.len()), inputs.len()),
        forall|k: int| 0 <= k < inputs.len() ==> #[trigger] o[k] < inputs.len(),
        forall|k: int|
            0 <= k < inputs.len() ==> #[trigger] split_partition_position(inputs, o[k] as int) == k,
    ensures
        forall|k: int|
            0 <= k < inputs.len() ==> (k < split <==> is_short(
                inputs,
                #[trigger] o[k] as int,
                max_blocks_upto(inputs, inputs.len()),
            )),
        forall|j: int, k: int| 0 <= j < k < split ==> #[trigger] o[j] < #[trigger] o[k],
        forall|j: int, k: int|
            split <= j < k < inputs.len() ==> #[trigger] o[j] < #[trigger] o[k],
{
    let n = inputs.len();
    let mb = max_blocks_upto(inputs, n);
    lemma_short_before_bounds(inputs, mb, n);
    assert forall|k: int| 0 <= k < n implies (k < split <==> is_short(
        inputs,
        #[trigger] o[k] as int,
        mb,
    )) by {
        let l = o[k] as int;
        assert(split_partition_position(inputs, l) == k);
        lemma_short_before_bounds(inputs, mb, l as nat);
        if is_short(inputs, l, mb) {
            lemma_short_strict(inputs, mb, l as nat, n);
        }
    }
    assert forall|j: int, k: int| 0 <= j < k < split implies #[trigger] o[j] < #[trigger] o[k] by {
        assert(split_partition_position(inputs, o[j] as int) == j);
        assert(split_partition_position(inputs, o[k] as int) == k);
        if o[k] < o[j] {
            lemma_short_strict(inputs, mb, o[k] as nat, o[j] as nat);
        }
    }
    assert forall|j: int, k: int| split <= j < k < n implies #[trigger] o[j] < #[trigger] o[k] by {
        assert(split_partition_position(inputs, o[j] as int) == j);
        assert(split_partition_position(inputs, o[k] as int) == k);
        if o[k] < o[j] {
            lemma_long_strict(inputs, mb, o[k] as nat, o[j] as nat);
        }
    }
}

/// An order that puts every lane at its half/half position lists short lanes in increasing
/// order in its first `half` places, those being the earliest short lanes, and the remaining
/// lanes in increasing order behind them.
proof fn lemma_half_order_groups(inputs: Seq<&[u8]>, o: Seq<usize>, half: nat)
    requires
        inputs.len() <= o.len(),
        half <= inputs.len(),
        forall|k: int| 0 <= k < inputs.len() ==> #[trigger] o[k] < inputs.len(),
        forall|k: int|
            0 <= k < inputs.len() ==> #[trigger] half_partition_position(inputs, half, o[k] as int)
                == k,
    ensures
        forall|k: int|
            0 <= k < half ==> is_short(
                inputs,
                #[trigger] o[k] as int,
                max_blocks_upto(inputs, inputs.len()),
            ),
        forall|j: int, k: int| 0 <= j < k < half ==> #[trigger] o[j] < #[trigger] o[k],
        forall|j: int, k: int| half <= j < k < inputs.len() ==> #[trigger] o[j] < #[trigger] o[k],
        forall|j: int, k: int|
            0 <= j < half <= k < inputs.len() && is_short(
                inputs,
                #[trigger] o[k] as int,
                max_blocks_upto(inputs, inputs.len()),
            ) ==> #[trigger] o[j] < o[k],
{
    let n = inputs.len();
    let mb = max_blocks_upto(inputs, n);
    assert forall|k: int| 0 <= k < half implies is_short(inputs, #[trigger] o[k] as int, mb)
        && short_before(inputs, mb, o[k] as nat) < half by {
        assert(half_partition_position(inputs, half, o[k] as int) == k);
        lemma_short_before_bounds(inputs, mb, o[k] as nat);
    }
    assert forall|k: int| half <= k < n implies !(is_short(inputs, #[trigger] o[k] as int, mb)
        && short_before(inputs, mb, o[k] as nat) < half) by {
        assert(half_partition_position(inputs, half, o[k] as int) == k);
    }
    assert forall|j: int, k: int| 0 <= j < k < half implies #[trigger] o[j] < #[trigger] o[k] by {
        assert(half_partition_position(inputs, half, o[j] as int) == j);
        assert(half_partition_position(inputs, half, o[k] as int) == k);
        if o[k] < o[j] {
            lemma_short_strict(inputs, mb, o[k] as nat, o[j] as nat);
        }
    }
    assert forall|j: int, k: int| half <= j < k < n implies #[trigger] o[j] < #[trigger] o[k] by {
        assert(half_partition_position(inputs, half, o[j] as int) == j);
        assert(half_partition_position(inputs, half, o[k] as int) == k);
        if o[k] < o[j] {
            lemma_unselected_strict(inputs, mb, half, o[k] as nat, o[j] as nat);
        }
    }
    assert forall|j: int, k: int|
        0 <= j < half <= k < n && is_short(inputs, #[trigger] o[k] as int, mb) implies #[trigger] o[j]
        < o[k] by {
        assert(is_short(inputs, o[j] as int, mb) && short_before(inputs, mb, o[j] as nat) < half);
        assert(!(is_short(inputs, o[k] as int, mb) && short_before(inputs, mb, o[k] as nat) < half));
        if o[k] <= o[j] {
            if o[k] == o[j] {
            } else {
                lemma_short_strict(inputs, mb, o[k] as nat, o[j] as nat);
            }
        }
    }
}

/// Split `N` messages into two halves of `HALF` lanes: when at least `HALF` messages are
/// short (at most half the longest padded length), the first `HALF` of those go to the front
/// and the rest keep their order behind them; otherwise `None`.
pub fn skew_partition<const N: usize, const HALF: usize>(inputs: &[&[u8]]) -> (order: Option<
    [usize; N],
>)
    requires
        inputs@.len() == N,
        N == 2 * HALF,
        messages_fit(inputs@),
    ensures
        order is None <==> short_before(
            inputs@,
            max_blocks_upto(inputs@, N as nat),
            N as nat,
        ) < HALF,
        order matches Some(o) ==> {
            &&& is_permutation(o@, N as nat)
            &&& forall|k: int|
                0 <= k < N ==> #[trigger] half_partition_position(inputs@, HALF as nat, o[k] as int)
                    == k
            &&& forall|l: int|
                0 <= l < N ==> #[trigger] o[half_partition_position(inputs@, HALF as nat, l)] == l
            &&& forall|k: int|
                0 <= k < HALF ==> is_short(
                    inputs@,
                    #[trigger] o[k] as int,
                    max_blocks_upto(inputs@, N as nat),
                )
            &&& forall|j: int, k: int| 0 <= j < k < HALF ==> #[trigger] o[j] < #[trigger] o[k]
            &&& forall|j: int, k: int| HALF <= j < k < N ==> #[trigger] o[j] < #[trigger] o[k]
            &&& forall|j: int, k: int|
                0 <= j < HALF <= k < N && is_short(
                    inputs@,
                    #[trigger] o[k] as int,
                    max_blocks_upto(inputs@, N as nat),
                ) ==> #[trigger] o[j] < o[k]
        },
{
    let (block_counts, max_blocks) = block_counts_and_max::<N>(inputs);
    let ghost mb = max_blocks as nat;
    let mut short_count: usize = 0;
    let mut lane: usize = 0;
    while lane < N
        invariant
            lane <= N,
            inputs@.len() == N,
            forall|l: int| 0 <= l < N ==> #[trigger] block_counts[l] == lane_blocks(inputs@, l),
            max_blocks == mb,
            short_count == short_before(inputs@, mb, lane as nat),
        decreases N - lane,
    {
        proof {
            lemma_short_before_bounds(inputs@, mb, lane as nat);
        }
        if saturating_mul(block_counts[lane], 2) <= max_blocks {
            short_count += 1;
        }
        lane += 1;
    }
    if short_count < HALF {
        return None;
    }
    let mut selected = [false; N];
    let mut order = [0usize; N];
    let mut out: usize = 0;
    let mut lane: usize = 0;
    while lane < N
        invariant
            lane <= N,
            N == 2 * HALF,
            inputs@.len() == N,
            forall|l: int| 0 <= l < N ==> #[trigger] block_counts[l] == lane_blocks(inputs@, l),
            max_blocks == mb,
            mb == max_blocks_upto(inputs@, N as nat),
            out == if short_before(inputs@, mb, lane as nat) < HALF {
                short_before(inputs@, mb, lane as nat)
            } else {
                HALF as nat
            },
            forall|k: int| 0 <= k < N ==> #[trigger] order[k] < N,
            forall|l: int|
                0 <= l < lane ==> #[trigger] selected[l] == (is_short(inputs@, l, mb)
                    && short_before(inputs@, mb, l as nat) < HALF),
            forall|l: int| lane <= l < N ==> !#[trigger] selected[l],
            forall|k: int|
                0 <= k < out ==> #[trigger] order[k] < lane && half_partition_position(
                    inputs@,
                    HALF as nat,
                    order[k] as int,
                ) == k,
            forall|l: int|
                #![trigger half_partition_position(inputs@, HALF as nat, l)]
                0 <= l < lane && selected[l] ==> order[half_partition_position(
                    inputs@,
                    HALF as nat,
                    l,
                )] == l,
        decreases N - lane,
    {
        if saturating_mul(block_counts[lane], 2) <= max_blocks && out < HALF {
            proof {
                assert forall|l: int| 0 <= l < lane && selected[l] implies
                    #[trigger] half_partition_position(inputs@, HALF as nat, l) != out by {
                    lemma_short_strict(inputs@, mb, l as nat, lane as nat);
                }
                assert(half_partition_position(inputs@, HALF as nat, lane as int) == out);
            }
            order[out] = lane;
            selected[lane] = true;
            out += 1;
        }
        lane += 1;
    }
    let mut lane: usize = 0;
    while lane < N
        invariant
            lane <= N,
            N == 2 * HALF,
            inputs@.len() == N,
            max_blocks == mb,
            mb == max_blocks_upto(inputs@, N as nat),
            short_before(inputs@, mb, N as nat) >= HALF,
            forall|k: int|
                0 <= k < out ==> #[trigger] order[k] < N && half_partition_position(
                    inputs@,
                    HALF as nat,
                    order[k] as int,
                ) == k,
            out == HALF + lane - if short_before(inputs@, mb, lane as nat) < HALF {
                short_before(inputs@, mb, lane as nat)
            } else {
                HALF as nat
            },
            forall|k: int| 0 <= k < N ==> #[trigger] order[k] < N,
            forall|l: int|
                0 <= l < N ==> #[trigger] selected[l] == (is_short(inputs@, l, mb)
                    && short_before(inputs@, mb, l as nat) < HALF),
            forall|l: int|
                #![trigger half_partition_position(inputs@, HALF as nat, l)]
                0 <= l < N && selected[l] ==> order[half_partition_position(
                    inputs@,
                    HALF as nat,
                    l,
                )] == l,
            forall|l: int|
                #![trigger half_partition_position(inputs@, HALF as nat, l)]
                0 <= l < lane && !selected[l] ==> order[half_partition_position(
                    inputs@,
                    HALF as nat,
                    l,
                )] == l,
        decreases N - lane,
    {
        proof {
            lemma_short_before_bounds(inputs@, mb, lane as nat);
            lemma_short_before_mono(inputs@, mb, lane as nat, N as nat);
        }
        if !selected[lane] {
            proof {
                lemma_unselected_strict(inputs@, mb, HALF as nat, lane as nat, N as nat);
                assert(out < N);
                assert forall|l: int| 0 <= l < lane && !selected[l] implies
                    0 <= #[trigger] half_partition_position(inputs@, HALF as nat, l) < out by {
                    lemma_unselected_strict(inputs@, mb, HALF as nat, l as nat, lane as nat);
                }
                assert forall|l: int| 0 <= l < N && selected[l] implies
                    0 <= #[trigger] half_partition_position(inputs@, HALF as nat, l) < HALF by {
                    lemma_short_before_bounds(inputs@, mb, l as nat);
                }
                assert(half_partition_position(inputs@, HALF as nat, lane as int) == out);
            }
            order[out] = lane;
            out += 1;
        }
        lane += 1;
    }
    assert forall|l: int| 0 <= l < N implies #[trigger] order[half_partition_position(
        inputs@,
        HALF as nat,
        l,
    )] == l by {
        if selected[l] {
        } else {
        }
    }
    proof {
        lemma_short_before_bounds(inputs@, mb, N as nat);
        assert forall|l: int| 0 <= l < N implies 0 <= #[trigger] half_partition_position(
            inputs@,
            HALF as nat,
            l,
        ) < N by {
            lemma_short_before_bounds(inputs@, mb, l as nat);
            if !(is_short(inputs@, l, mb) && short_before(inputs@, mb, l as nat) < HALF) {
                lemma_unselected_strict(inputs@, mb, HALF as nat, l as nat, N as nat);
            }
        }
        lemma_inverse_is_permutation(order@, N as nat, |l: int| half_partition_position(inputs@, HALF as nat, l));
        lemma_half_order_groups(inputs@, order@, HALF as nat);
    }
    Some(order)
}

/// Split messages into a short group (at most half the longest padded length) and a long
/// group, each keeping its order: `Some((order, short_count))` when both groups are nonempty,
/// `None` otherwise. Entries of `order` past the message count are zero.
pub fn skew_partition_dynamic<const MAX: usize>(inputs: &[&[u8]]) -> (res: Option<
    ([usize; MAX], usize),
>)
    requires
        1 <= inputs@.len() <= MAX,
        messages_fit(inputs@),
    ensures
        ({
            let sc = short_before(
                inputs@,
                max_blocks_upto(inputs@, inputs@.len()),
                inputs@.len(),
            );
            res is None <==> (sc == 0 || sc == inputs@.len())
        }),
        res matches Some((o, split)) ==> {
            &&& 1 <= split < inputs@.len()
            &&& split == short_before(
                inputs@,
                max_blocks_upto(inputs@, inputs@.len()),
                inputs@.len(),
            )
            &&& is_permutation(o@, inputs@.len())
            &&& forall|k: int|
                0 <= k < inputs@.len() ==> #[trigger] split_partition_position(inputs@, o[k] as int)
                    == k
            &&& forall|k: int| inputs@.len() <= k < MAX ==> #[trigger] o[k] == 0
            &&& forall|l: int|
                0 <= l < inputs@.len() ==> #[trigger] o[split_partition_position(inputs@, l)] == l
            &&& forall|k: int|
                0 <= k < inputs@.len() ==> (k < split <==> is_short(
                    inputs@,
                    #[trigger] o[k] as int,
                    max_blocks_upto(inputs@, inputs@.len()),
                ))
            &&& forall|j: int, k: int| 0 <= j < k < split ==> #[trigger] o[j] < #[trigger] o[k]
            &&& forall|j: int, k: int|
                split <= j < k < inputs@.len() ==> #[trigger] o[j] < #[trigger] o[k]
        },
{
    let n = inputs.len();
    let (block_counts, max_blocks) = block_counts_and_max::<MAX>(inputs);
    let ghost mb = max_blocks as nat;
    let mut short_count: usize = 0;
    let mut lane: usize = 0;
    while lane < n
        invariant
            lane <= n,
            n == inputs@.len(),
            n <= MAX,
            forall|l: int| 0 <= l < n ==> #[trigger] block_counts[l] == lane_blocks(inputs@, l),
            max_blocks == mb,
            short_count == short_before(inputs@, mb, lane as nat),
        decreases n - lane,
    {
        proof {
            lemma_short_before_bounds(inputs@, mb, lane as nat);
        }
        if saturating_mul(block_counts[lane], 2) <= max_blocks {
            short_count += 1;
        }
        lane += 1;
    }
    if short_count == 0 || short_count == n {
        return None;
    }
    let mut order = [0usize; MAX];
    let mut short_out: usize = 0;
    let mut long_out: usize = short_count;
    let mut lane: usize = 0;
    while lane < n
        invariant
            lane <= n,
            n == inputs@.len(),
            n <= MAX,
            forall|l: int| 0 <= l < n ==> #[trigger] block_counts[l] == lane_blocks(inputs@, l),
            max_blocks == mb,
            mb == max_blocks_upto(inputs@, n as nat),
            short_count == short_before(inputs@, mb, n as nat),
            short_out == short_before(inputs@, mb, lane as nat),
            long_out == short_count + lane - short_out,
            forall|k: int| 0 <= k < n ==> #[trigger] order[k] < n,
            forall|k: int| n <= k < MAX ==> #[trigger] order[k] == 0,
            forall|k: int|
                (0 <= k < short_out || short_count <= k < long_out) ==> #[trigger] order[k] < lane
                    && split_partition_position(inputs@, order[k] as int) == k,
            forall|l: int|
                #![trigger split_partition_position(inputs@, l)]
                0 <= l < lane ==> order[split_partition_position(inputs@, l)] == l,
        decreases n - lane,
    {
        proof {
            lemma_short_before_bounds(inputs@, mb, lane as nat);
            lemma_short_before_mono(inputs@, mb, lane as nat, n as nat);
            lemma_short_before_mono(inputs@, mb, lane as nat + 1, n as nat);
        }
        if saturating_mul(block_counts[lane], 2) <= max_blocks {
            proof {
                lemma_short_strict(inputs@, mb, lane as nat, n as nat);
                assert forall|l: int| 0 <= l < lane implies 0 <= #[trigger] split_partition_position(inputs@, l)
                    < n && split_partition_position(inputs@, l) != short_out by {
                    if is_short(inputs@, l, mb) {
                        lemma_short_strict(inputs@, mb, l as nat, lane as nat);
                    } else {
                        lemma_short_before_bounds(inputs@, mb, l as nat);
                        lemma_long_strict(inputs@, mb, l as nat, n as nat);
                    }
                }
            }
            assert(split_partition_position(inputs@, lane as int) == short_out);
            order[short_out] = lane;
            short_out += 1;
        } else {
            proof {
                lemma_long_strict(inputs@, mb, lane as nat, n as nat);
                assert forall|l: int| 0 <= l < lane implies 0 <= #[trigger] split_partition_position(inputs@, l)
                    < n && split_partition_position(inputs@, l) != long_out by {
                    if !is_short(inputs@, l, mb) {
                        lemma_long_strict(inputs@, mb, l as nat, lane as nat);
                        lemma_short_before_bounds(inputs@, mb, l as nat);
                    } else {
                        lemma_short_strict(inputs@, mb, l as nat, n as nat);
                    }
                }
            }
            assert(split_partition_position(inputs@, lane as int) == long_out);
            order[long_out] = lane;
            long_out += 1;
        }
        lane += 1;
    }
    proof {
        lemma_short_before_bounds(inputs@, mb, n as nat);
        assert forall|l: int| 0 <= l < n implies 0 <= #[trigger] split_partition_position(
            inputs@,
            l,
        ) < n by {
            lemma_short_before_bounds(inputs@, mb, l as nat);
            if is_short(inputs@, l, mb) {
                lemma_short_strict(inputs@, mb, l as nat, n as nat);
            } else {
                lemma_long_strict(inputs@, mb, l as nat, n as nat);
            }
        }
        lemma_inverse_is_permutation(order@, n as nat, |l: int| split_partition_position(inputs@, l));
        lemma_split_order_groups(inputs@, order@, short_count as nat);
    }
    Some((order, short_count))
}

/// The largest number of lanes a kernel of the scheduler uses: three groups of sixteen.
pub const MAX_KERNEL_LANES: usize = 48;

/// Fill `groups * width` lanes with the messages, repeating the last one in the unused lanes,
/// hash them with the equal-length or the mixed-length kernel of that shape, and keep the
/// digests of the real messages.
fn hash_padded(
    equal: bool,
    groups: usize,
    width: usize,
    inputs: &[&[u8]],
    outputs: &mut [[u8; 16]],
    out_start: usize,
)
    requires
        kernel_shape(groups as nat, width as nat),
        1 <= inputs@.len() <= groups * width,
        equal ==> same_lengths(inputs@),
        messages_fit(inputs@),
        out_start + inputs@.len() <= old(outputs)@.len(),
    ensures
        digests_stored(old(outputs)@, final(outputs)@, out_start as int, inputs@),
{
    let active = inputs.len();
    assert(groups * width <= MAX_KERNEL_LANES) by (nonlinear_arith)
        requires
            groups <= 3,
            width <= 16,
    ;
    let lanes = groups * width;
    let mut padded: [&[u8]; MAX_KERNEL_LANES] = [inputs[active - 1]; MAX_KERNEL_LANES];
    let mut lane: usize = 0;
    while lane < lanes
        invariant
            lane <= lanes <= MAX_KERNEL_LANES,
            1 <= active <= lanes,
            active == inputs@.len(),
            forall|k: int| 0 <= k < lane ==> #[trigger] padded[k] == inputs@[if k < active {
                k
            } else {
                active - 1
            }],
        decreases lanes - lane,
    {
        let source = if lane < active {
            lane
        } else {
            active - 1
        };
        padded[lane] = inputs[source];
        lane += 1;
    }
    let padded_inputs = vstd::slice::slice_subrange(padded.as_slice(), 0, lanes);
    assert(messages_fit(padded_inputs@)) by {
        assert forall|k: int| 0 <= k < lanes implies (#[trigger] padded_inputs@[k])@.len()
            <= isize::MAX by {
            assert(padded_inputs@[k] == padded[k]);
        }
    }
    let mut padded_outputs = [[0u8; 16]; MAX_KERNEL_LANES];
    if equal {
        assert(same_lengths(padded_inputs@)) by {
            assert forall|k: int| 0 <= k < lanes implies (#[trigger] padded_inputs@[k])@.len()
                == padded_inputs@[0]@.len() by {
                assert(padded_inputs@[k] == padded[k]);
                assert(padded_inputs@[0] == padded[0]);
            }
        }
        hash_equal_len_kernel(groups, width, padded_inputs, &mut padded_outputs, 0);
    } else {
        hash_mixed_len_kernel(groups, width, padded_inputs, &mut padded_outputs, 0);
    }
    assert forall|j: int| 0 <= j < active implies (#[trigger] padded_outputs[j])@ == md5(
        inputs@[j]@,
    ) by {
        assert(padded_inputs@[j] == padded[j]);
        assert(padded_outputs@[0 + j]@ == md5(padded_inputs@[j]@));
    }
    let ghost before = outputs@;
    let out_len = outputs.len();
    let mut k: usize = 0;
    while k < active
        invariant
            k <= active <= lanes <= MAX_KERNEL_LANES,
            active == inputs@.len(),
            out_len == before.len(),
            out_start + active <= before.len(),
            forall|j: int| 0 <= j < active ==> (#[trigger] padded_outputs[j])@ == md5(inputs@[j]@),
            outputs@.len() == before.len(),
            forall|j: int| 0 <= j < k ==> (#[trigger] outputs@[out_start + j])@ == md5(inputs@[j]@),
            forall|j: int|
                0 <= j < outputs@.len() && !(out_start <= j < out_start + k) ==> #[trigger] outputs@[j]
                    == before[j],
        decreases active - k,
    {
        outputs[out_start + k] = padded_outputs[k];
        k += 1;
    }
}

/// The largest of three numbers.
pub open spec fn max3(a: nat, b: nat, c: nat) -> nat {
    if a >= b && a >= c {
        a
    } else if b >= c {
        b
    } else {
        c
    }
}

/// The middle one of three numbers.
pub open spec fn median3(a: nat, b: nat, c: nat) -> nat {
    if (a <= b && b <= c) || (c <= b && b <= a) {
        b
    } else if (b <= a && a <= c) || (c <= a && a <= b) {
        a
    } else {
        c
    }
}

/// The largest of three is one of them and no one of them exceeds it.
pub proof fn lemma_max3_is_largest(a: nat, b: nat, c: nat)
    ensures
        max3(a, b, c) == a || max3(a, b, c) == b || max3(a, b, c) == c,
        a <= max3(a, b, c) && b <= max3(a, b, c) && c <= max3(a, b, c),
{
}

/// The middle of three is one of them, with at least one of the other two at most it and at
/// least one at or above it: two of the three are at most it and two are at least it.
pub proof fn lemma_median3_is_middle(a: nat, b: nat, c: nat)
    ensures
        median3(a, b, c) == a || median3(a, b, c) == b || median3(a, b, c) == c,
        (a <= median3(a, b, c) && b <= median3(a, b, c)) || (a <= median3(a, b, c) && c
            <= median3(a, b, c)) || (b <= median3(a, b, c) && c <= median3(a, b, c)),
        (a >= median3(a, b, c) && b >= median3(a, b, c)) || (a >= median3(a, b, c) && c
            >= median3(a, b, c)) || (b >= median3(a, b, c) && c >= median3(a, b, c)),
{
}

/// The digests of two messages, by the scalar compressor.
pub fn hash_pair(inputs: [&[u8]; 2]) -> (digests: [[u8; 16]; 2])
    requires
        messages_fit(inputs@),
    ensures
        digests[0]@ == md5(inputs[0]@),
        digests[1]@ == md5(inputs[1]@),
{
    [hash(inputs[0]), hash(inputs[1])]
}

/// On AMD family 19h with BMI1, hash a strongly skewed three-message batch as a scalar pair
/// of its two longest messages plus the third alone: taken exactly when the middle padded
/// block count, times four, is at most the largest. Returns whether it was taken; when not,
/// `outputs` is untouched.
pub fn hash_three_dual_scalar(
    tuning: &X86Tuning,
    inputs: &[&[u8]],
    outputs: &mut [[u8; 16]],
    out_start: usize,
) -> (done: bool)
    requires
        messages_fit(inputs@),
        out_start + inputs@.len() <= old(outputs)@.len(),
    ensures
        done == (tuning.class == X86TuningClass::AmdFamily19h && tuning.has_bmi1
            && inputs@.len() == 3 && sat_mul_spec(
            median3(
                lane_blocks(inputs@, 0),
                lane_blocks(inputs@, 1),
                lane_blocks(inputs@, 2),
            ),
            4,
        ) <= max3(lane_blocks(inputs@, 0), lane_blocks(inputs@, 1), lane_blocks(inputs@, 2))),
        done ==> digests_stored(old(outputs)@, final(outputs)@, out_start as int, inputs@),
        !done ==> final(outputs)@ == old(outputs)@,
{
    if !amd_family_19h(tuning) || !tuning.has_bmi1 || inputs.len() != 3 {
        return false;
    }
    let blocks = [
        padded_blocks_for_len(inputs[0].len()),
        padded_blocks_for_len(inputs[1].len()),
        padded_blocks_for_len(inputs[2].len()),
    ];
    let mut order = [0usize, 1, 2];
    if blocks[order[0]] > blocks[order[1]] {
        order = [order[1], order[0], order[2]];
    }
    if blocks[order[1]] > blocks[order[2]] {
        order = [order[0], order[2], order[1]];
    }
    if blocks[order[0]] > blocks[order[1]] {
        order = [order[1], order[0], order[2]];
    }
    assert(order[0] != order[1] && order[1] != order[2] && order[0] != order[2]);
    assert(order[0] < 3 && order[1] < 3 && order[2] < 3);
    assert(blocks[order[1] as int] == median3(blocks[0] as nat, blocks[1] as nat, blocks[2] as nat));
    assert(blocks[order[2] as int] == max3(blocks[0] as nat, blocks[1] as nat, blocks[2] as nat));
    if saturating_mul(blocks[order[1]], 4) > blocks[order[2]] {
        return false;
    }
    let pair = hash_pair([inputs[order[1]], inputs[order[2]]]);
    let ghost before = outputs@;
    let out_len = outputs.len();
    outputs[out_start + order[1]] = pair[0];
    outputs[out_start + order[2]] = pair[1];
    outputs[out_start + order[0]] = hash(inputs[order[0]]);
    assert forall|k: int| 0 <= k < 3 implies (#[trigger] outputs@[out_start + k])@ == md5(
        inputs@[k]@,
    ) by {
        if k == order[0] {
        } else if k == order[1] {
        } else {
        }
    }
    true
}

/// The smallest and largest padded block counts of a nonempty batch.
fn blocks_min_max(inputs: &[&[u8]]) -> (res: (usize, usize))
    requires
        inputs@.len() >= 1,
        messages_fit(inputs@),
    ensures
        forall|m: int|
            0 <= m < inputs@.len() ==> res.0 <= #[trigger] lane_blocks(inputs@, m) <= res.1,
        exists|m: int| 0 <= m < inputs@.len() && res.0 == #[trigger] lane_blocks(inputs@, m),
        exists|m: int| 0 <= m < inputs@.len() && res.1 == #[trigger] lane_blocks(inputs@, m),
{
    let first = padded_blocks_for_len(inputs[0].len());
    let mut lo = first;
    let mut hi = first;
    let mut m: usize = 1;
    assert(lo == lane_blocks(inputs@, 0));
    while m < inputs.len()
        invariant
            1 <= m <= inputs@.len(),
            messages_fit(inputs@),
            forall|k: int| 0 <= k < m ==> lo <= #[trigger] lane_blocks(inputs@, k) <= hi,
            exists|k: int| 0 <= k < m && lo == #[trigger] lane_blocks(inputs@, k),
            exists|k: int| 0 <= k < m && hi == #[trigger] lane_blocks(inputs@, k),
        decreases inputs@.len() - m,
    {
        let b = padded_blocks_for_len(inputs[m].len());
        assert(b == lane_blocks(inputs@, m as int));
        if b < lo {
            lo = b;
        }
        if b > hi {
            hi = b;
        }
        m += 1;
    }
    (lo, hi)
}

/// Whether every message of the batch is at least `min_len` bytes long.
fn all_at_least(inputs: &[&[u8]], min_len: usize) -> (b: bool)
    ensures
        b == forall|m: int| 0 <= m < inputs@.len() ==> (#[trigger] inputs@[m])@.len() >= min_len,
{
    let mut m: usize = 0;
    while m < inputs.len()
        invariant
            m <= inputs@.len(),
            forall|k: int| 0 <= k < m ==> (#[trigger] inputs@[k])@.len() >= min_len,
        decreases inputs@.len() - m,
    {
        if inputs[m].len() < min_len {
            return false;
        }
        m += 1;
    }
    true
}

/// The first `active` entries of `reordered` are the digests of `inputs[order[k]]`; write each
/// back to `outputs[out_start + order[k]]`.
fn scatter_digests(
    order: &[usize],
    active: usize,
    reordered: &[[u8; 16]],
    inputs: &[&[u8]],
    outputs: &mut [[u8; 16]],
    out_start: usize,
)
    requires
        is_permutation(order@, active as nat),
        active == inputs@.len(),
        active <= reordered@.len(),
        forall|k: int| 0 <= k < active ==> (#[trigger] reordered@[k])@ == md5(inputs@[order@[k] as int]@),
        out_start + active <= old(outputs)@.len(),
    ensures
        digests_stored(old(outputs)@, final(outputs)@, out_start as int, inputs@),
{
    let ghost before = outputs@;
    let out_len = outputs.len();
    let mut lane: usize = 0;
    while lane < active
        invariant
            lane <= active,
            is_permutation(order@, active as nat),
            active == inputs@.len(),
            active <= reordered@.len(),
            forall|k: int| 0 <= k < active ==> (#[trigger] reordered@[k])@ == md5(inputs@[order@[k] as int]@),
            out_len == before.len(),
            out_start + active <= before.len(),
            outputs@.len() == before.len(),
            forall|k: int| 0 <= k < lane ==> (#[trigger] outputs@[out_start + order@[k]])@ == md5(
                inputs@[order@[k] as int]@,
            ),
            forall|j: int|
                0 <= j < outputs@.len() && !(out_start <= j < out_start + active && exists|k: int|
                    0 <= k < lane && order@[k] == j - out_start) ==> #[trigger] outputs@[j] == before[j],
        decreases active - lane,
    {
        let target = order[lane];
        proof {
            assert forall|k: int| 0 <= k < lane implies order@[k] != target by {
                assert(order@[k] != order@[lane as int]);
            }
        }
        outputs[out_start + target] = reordered[lane];
        lane += 1;
    }
    assert forall|m: int| 0 <= m < active implies (#[trigger] outputs@[out_start + m])@ == md5(
        inputs@[m]@,
    ) by {
        assert(has_preimage(order@, active as nat, m));
        let k = choose|k: int| 0 <= k < active && #[trigger] order@[k] == m;
        assert(outputs@[out_start + order@[k]]@ == md5(inputs@[order@[k] as int]@));
    }
}

/// A batch taken from `inputs[start..end]` whose lengths were found to agree has equal lengths.
proof fn lemma_chunk_same_lengths(inputs: Seq<&[u8]>, start: int, end: int)
    requires
        0 <= start < end <= inputs.len(),
        forall|k: int| start <= k < end ==> (#[trigger] inputs[k])@.len() == inputs[start]@.len(),
    ensures
        same_lengths(inputs.subrange(start, end)),
{
    let chunk = inputs.subrange(start, end);
    assert forall|m: int| 0 <= m < chunk.len() implies (#[trigger] chunk[m])@.len() == chunk[0]@.len() by {
        assert(chunk[m] == inputs[start + m]);
    }
}

/// Record that `outputs` went from `mid` to `after` by storing the digests of
/// `inputs[start..next]`, extending what was stored of `inputs[..start]` since `before`.
proof fn lemma_schedule_step(
    before: Seq<[u8; 16]>,
    mid: Seq<[u8; 16]>,
    after: Seq<[u8; 16]>,
    out_start: int,
    inputs: Seq<&[u8]>,
    start: int,
    next: int,
)
    requires
        0 <= out_start,
        0 <= start <= next <= inputs.len(),
        digests_stored(before, mid, out_start, inputs.subrange(0, start)),
        digests_stored(mid, after, out_start + start, inputs.subrange(start, next)),
    ensures
        digests_stored(before, after, out_start, inputs.subrange(0, next)),
{
    lemma_digests_stored_append(
        before,
        mid,
        after,
        out_start,
        inputs.subrange(0, start),
        inputs.subrange(start, next),
    );
    assert(inputs.subrange(0, start) + inputs.subrange(start, next) =~= inputs.subrange(0, next));
}

/// The messages in the order given, repeating the last of them past `active`.
fn reorder_inputs<'a, const MAX: usize>(inputs: &[&'a [u8]], order: &[usize; MAX], active: usize) -> (reordered:
    [&'a [u8]; MAX])
    requires
        1 <= active == inputs@.len() <= MAX,
        is_permutation(order@, active as nat),
    ensures
        forall|k: int| 0 <= k < active ==> #[trigger] reordered[k] == inputs@[order[k] as int],
        messages_fit(inputs@) ==> messages_fit(reordered@),
{
    let mut reordered: [&'a [u8]; MAX] = [inputs[0]; MAX];
    let mut lane: usize = 0;
    while lane < MAX
        invariant
            lane <= MAX,
            1 <= active == inputs@.len() <= MAX,
            is_permutation(order@, active as nat),
            forall|k: int| 0 <= k < lane && k < active ==> #[trigger] reordered[k] == inputs@[order[k] as int],
            forall|k: int| 0 <= k < MAX ==> exists|m: int| 0 <= m < active && #[trigger] reordered[k] == inputs@[m],
        decreases MAX - lane,
    {
        let source = if lane < active {
            order[lane]
        } else {
            order[active - 1]
        };
        reordered[lane] = inputs[source];
        lane += 1;
    }
    assert(messages_fit(inputs@) ==> messages_fit(reordered@)) by {
        if messages_fit(inputs@) {
            assert forall|k: int| 0 <= k < MAX implies (#[trigger] reordered@[k])@.len() <= isize::MAX by {
                let m = choose|m: int| 0 <= m < active && #[trigger] reordered[k] == inputs@[m];
            }
        }
    }
    reordered
}

/// The number of short messages of a batch.
pub open spec fn short_count(inputs: Seq<&[u8]>) -> nat {
    short_before(inputs, max_blocks_upto(inputs, inputs.len()), inputs.len())
}

/// Split a mixed batch into its short and long messages and hash each part on its own with
/// AVX2 kernels, when both parts are nonempty and at most `max_long_count` are long. Returns
/// whether it did; when not, `outputs` is untouched.
fn hash_skewed_partial_avx2_with_limit<const MAX: usize>(
    tuning: &X86Tuning,
    inputs: &[&[u8]],
    outputs: &mut [[u8; 16]],
    out_start: usize,
    max_long_count: usize,
) -> (done: bool)
    requires
        1 <= inputs@.len() <= MAX,
        messages_fit(inputs@),
        out_start + inputs@.len() <= old(outputs)@.len(),
    ensures
        done == (short_count(inputs@) != 0 && short_count(inputs@) != inputs@.len()
            && inputs@.len() - short_count(inputs@) <= max_long_count),
        done ==> digests_stored(old(outputs)@, final(outputs)@, out_start as int, inputs@),
        !done ==> final(outputs)@ == old(outputs)@,
    decreases inputs@.len(), 0nat,
{
    let (order, split) = match skew_partition_dynamic::<MAX>(inputs) {
        None => {
            return false;
        },
        Some(partition) => partition,
    };
    let active = inputs.len();
    if active - split > max_long_count {
        return false;
    }
    let reordered_inputs = reorder_inputs::<MAX>(inputs, &order, active);
    let mut reordered_outputs = [[0u8; 16]; MAX];
    let first = vstd::slice::slice_subrange(reordered_inputs.as_slice(), 0, split);
    let second = vstd::slice::slice_subrange(reordered_inputs.as_slice(), split, active);
    let ghost start_out = reordered_outputs@;
    hash_many_avx2(tuning, first, &mut reordered_outputs, 0);
    let ghost mid = reordered_outputs@;
    hash_many_avx2(tuning, second, &mut reordered_outputs, split);
    proof {
        lemma_digests_stored_append(start_out, mid, reordered_outputs@, 0, first@, second@);
        assert(first@ + second@ =~= reordered_inputs@.subrange(0, active as int));
        assert forall|k: int| 0 <= k < active implies (#[trigger] reordered_outputs@[k])@ == md5(
            inputs@[order@[k] as int]@,
        ) by {
            assert(reordered_outputs@[0 + k]@ == md5((first@ + second@)[k]@));
        }
    }
    scatter_digests(order.as_slice(), active, reordered_outputs.as_slice(), inputs, outputs, out_start);
    true
}

/// The skew split with no limit on the long part, for batches of up to 32 messages.
fn hash_skewed_partial_avx2(
    tuning: &X86Tuning,
    inputs: &[&[u8]],
    outputs: &mut [[u8; 16]],
    out_start: usize,
) -> (done: bool)
    requires
        1 <= inputs@.len() <= 32,
        messages_fit(inputs@),
        out_start + inputs@.len() <= old(outputs)@.len(),
    ensures
        done == (short_count(inputs@) != 0 && short_count(inputs@) != inputs@.len()),
        done ==> digests_stored(old(outputs)@, final(outputs)@, out_start as int, inputs@),
        !done ==> final(outputs)@ == old(outputs)@,
    decreases inputs@.len(), 1nat,
{
    hash_skewed_partial_avx2_with_limit::<32>(tuning, inputs, outputs, out_start, usize::MAX)
}

/// The skew split for four to eight messages, taken only when at most two are long, so
/// that the long part collapses to scalar or dual-scalar work.
fn hash_skewed_small_avx2(
    tuning: &X86Tuning,
    inputs: &[&[u8]],
    outputs: &mut [[u8; 16]],
    out_start: usize,
) -> (done: bool)
    requires
        1 <= inputs@.len() <= 8,
        messages_fit(inputs@),
        out_start + inputs@.len() <= old(outputs)@.len(),
    ensures
        done == (short_count(inputs@) != 0 && short_count(inputs@) != inputs@.len()
            && inputs@.len() - short_count(inputs@) <= 2),
        done ==> digests_stored(old(outputs)@, final(outputs)@, out_start as int, inputs@),
        !done ==> final(outputs)@ == old(outputs)@,
    decreases inputs@.len(), 1nat,
{
    hash_skewed_partial_avx2_with_limit::<8>(tuning, inputs, outputs, out_start, 2)
}

/// Whether `order` is `0, 1, ..., n - 1`.
fn is_identity(order: &[usize]) -> (b: bool)
    ensures
        b == forall|k: int| 0 <= k < order@.len() ==> #[trigger] order@[k] == k,
{
    let mut k: usize = 0;
    while k < order.len()
        invariant
            k <= order@.len(),
            forall|j: int| 0 <= j < k ==> #[trigger] order@[j] == j,
        decreases order@.len() - k,
    {
        if order[k] != k {
            return false;
        }
        k += 1;
    }
    true
}

/// Hash `2 * half` messages as two halves of `half`, the halves given by the permutation
/// `order`, with `hash_many`'s AVX2 path.
fn hash_partitioned_split_avx2(
    tuning: &X86Tuning,
    inputs: &[&[u8]],
    outputs: &mut [[u8; 16]],
    out_start: usize,
    order: [usize; 16],
)
    requires
        inputs@.len() == 16,
        is_permutation(order@, 16),
        messages_fit(inputs@),
        out_start + 16 <= old(outputs)@.len(),
    ensures
        digests_stored(old(outputs)@, final(outputs)@, out_start as int, inputs@),
    decreases inputs@.len(), 2nat,
{
    let out_len = outputs.len();
    if is_identity(order.as_slice()) {
        let first = vstd::slice::slice_subrange(inputs, 0, 8);
        let second = vstd::slice::slice_subrange(inputs, 8, 16);
        let ghost before = outputs@;
        hash_many_avx2(tuning, first, outputs, out_start);
        let ghost mid = outputs@;
        hash_many_avx2(tuning, second, outputs, out_start + 8);
        proof {
            lemma_digests_stored_append(before, mid, outputs@, out_start as int, first@, second@);
            assert(first@ + second@ =~= inputs@);
        }
        return;
    }
    let reordered_inputs = reorder_inputs::<16>(inputs, &order, 16);
    let mut reordered_outputs = [[0u8; 16]; 16];
    let first = vstd::slice::slice_subrange(reordered_inputs.as_slice(), 0, 8);
    let second = vstd::slice::slice_subrange(reordered_inputs.as_slice(), 8, 16);
    let ghost start_out = reordered_outputs@;
    hash_many_avx2(tuning, first, &mut reordered_outputs, 0);
    let ghost mid = reordered_outputs@;
    hash_many_avx2(tuning, second, &mut reordered_outputs, 8);
    proof {
        lemma_digests_stored_append(start_out, mid, reordered_outputs@, 0, first@, second@);
        assert(first@ + second@ =~= reordered_inputs@);
        assert forall|k: int| 0 <= k < 16 implies (#[trigger] reordered_outputs@[k])@ == md5(
            inputs@[order@[k] as int]@,
        ) by {
            assert(reordered_outputs@[0 + k]@ == md5((first@ + second@)[k]@));
        }
    }
    scatter_digests(order.as_slice(), 16, reordered_outputs.as_slice(), inputs, outputs, out_start);
}

/// Hash a batch of 9 to 15 or 17 to 23 messages in one under-filled dual or triple kernel,
/// unless a mixed batch splits into a short and a long part first.
fn hash_underfilled_avx2(
    tuning: &X86Tuning,
    inputs: &[&[u8]],
    outputs: &mut [[u8; 16]],
    out_start: usize,
)
    requires
        9 <= inputs@.len() <= 23,
        messages_fit(inputs@),
        out_start + inputs@.len() <= old(outputs)@.len(),
    ensures
        digests_stored(old(outputs)@, final(outputs)@, out_start as int, inputs@),
    decreases inputs@.len(), 3nat,
{
    let n = inputs.len();
    let same_len = lengths_agree(inputs, 0, n);
    if same_len {
        proof {
            lemma_chunk_same_lengths(inputs@, 0, n as int);
            assert(inputs@.subrange(0, n as int) =~= inputs@);
        }
    }
    if !same_len && hash_skewed_partial_avx2(tuning, inputs, outputs, out_start) {
    } else if n <= 16 {
        hash_padded(same_len, 2, 8, inputs, outputs, out_start);
    } else {
        hash_padded(same_len, 3, 8, inputs, outputs, out_start);
    }
}

/// Hash a batch of 26 to 31 messages as one full dual kernel and one under-filled dual
/// kernel, unless a mixed batch splits into a short and a long part first.
fn hash_dual_and_tail_avx2(
    tuning: &X86Tuning,
    inputs: &[&[u8]],
    outputs: &mut [[u8; 16]],
    out_start: usize,
)
    requires
        26 <= inputs@.len() <= 31,
        messages_fit(inputs@),
        out_start + inputs@.len() <= old(outputs)@.len(),
    ensures
        digests_stored(old(outputs)@, final(outputs)@, out_start as int, inputs@),
    decreases inputs@.len(), 3nat,
{
    let n = inputs.len();
    let out_len = outputs.len();
    let same_len = lengths_agree(inputs, 0, n);
    if !same_len && hash_skewed_partial_avx2(tuning, inputs, outputs, out_start) {
        return;
    }
    let head = vstd::slice::slice_subrange(inputs, 0, 16);
    let tail = vstd::slice::slice_subrange(inputs, 16, n);
    if same_len {
        proof {
            lemma_chunk_same_lengths(inputs@, 0, 16);
            lemma_chunk_same_lengths(inputs@, 16, n as int);
        }
    }
    let ghost before = outputs@;
    if same_len {
        hash_equal_len_kernel(2, 8, head, outputs, out_start);
    } else {
        hash_mixed_len_kernel(2, 8, head, outputs, out_start);
    }
    let ghost mid = outputs@;
    hash_padded(same_len, 2, 8, tail, outputs, out_start + 16);
    proof {
        lemma_digests_stored_append(before, mid, outputs@, out_start as int, head@, tail@);
        assert(head@ + tail@ =~= inputs@);
    }
}

/// Hash a batch of at most eight messages: one alone by the scalar hash, a skewed triple or
/// a suitable pair on AMD family 19h as a scalar pair, a mixed batch of four or more with at
/// most two long messages split, tiny or mixed pairs by the scalar hash, and the rest in one
/// native AVX2 kernel.
fn hash_small_avx2(
    tuning: &X86Tuning,
    inputs: &[&[u8]],
    outputs: &mut [[u8; 16]],
    out_start: usize,
)
    requires
        1 <= inputs@.len() <= 8,
        messages_fit(inputs@),
        out_start + inputs@.len() <= old(outputs)@.len(),
    ensures
        digests_stored(old(outputs)@, final(outputs)@, out_start as int, inputs@),
    decreases inputs@.len(), 2nat,
{
    let n = inputs.len();
    let out_len = outputs.len();
    if n == 1 {
        hash_each_scalar(inputs, outputs, out_start);
        return;
    }
    if hash_three_dual_scalar(tuning, inputs, outputs, out_start) {
        return;
    }
    let same_len = lengths_agree(inputs, 0, n);
    if same_len {
        proof {
            lemma_chunk_same_lengths(inputs@, 0, n as int);
            assert(inputs@.subrange(0, n as int) =~= inputs@);
        }
    }
    if n >= 4 && !same_len && hash_skewed_small_avx2(tuning, inputs, outputs, out_start) {
        return;
    }
    let (_, max_padded_blocks) = blocks_min_max(inputs);
    let prefer_scalar = n == 2 && max_padded_blocks == 1;
    if prefer_dual_scalar_pair(tuning, inputs) {
        let digests = hash_pair([inputs[0], inputs[1]]);
        let ghost before = outputs@;
        outputs[out_start] = digests[0];
        outputs[out_start + 1] = digests[1];
        assert forall|k: int| 0 <= k < 2 implies (#[trigger] outputs@[out_start + k])@ == md5(
            inputs@[k]@,
        ) by {
            if k == 0 {
            } else {
            }
        }
    } else if prefer_scalar {
        hash_each_scalar(inputs, outputs, out_start);
    } else if same_len {
        if n == 8 {
            hash_equal_len_kernel(1, 8, inputs, outputs, out_start);
        } else {
            hash_padded(true, 1, 8, inputs, outputs, out_start);
        }
    } else if n < 3 {
        hash_each_scalar(inputs, outputs, out_start);
    } else if n == 8 {
        hash_mixed_len_kernel(1, 8, inputs, outputs, out_start);
    } else {
        hash_padded(false, 1, 8, inputs, outputs, out_start);
    }
}

/// One step of the AVX2 schedule over `inputs[start..]` outside the under-filled tail
/// shapes: a triple kernel for 24 equal or moderately mixed messages, a dual kernel or skew
/// split for 16, else a batch of at most eight. Returns where the step ended.
fn hash_step_avx2(
    tuning: &X86Tuning,
    inputs: &[&[u8]],
    start: usize,
    outputs: &mut [[u8; 16]],
    out_start: usize,
) -> (next: usize)
    requires
        start < inputs@.len(),
        messages_fit(inputs@),
        out_start + inputs@.len() <= old(outputs)@.len(),
    ensures
        start < next <= inputs@.len(),
        digests_stored(
            old(outputs)@,
            final(outputs)@,
            out_start + start,
            inputs@.subrange(start as int, next as int),
        ),
    decreases inputs@.len(), 3nat,
{
    let n = inputs.len();
    let out_len = outputs.len();
    let remaining = n - start;
    let out = out_start + start;
    let complete_avx2_groups = remaining / 8;
    if remaining >= 24 && complete_avx2_groups != 4 {
        let chunk = vstd::slice::slice_subrange(inputs, start, start + 24);
        if lengths_agree(inputs, start, start + 24) {
            proof {
                lemma_chunk_same_lengths(inputs@, start as int, start + 24);
            }
            hash_equal_len_kernel(3, 8, chunk, outputs, out);
            return start + 24;
        }
        let (min_blocks, max_blocks) = blocks_min_max(chunk);
        if all_at_least(chunk, 64) && saturating_mul(min_blocks, 2) >= max_blocks {
            hash_mixed_len_kernel(3, 8, chunk, outputs, out);
            return start + 24;
        }
    }
    if n - start >= 16 {
        let chunk = vstd::slice::slice_subrange(inputs, start, start + 16);
        if lengths_agree(inputs, start, start + 16) {
            proof {
                lemma_chunk_same_lengths(inputs@, start as int, start + 16);
            }
            hash_equal_len_kernel(2, 8, chunk, outputs, out);
            return start + 16;
        }
        if let Some(order) = skew_partition::<16, 8>(chunk) {
            hash_partitioned_split_avx2(tuning, chunk, outputs, out, order);
            return start + 16;
        }
        if all_at_least(chunk, 64) {
            hash_mixed_len_kernel(2, 8, chunk, outputs, out);
            return start + 16;
        }
    }
    let end = if n - start < 8 {
        n
    } else {
        start + 8
    };
    let chunk = vstd::slice::slice_subrange(inputs, start, end);
    hash_small_avx2(tuning, chunk, outputs, out);
    end
}

/// Hash every message with the AVX2 kernel family: triple, dual and native interleaved
/// kernels chosen by batch size, length agreement and skew, with scalar and dual-scalar
/// shortcuts for tiny batches. Digest `m` goes to `outputs[out_start + m]`.
pub fn hash_many_avx2(
    tuning: &X86Tuning,
    inputs: &[&[u8]],
    outputs: &mut [[u8; 16]],
    out_start: usize,
)
    requires
        messages_fit(inputs@),
        out_start + inputs@.len() <= old(outputs)@.len(),
    ensures
        digests_stored(old(outputs)@, final(outputs)@, out_start as int, inputs@),
    decreases inputs@.len(), 4nat,
{
    let n = inputs.len();
    let out_len = outputs.len();
    let ghost before = outputs@;
    assert(digests_stored(before, outputs@, out_start as int, inputs@.subrange(0, 0)));
    let mut start: usize = 0;
    while start < n
        invariant
            start <= n,
            n == inputs@.len(),
            out_len == before.len(),
            out_start + n <= before.len(),
            messages_fit(inputs@),
            digests_stored(before, outputs@, out_start as int, inputs@.subrange(0, start as int)),
        decreases n - start,
    {
        let remaining = n - start;
        let ghost mid = outputs@;
        let next: usize;
        if (9 <= remaining && remaining <= 15) || (17 <= remaining && remaining <= 23) {
            let chunk = vstd::slice::slice_subrange(inputs, start, n);
            hash_underfilled_avx2(tuning, chunk, outputs, out_start + start);
            next = n;
        } else if 26 <= remaining && remaining <= 31 {
            let chunk = vstd::slice::slice_subrange(inputs, start, n);
            hash_dual_and_tail_avx2(tuning, chunk, outputs, out_start + start);
            next = n;
        } else {
            next = hash_step_avx2(tuning, inputs, start, outputs, out_start);
        }
        proof {
            lemma_schedule_step(
                before,
                mid,
                outputs@,
                out_start as int,
                inputs@,
                start as int,
                next as int,
            );
        }
        start = next;
    }
    assert(inputs@.subrange(0, n as int) =~= inputs@);
}

/// Split a mixed batch of up to 64 messages into its short and long messages and hash each
/// part on its own with the AVX-512 schedule, when both parts are nonempty. Returns whether
/// it did; when not, `outputs` is untouched.
fn hash_skewed_partial_avx512(
    tuning: &X86Tuning,
    inputs: &[&[u8]],
    outputs: &mut [[u8; 16]],
    out_start: usize,
) -> (done: bool)
    requires
        1 <= inputs@.len() <= 64,
        messages_fit(inputs@),
        out_start + inputs@.len() <= old(outputs)@.len(),
    ensures
        done == (short_count(inputs@) != 0 && short_count(inputs@) != inputs@.len()),
        done ==> digests_stored(old(outputs)@, final(outputs)@, out_start as int, inputs@),
        !done ==> final(outputs)@ == old(outputs)@,
    decreases inputs@.len(), 1nat,
{
    let (order, split) = match skew_partition_dynamic::<64>(inputs) {
        None => {
            return false;
        },
        Some(partition) => partition,
    };
    let active = inputs.len();
    let reordered_inputs = reorder_inputs::<64>(inputs, &order, active);
    let mut reordered_outputs = [[0u8; 16]; 64];
    let first = vstd::slice::slice_subrange(reordered_inputs.as_slice(), 0, split);
    let second = vstd::slice::slice_subrange(reordered_inputs.as_slice(), split, active);
    let ghost start_out = reordered_outputs@;
    hash_many_avx512(tuning, first, &mut reordered_outputs, 0);
    let ghost mid = reordered_outputs@;
    hash_many_avx512(tuning, second, &mut reordered_outputs, split);
    proof {
        lemma_digests_stored_append(start_out, mid, reordered_outputs@, 0, first@, second@);
        assert(first@ + second@ =~= reordered_inputs@.subrange(0, active as int));
        assert forall|k: int| 0 <= k < active implies (#[trigger] reordered_outputs@[k])@ == md5(
            inputs@[order@[k] as int]@,
        ) by {
            assert(reordered_outputs@[0 + k]@ == md5((first@ + second@)[k]@));
        }
    }
    scatter_digests(order.as_slice(), active, reordered_outputs.as_slice(), inputs, outputs, out_start);
    true
}

/// Hash 32 messages as two halves of 16, the halves given by the permutation `order`, with
/// the AVX-512 schedule.
fn hash_partitioned_split_avx512(
    tuning: &X86Tuning,
    inputs: &[&[u8]],
    outputs: &mut [[u8; 16]],
    out_start: usize,
    order: [usize; 32],
)
    requires
        inputs@.len() == 32,
        is_permutation(order@, 32),
        messages_fit(inputs@),
        out_start + 32 <= old(outputs)@.len(),
    ensures
        digests_stored(old(outputs)@, final(outputs)@, out_start as int, inputs@),
    decreases inputs@.len(), 2nat,
{
    let out_len = outputs.len();
    if is_identity(order.as_slice()) {
        let first = vstd::slice::slice_subrange(inputs, 0, 16);
        let second = vstd::slice::slice_subrange(inputs, 16, 32);
        let ghost before = outputs@;
        hash_many_avx512(tuning, first, outputs, out_start);
        let ghost mid = outputs@;
        hash_many_avx512(tuning, second, outputs, out_start + 16);
        proof {
            lemma_digests_stored_append(before, mid, outputs@, out_start as int, first@, second@);
            assert(first@ + second@ =~= inputs@);
        }
        return;
    }
    let reordered_inputs = reorder_inputs::<32>(inputs, &order, 32);
    let mut reordered_outputs = [[0u8; 16]; 32];
    let first = vstd::slice::slice_subrange(reordered_inputs.as_slice(), 0, 16);
    let second = vstd::slice::slice_subrange(reordered_inputs.as_slice(), 16, 32);
    let ghost start_out = reordered_outputs@;
    hash_many_avx512(tuning, first, &mut reordered_outputs, 0);
    let ghost mid = reordered_outputs@;
    hash_many_avx512(tuning, second, &mut reordered_outputs, 16);
    proof {
        lemma_digests_stored_append(start_out, mid, reordered_outputs@, 0, first@, second@);
        assert(first@ + second@ =~= reordered_inputs@);
        assert forall|k: int| 0 <= k < 32 implies (#[trigger] reordered_outputs@[k])@ == md5(
            inputs@[order@[k] as int]@,
        ) by {
            assert(reordered_outputs@[0 + k]@ == md5((first@ + second@)[k]@));
        }
    }
    scatter_digests(order.as_slice(), 32, reordered_outputs.as_slice(), inputs, outputs, out_start);
}

/// Hash a batch of 17 to 31 or 33 to 47 messages in one under-filled AVX-512 dual or triple
/// kernel, unless a mixed batch splits into a short and a long part first.
fn hash_underfilled_avx512(
    tuning: &X86Tuning,
    inputs: &[&[u8]],
    outputs: &mut [[u8; 16]],
    out_start: usize,
)
    requires
        17 <= inputs@.len() <= 47,
        messages_fit(inputs@),
        out_start + inputs@.len() <= old(outputs)@.len(),
    ensures
        digests_stored(old(outputs)@, final(outputs)@, out_start as int, inputs@),
    decreases inputs@.len(), 3nat,
{
    let n = inputs.len();
    let same_len = lengths_agree(inputs, 0, n);
    if same_len {
        proof {
            lemma_chunk_same_lengths(inputs@, 0, n as int);
            assert(inputs@.subrange(0, n as int) =~= inputs@);
        }
    }
    if !same_len && hash_skewed_partial_avx512(tuning, inputs, outputs, out_start) {
    } else if n <= 32 {
        hash_padded(same_len, 2, 16, inputs, outputs, out_start);
    } else {
        hash_padded(same_len, 3, 16, inputs, outputs, out_start);
    }
}

/// For 50 to 63 messages: a skew split of a mixed batch, or one full and one under-filled
/// AVX-512 dual kernel for an equal batch and for mixed batches of 50 or of 57 and more.
/// Returns whether the batch was hashed; when not, `outputs` is untouched.
fn hash_dual_and_tail_avx512(
    tuning: &X86Tuning,
    inputs: &[&[u8]],
    outputs: &mut [[u8; 16]],
    out_start: usize,
) -> (done: bool)
    requires
        50 <= inputs@.len() <= 63,
        messages_fit(inputs@),
        out_start + inputs@.len() <= old(outputs)@.len(),
    ensures
        done == (same_lengths(inputs@) || (short_count(inputs@) != 0 && short_count(inputs@)
            != inputs@.len()) || inputs@.len() == 50 || inputs@.len() >= 57),
        done ==> digests_stored(old(outputs)@, final(outputs)@, out_start as int, inputs@),
        !done ==> final(outputs)@ == old(outputs)@,
    decreases inputs@.len(), 3nat,
{
    let n = inputs.len();
    let out_len = outputs.len();
    let same_len = lengths_agree(inputs, 0, n);
    if same_len {
        proof {
            lemma_chunk_same_lengths(inputs@, 0, n as int);
            assert(inputs@.subrange(0, n as int) =~= inputs@);
        }
    } else {
        assert(!same_lengths(inputs@)) by {
            if same_lengths(inputs@) {
                assert forall|k: int| 0 <= k < n implies (#[trigger] inputs@[k])@.len()
                    == inputs@[0]@.len() by {}
            }
        }
    }
    if !same_len && hash_skewed_partial_avx512(tuning, inputs, outputs, out_start) {
        return true;
    }
    if !same_len && !(n == 50 || n >= 57) {
        return false;
    }
    let head = vstd::slice::slice_subrange(inputs, 0, 32);
    let tail = vstd::slice::slice_subrange(inputs, 32, n);
    if same_len {
        proof {
            lemma_chunk_same_lengths(inputs@, 0, 32);
            lemma_chunk_same_lengths(inputs@, 32, n as int);
        }
    }
    let ghost before = outputs@;
    if same_len {
        hash_equal_len_kernel(2, 16, head, outputs, out_start);
    } else {
        hash_mixed_len_kernel(2, 16, head, outputs, out_start);
    }
    let ghost mid = outputs@;
    hash_padded(same_len, 2, 16, tail, outputs, out_start + 32);
    proof {
        lemma_digests_stored_append(before, mid, outputs@, out_start as int, head@, tail@);
        assert(head@ + tail@ =~= inputs@);
    }
    true
}

/// Hash a batch of at most sixteen messages with AVX-512 or AVX2 kernels, by the tuning
/// class: 512-byte-plus batches of up to eight in padded ZMM on Intel family 6 model 0xCF,
/// short equal batches of nine or more as two YMM chains on AMD family 19h, and scalar and
/// dual-scalar shortcuts as for AVX2.
fn hash_small_avx512(
    tuning: &X86Tuning,
    inputs: &[&[u8]],
    outputs: &mut [[u8; 16]],
    out_start: usize,
)
    requires
        1 <= inputs@.len() <= 16,
        messages_fit(inputs@),
        out_start + inputs@.len() <= old(outputs)@.len(),
    ensures
        digests_stored(old(outputs)@, final(outputs)@, out_start as int, inputs@),
    decreases inputs@.len(), 2nat,
{
    let n = inputs.len();
    let out_len = outputs.len();
    if n == 1 {
        hash_each_scalar(inputs, outputs, out_start);
        return;
    }
    if hash_three_dual_scalar(tuning, inputs, outputs, out_start) {
        return;
    }
    let same_len = lengths_agree(inputs, 0, n);
    if same_len {
        proof {
            lemma_chunk_same_lengths(inputs@, 0, n as int);
            assert(inputs@.subrange(0, n as int) =~= inputs@);
        }
    }
    if prefer_dual_scalar_pair(tuning, inputs) {
        let digests = hash_pair([inputs[0], inputs[1]]);
        outputs[out_start] = digests[0];
        outputs[out_start + 1] = digests[1];
        assert forall|k: int| 0 <= k < 2 implies (#[trigger] outputs@[out_start + k])@ == md5(
            inputs@[k]@,
        ) by {
            if k == 0 {
            } else {
            }
        }
        return;
    }
    if same_len {
        let len = inputs[0].len();
        if n <= 8 {
            let prefer_zmm = intel_family_06_model_cf(tuning) && len >= 512;
            if prefer_zmm {
                hash_padded(true, 1, 16, inputs, outputs, out_start);
            } else if n == 8 {
                hash_equal_len_kernel(1, 8, inputs, outputs, out_start);
            } else {
                hash_padded(true, 1, 8, inputs, outputs, out_start);
            }
        } else if amd_family_19h(tuning) && padded_blocks_for_len(len) <= 17 {
            if n == 16 {
                hash_equal_len_kernel(2, 8, inputs, outputs, out_start);
            } else {
                hash_padded(true, 2, 8, inputs, outputs, out_start);
            }
        } else if n == 16 {
            hash_equal_len_kernel(1, 16, inputs, outputs, out_start);
        } else {
            hash_padded(true, 1, 16, inputs, outputs, out_start);
        }
    } else if n <= 8 {
        if intel_family_06_model_cf(tuning) && all_at_least(inputs, 512) {
            hash_padded(false, 1, 16, inputs, outputs, out_start);
        } else {
            hash_many_avx2(tuning, inputs, outputs, out_start);
        }
    } else if n == 16 {
        hash_mixed_len_kernel(1, 16, inputs, outputs, out_start);
    } else {
        hash_padded(false, 1, 16, inputs, outputs, out_start);
    }
}

/// One step of the AVX-512 schedule over `inputs[start..]`: a triple kernel for 48 equal or
/// mildly mixed messages when an odd number of native groups remain, a dual kernel or skew
/// split for 32, else a batch of at most sixteen. Returns where the step ended.
fn hash_step_avx512(
    tuning: &X86Tuning,
    inputs: &[&[u8]],
    start: usize,
    outputs: &mut [[u8; 16]],
    out_start: usize,
) -> (next: usize)
    requires
        start < inputs@.len(),
        messages_fit(inputs@),
        out_start + inputs@.len() <= old(outputs)@.len(),
    ensures
        start < next <= inputs@.len(),
        digests_stored(
            old(outputs)@,
            final(outputs)@,
            out_start + start,
            inputs@.subrange(start as int, next as int),
        ),
    decreases inputs@.len(), 3nat,
{
    let n = inputs.len();
    let out_len = outputs.len();
    let remaining = n - start;
    let out = out_start + start;
    let complete_avx512_groups = remaining / 16;
    if remaining >= 48 && complete_avx512_groups % 2 == 1 {
        let chunk = vstd::slice::slice_subrange(inputs, start, start + 48);
        if lengths_agree(inputs, start, start + 48) {
            proof {
                lemma_chunk_same_lengths(inputs@, start as int, start + 48);
            }
            hash_equal_len_kernel(3, 16, chunk, outputs, out);
            return start + 48;
        }
        let (min_blocks, max_blocks) = blocks_min_max(chunk);
        if all_at_least(chunk, 64) && saturating_mul(min_blocks, 4) >= saturating_mul(
            max_blocks,
            3,
        ) {
            hash_mixed_len_kernel(3, 16, chunk, outputs, out);
            return start + 48;
        }
    }
    if n - start >= 32 {
        let chunk = vstd::slice::slice_subrange(inputs, start, start + 32);
        if lengths_agree(inputs, start, start + 32) {
            proof {
                lemma_chunk_same_lengths(inputs@, start as int, start + 32);
            }
            hash_equal_len_kernel(2, 16, chunk, outputs, out);
            return start + 32;
        }
        if let Some(order) = skew_partition::<32, 16>(chunk) {
            hash_partitioned_split_avx512(tuning, chunk, outputs, out, order);
            return start + 32;
        }
        if all_at_least(chunk, 64) {
            hash_mixed_len_kernel(2, 16, chunk, outputs, out);
            return start + 32;
        }
    }
    let end = if n - start < 16 {
        n
    } else {
        start + 16
    };
    let chunk = vstd::slice::slice_subrange(inputs, start, end);
    hash_small_avx512(tuning, chunk, outputs, out);
    end
}

/// Hash every message with the AVX-512 kernel family, falling back to AVX2 kernels where
/// measurements favour them. Digest `m` goes to `outputs[out_start + m]`.
pub fn hash_many_avx512(
    tuning: &X86Tuning,
    inputs: &[&[u8]],
    outputs: &mut [[u8; 16]],
    out_start: usize,
)
    requires
        messages_fit(inputs@),
        out_start + inputs@.len() <= old(outputs)@.len(),
    ensures
        digests_stored(old(outputs)@, final(outputs)@, out_start as int, inputs@),
    decreases inputs@.len(), 4nat,
{
    let n = inputs.len();
    let out_len = outputs.len();
    let ghost before = outputs@;
    assert(digests_stored(before, outputs@, out_start as int, inputs@.subrange(0, 0)));
    let mut start: usize = 0;
    while start < n
        invariant
            start <= n,
            n == inputs@.len(),
            out_len == before.len(),
            out_start + n <= before.len(),
            messages_fit(inputs@),
            digests_stored(before, outputs@, out_start as int, inputs@.subrange(0, start as int)),
        decreases n - start,
    {
        let remaining = n - start;
        let ghost mid = outputs@;
        let next: usize;
        if (17 <= remaining && remaining <= 31) || (33 <= remaining && remaining <= 47) {
            let chunk = vstd::slice::slice_subrange(inputs, start, n);
            hash_underfilled_avx512(tuning, chunk, outputs, out_start + start);
            next = n;
        } else if 50 <= remaining && remaining <= 63 && hash_dual_and_tail_avx512(
            tuning,
            vstd::slice::slice_subrange(inputs, start, n),
            outputs,
            out_start + start,
        ) {
            next = n;
        } else {
            next = hash_step_avx512(tuning, inputs, start, outputs, out_start);
        }
        proof {
            lemma_schedule_step(
                before,
                mid,
                outputs@,
                out_start as int,
                inputs@,
                start as int,
                next as int,
            );
        }
        start = next;
    }
    assert(inputs@.subrange(0, n as int) =~= inputs@);
}

} // verus!
