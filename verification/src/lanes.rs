//! The portable lane model of a SIMD vector of `u32` words: lane-wise operations, the
//! single-group and round-interleaved MD5 compressors, and the message-word builders.
use vstd::prelude::*;

use crate::consts::{K, MAX_LANES, S};
use crate::scalar::{mix_word, msg_index_of, padded_byte, rotl_word};
use crate::spec::{
    block_words, compress, fun_f, fun_g, fun_h, fun_i, le_u32, md5_blocks, md5_pad, md5_rounds,
    msg_index, padded_block_count, padding_byte, rotl, round_mix, round_value, word_at, Quad,
};

verus! {

/// The chaining words held in lane `j` of a four-vector state.
pub open spec fn lane_quad(st: [Vec<u32>; 4], j: int) -> Quad {
    (st[0]@[j], st[1]@[j], st[2]@[j], st[3]@[j])
}

/// The sixteen message words held in lane `j` of a sixteen-vector word block.
pub open spec fn lane_words(words: Seq<Vec<u32>>, j: int) -> Seq<u32> {
    Seq::new(16, |w: int| words[w]@[j])
}

/// `v` holds `n` vectors of `lanes` lanes each.
pub open spec fn shaped(v: Seq<Vec<u32>>, n: nat, lanes: nat) -> bool {
    &&& v.len() == n
    &&& forall|k: int| 0 <= k < n ==> (#[trigger] v[k])@.len() == lanes
}

/// A four-vector state whose vectors all have `lanes` lanes.
pub open spec fn state_shaped(st: [Vec<u32>; 4], lanes: nat) -> bool {
    &&& st[0]@.len() == lanes
    &&& st[1]@.len() == lanes
    &&& st[2]@.len() == lanes
    &&& st[3]@.len() == lanes
}

/// A vector with every lane set to `v`.
pub fn splat(lanes: usize, v: u32) -> (r: Vec<u32>)
    ensures
        r@ == Seq::new(lanes as nat, |j: int| v),
{
    let mut r: Vec<u32> = Vec::new();
    let mut j: usize = 0;
    while j < lanes
        invariant
            j <= lanes,
            r@ == Seq::new(j as nat, |k: int| v),
        decreases lanes - j,
    {
        r.push(v);
        j += 1;
        assert(r@ =~= Seq::new(j as nat, |k: int| v));
    }
    r
}

/// Lane-wise wrapping sum.
pub fn add_lanes(x: &Vec<u32>, y: &Vec<u32>) -> (r: Vec<u32>)
    requires
        x@.len() == y@.len(),
    ensures
        r@.len() == x@.len(),
        forall|j: int| 0 <= j < x@.len() ==> #[trigger] r@[j] == x@[j].wrapping_add(y@[j]),
{
    let mut r: Vec<u32> = Vec::new();
    let mut j: usize = 0;
    while j < x.len()
        invariant
            j <= x@.len(),
            x@.len() == y@.len(),
            r@.len() == j,
            forall|k: int| 0 <= k < j ==> #[trigger] r@[k] == x@[k].wrapping_add(y@[k]),
        decreases x@.len() - j,
    {
        r.push(x[j].wrapping_add(y[j]));
        j += 1;
    }
    r
}

/// Lane-wise wrapping sum with a broadcast constant.
pub fn add_splat(x: &Vec<u32>, k: u32) -> (r: Vec<u32>)
    ensures
        r@.len() == x@.len(),
        forall|j: int| 0 <= j < x@.len() ==> #[trigger] r@[j] == x@[j].wrapping_add(k),
{
    let mut r: Vec<u32> = Vec::new();
    let mut j: usize = 0;
    while j < x.len()
        invariant
            j <= x@.len(),
            r@.len() == j,
            forall|l: int| 0 <= l < j ==> #[trigger] r@[l] == x@[l].wrapping_add(k),
        decreases x@.len() - j,
    {
        r.push(x[j].wrapping_add(k));
        j += 1;
    }
    r
}

/// Lane-wise left rotation.
pub fn rol(x: &Vec<u32>, shift: u32) -> (r: Vec<u32>)
    requires
        0 < shift < 32,
    ensures
        r@.len() == x@.len(),
        forall|j: int| 0 <= j < x@.len() ==> #[trigger] r@[j] == rotl(x@[j], shift),
{
    let mut r: Vec<u32> = Vec::new();
    let mut j: usize = 0;
    while j < x.len()
        invariant
            j <= x@.len(),
            0 < shift < 32,
            r@.len() == j,
            forall|l: int| 0 <= l < j ==> #[trigger] r@[l] == rotl(x@[l], shift),
        decreases x@.len() - j,
    {
        r.push(rotl_word(x[j], shift));
        j += 1;
    }
    r
}

/// The lane-wise Boolean mix of round `r`; `f`, `g`, `h` and `i` are its four cases.
fn mix_lanes(r: usize, x: &Vec<u32>, y: &Vec<u32>, z: &Vec<u32>) -> (v: Vec<u32>)
    requires
        x@.len() == y@.len(),
        x@.len() == z@.len(),
    ensures
        v@.len() == x@.len(),
        forall|j: int|
            0 <= j < x@.len() ==> #[trigger] v@[j] == round_mix(r as int, x@[j], y@[j], z@[j]),
{
    let mut v: Vec<u32> = Vec::new();
    let mut j: usize = 0;
    while j < x.len()
        invariant
            j <= x@.len(),
            x@.len() == y@.len(),
            x@.len() == z@.len(),
            v@.len() == j,
            forall|l: int|
                0 <= l < j ==> #[trigger] v@[l] == round_mix(r as int, x@[l], y@[l], z@[l]),
        decreases x@.len() - j,
    {
        v.push(mix_word(r, x[j], y[j], z[j]));
        j += 1;
    }
    v
}

/// Lane-wise `(x & y) | (!x & z)`.
pub fn f(x: &Vec<u32>, y: &Vec<u32>, z: &Vec<u32>) -> (v: Vec<u32>)
    requires
        x@.len() == y@.len(),
        x@.len() == z@.len(),
    ensures
        v@.len() == x@.len(),
        forall|j: int| 0 <= j < x@.len() ==> #[trigger] v@[j] == fun_f(x@[j], y@[j], z@[j]),
{
    mix_lanes(0, x, y, z)
}

/// Lane-wise `(x & z) | (y & !z)`.
pub fn g(x: &Vec<u32>, y: &Vec<u32>, z: &Vec<u32>) -> (v: Vec<u32>)
    requires
        x@.len() == y@.len(),
        x@.len() == z@.len(),
    ensures
        v@.len() == x@.len(),
        forall|j: int| 0 <= j < x@.len() ==> #[trigger] v@[j] == fun_g(x@[j], y@[j], z@[j]),
{
    mix_lanes(16, x, y, z)
}

/// Lane-wise `x ^ y ^ z`.
pub fn h(x: &Vec<u32>, y: &Vec<u32>, z: &Vec<u32>) -> (v: Vec<u32>)
    requires
        x@.len() == y@.len(),
        x@.len() == z@.len(),
    ensures
        v@.len() == x@.len(),
        forall|j: int| 0 <= j < x@.len() ==> #[trigger] v@[j] == fun_h(x@[j], y@[j], z@[j]),
{
    mix_lanes(32, x, y, z)
}

/// Lane-wise `y ^ (x | !z)`.
pub fn i(x: &Vec<u32>, y: &Vec<u32>, z: &Vec<u32>) -> (v: Vec<u32>)
    requires
        x@.len() == y@.len(),
        x@.len() == z@.len(),
    ensures
        v@.len() == x@.len(),
        forall|j: int| 0 <= j < x@.len() ==> #[trigger] v@[j] == fun_i(x@[j], y@[j], z@[j]),
{
    mix_lanes(48, x, y, z)
}

/// The new B vector of round `r`: `B + rol(A + mix(B, C, D) + K[r] + W[msg_index(r)], S[r])`.
pub fn round_lanes(
    r: usize,
    a: &Vec<u32>,
    b: &Vec<u32>,
    c: &Vec<u32>,
    d: &Vec<u32>,
    words: &Vec<Vec<u32>>,
) -> (v: Vec<u32>)
    requires
        r < 64,
        a@.len() == b@.len(),
        a@.len() == c@.len(),
        a@.len() == d@.len(),
        shaped(words@, 16, a@.len()),
    ensures
        v@.len() == a@.len(),
        forall|j: int|
            0 <= j < a@.len() ==> #[trigger] v@[j] == round_value(
                r as int,
                (a@[j], b@[j], c@[j], d@[j]),
                lane_words(words@, j),
            ),
{
    proof {
        crate::consts::lemma_shift_range(r as int);
    }
    let mixed = if r < 16 {
        f(b, c, d)
    } else if r < 32 {
        g(b, c, d)
    } else if r < 48 {
        h(b, c, d)
    } else {
        i(b, c, d)
    };
    let wi = msg_index_of(r);
    let t = add_lanes(a, &mixed);
    let t = add_splat(&t, K[r]);
    let t = add_lanes(&t, &words[wi]);
    let t = rol(&t, S[r]);
    let v = add_lanes(b, &t);
    assert forall|j: int| 0 <= j < a@.len() implies #[trigger] v@[j] == round_value(
        r as int,
        (a@[j], b@[j], c@[j], d@[j]),
        lane_words(words@, j),
    ) by {
        assert(mixed@[j] == round_mix(r as int, b@[j], c@[j], d@[j]));
        assert(lane_words(words@, j)[wi as int] == words@[wi as int]@[j]);
    }
    v
}

/// A copy of a vector.
fn copy_lanes(x: &Vec<u32>) -> (r: Vec<u32>)
    ensures
        r@ == x@,
{
    let mut r: Vec<u32> = Vec::new();
    let mut j: usize = 0;
    while j < x.len()
        invariant
            j <= x@.len(),
            r@ == x@.subrange(0, j as int),
        decreases x@.len() - j,
    {
        r.push(x[j]);
        j += 1;
        assert(r@ =~= x@.subrange(0, j as int));
    }
    assert(r@ =~= x@);
    r
}

/// Apply the MD5 compression function lane by lane to a four-vector state.
pub fn compress_words(state: &mut [Vec<u32>; 4], words: &Vec<Vec<u32>>)
    requires
        state_shaped(*old(state), old(state)[0]@.len()),
        shaped(words@, 16, old(state)[0]@.len()),
    ensures
        state_shaped(*final(state), old(state)[0]@.len()),
        forall|j: int|
            0 <= j < old(state)[0]@.len() ==> #[trigger] lane_quad(*final(state), j) == compress(
                lane_quad(*old(state), j),
                lane_words(words@, j),
            ),
{
    let ghost initial = *state;
    let lanes = state[0].len();
    let mut a = copy_lanes(&state[0]);
    let mut b = copy_lanes(&state[1]);
    let mut c = copy_lanes(&state[2]);
    let mut d = copy_lanes(&state[3]);
    let mut r: usize = 0;
    while r < 64
        invariant
            r <= 64,
            lanes == initial[0]@.len(),
            state_shaped(initial, lanes as nat),
            shaped(words@, 16, lanes as nat),
            a@.len() == lanes,
            b@.len() == lanes,
            c@.len() == lanes,
            d@.len() == lanes,
            forall|j: int|
                0 <= j < lanes ==> md5_rounds(lane_quad(initial, j), lane_words(words@, j), r as nat)
                    == (a@[j], b@[j], c@[j], d@[j]),
        decreases 64 - r,
    {
        let nb = round_lanes(r, &a, &b, &c, &d, words);
        a = d;
        d = c;
        c = b;
        b = nb;
        r += 1;
    }
    let n0 = add_lanes(&state[0], &a);
    let n1 = add_lanes(&state[1], &b);
    let n2 = add_lanes(&state[2], &c);
    let n3 = add_lanes(&state[3], &d);
    state[0] = n0;
    state[1] = n1;
    state[2] = n2;
    state[3] = n3;
}

/// `states` holds `groups` four-vector states of `lanes` lanes each.
pub open spec fn states_shaped(states: Seq<[Vec<u32>; 4]>, groups: nat, lanes: nat) -> bool {
    &&& states.len() == groups
    &&& forall|k: int| 0 <= k < groups ==> state_shaped(#[trigger] states[k], lanes)
}

/// `words` holds `groups` sixteen-vector blocks of `lanes` lanes each.
pub open spec fn group_words_shaped(words: Seq<Vec<Vec<u32>>>, groups: nat, lanes: nat) -> bool {
    &&& words.len() == groups
    &&& forall|k: int| 0 <= k < groups ==> shaped((#[trigger] words[k])@, 16, lanes)
}

/// Apply the MD5 compression function to several independent four-vector states, issuing
/// every round for all groups before the next round.
pub fn compress_words_interleaved(states: &mut Vec<[Vec<u32>; 4]>, words: &Vec<Vec<Vec<u32>>>)
    requires
        old(states)@.len() > 0,
        states_shaped(old(states)@, old(states)@.len(), old(states)@[0][0]@.len()),
        group_words_shaped(words@, old(states)@.len(), old(states)@[0][0]@.len()),
    ensures
        states_shaped(final(states)@, old(states)@.len(), old(states)@[0][0]@.len()),
        forall|gr: int, j: int|
            0 <= gr < old(states)@.len() && 0 <= j < old(states)@[0][0]@.len() ==> #[trigger]
                lane_quad(final(states)@[gr], j) == compress(
                lane_quad(old(states)@[gr], j),
                lane_words(words@[gr]@, j),
            ),
{
    let ghost initial = states@;
    let groups = states.len();
    let lanes = states[0][0].len();
    let mut a: Vec<Vec<u32>> = Vec::new();
    let mut b: Vec<Vec<u32>> = Vec::new();
    let mut c: Vec<Vec<u32>> = Vec::new();
    let mut d: Vec<Vec<u32>> = Vec::new();
    let mut gi: usize = 0;
    while gi < groups
        invariant
            gi <= groups,
            groups == initial.len(),
            states@ == initial,
            a@.len() == gi,
            b@.len() == gi,
            c@.len() == gi,
            d@.len() == gi,
            forall|k: int|
                0 <= k < gi ==> a@[k]@ == initial[k][0]@ && b@[k]@ == initial[k][1]@ && c@[k]@
                    == initial[k][2]@ && d@[k]@ == initial[k][3]@,
        decreases groups - gi,
    {
        a.push(copy_lanes(&states[gi][0]));
        b.push(copy_lanes(&states[gi][1]));
        c.push(copy_lanes(&states[gi][2]));
        d.push(copy_lanes(&states[gi][3]));
        gi += 1;
    }
    let mut r: usize = 0;
    while r < 64
        invariant
            r <= 64,
            groups == initial.len(),
            lanes == initial[0][0]@.len(),
            states@ == initial,
            states_shaped(initial, groups as nat, lanes as nat),
            group_words_shaped(words@, groups as nat, lanes as nat),
            a@.len() == groups,
            b@.len() == groups,
            c@.len() == groups,
            d@.len() == groups,
            forall|k: int| 0 <= k < groups ==> (#[trigger] a@[k])@.len() == lanes,
            forall|k: int| 0 <= k < groups ==> (#[trigger] b@[k])@.len() == lanes,
            forall|k: int| 0 <= k < groups ==> (#[trigger] c@[k])@.len() == lanes,
            forall|k: int| 0 <= k < groups ==> (#[trigger] d@[k])@.len() == lanes,
            forall|k: int, j: int|
                0 <= k < groups && 0 <= j < lanes ==> #[trigger] md5_rounds(
                    lane_quad(initial[k], j),
                    lane_words(words@[k]@, j),
                    r as nat,
                ) == (a@[k]@[j], b@[k]@[j], c@[k]@[j], d@[k]@[j]),
        decreases 64 - r,
    {
        let mut nb: Vec<Vec<u32>> = Vec::new();
        let mut gi: usize = 0;
        while gi < groups
            invariant
                gi <= groups,
                r < 64,
                groups == initial.len(),
                group_words_shaped(words@, groups as nat, lanes as nat),
                a@.len() == groups,
                b@.len() == groups,
                c@.len() == groups,
                d@.len() == groups,
                forall|k: int| 0 <= k < groups ==> (#[trigger] a@[k])@.len() == lanes,
                forall|k: int| 0 <= k < groups ==> (#[trigger] b@[k])@.len() == lanes,
                forall|k: int| 0 <= k < groups ==> (#[trigger] c@[k])@.len() == lanes,
                forall|k: int| 0 <= k < groups ==> (#[trigger] d@[k])@.len() == lanes,
                nb@.len() == gi,
                forall|k: int|
                    0 <= k < gi ==> (#[trigger] nb@[k])@.len() == lanes && forall|j: int|
                        0 <= j < lanes ==> nb@[k]@[j] == round_value(
                            r as int,
                            (a@[k]@[j], b@[k]@[j], c@[k]@[j], d@[k]@[j]),
                            lane_words(words@[k]@, j),
                        ),
            decreases groups - gi,
        {
            assert(shaped(words@[gi as int]@, 16, lanes as nat));
            let v = round_lanes(r, &a[gi], &b[gi], &c[gi], &d[gi], &words[gi]);
            nb.push(v);
            gi += 1;
        }
        let ghost (oa, ob, oc, od) = (a@, b@, c@, d@);
        a = d;
        d = c;
        c = b;
        b = nb;
        r += 1;
        assert forall|k: int, j: int| 0 <= k < groups && 0 <= j < lanes implies #[trigger]
            md5_rounds(lane_quad(initial[k], j), lane_words(words@[k]@, j), r as nat) == (
            a@[k]@[j],
            b@[k]@[j],
            c@[k]@[j],
            d@[k]@[j],
        ) by {
            assert(md5_rounds(lane_quad(initial[k], j), lane_words(words@[k]@, j), (r - 1) as nat)
                == (oa[k]@[j], ob[k]@[j], oc[k]@[j], od[k]@[j]));
        }
    }
    let mut gi: usize = 0;
    while gi < groups
        invariant
            gi <= groups,
            groups == initial.len(),
            lanes == initial[0][0]@.len(),
            states@.len() == groups,
            states_shaped(initial, groups as nat, lanes as nat),
            a@.len() == groups,
            b@.len() == groups,
            c@.len() == groups,
            d@.len() == groups,
            forall|k: int| 0 <= k < groups ==> (#[trigger] a@[k])@.len() == lanes,
            forall|k: int| 0 <= k < groups ==> (#[trigger] b@[k])@.len() == lanes,
            forall|k: int| 0 <= k < groups ==> (#[trigger] c@[k])@.len() == lanes,
            forall|k: int| 0 <= k < groups ==> (#[trigger] d@[k])@.len() == lanes,
            forall|k: int, j: int|
                0 <= k < groups && 0 <= j < lanes ==> #[trigger] md5_rounds(
                    lane_quad(initial[k], j),
                    lane_words(words@[k]@, j),
                    64,
                ) == (a@[k]@[j], b@[k]@[j], c@[k]@[j], d@[k]@[j]),
            forall|k: int| gi <= k < groups ==> #[trigger] states@[k] == initial[k],
            forall|k: int|
                0 <= k < gi ==> state_shaped(#[trigger] states@[k], lanes as nat),
            forall|k: int, j: int|
                0 <= k < gi && 0 <= j < lanes ==> #[trigger] lane_quad(states@[k], j) == compress(
                    lane_quad(initial[k], j),
                    lane_words(words@[k]@, j),
                ),
        decreases groups - gi,
    {
        let n0 = add_lanes(&states[gi][0], &a[gi]);
        let n1 = add_lanes(&states[gi][1], &b[gi]);
        let n2 = add_lanes(&states[gi][2], &c[gi]);
        let n3 = add_lanes(&states[gi][3], &d[gi]);
        states.set(gi, [n0, n1, n2, n3]);
        gi += 1;
    }
}

/// The message words of block `block_index` of the first `active` inputs, one lane per input;
/// lanes at or above `active` hold zero.
pub fn full_block_words(lanes: usize, inputs: &[&[u8]], active: usize, block_index: usize) -> (words:
    Vec<Vec<u32>>)
    requires
        active <= lanes,
        active <= inputs@.len(),
        forall|l: int| 0 <= l < active ==> 64 * block_index + 64 <= (#[trigger] inputs@[l])@.len(),
    ensures
        shaped(words@, 16, lanes as nat),
        forall|l: int|
            0 <= l < lanes ==> #[trigger] lane_words(words@, l) == if l < active {
                block_words(inputs@[l]@, block_index as int)
            } else {
                Seq::new(16, |w: int| 0u32)
            },
{
    let mut words: Vec<Vec<u32>> = Vec::new();
    let mut w: usize = 0;
    while w < 16
        invariant
            w <= 16,
            active <= lanes,
            active <= inputs@.len(),
            forall|l: int|
                0 <= l < active ==> 64 * block_index + 64 <= (#[trigger] inputs@[l])@.len(),
            shaped(words@, w as nat, lanes as nat),
            forall|k: int, l: int|
                0 <= k < w && 0 <= l < lanes ==> #[trigger] words@[k]@[l] == if l < active {
                    word_at(inputs@[l]@, 64 * block_index + 4 * k)
                } else {
                    0u32
                },
        decreases 16 - w,
    {
        let mut v: Vec<u32> = Vec::new();
        let mut l: usize = 0;
        while l < lanes
            invariant
                l <= lanes,
                w < 16,
                active <= lanes,
                active <= inputs@.len(),
                forall|m: int|
                    0 <= m < active ==> 64 * block_index + 64 <= (#[trigger] inputs@[m])@.len(),
                v@.len() == l,
                forall|m: int|
                    0 <= m < l ==> #[trigger] v@[m] == if m < active {
                        word_at(inputs@[m]@, 64 * block_index + 4 * w)
                    } else {
                        0u32
                    },
            decreases lanes - l,
        {
            if l >= active {
                v.push(0);
            } else {
                let input = inputs[l];
                let n = input.len();
                let offset = block_index * 64 + w * 4;
                v.push(crate::scalar::load_word(input, offset));
            }
            l += 1;
        }
        words.push(v);
        w += 1;
    }
    assert forall|l: int| 0 <= l < lanes implies #[trigger] lane_words(words@, l) == if l
        < active {
        block_words(inputs@[l]@, block_index as int)
    } else {
        Seq::new(16, |w: int| 0u32)
    } by {
        if l < active {
            assert(lane_words(words@, l) =~= block_words(inputs@[l]@, block_index as int));
        } else {
            assert(lane_words(words@, l) =~= Seq::new(16, |w: int| 0u32));
        }
    }
    words
}

/// The sixteen words of block `bi` of `msg` padded to `padded_blocks` blocks.
pub open spec fn padded_words(msg: Seq<u8>, padded_blocks: nat, bi: int) -> Seq<u32> {
    Seq::new(
        16,
        |w: int|
            le_u32(
                padding_byte(msg, padded_blocks, 64 * bi + 4 * w),
                padding_byte(msg, padded_blocks, 64 * bi + 4 * w + 1),
                padding_byte(msg, padded_blocks, 64 * bi + 4 * w + 2),
                padding_byte(msg, padded_blocks, 64 * bi + 4 * w + 3),
            ),
    )
}

/// With the canonical block count, the padded words are the words of the padded message.
pub proof fn lemma_padded_words_canonical(msg: Seq<u8>, bi: int)
    requires
        0 <= bi < padded_block_count(msg.len()),
    ensures
        padded_words(msg, padded_block_count(msg.len()), bi) == block_words(md5_pad(msg), bi),
{
    let pb = padded_block_count(msg.len());
    assert forall|k: int| 0 <= k < 64 implies #[trigger] md5_pad(msg)[64 * bi + k] == padding_byte(
        msg,
        pb,
        64 * bi + k,
    ) by {
        assert(64 * bi + k < pb * 64) by (nonlinear_arith)
            requires
                bi < pb,
                0 <= k < 64,
        ;
        crate::spec::lemma_pad_index(msg, 64 * bi + k);
    }
    assert forall|w: int| 0 <= w < 16 implies #[trigger] padded_words(msg, pb, bi)[w]
        == block_words(md5_pad(msg), bi)[w] by {
        assert(md5_pad(msg)[64 * bi + 4 * w] == padding_byte(msg, pb, 64 * bi + 4 * w));
        assert(md5_pad(msg)[64 * bi + (4 * w + 1)] == padding_byte(msg, pb, 64 * bi + (4 * w + 1)));
        assert(md5_pad(msg)[64 * bi + (4 * w + 2)] == padding_byte(msg, pb, 64 * bi + (4 * w + 2)));
        assert(md5_pad(msg)[64 * bi + (4 * w + 3)] == padding_byte(msg, pb, 64 * bi + (4 * w + 3)));
    }
    assert(padded_words(msg, pb, bi) =~= block_words(md5_pad(msg), bi));
}

/// The little-endian word of four padded bytes starting at `base`.
fn padded_word(input: &[u8], padded_blocks: usize, base: usize) -> (v: u32)
    requires
        padded_blocks * 64 <= usize::MAX,
        base + 4 <= padded_blocks * 64,
    ensures
        v == le_u32(
            padding_byte(input@, padded_blocks as nat, base as int),
            padding_byte(input@, padded_blocks as nat, base + 1),
            padding_byte(input@, padded_blocks as nat, base + 2),
            padding_byte(input@, padded_blocks as nat, base + 3),
        ),
{
    let b0 = padded_byte(input, padded_blocks, base);
    let b1 = padded_byte(input, padded_blocks, base + 1);
    let b2 = padded_byte(input, padded_blocks, base + 2);
    let b3 = padded_byte(input, padded_blocks, base + 3);
    b0 as u32 + 256 * (b1 as u32) + 65536 * (b2 as u32) + 16777216 * (b3 as u32)
}

/// The words of padded block `block_index` of the first `active` inputs, which all have the
/// same padded block count; lanes at or above `active` hold zero.
pub fn padded_block_words(
    lanes: usize,
    inputs: &[&[u8]],
    active: usize,
    padded_blocks: usize,
    block_index: usize,
) -> (words: Vec<Vec<u32>>)
    requires
        active <= lanes,
        active <= inputs@.len(),
        block_index < padded_blocks,
        active > 0 ==> padded_blocks * 64 <= usize::MAX,
    ensures
        shaped(words@, 16, lanes as nat),
        forall|l: int|
            0 <= l < lanes ==> #[trigger] lane_words(words@, l) == if l < active {
                padded_words(inputs@[l]@, padded_blocks as nat, block_index as int)
            } else {
                Seq::new(16, |w: int| 0u32)
            },
{
    let mut words: Vec<Vec<u32>> = Vec::new();
    let mut w: usize = 0;
    while w < 16
        invariant
            w <= 16,
            active <= lanes,
            active <= inputs@.len(),
            block_index < padded_blocks,
            active > 0 ==> padded_blocks * 64 <= usize::MAX,
            shaped(words@, w as nat, lanes as nat),
            forall|k: int, l: int|
                0 <= k < w && 0 <= l < lanes ==> #[trigger] words@[k]@[l] == if l < active {
                    padded_words(inputs@[l]@, padded_blocks as nat, block_index as int)[k]
                } else {
                    0u32
                },
        decreases 16 - w,
    {
        let mut v: Vec<u32> = Vec::new();
        let mut l: usize = 0;
        while l < lanes
            invariant
                l <= lanes,
                w < 16,
                active <= lanes,
                active <= inputs@.len(),
                block_index < padded_blocks,
                active > 0 ==> padded_blocks * 64 <= usize::MAX,
                v@.len() == l,
                forall|m: int|
                    0 <= m < l ==> #[trigger] v@[m] == if m < active {
                        padded_words(inputs@[m]@, padded_blocks as nat, block_index as int)[w as int]
                    } else {
                        0u32
                    },
            decreases lanes - l,
        {
            if l >= active {
                v.push(0);
            } else {
                assert(block_index * 64 + w * 4 + 4 <= padded_blocks * 64) by (nonlinear_arith)
                    requires
                        block_index < padded_blocks,
                        w < 16,
                ;
                let base = block_index * 64 + w * 4;
                v.push(padded_word(inputs[l], padded_blocks, base));
            }
            l += 1;
        }
        words.push(v);
        w += 1;
    }
    assert forall|l: int| 0 <= l < lanes implies #[trigger] lane_words(words@, l) == if l
        < active {
        padded_words(inputs@[l]@, padded_blocks as nat, block_index as int)
    } else {
        Seq::new(16, |w: int| 0u32)
    } by {
        if l < active {
            assert(lane_words(words@, l) =~= padded_words(
                inputs@[l]@,
                padded_blocks as nat,
                block_index as int,
            ));
        } else {
            assert(lane_words(words@, l) =~= Seq::new(16, |w: int| 0u32));
        }
    }
    words
}

/// The words of block `block_index` of each of the first `active` inputs, each padded to its
/// own block count `padded_blocks[lane]`; a lane whose message has no such block, or at or
/// above `active`, holds zero.
pub fn mixed_block_words(
    lanes: usize,
    inputs: &[&[u8]],
    active: usize,
    padded_blocks: &[usize; MAX_LANES],
    block_index: usize,
) -> (words: Vec<Vec<u32>>)
    requires
        active <= lanes <= MAX_LANES,
        active <= inputs@.len(),
        forall|l: int| 0 <= l < active ==> #[trigger] padded_blocks[l] * 64 <= usize::MAX,
    ensures
        shaped(words@, 16, lanes as nat),
        forall|l: int|
            0 <= l < lanes ==> #[trigger] lane_words(words@, l) == if l < active && block_index
                < padded_blocks[l] {
                padded_words(inputs@[l]@, padded_blocks[l] as nat, block_index as int)
            } else {
                Seq::new(16, |w: int| 0u32)
            },
{
    let mut words: Vec<Vec<u32>> = Vec::new();
    let mut w: usize = 0;
    while w < 16
        invariant
            w <= 16,
            active <= lanes <= MAX_LANES,
            active <= inputs@.len(),
            forall|l: int| 0 <= l < active ==> #[trigger] padded_blocks[l] * 64 <= usize::MAX,
            shaped(words@, w as nat, lanes as nat),
            forall|k: int, l: int|
                0 <= k < w && 0 <= l < lanes ==> #[trigger] words@[k]@[l] == if l < active
                    && block_index < padded_blocks[l] {
                    padded_words(inputs@[l]@, padded_blocks[l] as nat, block_index as int)[k]
                } else {
                    0u32
                },
        decreases 16 - w,
    {
        let mut v: Vec<u32> = Vec::new();
        let mut l: usize = 0;
        while l < lanes
            invariant
                l <= lanes,
                w < 16,
                active <= lanes <= MAX_LANES,
                active <= inputs@.len(),
                forall|m: int| 0 <= m < active ==> #[trigger] padded_blocks[m] * 64 <= usize::MAX,
                v@.len() == l,
                forall|m: int|
                    0 <= m < l ==> #[trigger] v@[m] == if m < active && block_index
                        < padded_blocks[m] {
                        padded_words(inputs@[m]@, padded_blocks[m] as nat, block_index as int)[w as int]
                    } else {
                        0u32
                    },
            decreases lanes - l,
        {
            if l >= active || block_index >= padded_blocks[l] {
                v.push(0);
            } else {
                let input = inputs[l];
                let pb = padded_blocks[l];
                assert(block_index * 64 + w * 4 + 4 <= pb * 64) by (nonlinear_arith)
                    requires
                        block_index < pb,
                        w < 16,
                ;
                let base = block_index * 64 + w * 4;
                if block_index < input.len() / 64 {
                    let word = crate::scalar::load_word(input, base);
                    proof {
                        assert(base + 4 <= input@.len()) by (nonlinear_arith)
                            requires
                                base == block_index * 64 + w * 4,
                                w < 16,
                                block_index < input@.len() / 64,
                        ;
                    }
                    v.push(word);
                } else {
                    v.push(padded_word(input, pb, base));
                }
            }
            l += 1;
        }
        words.push(v);
        w += 1;
    }
    assert forall|l: int| 0 <= l < lanes implies #[trigger] lane_words(words@, l) == if l
        < active && block_index < padded_blocks[l] {
        padded_words(inputs@[l]@, padded_blocks[l] as nat, block_index as int)
    } else {
        Seq::new(16, |w: int| 0u32)
    } by {
        if l < active && block_index < padded_blocks[l] {
            assert(lane_words(words@, l) =~= padded_words(
                inputs@[l]@,
                padded_blocks[l] as nat,
                block_index as int,
            ));
        } else {
            assert(lane_words(words@, l) =~= Seq::new(16, |w: int| 0u32));
        }
    }
    words
}

} // verus!
