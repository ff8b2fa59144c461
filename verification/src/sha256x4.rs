//! Four independent SHA-256 streams advanced in step, one message per lane.

use vstd::prelude::*;

use crate::bytes::{append_bytes, be_words, read_be_word, u64_be, words_digest};
use crate::sha256::{
    block_count, block_words, ch, chain_value, compress, lemma_pad_len, maj, pad, round, rounds,
    rotr, schedule_word, sha256, K, MAX_MESSAGE_LEN, SHA256_IV,
};

verus! {

/// One word of each of the four streams.
pub type Lanes = [u32; 4];

/// The eight words that lane `l` holds in `state`.
pub open spec fn lane_words(state: [Lanes; 8], l: int) -> Seq<u32> {
    Seq::new(8, |i: int| state@[i]@[l])
}

fn add4(x: &Lanes, y: &Lanes) -> (r: Lanes)
    ensures
        forall|l: int| 0 <= l < 4 ==> r@[l] == x@[l].wrapping_add(y@[l]),
{
    [
        x[0].wrapping_add(y[0]),
        x[1].wrapping_add(y[1]),
        x[2].wrapping_add(y[2]),
        x[3].wrapping_add(y[3]),
    ]
}

fn rotr4(x: &Lanes, n: u32) -> (r: Lanes)
    requires
        0 < n < 32,
    ensures
        forall|l: int| 0 <= l < 4 ==> r@[l] == rotr(x@[l], n),
{
    [
        (x[0] >> n) | (x[0] << (32 - n)),
        (x[1] >> n) | (x[1] << (32 - n)),
        (x[2] >> n) | (x[2] << (32 - n)),
        (x[3] >> n) | (x[3] << (32 - n)),
    ]
}

fn shr4(x: &Lanes, n: u32) -> (r: Lanes)
    requires
        0 < n < 32,
    ensures
        forall|l: int| 0 <= l < 4 ==> r@[l] == x@[l] >> n,
{
    [x[0] >> n, x[1] >> n, x[2] >> n, x[3] >> n]
}

fn xor4(x: &Lanes, y: &Lanes, z: &Lanes) -> (r: Lanes)
    ensures
        forall|l: int| 0 <= l < 4 ==> r@[l] == x@[l] ^ y@[l] ^ z@[l],
{
    [x[0] ^ y[0] ^ z[0], x[1] ^ y[1] ^ z[1], x[2] ^ y[2] ^ z[2], x[3] ^ y[3] ^ z[3]]
}

fn ch4(e: &Lanes, f: &Lanes, g: &Lanes) -> (r: Lanes)
    ensures
        forall|l: int| 0 <= l < 4 ==> r@[l] == ch(e@[l], f@[l], g@[l]),
{
    [
        (e[0] & f[0]) ^ (!e[0] & g[0]),
        (e[1] & f[1]) ^ (!e[1] & g[1]),
        (e[2] & f[2]) ^ (!e[2] & g[2]),
        (e[3] & f[3]) ^ (!e[3] & g[3]),
    ]
}

fn maj4(a: &Lanes, b: &Lanes, c: &Lanes) -> (r: Lanes)
    ensures
        forall|l: int| 0 <= l < 4 ==> r@[l] == maj(a@[l], b@[l], c@[l]),
{
    [
        (a[0] & b[0]) ^ (a[0] & c[0]) ^ (b[0] & c[0]),
        (a[1] & b[1]) ^ (a[1] & c[1]) ^ (b[1] & c[1]),
        (a[2] & b[2]) ^ (a[2] & c[2]) ^ (b[2] & c[2]),
        (a[3] & b[3]) ^ (a[3] & c[3]) ^ (b[3] & c[3]),
    ]
}

/// Loads word `word_idx` of the block at `off` from each of the four messages.
fn load_msg_word(blocks: &[&[u8]; 4], off: usize, word_idx: usize) -> (r: Lanes)
    requires
        word_idx < 16,
        forall|l: int| 0 <= l < 4 ==> off + 64 <= (#[trigger] blocks@[l])@.len(),
    ensures
        forall|l: int|
            0 <= l < 4 ==> #[trigger] r@[l] == be_words(blocks@[l]@, off as int, 16)[word_idx as int],
{
    let n: usize = blocks[0].len();
    assert(off + 64 <= n);
    let at: usize = off + 4 * word_idx;
    assert(off + 64 <= blocks@[1]@.len());
    assert(off + 64 <= blocks@[2]@.len());
    assert(off + 64 <= blocks@[3]@.len());
    [
        read_be_word(blocks[0], at),
        read_be_word(blocks[1], at),
        read_be_word(blocks[2], at),
        read_be_word(blocks[3], at),
    ]
}

/// The four message schedules of the blocks at `off`.
fn message_schedule4(blocks: &[&[u8]; 4], off: usize) -> (w: [Lanes; 64])
    requires
        forall|l: int| 0 <= l < 4 ==> off + 64 <= (#[trigger] blocks@[l])@.len(),
    ensures
        forall|t: int, l: int|
            #![trigger w@[t]@[l]]
            0 <= t < 64 && 0 <= l < 4 ==> w@[t]@[l] == schedule_word(
                be_words(blocks@[l]@, off as int, 16),
                t as nat,
            ),
{
    let mut w: [Lanes; 64] = [[0u32; 4]; 64];
    for t in 0..16usize
        invariant
            forall|l: int| 0 <= l < 4 ==> off + 64 <= (#[trigger] blocks@[l])@.len(),
            forall|j: int, l: int|
                #![trigger w@[j]@[l]]
                0 <= j < t && 0 <= l < 4 ==> w@[j]@[l] == schedule_word(
                    be_words(blocks@[l]@, off as int, 16),
                    j as nat,
                ),
    {
        w[t] = load_msg_word(blocks, off, t);
    }
    for t in 16..64usize
        invariant
            forall|j: int, l: int|
                #![trigger w@[j]@[l]]
                0 <= j < t && 0 <= l < 4 ==> w@[j]@[l] == schedule_word(
                    be_words(blocks@[l]@, off as int, 16),
                    j as nat,
                ),
    {
        let x: Lanes = w[t - 2];
        let y: Lanes = w[t - 15];
        let s1: Lanes = xor4(&rotr4(&x, 17), &rotr4(&x, 19), &shr4(&x, 10));
        let s0: Lanes = xor4(&rotr4(&y, 7), &rotr4(&y, 18), &shr4(&y, 3));
        let lhs: Lanes = add4(&s1, &w[t - 7]);
        let rhs: Lanes = add4(&s0, &w[t - 16]);
        w[t] = add4(&lhs, &rhs);
    }
    w
}

/// Compresses the block at `off` of each message into its lane of `state`.
fn compress4(state: &mut [Lanes; 8], blocks: &[&[u8]; 4], off: usize)
    requires
        forall|l: int| 0 <= l < 4 ==> off + 64 <= (#[trigger] blocks@[l])@.len(),
    ensures
        forall|l: int|
            0 <= l < 4 ==> #[trigger] lane_words(*final(state), l) == compress(
                lane_words(*old(state), l),
                be_words(blocks@[l]@, off as int, 16),
            ),
{
    let w = message_schedule4(blocks, off);
    let saved: [Lanes; 8] = *state;
    let mut s: [Lanes; 8] = *state;
    for t in 0..64usize
        invariant
            saved == *old(state),
            forall|j: int, l: int|
                #![trigger w@[j]@[l]]
                0 <= j < 64 && 0 <= l < 4 ==> w@[j]@[l] == schedule_word(
                    be_words(blocks@[l]@, off as int, 16),
                    j as nat,
                ),
            forall|l: int|
                0 <= l < 4 ==> #[trigger] lane_words(s, l) == rounds(
                    lane_words(saved, l),
                    be_words(blocks@[l]@, off as int, 16),
                    t as nat,
                ),
    {
        let ki: Lanes = [K[t], K[t], K[t], K[t]];
        let e: Lanes = s[4];
        let a: Lanes = s[0];
        let b1: Lanes = xor4(&rotr4(&e, 6), &rotr4(&e, 11), &rotr4(&e, 25));
        let hb: Lanes = add4(&s[7], &b1);
        let ck: Lanes = add4(&ch4(&e, &s[5], &s[6]), &ki);
        let t1: Lanes = add4(&add4(&hb, &ck), &w[t]);
        let b0: Lanes = xor4(&rotr4(&a, 2), &rotr4(&a, 13), &rotr4(&a, 22));
        let t2: Lanes = add4(&b0, &maj4(&a, &s[1], &s[2]));
        let next: [Lanes; 8] = [add4(&t1, &t2), a, s[1], s[2], add4(&s[3], &t1), e, s[5], s[6]];
        proof {
            assert forall|l: int| 0 <= l < 4 implies #[trigger] lane_words(next, l) == rounds(
                lane_words(saved, l),
                be_words(blocks@[l]@, off as int, 16),
                (t + 1) as nat,
            ) by {
                let before = lane_words(s, l);
                assert(w@[t as int]@[l] == schedule_word(
                    be_words(blocks@[l]@, off as int, 16),
                    t as nat,
                ));
                assert(lane_words(next, l) =~= round(before, K@[t as int], w@[t as int]@[l]));
            }
        }
        s = next;
    }
    let next: [Lanes; 8] = [
        add4(&s[0], &saved[0]),
        add4(&s[1], &saved[1]),
        add4(&s[2], &saved[2]),
        add4(&s[3], &saved[3]),
        add4(&s[4], &saved[4]),
        add4(&s[5], &saved[5]),
        add4(&s[6], &saved[6]),
        add4(&s[7], &saved[7]),
    ];
    proof {
        assert forall|l: int| 0 <= l < 4 implies #[trigger] lane_words(next, l) == compress(
            lane_words(saved, l),
            be_words(blocks@[l]@, off as int, 16),
        ) by {
            let r = lane_words(s, l);
            let h = lane_words(saved, l);
            assert forall|i: int| 0 <= i < 8 implies lane_words(next, l)[i] == r[i].wrapping_add(
                h[i],
            ) by {}
            assert(lane_words(next, l) =~= compress(h, be_words(blocks@[l]@, off as int, 16)));
        }
    }
    *state = next;
}

/// The bytes behind the last full block, with the padding of a whole message
/// of length `msg.len()`.
pub open spec fn tail(msg: Seq<u8>) -> Seq<u8> {
    pad(msg).skip(64 * (msg.len() / 64) as int)
}

/// Builds the padded tail of one message.
fn padded_tail(msg: &[u8]) -> (t: Vec<u8>)
    requires
        msg@.len() <= MAX_MESSAGE_LEN,
    ensures
        t@ == tail(msg@),
{
    let len: usize = msg.len();
    let rem: usize = len % 64;
    let mut t: Vec<u8> = Vec::new();
    for i in 0..rem
        invariant
            rem == len % 64,
            len == msg@.len(),
            t@ == msg@.subrange(len - rem, len - rem + i),
    {
        t.push(msg[len - rem + i]);
        assert(msg@.subrange(len - rem, len - rem + i + 1) == msg@.subrange(
            len - rem,
            len - rem + i,
        ).push(msg@[len - rem + i]));
    }
    t.push(0x80);
    let zeros: usize = (119 - rem) % 64;
    for i in 0..zeros
        invariant
            t@ == msg@.subrange(len - rem, len as int).push(0x80) + Seq::new(
                i as nat,
                |j: int| 0u8,
            ),
    {
        t.push(0);
    }
    let bits = u64_be(len as u64 * 8);
    append_bytes(&mut t, bits.as_slice());
    proof {
        assert(t@ =~= tail(msg@));
    }
    t
}

/// Hashes four messages of one length, a lane each.
pub fn hash4_equal_len(inputs: [&[u8]; 4], out: &mut [[u8; 32]])
    requires
        old(out)@.len() >= 4,
        inputs@[0]@.len() <= MAX_MESSAGE_LEN,
        forall|l: int| 0 <= l < 4 ==> (#[trigger] inputs@[l])@.len() == inputs@[0]@.len(),
    ensures
        final(out)@.len() == old(out)@.len(),
        forall|l: int| 0 <= l < 4 ==> (#[trigger] final(out)@[l])@ == sha256(inputs@[l]@),
        forall|l: int| 4 <= l < old(out)@.len() ==> final(out)@[l] == old(out)@[l],
{
    let len: usize = inputs[0].len();
    let mut state: [Lanes; 8] = [
        [SHA256_IV[0]; 4],
        [SHA256_IV[1]; 4],
        [SHA256_IV[2]; 4],
        [SHA256_IV[3]; 4],
        [SHA256_IV[4]; 4],
        [SHA256_IV[5]; 4],
        [SHA256_IV[6]; 4],
        [SHA256_IV[7]; 4],
    ];
    let n_full: usize = len / 64;
    proof {
        assert forall|l: int| 0 <= l < 4 implies #[trigger] lane_words(state, l) == chain_value(
            pad(inputs@[l]@),
            0,
        ) by {
            assert(lane_words(state, l) =~= SHA256_IV@);
        }
    }
    for blk in 0..n_full
        invariant
            n_full == len / 64,
            forall|l: int| 0 <= l < 4 ==> (#[trigger] inputs@[l])@.len() == len,
            forall|l: int|
                0 <= l < 4 ==> #[trigger] lane_words(state, l) == chain_value(
                    pad(inputs@[l]@),
                    blk as nat,
                ),
    {
        let ghost before = state;
        compress4(&mut state, &inputs, 64 * blk);
        proof {
            assert forall|l: int| 0 <= l < 4 implies #[trigger] lane_words(state, l) == chain_value(
                pad(inputs@[l]@),
                (blk + 1) as nat,
            ) by {
                let _ = lane_words(before, l);
                assert(be_words(inputs@[l]@, 64 * blk as int, 16) =~= block_words(
                    pad(inputs@[l]@),
                    blk as int,
                ));
            }
        }
    }
    let t0 = padded_tail(inputs[0]);
    let t1 = padded_tail(inputs[1]);
    let t2 = padded_tail(inputs[2]);
    let t3 = padded_tail(inputs[3]);
    let tails: [&[u8]; 4] = [t0.as_slice(), t1.as_slice(), t2.as_slice(), t3.as_slice()];
    let n_tail: usize = if len % 64 < 56 { 1 } else { 2 };
    proof {
        lemma_pad_len(inputs@[0]@);
        assert(n_full + n_tail == block_count(len as nat));
        assert forall|l: int| 0 <= l < 4 implies (#[trigger] tails@[l])@ == tail(inputs@[l]@)
            && tails@[l]@.len() == 64 * n_tail by {
            lemma_pad_len(inputs@[l]@);
        }
    }
    for blk in 0..n_tail
        invariant
            n_full == len / 64,
            1 <= n_tail <= 2,
            forall|l: int| 0 <= l < 4 ==> (#[trigger] inputs@[l])@.len() == len,
            forall|l: int|
                0 <= l < 4 ==> (#[trigger] tails@[l])@ == tail(inputs@[l]@) && tails@[l]@.len()
                    == 64 * n_tail,
            forall|l: int|
                0 <= l < 4 ==> #[trigger] lane_words(state, l) == chain_value(
                    pad(inputs@[l]@),
                    (n_full + blk) as nat,
                ),
    {
        let ghost before = state;
        compress4(&mut state, &tails, 64 * blk);
        proof {
            assert forall|l: int| 0 <= l < 4 implies #[trigger] lane_words(state, l) == chain_value(
                pad(inputs@[l]@),
                (n_full + blk + 1) as nat,
            ) by {
                let _ = lane_words(before, l);
                let _ = tails@[l];
                assert(be_words(tails@[l]@, 64 * blk as int, 16) =~= block_words(
                    pad(inputs@[l]@),
                    n_full + blk,
                ));
            }
        }
    }
    for l in 0..4usize
        invariant
            out@.len() == old(out)@.len(),
            out@.len() >= 4,
            forall|k: int|
                0 <= k < 4 ==> #[trigger] lane_words(state, k) == chain_value(
                    pad(inputs@[k]@),
                    block_count(inputs@[k]@.len()),
                ),
            forall|k: int| 0 <= k < l ==> (#[trigger] out@[k])@ == sha256(inputs@[k]@),
            forall|k: int| 4 <= k < old(out)@.len() ==> out@[k] == old(out)@[k],
    {
        reveal(sha256);
        let w = extract_lane(&state, l);
        out[l] = words_digest(&w);
    }
}

/// The eight words of lane `l`.
fn extract_lane(state: &[Lanes; 8], l: usize) -> (w: [u32; 8])
    requires
        l < 4,
    ensures
        w@ == lane_words(*state, l as int),
{
    let w = [
        state[0][l],
        state[1][l],
        state[2][l],
        state[3][l],
        state[4][l],
        state[5][l],
        state[6][l],
        state[7][l],
    ];
    assert(w@ =~= lane_words(*state, l as int));
    w
}

/// Hashes four messages of one length.
pub fn hash4(inputs: [&[u8]; 4], out: &mut [[u8; 32]])
    requires
        old(out)@.len() >= 4,
        inputs@[0]@.len() <= MAX_MESSAGE_LEN,
        forall|l: int| 0 <= l < 4 ==> (#[trigger] inputs@[l])@.len() == inputs@[0]@.len(),
    ensures
        final(out)@.len() == old(out)@.len(),
        forall|l: int| 0 <= l < 4 ==> (#[trigger] final(out)@[l])@ == sha256(inputs@[l]@),
        forall|l: int| 4 <= l < old(out)@.len() ==> final(out)@[l] == old(out)@[l],
{
    hash4_equal_len(inputs, out)
}

} // verus!
