//! SHA-256: the compression function, padding and the
//! Merkle-Damgard chain.

use vstd::prelude::*;

use crate::bytes::{be64, be_word, be_words, law_word_bytes, words_be};

verus! {

/// One call of the compression function: the chaining value and the message
/// block, as words.
pub type Compression = ([u32; 8], [u32; 16]);

/// The largest message length, in bytes, whose bit length fits in 64 bits.
pub const MAX_MESSAGE_LEN: u64 = 0x1fff_ffff_ffff_ffff;

pub const SHA256_IV: [u32; 8] = [
    0x6a09e667,
    0xbb67ae85,
    0x3c6ef372,
    0xa54ff53a,
    0x510e527f,
    0x9b05688c,
    0x1f83d9ab,
    0x5be0cd19,
];

pub const K: [u32; 64] = [
    0x428a2f98, 0x71374491, 0xb5c0fbcf, 0xe9b5dba5, 0x3956c25b, 0x59f111f1, 0x923f82a4, 0xab1c5ed5,
    0xd807aa98, 0x12835b01, 0x243185be, 0x550c7dc3, 0x72be5d74, 0x80deb1fe, 0x9bdc06a7, 0xc19bf174,
    0xe49b69c1, 0xefbe4786, 0x0fc19dc6, 0x240ca1cc, 0x2de92c6f, 0x4a7484aa, 0x5cb0a9dc, 0x76f988da,
    0x983e5152, 0xa831c66d, 0xb00327c8, 0xbf597fc7, 0xc6e00bf3, 0xd5a79147, 0x06ca6351, 0x14292967,
    0x27b70a85, 0x2e1b2138, 0x4d2c6dfc, 0x53380d13, 0x650a7354, 0x766a0abb, 0x81c2c92e, 0x92722c85,
    0xa2bfe8a1, 0xa81a664b, 0xc24b8b70, 0xc76c51a3, 0xd192e819, 0xd6990624, 0xf40e3585, 0x106aa070,
    0x19a4c116, 0x1e376c08, 0x2748774c, 0x34b0bcb5, 0x391c0cb3, 0x4ed8aa4a, 0x5b9cca4f, 0x682e6ff3,
    0x748f82ee, 0x78a5636f, 0x84c87814, 0x8cc70208, 0x90befffa, 0xa4506ceb, 0xbef9a3f7, 0xc67178f2,
];

pub open spec fn rotr(x: u32, n: u32) -> u32 {
    (x >> n) | (x << ((32 - n) as u32))
}

pub open spec fn ch(e: u32, f: u32, g: u32) -> u32 {
    (e & f) ^ (!e & g)
}

pub open spec fn maj(a: u32, b: u32, c: u32) -> u32 {
    (a & b) ^ (a & c) ^ (b & c)
}

pub open spec fn bsig0(x: u32) -> u32 {
    rotr(x, 2) ^ rotr(x, 13) ^ rotr(x, 22)
}

pub open spec fn bsig1(x: u32) -> u32 {
    rotr(x, 6) ^ rotr(x, 11) ^ rotr(x, 25)
}

pub open spec fn ssig0(x: u32) -> u32 {
    rotr(x, 7) ^ rotr(x, 18) ^ (x >> 3)
}

pub open spec fn ssig1(x: u32) -> u32 {
    rotr(x, 17) ^ rotr(x, 19) ^ (x >> 10)
}

/// Word `t` of the message schedule of block `m`.
pub open spec fn schedule_word(m: Seq<u32>, t: nat) -> u32
    decreases t,
{
    if t < 16 {
        m[t as int]
    } else {
        ssig1(schedule_word(m, (t - 2) as nat)).wrapping_add(
            schedule_word(m, (t - 7) as nat),
        ).wrapping_add(
            ssig0(schedule_word(m, (t - 15) as nat)).wrapping_add(
                schedule_word(m, (t - 16) as nat),
            ),
        )
    }
}

/// One round on the working variables `a..h`.
pub open spec fn round(s: Seq<u32>, k: u32, w: u32) -> Seq<u32> {
    let t1 = s[7].wrapping_add(bsig1(s[4])).wrapping_add(ch(s[4], s[5], s[6]).wrapping_add(k)).wrapping_add(w);
    let t2 = bsig0(s[0]).wrapping_add(maj(s[0], s[1], s[2]));
    seq![t1.wrapping_add(t2), s[0], s[1], s[2], s[3].wrapping_add(t1), s[4], s[5], s[6]]
}

/// The working variables after `t` rounds.
pub open spec fn rounds(h: Seq<u32>, m: Seq<u32>, t: nat) -> Seq<u32>
    decreases t,
{
    if t == 0 {
        h
    } else {
        round(rounds(h, m, (t - 1) as nat), K@[t - 1], schedule_word(m, (t - 1) as nat))
    }
}

/// The compression function.
pub open spec fn compress(h: Seq<u32>, m: Seq<u32>) -> Seq<u32> {
    Seq::new(8, |i: int| rounds(h, m, 64)[i].wrapping_add(h[i]))
}

/// The 16 words of the 64-byte block number `b` of `data`.
pub open spec fn block_words(data: Seq<u8>, b: int) -> Seq<u32> {
    be_words(data, 64 * b, 16)
}

/// How many zero bytes stand between the `0x80` byte and the length field.
pub open spec fn pad_zeros(len: nat) -> nat {
    ((119 - len % 64) % 64) as nat
}

/// The padded message: `0x80`, zeros up to 56 modulo 64, then the bit length
/// as a big-endian double word.
pub open spec fn pad(msg: Seq<u8>) -> Seq<u8> {
    msg + seq![0x80u8] + Seq::new(pad_zeros(msg.len()), |i: int| 0u8) + be64(
        (msg.len() * 8) as u64,
    )
}

/// The chaining value after the first `n` blocks of `data`, from `SHA256_IV`.
pub open spec fn chain_value(data: Seq<u8>, n: nat) -> Seq<u32>
    decreases n,
{
    if n == 0 {
        SHA256_IV@
    } else {
        compress(chain_value(data, (n - 1) as nat), block_words(data, n - 1))
    }
}

/// How many blocks the padded form of a `len`-byte message has.
pub open spec fn block_count(len: nat) -> nat {
    (len + 9 + 63) / 64
}

/// The digest of `msg` as eight words.
pub open spec fn sha256_words(msg: Seq<u8>) -> Seq<u32> {
    chain_value(pad(msg), block_count(msg.len()))
}

/// The digest of `msg` as 32 bytes.
#[verifier::opaque]
pub open spec fn sha256(msg: Seq<u8>) -> Seq<u8> {
    words_be(sha256_words(msg))
}

/// Padding fills whole blocks, and as few as possible.
pub proof fn lemma_pad_len(msg: Seq<u8>)
    ensures
        pad(msg).len() == 64 * block_count(msg.len()),
        pad(msg).len() % 64 == 0,
        msg.len() + 9 <= pad(msg).len() < msg.len() + 9 + 64,
{
}

/// Every chaining value has eight words.
pub proof fn lemma_chain_value_len(data: Seq<u8>, n: nat)
    ensures
        chain_value(data, n).len() == 8,
{
}

/// A digest has 32 bytes.
pub proof fn lemma_sha256_len(msg: Seq<u8>)
    ensures
        sha256(msg).len() == 32,
{
    reveal(sha256);
    lemma_chain_value_len(pad(msg), block_count(msg.len()));
}

fn rotate(x: u32, n: u32) -> (r: u32)
    requires
        0 < n < 32,
    ensures
        r == rotr(x, n),
{
    (x >> n) | (x << (32 - n))
}

/// Expands a block into the 64 words of its message schedule.
fn message_schedule(m: &[u32; 16]) -> (w: [u32; 64])
    ensures
        forall|t: int| 0 <= t < 64 ==> w@[t] == schedule_word(m@, t as nat),
{
    let mut w = [0u32; 64];
    for t in 0..16usize
        invariant
            forall|j: int| 0 <= j < t ==> w@[j] == schedule_word(m@, j as nat),
    {
        w[t] = m[t];
    }
    for t in 16..64usize
        invariant
            forall|j: int| 0 <= j < t ==> w@[j] == schedule_word(m@, j as nat),
    {
        let x: u32 = w[t - 2];
        let y: u32 = w[t - 15];
        let s1: u32 = rotate(x, 17) ^ rotate(x, 19) ^ (x >> 10);
        let s0: u32 = rotate(y, 7) ^ rotate(y, 18) ^ (y >> 3);
        w[t] = s1.wrapping_add(w[t - 7]).wrapping_add(s0.wrapping_add(w[t - 16]));
    }
    w
}

/// Applies the compression function to chaining value `h` and block `m`.
pub fn sha256_compress(h: &[u32; 8], m: &[u32; 16]) -> (r: [u32; 8])
    ensures
        r@ == compress(h@, m@),
{
    let w = message_schedule(m);
    let mut s: [u32; 8] = *h;
    for t in 0..64usize
        invariant
            s@ == rounds(h@, m@, t as nat),
            forall|j: int| 0 <= j < 64 ==> w@[j] == schedule_word(m@, j as nat),
    {
        let a: u32 = s[0];
        let e: u32 = s[4];
        let b1: u32 = rotate(e, 6) ^ rotate(e, 11) ^ rotate(e, 25);
        let c1: u32 = (e & s[5]) ^ (!e & s[6]);
        let t1: u32 = s[7].wrapping_add(b1).wrapping_add(c1.wrapping_add(K[t])).wrapping_add(w[t]);
        let b0: u32 = rotate(a, 2) ^ rotate(a, 13) ^ rotate(a, 22);
        let mj: u32 = (a & s[1]) ^ (a & s[2]) ^ (s[1] & s[2]);
        let t2: u32 = b0.wrapping_add(mj);
        let next: [u32; 8] = [
            t1.wrapping_add(t2),
            a,
            s[1],
            s[2],
            s[3].wrapping_add(t1),
            e,
            s[5],
            s[6],
        ];
        assert(next@ == round(s@, K@[t as int], w@[t as int]));
        s = next;
    }
    let mut r = [0u32; 8];
    for i in 0..8usize
        invariant
            s@ == rounds(h@, m@, 64),
            forall|j: int| 0 <= j < i ==> r@[j] == s@[j].wrapping_add(h@[j]),
    {
        r[i] = s[i].wrapping_add(h[i]);
    }
    assert(r@ =~= compress(h@, m@));
    r
}

/// A padded message is the message, one byte 0x80, zeros, and the length of
/// the message in bits, most significant byte first; it is the shortest such
/// that fills whole blocks.
#[verifier::rlimit(40)]
pub proof fn law_pad_layout(msg: Seq<u8>)
    requires
        8 * msg.len() <= u64::MAX,
    ensures
        ({
            let (n, p) = (msg.len() as int, pad(msg));
            let m = p.len() as int;
            &&& m % 64 == 0
            &&& n + 9 <= m < n + 73
            &&& forall|i: int| 0 <= i < n ==> p[i] == msg[i]
            &&& p[n] == 0x80
            &&& forall|i: int| n < i < m - 8 ==> p[i] == 0
            &&& forall|j: int|
                0 <= j < 8 ==> #[trigger] p[m - 8 + j] == (((8 * n) as u64) >> ((56 - 8
                    * j) as u64)) as u8
        }),
        pad(msg).len() == 64 * block_count(msg.len()),
{
    let (n, p) = (msg.len() as int, pad(msg));
    let m = p.len() as int;
    let w = (8 * n) as u64;
    assert(w == (msg.len() * 8) as u64);
    assert(be64(w).len() == 8);
    assert(n % 64 + (119 - n % 64) % 64 == 55 || n % 64 + (119 - n % 64) % 64 == 119);
    assert forall|j: int| 0 <= j < 8 implies #[trigger] p[m - 8 + j] == (w >> ((56 - 8
        * j) as u64)) as u8 by {
        assert((w >> 0u64) == w) by (bit_vector);
        assert(p[m - 8 + j] == be64(w)[j]);
        assert(j == 0 || j == 1 || j == 2 || j == 3 || j == 4 || j == 5 || j == 6 || j == 7);
    }
}

/// Bit `i` of a word rotated to the right by `n` is bit `i + n` of the word.
pub proof fn law_rotr_bit(x: u32, n: u32, i: u32)
    requires
        0 < n < 32,
        i < 32,
    ensures
        (rotr(x, n) >> i) & 1 == (x >> (((i + n) % 32) as u32)) & 1,
{
    assert((((x >> n) | (x << ((32 - n) as u32))) >> i) & 1 == (x >> (((i + n) % 32) as u32)) & 1)
        by (bit_vector)
        requires
            0 < n < 32,
            i < 32,
    ;
}

/// Bit by bit, `ch` chooses by its first word and `maj` takes the majority.
pub proof fn law_ch_maj_bit(a: u32, b: u32, c: u32, i: u32)
    requires
        i < 32,
    ensures
        (ch(a, b, c) >> i) & 1 == if (a >> i) & 1 == 1 {
            (b >> i) & 1
        } else {
            (c >> i) & 1
        },
        (maj(a, b, c) >> i) & 1 == 1 <==> ((a >> i) & 1) + ((b >> i) & 1) + ((c >> i) & 1) >= 2,
{
    assert((((a & b) ^ (!a & c)) >> i) & 1 == if (a >> i) & 1 == 1 {
        (b >> i) & 1
    } else {
        (c >> i) & 1
    }) by (bit_vector)
        requires
            i < 32,
    ;
    assert((((a & b) ^ (a & c) ^ (b & c)) >> i) & 1 == 1 <==> ((a >> i) & 1) + ((b >> i) & 1) + ((c
        >> i) & 1) >= 2) by (bit_vector)
        requires
            i < 32,
    ;
}

/// The words that a block expands to: its own sixteen, and then each the sum
/// of four earlier ones, two of them mixed, modulo 2^32.
pub proof fn law_schedule_word(m: Seq<u32>, t: nat)
    requires
        m.len() == 16,
    ensures
        t < 16 ==> schedule_word(m, t) == m[t as int],
        t >= 16 ==> {
            let a = schedule_word(m, (t - 2) as nat);
            let b = schedule_word(m, (t - 15) as nat);
            schedule_word(m, t) as int == ((rotr(a, 17) ^ rotr(a, 19) ^ (a >> 10)) + schedule_word(
                m,
                (t - 7) as nat,
            ) + (rotr(b, 7) ^ rotr(b, 18) ^ (b >> 3)) + schedule_word(m, (t - 16) as nat))
                % 0x1_0000_0000
        },
{
}

/// The registers before the first round are the chaining value. A round makes
/// two of them anew, modulo 2^32, and moves the six others on.
#[verifier::rlimit(40)]
pub proof fn law_round_registers(h: Seq<u32>, m: Seq<u32>, t: nat)
    requires
        h.len() == 8,
        t < 64,
    ensures
        rounds(h, m, 0) == h,
        rounds(h, m, t + 1).len() == 8,
        ({
            let (s, n) = (rounds(h, m, t), rounds(h, m, t + 1));
            let t1 = s[7] + (rotr(s[4], 6) ^ rotr(s[4], 11) ^ rotr(s[4], 25)) + ch(
                s[4],
                s[5],
                s[6],
            ) + K@[t as int] + schedule_word(m, t);
            let t2 = (rotr(s[0], 2) ^ rotr(s[0], 13) ^ rotr(s[0], 22)) + maj(s[0], s[1], s[2]);
            &&& n[0] as int == (t1 + t2) % 0x1_0000_0000
            &&& n[1] == s[0] && n[2] == s[1] && n[3] == s[2]
            &&& n[4] as int == (s[3] + t1) % 0x1_0000_0000
            &&& n[5] == s[4] && n[6] == s[5] && n[7] == s[6]
        }),
{
    let s = rounds(h, m, t);
    let (k, w) = (K@[t as int], schedule_word(m, t));
    assert(rounds(h, m, t + 1) == round(s, k, w));
    let (p, c) = (bsig1(s[4]), ch(s[4], s[5], s[6]));
    let t1 = s[7].wrapping_add(p).wrapping_add(c.wrapping_add(k)).wrapping_add(w);
    let t2 = bsig0(s[0]).wrapping_add(maj(s[0], s[1], s[2]));
    lemma_five_summands(s[7], p, c, k, w);
    lemma_add_congruent(t1, t2, s[7] + p + c + k + w, bsig0(s[0]) + maj(s[0], s[1], s[2]));
    lemma_add_congruent(s[3], t1, s[3] as int, s[7] + p + c + k + w);
}

/// A compression adds the registers after 64 rounds to the chaining value,
/// each modulo 2^32.
pub proof fn law_compress_adds_registers(h: Seq<u32>, m: Seq<u32>, i: int)
    requires
        h.len() == 8,
        0 <= i < 8,
    ensures
        compress(h, m).len() == 8,
        compress(h, m)[i] as int == (rounds(h, m, 64)[i] + h[i]) % 0x1_0000_0000,
{
}

/// The chain starts from the initial value, and compresses block after block
/// of the data onto it.
pub proof fn law_chain_value_steps(data: Seq<u8>, n: nat)
    ensures
        chain_value(data, 0) == SHA256_IV@,
        chain_value(data, n + 1) == compress(
            chain_value(data, n),
            Seq::new(16, |i: int| be_word(data, 64 * n + 4 * i)),
        ),
{
    assert(block_words(data, n as int) =~= Seq::new(16, |i: int| be_word(data, 64 * n + 4 * i)));
    assert(chain_value(data, n + 1) == compress(
        chain_value(data, n),
        block_words(data, n as int),
    ));
}

/// The digest spells the chaining value after the last block of the padded
/// message, each word most significant byte first.
pub proof fn law_sha256_is_last_value(msg: Seq<u8>, i: int, j: int)
    requires
        8 * msg.len() <= u64::MAX,
        0 <= i < 8,
        0 <= j < 4,
    ensures
        sha256(msg).len() == 32,
        sha256(msg)[4 * i + j] == (chain_value(pad(msg), pad(msg).len() / 64)[i] >> ((24 - 8
            * j) as u32)) as u8,
{
    reveal(sha256);
    law_pad_layout(msg);
    let n = block_count(msg.len());
    assert(n > 0);
    assert(chain_value(pad(msg), n).len() == 8);
    law_word_bytes(chain_value(pad(msg), n), i, j);
}

proof fn lemma_five_summands(a: u32, b: u32, c: u32, d: u32, e: u32)
    ensures
        a.wrapping_add(b).wrapping_add(c.wrapping_add(d)).wrapping_add(e) as int == (a + b + c + d
            + e) % 0x1_0000_0000,
{
}

proof fn lemma_add_congruent(x: u32, y: u32, p: int, q: int)
    requires
        x as int == p % 0x1_0000_0000,
        y as int == q % 0x1_0000_0000,
    ensures
        x.wrapping_add(y) as int == (p + q) % 0x1_0000_0000,
{
    let (a, b) = (p / 0x1_0000_0000, q / 0x1_0000_0000);
    assert(p + q == x + y + 0x1_0000_0000 * (a + b));
}

} // verus!
