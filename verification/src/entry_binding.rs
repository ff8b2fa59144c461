//! Binding a path to a key and a value: the child that a key routes to in a
//! node, and the digest of a leaf.

use vstd::arithmetic::power2::{lemma2_to64, lemma_pow2_pos, lemma_pow2_unfold, pow2};
use vstd::prelude::*;

use crate::bytes::{append_bytes, append_u64_le, be_word64, le64, read_be_word64};
use crate::mhot_to_sha256::sha256_bytes;
use crate::sha256::{sha256, MAX_MESSAGE_LEN};

verus! {

/// A key and the value that a path is to prove a member.
#[derive(Clone, Debug)]
pub struct PathEntry {
    pub key: [u8; 32],
    pub value: Vec<u8>,
}

/// Bit `i` of `w`.
pub open spec fn word_bit(w: u64, i: int) -> bool {
    (w >> (i as u64)) & 1 == 1
}

/// The bits of `word` that `mask` selects among its lowest `n`, the lowest
/// first.
pub open spec fn extract_bits(word: u64, mask: u64, n: nat) -> Seq<bool>
    decreases n,
{
    if n == 0 {
        Seq::empty()
    } else {
        let low = extract_bits(word, mask, (n - 1) as nat);
        if word_bit(mask, n - 1) {
            low.push(word_bit(word, n - 1))
        } else {
            low
        }
    }
}

/// The bits of `key` that the first `n` masks select, one chunk after another.
pub open spec fn extract_chunks(key: Seq<u8>, masks: Seq<u64>, n: nat) -> Seq<bool>
    decreases n,
{
    if n == 0 {
        Seq::empty()
    } else {
        extract_chunks(key, masks, (n - 1) as nat) + extract_bits(
            be_word64(key, 8 * (n - 1)),
            masks[n - 1],
            64,
        )
    }
}

/// The bits of `key` that tell the children of a node apart.
pub open spec fn discriminative_bits(key: Seq<u8>, masks: Seq<u64>) -> Seq<bool> {
    extract_chunks(key, masks, 4)
}

/// The number that `bits` write, the lowest first.
pub open spec fn bits_value(bits: Seq<bool>) -> nat
    decreases bits.len(),
{
    if bits.len() == 0 {
        0
    } else {
        bits_value(bits.drop_last()) + if bits.last() {
            pow2((bits.len() - 1) as nat)
        } else {
            0
        }
    }
}

/// How many bits `masks` select.
pub open spec fn mask_width(masks: Seq<u64>) -> nat {
    discriminative_bits(Seq::new(32, |i: int| 0u8), masks).len()
}

proof fn lemma_extract_len(a: u64, b: u64, mask: u64, n: nat)
    ensures
        extract_bits(a, mask, n).len() == extract_bits(b, mask, n).len(),
        extract_bits(a, mask, n).len() <= n,
    decreases n,
{
    if n > 0 {
        lemma_extract_len(a, b, mask, (n - 1) as nat);
    }
}

/// The number of selected bits is the width of the masks, whatever the key.
pub proof fn lemma_mask_width(key: Seq<u8>, masks: Seq<u64>)
    ensures
        discriminative_bits(key, masks).len() == mask_width(masks),
        mask_width(masks) <= 256,
{
    let zero = Seq::new(32, |i: int| 0u8);
    reveal_with_fuel(extract_chunks, 5);
    lemma_extract_len(be_word64(key, 0), be_word64(zero, 0), masks[0], 64);
    lemma_extract_len(be_word64(key, 8), be_word64(zero, 8), masks[1], 64);
    lemma_extract_len(be_word64(key, 16), be_word64(zero, 16), masks[2], 64);
    lemma_extract_len(be_word64(key, 24), be_word64(zero, 24), masks[3], 64);
}

/// `n` bits write a number below `2^n`.
pub proof fn lemma_bits_value_bound(bits: Seq<bool>)
    ensures
        bits_value(bits) < pow2(bits.len()),
    decreases bits.len(),
{
    if bits.len() == 0 {
        lemma2_to64();
    } else {
        lemma_bits_value_bound(bits.drop_last());
        lemma_pow2_unfold(bits.len());
    }
}

/// Masks of at most 32 bits select a number that fits a word.
pub proof fn lemma_dense_key_fits(key: Seq<u8>, masks: Seq<u64>)
    requires
        mask_width(masks) <= 32,
    ensures
        bits_value(discriminative_bits(key, masks)) <= u32::MAX,
{
    lemma_mask_width(key, masks);
    lemma_bits_value_bound(discriminative_bits(key, masks));
    lemma2_to64();
    crate::math::lemma_pow2_mono(discriminative_bits(key, masks).len(), 32);
}

/// Counts the bits that `masks` select.
pub fn count_mask_bits(masks: &[u64; 4]) -> (n: usize)
    ensures
        n == mask_width(masks@),
{
    let ghost zero = Seq::new(32, |i: int| 0u8);
    let mut n: usize = 0;
    for c in 0..4usize
        invariant
            n == extract_chunks(zero, masks@, c as nat).len(),
            n <= 64 * c,
    {
        let mask: u64 = masks[c];
        let ghost before = n;
        let ghost word = be_word64(zero, 8 * c as int);
        for b in 0..64u64
            invariant
                n == before + extract_bits(word, mask, b as nat).len(),
                n <= before + b,
                before <= 64 * c,
                c < 4,
        {
            if (mask >> b) & 1 == 1 {
                n = n + 1;
            }
        }
    }
    n
}

proof fn lemma_or_is_add(dense: u32, p: u32)
    requires
        p < 32,
        dense < pow2(p as nat),
    ensures
        (dense | (1u32 << p)) == dense + pow2(p as nat),
        1u32 << p == pow2(p as nat),
{
    lemma2_to64();
    crate::math::lemma_pow2_mono(p as nat, 31);
    vstd::bits::lemma_u32_shl_is_mul(1u32, p);
    let bit = 1u32 << p;
    assert(dense < bit ==> (dense | bit) == dense + bit) by (bit_vector)
        requires
            bit == 1u32 << p,
            p < 32,
    ;
}

/// A prefix of the bits writes no more than all of them.
proof fn lemma_bits_value_prefix(a: Seq<bool>, b: Seq<bool>)
    ensures
        bits_value(a) <= bits_value(a + b),
    decreases b.len(),
{
    if b.len() == 0 {
        assert(a + b =~= a);
    } else {
        lemma_bits_value_prefix(a, b.drop_last());
        assert((a + b).drop_last() =~= a + b.drop_last());
        lemma_pow2_pos((a.len() + b.len() - 1) as nat);
    }
}

proof fn lemma_extract_prefix(word: u64, mask: u64, m: nat, n: nat)
    requires
        m <= n,
    ensures
        exists|t: Seq<bool>| extract_bits(word, mask, n) == extract_bits(word, mask, m) + t,
    decreases n,
{
    if m < n {
        lemma_extract_prefix(word, mask, m, (n - 1) as nat);
        let t = choose|t: Seq<bool>|
            extract_bits(word, mask, (n - 1) as nat) == extract_bits(word, mask, m) + t;
        let low = extract_bits(word, mask, m);
        if word_bit(mask, n - 1) {
            let u = t.push(word_bit(word, n - 1));
            assert(extract_bits(word, mask, n) =~= low + u);
        } else {
            assert(extract_bits(word, mask, n) =~= low + t);
        }
    } else {
        let t = Seq::<bool>::empty();
        assert(extract_bits(word, mask, n) =~= extract_bits(word, mask, m) + t);
    }
}

/// What is selected up to bit `b` of chunk `c` writes no more than the whole.
proof fn lemma_partial_value(key: Seq<u8>, masks: Seq<u64>, c: nat, b: nat)
    requires
        c < 4,
        b <= 64,
    ensures
        bits_value(
            extract_chunks(key, masks, c) + extract_bits(
                be_word64(key, 8 * c as int),
                masks[c as int],
                b,
            ),
        ) <= bits_value(discriminative_bits(key, masks)),
{
    let word = be_word64(key, 8 * c as int);
    let done = extract_chunks(key, masks, c);
    lemma_extract_prefix(word, masks[c as int], b, 64);
    let t = choose|t: Seq<bool>|
        extract_bits(word, masks[c as int], 64) == extract_bits(word, masks[c as int], b) + t;
    lemma_bits_value_prefix(done + extract_bits(word, masks[c as int], b), t);
    assert(done + extract_bits(word, masks[c as int], b) + t =~= extract_chunks(
        key,
        masks,
        c + 1,
    ));
    lemma_chunks_value_mono(key, masks, c + 1, 4);
}

proof fn lemma_chunks_value_mono(key: Seq<u8>, masks: Seq<u64>, m: nat, n: nat)
    requires
        m <= n,
    ensures
        bits_value(extract_chunks(key, masks, m)) <= bits_value(extract_chunks(key, masks, n)),
    decreases n,
{
    if m < n {
        lemma_chunks_value_mono(key, masks, m, (n - 1) as nat);
        lemma_bits_value_prefix(
            extract_chunks(key, masks, (n - 1) as nat),
            extract_bits(be_word64(key, 8 * (n - 1)), masks[n - 1], 64),
        );
    }
}

/// Extracts the discriminative bits of `key` as one number. The masks select
/// bits of the key's four big-endian chunks, the lowest bit of a chunk first.
pub fn compute_dense_key(key: &[u8; 32], extraction_masks: &[u64; 4]) -> (dense: u32)
    requires
        bits_value(discriminative_bits(key@, extraction_masks@)) <= u32::MAX,
    ensures
        dense == bits_value(discriminative_bits(key@, extraction_masks@)),
        forall|c: nat, b: nat|
            #![trigger selected_before(extraction_masks@, c, b)]
            c < 4 && b < 64 && (extraction_masks@[c as int] >> (b as u64)) & 1 == 1
                && selected_before(extraction_masks@, c, b) < 32 ==> ((dense >> (selected_before(
                extraction_masks@,
                c,
                b,
            ) as u32)) & 1 == 1 <==> (key@[8 * c + 7 - b as int / 8] >> ((b % 8) as u8)) & 1 == 1),
{
    let ghost masks = extraction_masks@;
    let mut dense: u32 = 0;
    let mut bit_pos: u32 = 0;
    for c in 0..4usize
        invariant
            masks == extraction_masks@,
            bits_value(discriminative_bits(key@, masks)) <= u32::MAX,
            dense == bits_value(extract_chunks(key@, masks, c as nat)),
            bit_pos == extract_chunks(key@, masks, c as nat).len(),
            bit_pos <= 64 * c,
    {
        let mask: u64 = extraction_masks[c];
        let word: u64 = read_be_word64(key.as_slice(), 8 * c);
        let ghost done = extract_chunks(key@, masks, c as nat);
        assert(done + extract_bits(word, mask, 0) =~= done);
        for b in 0..64u64
            invariant
                c < 4,
                masks == extraction_masks@,
                mask == masks[c as int],
                word == be_word64(key@, 8 * c as int),
                done == extract_chunks(key@, masks, c as nat),
                bits_value(discriminative_bits(key@, masks)) <= u32::MAX,
                dense == bits_value(done + extract_bits(word, mask, b as nat)),
                bit_pos == (done + extract_bits(word, mask, b as nat)).len(),
                bit_pos <= 64 * c + b,
        {
            let ghost low = extract_bits(word, mask, b as nat);
            let ghost high = extract_bits(word, mask, (b + 1) as nat);
            proof {
                lemma_partial_value(key@, masks, c as nat, (b + 1) as nat);
                lemma_bits_value_bound(done + low);
            }
            if (mask >> b) & 1 == 1 {
                proof {
                    assert((done + high).drop_last() =~= done + low);
                    assert((done + high).last() == word_bit(word, b as int));
                }
                if (word >> b) & 1 == 1 {
                    proof {
                        if bit_pos >= 32 {
                            lemma2_to64();
                            crate::math::lemma_pow2_mono(32, bit_pos as nat);
                        }
                        lemma_or_is_add(dense, bit_pos);
                    }
                    dense = dense | (1u32 << bit_pos);
                }
                bit_pos = bit_pos + 1;
            }
        }
    }
    proof {
        assert forall|c: nat, b: nat|
            #![trigger selected_before(masks, c, b)]
            c < 4 && b < 64 && (masks[c as int] >> (b as u64)) & 1 == 1 && selected_before(
                masks,
                c,
                b,
            ) < 32 implies ((dense >> (selected_before(masks, c, b) as u32)) & 1 == 1 <==> (
        key@[8 * c + 7 - b as int / 8] >> ((b % 8) as u8)) & 1 == 1) by {
            law_dense_key_bit(key@, masks, dense, c, b);
        }
    }
    dense
}

/// Whether a dense key has all bits of a sparse one.
pub open spec fn covers(dense: u32, sparse: u32) -> bool {
    dense & sparse == sparse
}

/// The child that a dense key routes to: the last one whose sparse key it
/// covers, or the first child.
pub open spec fn routed_child(dense: u32, sparse_keys: Seq<u32>) -> nat
    decreases sparse_keys.len(),
{
    if sparse_keys.len() == 0 {
        0
    } else if covers(dense, sparse_keys.last()) {
        (sparse_keys.len() - 1) as nat
    } else {
        routed_child(dense, sparse_keys.drop_last())
    }
}

/// Finds the child that `dense_key` routes to.
pub fn search_in_sparse_keys(dense_key: u32, sparse_keys: &[u32]) -> (r: usize)
    ensures
        r == routed_child(dense_key, sparse_keys@),
        sparse_keys@.len() > 0 ==> r < sparse_keys@.len(),
        forall|i: int|
            r < i < sparse_keys@.len() ==> dense_key & (#[trigger] sparse_keys@[i])
                != sparse_keys@[i],
        r > 0 ==> dense_key & sparse_keys@[r as int] == sparse_keys@[r as int],
{
    let mut n: usize = sparse_keys.len();
    assert(sparse_keys@.take(n as int) =~= sparse_keys@);
    while n > 0
        invariant
            n <= sparse_keys@.len(),
            routed_child(dense_key, sparse_keys@) == routed_child(
                dense_key,
                sparse_keys@.take(n as int),
            ),
        decreases n,
    {
        let sparse: u32 = sparse_keys[n - 1];
        assert(sparse_keys@.take(n as int).last() == sparse);
        assert(sparse_keys@.take(n as int).drop_last() =~= sparse_keys@.take(n - 1));
        if (dense_key & sparse) == sparse {
            proof {
                law_routed_child(dense_key, sparse_keys@);
            }
            return n - 1;
        }
        n = n - 1;
    }
    proof {
        law_routed_child(dense_key, sparse_keys@);
    }
    0
}

/// The routed child is a child of the node, and no later child's sparse key is
/// covered.
pub proof fn lemma_routed_child(dense: u32, sparse_keys: Seq<u32>)
    ensures
        sparse_keys.len() > 0 ==> routed_child(dense, sparse_keys) < sparse_keys.len(),
        forall|i: int|
            routed_child(dense, sparse_keys) < i < sparse_keys.len() ==> !covers(
                dense,
                #[trigger] sparse_keys[i],
            ),
        (exists|i: int| 0 <= i < sparse_keys.len() && covers(dense, #[trigger] sparse_keys[i]))
            ==> covers(dense, sparse_keys[routed_child(dense, sparse_keys) as int]),
    decreases sparse_keys.len(),
{
    if sparse_keys.len() > 0 && !covers(dense, sparse_keys.last()) {
        let front = sparse_keys.drop_last();
        lemma_routed_child(dense, front);
        let r = routed_child(dense, sparse_keys);
        assert forall|i: int| r < i < sparse_keys.len() implies !covers(
            dense,
            #[trigger] sparse_keys[i],
        ) by {
            if i < front.len() {
                assert(front[i] == sparse_keys[i]);
            }
        }
        if exists|i: int| 0 <= i < sparse_keys.len() && covers(dense, #[trigger] sparse_keys[i]) {
            let i = choose|i: int|
                0 <= i < sparse_keys.len() && covers(dense, #[trigger] sparse_keys[i]);
            assert(front[i] == sparse_keys[i]);
            assert(front[r as int] == sparse_keys[r as int]);
        }
    }
}

/// The bytes that a leaf's digest is taken of: the key, the value's length and
/// the value.
pub open spec fn leaf_preimage(key: Seq<u8>, value: Seq<u8>) -> Seq<u8> {
    key + le64(value.len() as u64) + value
}

/// The digest of a leaf.
pub fn leaf_content_hash(entry: &PathEntry) -> (d: [u8; 32])
    requires
        40 + entry.value@.len() <= MAX_MESSAGE_LEN,
    ensures
        d@ == sha256(leaf_preimage(entry.key@, entry.value@)),
{
    let mut buf: Vec<u8> = Vec::new();
    append_bytes(&mut buf, entry.key.as_slice());
    append_u64_le(&mut buf, entry.value.len() as u64);
    append_bytes(&mut buf, entry.value.as_slice());
    assert(buf@ =~= leaf_preimage(entry.key@, entry.value@));
    sha256_bytes(buf.as_slice())
}

/// How many bits before bit `b` of chunk `c` masks select.
pub open spec fn selected_before(masks: Seq<u64>, c: nat, b: nat) -> nat
    decreases c, b,
{
    if b > 0 {
        selected_before(masks, c, (b - 1) as nat) + if (masks[c as int] >> ((b - 1) as u64)) & 1
            == 1 {
            1nat
        } else {
            0nat
        }
    } else if c > 0 {
        selected_before(masks, (c - 1) as nat, 64)
    } else {
        0
    }
}

/// Where what is selected stands.
proof fn lemma_extract_places(key: Seq<u8>, masks: Seq<u64>, c: nat, b: nat)
    requires
        b <= 64,
    ensures
        ({
            let bits = extract_chunks(key, masks, c) + extract_bits(
                be_word64(key, 8 * c as int),
                masks[c as int],
                b,
            );
            &&& bits.len() == selected_before(masks, c, b)
            &&& forall|d: nat, e: nat|
                #![trigger selected_before(masks, d, e)]
                (d < c && e < 64 || d == c && e < b) && (masks[d as int] >> (e as u64)) & 1 == 1
                    ==> selected_before(masks, d, e) < bits.len() && bits[selected_before(
                    masks,
                    d,
                    e,
                ) as int] == ((be_word64(key, 8 * d as int) >> (e as u64)) & 1 == 1)
        }),
    decreases c, b,
{
    let word = be_word64(key, 8 * c as int);
    let done = extract_chunks(key, masks, c);
    let bits = done + extract_bits(word, masks[c as int], b);
    if b > 0 {
        lemma_extract_places(key, masks, c, (b - 1) as nat);
        let low = done + extract_bits(word, masks[c as int], (b - 1) as nat);
        if word_bit(masks[c as int], b - 1) {
            assert(bits =~= low.push(word_bit(word, b - 1)));
        } else {
            assert(bits =~= low);
        }
    } else {
        assert(bits =~= done);
        if c > 0 {
            lemma_extract_places(key, masks, (c - 1) as nat, 64);
        }
    }
}

/// A bit of a number that bits write.
pub proof fn lemma_bit_of_value(bits: Seq<bool>, r: nat)
    ensures
        bits_value(bits) / pow2(r) % 2 == if r < bits.len() && bits[r as int] {
            1nat
        } else {
            0nat
        },
    decreases bits.len(),
{
    let p = pow2(r);
    lemma_pow2_pos(r);
    if bits.len() == 0 {
        vstd::arithmetic::div_mod::lemma_small_mod(0, p);
        vstd::arithmetic::div_mod::lemma_basic_div(0, p as int);
    } else if r >= bits.len() {
        lemma_bits_value_bound(bits);
        crate::math::lemma_pow2_mono(bits.len(), r);
        vstd::arithmetic::div_mod::lemma_basic_div(bits_value(bits) as int, p as int);
    } else {
        let front = bits.drop_last();
        let top = (bits.len() - 1) as nat;
        lemma_bit_of_value(front, r);
        if r == top {
            lemma_bits_value_bound(front);
            if bits.last() {
                vstd::arithmetic::div_mod::lemma_fundamental_div_mod_converse(
                    bits_value(bits) as int,
                    p as int,
                    1,
                    bits_value(front) as int,
                );
            } else {
                vstd::arithmetic::div_mod::lemma_basic_div(bits_value(bits) as int, p as int);
            }
        } else if bits.last() {
            let h = (top - r - 1) as nat;
            vstd::arithmetic::power2::lemma_pow2_adds(r + 1, h);
            lemma_pow2_unfold(r + 1);
            let (v, k) = (bits_value(front) as int, pow2(h) as int);
            assert(pow2(top) == p * (2 * k)) by (nonlinear_arith)
                requires
                    pow2(top) == pow2(r + 1) * k,
                    pow2(r + 1) == 2 * p,
            ;
            vstd::arithmetic::div_mod::lemma_hoist_over_denominator(v, 2 * k, p);
            assert((2 * k) * p == p * (2 * k)) by (nonlinear_arith);
            assert((v / p as int + 2 * k) % 2 == v / p as int % 2);
        }
    }
}

/// Bit `b` of a big-endian double word is a bit of one of its bytes.
proof fn lemma_chunk_bit(key: Seq<u8>, off: int, b: u64)
    requires
        b < 64,
    ensures
        (be_word64(key, off) >> b) & 1 == 1 <==> (key[off + 7 - b / 8] >> ((b % 8) as u8)) & 1
            == 1,
{
    let (b0, b1, b2, b3) = (key[off], key[off + 1], key[off + 2], key[off + 3]);
    let (b4, b5, b6, b7) = (key[off + 4], key[off + 5], key[off + 6], key[off + 7]);
    let byte = key[off + 7 - b / 8];
    let t = (b % 8) as u8;
    assert(((((b0 as u64) << 56) | ((b1 as u64) << 48) | ((b2 as u64) << 40) | ((b3 as u64) << 32)
        | ((b4 as u64) << 24) | ((b5 as u64) << 16) | ((b6 as u64) << 8) | (b7 as u64)) >> b) & 1
        == 1 <==> (byte >> t) & 1 == 1) by (bit_vector)
        requires
            b < 64,
            t == b % 8,
            byte == (if b < 8 {
                b7
            } else if b < 16 {
                b6
            } else if b < 24 {
                b5
            } else if b < 32 {
                b4
            } else if b < 40 {
                b3
            } else if b < 48 {
                b2
            } else if b < 56 {
                b1
            } else {
                b0
            }),
    ;
}

/// The bit of a dense key for bit `b` of chunk `c`, if the masks select it,
/// stands behind those of all bits that they select before it, and is that bit
/// of the key: bit `b % 8` of byte `7 - b / 8` of the chunk. Where it would
/// stand past the word, the key's bit is clear.
pub proof fn law_dense_key_bit(key: Seq<u8>, masks: Seq<u64>, dense: u32, c: nat, b: nat)
    requires
        key.len() == 32,
        masks.len() == 4,
        dense == bits_value(discriminative_bits(key, masks)),
        c < 4,
        b < 64,
        (masks[c as int] >> (b as u64)) & 1 == 1,
    ensures
        ({
            let r = selected_before(masks, c, b);
            let set = (key[8 * c + 7 - b as int / 8] >> ((b % 8) as u8)) & 1 == 1;
            &&& r < 32 ==> ((dense >> (r as u32)) & 1 == 1 <==> set)
            &&& r >= 32 ==> !set
        }),
{
    let bits = discriminative_bits(key, masks);
    let r = selected_before(masks, c, b);
    lemma_extract_places(key, masks, 4, 0);
    assert(bits + extract_bits(be_word64(key, 32), masks[4], 0) =~= bits);
    lemma_chunk_bit(key, 8 * c as int, b as u64);
    lemma_bit_of_value(bits, r);
    if r < 32 {
        let s = r as u32;
        vstd::bits::lemma_u32_shr_is_div(dense, s);
        let x = dense >> s;
        assert(x & 1 == x % 2) by (bit_vector);
    } else {
        lemma2_to64();
        crate::math::lemma_pow2_mono(32, r);
        vstd::arithmetic::div_mod::lemma_basic_div(dense as int, pow2(r) as int);
    }
}

/// A dense key has no bit past those that the masks select.
pub proof fn law_dense_key_width(key: Seq<u8>, masks: Seq<u64>, dense: u32, r: u32)
    requires
        key.len() == 32,
        masks.len() == 4,
        dense == bits_value(discriminative_bits(key, masks)),
        selected_before(masks, 4, 0) <= r < 32,
    ensures
        (dense >> r) & 1 == 0,
{
    let bits = discriminative_bits(key, masks);
    lemma_extract_places(key, masks, 4, 0);
    assert(bits + extract_bits(be_word64(key, 32), masks[4], 0) =~= bits);
    lemma_bit_of_value(bits, r as nat);
    vstd::bits::lemma_u32_shr_is_div(dense, r);
    let x = dense >> r;
    assert(x & 1 == x % 2) by (bit_vector);
}

/// Keys that differ in a bit that the masks select have different dense keys.
pub proof fn law_dense_keys_differ(
    key1: Seq<u8>,
    key2: Seq<u8>,
    masks: Seq<u64>,
    dense1: u32,
    dense2: u32,
    c: nat,
    b: nat,
)
    requires
        key1.len() == 32,
        key2.len() == 32,
        masks.len() == 4,
        dense1 == bits_value(discriminative_bits(key1, masks)),
        dense2 == bits_value(discriminative_bits(key2, masks)),
        c < 4,
        b < 64,
        (masks[c as int] >> (b as u64)) & 1 == 1,
        (key1[8 * c + 7 - b as int / 8] >> ((b % 8) as u8)) & 1 != (key2[8 * c + 7 - b as int / 8]
            >> ((b % 8) as u8)) & 1,
    ensures
        dense1 != dense2,
{
    law_dense_key_bit(key1, masks, dense1, c, b);
    law_dense_key_bit(key2, masks, dense2, c, b);
    let t = (b % 8) as u8;
    let (x, y) = (key1[8 * c + 7 - b as int / 8], key2[8 * c + 7 - b as int / 8]);
    assert((x >> t) & 1 != (y >> t) & 1 ==> ((x >> t) & 1 == 1) != ((y >> t) & 1 == 1))
        by (bit_vector);
}

/// The width of masks is the number of bits that they select.
pub proof fn law_mask_width(masks: Seq<u64>)
    ensures
        mask_width(masks) == selected_before(masks, 4, 0),
{
    let zero = Seq::new(32, |i: int| 0u8);
    let bits = discriminative_bits(zero, masks);
    lemma_extract_places(zero, masks, 4, 0);
    assert(bits + extract_bits(be_word64(zero, 32), masks[4], 0) =~= bits);
}

/// A dense key routes to a child whose sparse key has only bits that the dense
/// key has, and to no child before another such; if there is none, to the
/// first child.
pub proof fn law_routed_child(dense: u32, sparse_keys: Seq<u32>)
    ensures
        ({
            let r = routed_child(dense, sparse_keys);
            &&& sparse_keys.len() > 0 ==> r < sparse_keys.len()
            &&& sparse_keys.len() == 0 ==> r == 0
            &&& forall|i: int|
                r < i < sparse_keys.len() ==> dense & (#[trigger] sparse_keys[i])
                    != sparse_keys[i]
            &&& sparse_keys.len() > 0 ==> r == 0 || dense & sparse_keys[r as int]
                == sparse_keys[r as int]
        }),
    decreases sparse_keys.len(),
{
    if sparse_keys.len() > 0 {
        law_routed_child(dense, sparse_keys.drop_last());
        let front = sparse_keys.drop_last();
        let r = routed_child(dense, sparse_keys);
        assert forall|i: int| r < i < sparse_keys.len() implies dense & (#[trigger] sparse_keys[i])
            != sparse_keys[i] by {
            if i < front.len() {
                assert(front[i] == sparse_keys[i]);
            }
        }
        if !(dense & sparse_keys.last() == sparse_keys.last()) && r > 0 {
            assert(front[r as int] == sparse_keys[r as int]);
        }
    }
}

/// What a leaf's digest is taken of, byte by byte: the 32 bytes of the key, the
/// length of the value with its lowest byte first, and the value.
pub proof fn law_leaf_preimage_layout(key: Seq<u8>, value: Seq<u8>)
    requires
        key.len() == 32,
        value.len() <= u64::MAX,
    ensures
        leaf_preimage(key, value).len() == 40 + value.len(),
        forall|i: int| 0 <= i < 32 ==> #[trigger] leaf_preimage(key, value)[i] == key[i],
        forall|j: int|
            0 <= j < 8 ==> #[trigger] leaf_preimage(key, value)[32 + j] == ((value.len() as u64)
                >> ((8 * j) as u64)) as u8,
        forall|i: int|
            0 <= i < value.len() ==> #[trigger] leaf_preimage(key, value)[40 + i] == value[i],
{
    let n = value.len() as u64;
    assert(n >> 0 == n) by (bit_vector);
    let bytes = le64(n);
    assert forall|j: int| 0 <= j < 8 implies #[trigger] leaf_preimage(key, value)[32 + j] == (n >> ((
    8 * j) as u64)) as u8 by {
        assert(leaf_preimage(key, value)[32 + j] == bytes[j]);
    }
}

} // verus!
