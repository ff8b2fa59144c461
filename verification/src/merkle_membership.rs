//! Membership of a path in a tree of nodes: the hash path inside each node, the
//! node's content hash, and the route through it.

use vstd::arithmetic::power2::{lemma2_to64, pow2};
use vstd::prelude::*;

use crate::backend::{
    index_point, make_index_point, nat_bit, ChainVerifyError, Commitment, MerklePathVerifyError,
    VerifyError,
};
use crate::bits::{bit_at, byte_bit};
use crate::bytes::{
    append_bytes, append_dwords_le, append_words_le, law_be_word_value, words_be, words_digest,
};
use crate::math::{
    ceil_log2, law_next_pow2_is_least, lemma_ceil_log2, lemma_pow2_is_pow2, lemma_pow2_mono,
    log2_ceil, next_pow2, next_power_of_two, power_of_two,
};
use crate::mhot_to_sha256::{
    bytes_to_sha256_chain, content_preimage, is_chain_of, lemma_chain_output_is_digest,
    sha256_bytes, sha256_chain_output,
};
use crate::native_witness::{
    ancestor, hash_node, join_block, law_ancestor, mhot_node_to_sha256_merkle, node_valid, path_block, path_value,
    side_bit, tree_depth, tree_leaf, tree_root, MhotNodeWitness,
};
use crate::packing::{block_filled, block_of};
use crate::r1cs::F128;
use crate::route_f32::{law_route_selects_spelled_child, spelled_index, Route, W_MAX};
use crate::route_f32_setup::{
    batch_cells, batch_filled, batch_route, RouteF32Setup, RouteF32Witness,
};
use crate::sha256::{
    block_count, compress, law_pad_layout, pad, sha256, sha256_compress, sha256_words, Compression,
    MAX_MESSAGE_LEN, SHA256_IV,
};

verus! {

/// Why a membership proof is rejected.
#[derive(Clone, Copy, Debug, PartialEq, Eq)]
pub enum MhotMembershipError {
    /// The hash path inside a node fails.
    NodeVerify(MerklePathVerifyError),
    /// The base of all hash paths fails.
    NodeVerify2(VerifyError),
    /// What a node selects is not the node below it.
    CrossNodeBinding { parent_idx: usize, parent_leaf: [u32; 8], child_root: [u32; 8] },
    RouteVerify(VerifyError),
    RouteOpening(VerifyError),
    ContentChainVerify(usize, ChainVerifyError),
    ContentHashMismatch { node_idx: usize },
    RootMismatch { expected: [u32; 8], actual: [u32; 8] },
    /// There are not as many entries as paths.
    EntryCountMismatch { n_entries: usize, n_paths: usize },
    /// A key does not route to the child that the path selects.
    RoutingMismatch { path_idx: usize, level: usize, matched: usize, selected: usize },
    /// A path does not end at the leaf of its entry.
    EntryLeafMismatch { path_idx: usize },
    /// The proof does not have the form that every proof has.
    MalformedProof { reason: &'static str },
    /// A node's tree root, padded, is not the root that its path was proved to
    /// come to.
    NativeRootMismatch { node_idx: usize },
}

/// How many blocks the path of `n` compressions is padded to: a power of two,
/// and eight at the least.
pub open spec fn path_blocks(n: nat) -> nat {
    pow2(if ceil_log2(n) < 3 {
        3
    } else {
        ceil_log2(n)
    })
}

/// The base-two logarithm of how many blocks a path of `n` compressions is
/// padded to.
pub fn min_n_blocks_log(n: usize) -> (r: usize)
    ensures
        pow2(r as nat) == path_blocks(n as nat),
        3 <= r <= usize::BITS,
        path_blocks(n as nat) >= n,
{
    if n == 0 {
        return 3;
    }
    let k: usize = log2_ceil(n);
    proof {
        lemma_path_blocks(n as nat);
        lemma_usize_log(n as nat);
    }
    if k < 3 {
        3
    } else {
        k
    }
}

/// A path is padded to no less than its length, and to eight exactly when it
/// has no more than eight compressions.
pub proof fn lemma_path_blocks(n: nat)
    ensures
        path_blocks(n) >= n,
        path_blocks(n) >= 8,
        path_blocks(n) == 8 <==> n <= 8,
{
    lemma2_to64();
    if n > 0 {
        lemma_ceil_log2(n);
    }
    if n <= 8 {
        crate::math::lemma_ceil_log2_of_bound(n, 3);
    } else {
        if ceil_log2(n) <= 3 {
            crate::math::lemma_pow2_mono(ceil_log2(n), 3);
        } else {
            crate::math::lemma_pow2_mono(4, ceil_log2(n));
        }
    }
    if ceil_log2(n) < 3 {
        crate::math::lemma_pow2_mono(ceil_log2(n), 3);
    }
}

/// What fits a machine word is no more than that many bits long.
proof fn lemma_usize_log(n: nat)
    requires
        0 < n <= usize::MAX,
    ensures
        ceil_log2(n) <= usize::BITS,
{
    lemma2_to64();
    if usize::BITS == 32 {
        crate::math::lemma_ceil_log2_of_bound(n, 32);
    } else {
        crate::math::lemma_ceil_log2_of_bound(n, 64);
    }
}

/// Eight zero words.
pub open spec fn zero_words() -> Seq<u32> {
    Seq::new(8, |i: int| 0u32)
}

/// What a path that has come to `v` comes to after `k` padding compressions,
/// each with a zero sibling on the right.
pub open spec fn pad_value(v: Seq<u32>, k: nat) -> Seq<u32>
    decreases k,
{
    if k == 0 {
        v
    } else {
        hash_node(pad_value(v, (k - 1) as nat), zero_words())
    }
}

/// What the last of `compressions` comes to; zeros where there is none.
pub open spec fn last_output(compressions: Seq<Compression>) -> Seq<u32> {
    if compressions.len() == 0 {
        zero_words()
    } else {
        compress(compressions.last().0@, compressions.last().1@)
    }
}

/// Whether `after` is `before` followed by padding up to `needed`.
pub open spec fn is_padded(before: Seq<Compression>, after: Seq<Compression>, needed: nat) -> bool {
    &&& after.len() == if before.len() < needed {
        needed
    } else {
        before.len()
    }
    &&& forall|i: int| 0 <= i < before.len() ==> #[trigger] after[i] == before[i]
    &&& forall|i: int|
        #![trigger after[i]]
        before.len() <= i < after.len() ==> after[i].0@ == SHA256_IV@ && after[i].1@ == pad_value(
            last_output(before),
            (i - before.len()) as nat,
        ) + zero_words()
}

/// Pads a path to `needed` compressions and its side bits along with it.
/// Returns what the padded path comes to.
pub fn pad_to_needed(
    compressions: &mut Vec<Compression>,
    b_bits: &mut Vec<bool>,
    needed: usize,
) -> (root: [u32; 8])
    ensures
        is_padded(old(compressions)@, final(compressions)@, needed as nat),
        final(b_bits)@ == old(b_bits)@ + Seq::new(
            (final(compressions)@.len() - old(compressions)@.len()) as nat,
            |i: int| false,
        ),
        root@ == pad_value(
            last_output(old(compressions)@),
            (final(compressions)@.len() - old(compressions)@.len()) as nat,
        ),
{
    let n: usize = compressions.len();
    let zeros = [0u32; 8];
    assert(zeros@ =~= zero_words());
    let mut current: [u32; 8] = if n == 0 {
        zeros
    } else {
        sha256_chain_output(compressions.as_slice())
    };
    assert(b_bits@ =~= old(b_bits)@ + Seq::new(0, |i: int| false));
    while compressions.len() < needed
        invariant
            n == old(compressions)@.len(),
            zeros@ == zero_words(),
            n <= compressions@.len(),
            compressions@.len() <= needed || compressions@.len() == n,
            is_padded(old(compressions)@, compressions@, compressions@.len()),
            b_bits@ == old(b_bits)@ + Seq::new(
                (compressions@.len() - n) as nat,
                |i: int| false,
            ),
            current@ == pad_value(last_output(old(compressions)@), (compressions@.len() - n) as nat),
        decreases needed - compressions@.len(),
    {
        let m = join_block(&current, &zeros);
        let ghost bits = b_bits@;
        compressions.push((SHA256_IV, m));
        b_bits.push(false);
        current = sha256_compress(&SHA256_IV, &m);
        proof {
            assert(b_bits@ =~= old(b_bits)@ + Seq::new(
                (compressions@.len() - n) as nat,
                |i: int| false,
            ));
        }
    }
    current
}

/// What a node says of itself besides its children: which key bits tell them
/// apart, the sparse key of each, and how many leaves are below each.
#[derive(Clone, Debug)]
pub struct ContentMeta {
    pub extraction_masks: [u64; 4],
    pub sparse_partial_keys: Vec<u32>,
    pub child_leaf_counts: Vec<u32>,
}

/// The contents of a `ContentMeta`.
pub struct Meta {
    pub masks: Seq<u64>,
    pub keys: Seq<u32>,
    pub counts: Seq<u32>,
}

impl Meta {
    /// The bytes that the content hash of a node with tree root `root` is
    /// taken of.
    pub open spec fn preimage(self, root: Seq<u8>) -> Seq<u8> {
        content_preimage(self.masks, self.keys, root, self.counts)
    }

    /// The content hash of a node whose tree root has these words.
    pub open spec fn content_hash(self, root: Seq<u32>) -> Seq<u32> {
        sha256_words(self.preimage(words_be(root)))
    }

    /// Whether the content hash can be taken.
    pub open spec fn fits(self) -> bool {
        64 + 4 * self.keys.len() + 4 * self.counts.len() <= MAX_MESSAGE_LEN
    }
}

impl View for ContentMeta {
    type V = Meta;

    open spec fn view(&self) -> Meta {
        Meta {
            masks: self.extraction_masks@,
            keys: self.sparse_partial_keys@,
            counts: self.child_leaf_counts@,
        }
    }
}

impl ContentMeta {
    /// A copy.
    pub fn copied(&self) -> (c: ContentMeta)
        ensures
            c@ == self@,
    {
        ContentMeta {
            extraction_masks: self.extraction_masks,
            sparse_partial_keys: vstd::slice::slice_to_vec(self.sparse_partial_keys.as_slice()),
            child_leaf_counts: vstd::slice::slice_to_vec(self.child_leaf_counts.as_slice()),
        }
    }
}

fn meta_preimage(meta: &ContentMeta, merkle_root: &[u8; 32]) -> (buf: Vec<u8>)
    ensures
        buf@ == meta@.preimage(merkle_root@),
        buf@.len() == 64 + 4 * meta@.keys.len() + 4 * meta@.counts.len(),
{
    let mut buf: Vec<u8> = Vec::new();
    append_dwords_le(&mut buf, meta.extraction_masks.as_slice());
    append_words_le(&mut buf, meta.sparse_partial_keys.as_slice());
    append_bytes(&mut buf, merkle_root.as_slice());
    append_words_le(&mut buf, meta.child_leaf_counts.as_slice());
    assert(buf@ =~= meta@.preimage(merkle_root@));
    buf
}

/// How many bytes the content hash of a node is taken of.
pub proof fn lemma_preimage_len(meta: Meta, root: Seq<u8>)
    requires
        meta.masks.len() == 4,
        root.len() == 32,
    ensures
        meta.preimage(root).len() == 64 + 4 * meta.keys.len() + 4 * meta.counts.len(),
{
}

/// Sixteen zero words.
pub open spec fn zero_block() -> Seq<u32> {
    Seq::new(16, |i: int| 0u32)
}

/// What a chain that has come to `v` comes to after `k` zero blocks.
pub open spec fn chain_pad(v: Seq<u32>, k: nat) -> Seq<u32>
    decreases k,
{
    if k == 0 {
        v
    } else {
        compress(chain_pad(v, (k - 1) as nat), zero_block())
    }
}

/// Whether `chain` hashes `data` in its first blocks and runs on over zero
/// blocks.
pub open spec fn is_extended_chain(chain: Seq<Compression>, data: Seq<u8>) -> bool {
    let n_real = block_count(data.len());
    &&& n_real <= chain.len()
    &&& is_chain_of(chain.take(n_real as int), pad(data))
    &&& forall|i: int|
        #![trigger chain[i]]
        n_real <= i < chain.len() ==> chain[i].0@ == chain_pad(
            sha256_words(data),
            (i - n_real) as nat,
        ) && chain[i].1@ == zero_block()
}

/// How many blocks the chain of `n` real ones is padded to.
pub open spec fn chain_blocks(n: nat) -> nat {
    next_pow2(if n < 8 {
        8
    } else {
        n
    })
}

/// Runs a chain on over zero blocks to `n` blocks. Returns what it comes to.
pub(crate) fn extend_chain(
    compressions: &mut Vec<Compression>,
    cv: [u32; 8],
    n: usize,
    Ghost(data): Ghost<Seq<u8>>,
) -> (out: [u32; 8])
    requires
        is_extended_chain(old(compressions)@, data),
        old(compressions)@.len() <= n,
        cv@ == chain_pad(
            sha256_words(data),
            (old(compressions)@.len() - block_count(data.len())) as nat,
        ),
    ensures
        is_extended_chain(final(compressions)@, data),
        final(compressions)@.len() == n,
        out@ == chain_pad(sha256_words(data), (n - block_count(data.len())) as nat),
{
    let zeros = [0u32; 16];
    assert(zeros@ =~= zero_block());
    let mut cv: [u32; 8] = cv;
    while compressions.len() < n
        invariant
            zeros@ == zero_block(),
            compressions@.len() <= n,
            is_extended_chain(compressions@, data),
            cv@ == chain_pad(
                sha256_words(data),
                (compressions@.len() - block_count(data.len())) as nat,
            ),
        decreases n - compressions@.len(),
    {
        let ghost before = compressions@;
        compressions.push((cv, zeros));
        proof {
            let n_real = block_count(data.len()) as int;
            assert(compressions@.take(n_real) =~= before.take(n_real));
        }
        cv = sha256_compress(&cv, &zeros);
    }
    cv
}

/// Builds the chain of a node's content hash, run on over zero blocks to a
/// power of two. Returns the chain, the content hash, what the whole chain
/// comes to, and how many of its blocks hash the content.
pub fn build_content_hash_chain(meta: &ContentMeta, merkle_root: &[u8; 32]) -> (r: (
    Vec<Compression>,
    [u32; 8],
    [u32; 8],
    usize,
))
    requires
        meta@.fits(),
        chain_blocks(block_count(meta@.preimage(merkle_root@).len())) <= usize::MAX,
    ensures
        r.3 == block_count(meta@.preimage(merkle_root@).len()),
        r.0@.len() == chain_blocks(r.3 as nat),
        is_extended_chain(r.0@, meta@.preimage(merkle_root@)),
        r.1@ == sha256_words(meta@.preimage(merkle_root@)),
        r.2@ == chain_pad(r.1@, (r.0@.len() - r.3) as nat),
{
    let data = meta_preimage(meta, merkle_root);
    let mut compressions = bytes_to_sha256_chain(data.as_slice());
    let n_real: usize = compressions.len();
    proof {
        lemma_chain_output_is_digest(compressions@, data@);
        assert(compressions@.take(n_real as int) =~= compressions@);
    }
    let content_hash = sha256_chain_output(compressions.as_slice());
    let floor: usize = if n_real < 8 {
        8
    } else {
        n_real
    };
    proof {
        lemma_ceil_log2(floor as nat);
    }
    let n_padded: usize = next_power_of_two(floor);
    let cv_last = extend_chain(&mut compressions, content_hash, n_padded, Ghost(data@));
    (compressions, content_hash, cv_last, n_real)
}

/// Computes the content hash of a node with tree root `merkle_root`.
pub fn compute_content_hash(meta: &ContentMeta, merkle_root: &[u8; 32]) -> (out: [u8; 32])
    requires
        meta@.fits(),
    ensures
        out@ == sha256(meta@.preimage(merkle_root@)),
{
    let data = meta_preimage(meta, merkle_root);
    sha256_bytes(data.as_slice())
}

/// The bytes of a digest's words.
pub fn leaf_words_to_digest_bytes(leaf: &[u32; 8]) -> (d: [u8; 32])
    ensures
        d@ == words_be(leaf@),
{
    words_digest(leaf)
}

/// The bits of a digest, the lowest of each byte first.
pub open spec fn route_bits(d: Seq<u8>) -> Seq<bool> {
    Seq::new(256, |i: int| byte_bit(d[i / 8], i % 8))
}

/// The bits of a digest, as the route takes them.
pub fn digest_bytes_to_route_bits(d: &[u8; 32]) -> (bits: [bool; 256])
    ensures
        bits@ == route_bits(d@),
{
    let mut bits = [false; 256];
    for i in 0..256usize
        invariant
            forall|j: int| 0 <= j < i ==> bits@[j] == route_bits(d@)[j],
    {
        bits[i] = (d[i / 8] >> ((i % 8) as u8)) & 1 == 1;
    }
    assert(bits@ =~= route_bits(d@));
    bits
}

/// The two words of an element, the low one first.
pub open spec fn element_words(v: F128) -> Seq<u64> {
    Seq::new(2, |i: int| if i == 0 { v.lo } else { v.hi })
}

/// Whether the bits of `v` are `bits`, and zeros behind them.
pub open spec fn has_bits(v: F128, bits: Seq<bool>) -> bool {
    forall|k: int|
        0 <= k < 128 ==> #[trigger] bit_at(element_words(v), k) == (k < bits.len() && bits[k])
}

/// Two words that agree from bit `k` on agree when shifted by `k`.
proof fn lemma_high_bits_agree(a: u64, b: u64, k: u64)
    requires
        k < 64,
        forall|j: u64| k <= j < 64 ==> #[trigger] ((a >> j) & 1) == (b >> j) & 1,
    ensures
        a >> k == b >> k,
    decreases 64 - k,
{
    assert((a >> k) & 1 == (b >> k) & 1);
    if k == 63 {
        assert(a >> 63 == b >> 63) by (bit_vector)
            requires
                (a >> 63) & 1 == (b >> 63) & 1,
        ;
    } else {
        let next = (k + 1) as u64;
        lemma_high_bits_agree(a, b, next);
        assert(a >> k == b >> k) by (bit_vector)
            requires
                k < 63,
                next == k + 1,
                a >> next == b >> next,
                (a >> k) & 1 == (b >> k) & 1,
        ;
    }
}

/// A word is determined by its bits.
proof fn lemma_word_of_bits(a: u64, b: u64)
    requires
        forall|k: u64| k < 64 ==> #[trigger] ((a >> k) & 1) == (b >> k) & 1,
    ensures
        a == b,
{
    lemma_high_bits_agree(a, b, 0);
    assert(a >> 0 == a && b >> 0 == b) by (bit_vector);
}

/// An element is determined by its bits.
pub proof fn lemma_element_of_bits(a: F128, b: F128, bits: Seq<bool>)
    requires
        has_bits(a, bits),
        has_bits(b, bits),
    ensures
        a == b,
{
    assert forall|k: u64| k < 64 implies #[trigger] ((a.lo >> k) & 1) == (b.lo >> k) & 1 by {
        assert(bit_at(element_words(a), k as int) == bit_at(element_words(b), k as int));
        lemma_bit_is_bit(a.lo, k);
        lemma_bit_is_bit(b.lo, k);
    }
    assert forall|k: u64| k < 64 implies #[trigger] ((a.hi >> k) & 1) == (b.hi >> k) & 1 by {
        assert(bit_at(element_words(a), k + 64) == bit_at(element_words(b), k + 64));
        lemma_bit_is_bit(a.hi, k);
        lemma_bit_is_bit(b.hi, k);
    }
    lemma_word_of_bits(a.lo, b.lo);
    lemma_word_of_bits(a.hi, b.hi);
}

proof fn lemma_bit_is_bit(a: u64, k: u64)
    ensures
        (a >> k) & 1 == 0 || (a >> k) & 1 == 1,
{
    assert((a >> k) & 1 == 0 || (a >> k) & 1 == 1) by (bit_vector);
}

/// Packs up to 128 bits that start at `bits[from]` into one element, the
/// lowest first.
pub fn pack_bits_to_f128(bits: &[bool], from: usize, to: usize) -> (v: F128)
    requires
        from <= to <= bits@.len(),
        to - from <= 128,
    ensures
        has_bits(v, bits@.subrange(from as int, to as int)),
{
    let mut words: Vec<u64> = Vec::new();
    words.push(0);
    words.push(0);
    let n: usize = to - from;
    let ghost part = bits@.subrange(from as int, to as int);
    let total: usize = bits.len();
    proof {
        crate::bits::lemma_zero_words(words@);
    }
    for k in 0..n
        invariant
            words@.len() == 2,
            n == to - from,
            n <= 128,
            from <= to <= total,
            total == bits@.len(),
            part == bits@.subrange(from as int, to as int),
            forall|j: int|
                0 <= j < 128 ==> #[trigger] bit_at(words@, j) == (j < k && j < n && part[j]),
    {
        if bits[from + k] {
            crate::bits::or_bit_at(words.as_mut_slice(), k);
        }
    }
    let v = F128 { lo: words[0], hi: words[1] };
    assert(element_words(v) =~= words@);
    v
}

/// Whether two elements hold the 256 bits of a digest.
pub open spec fn is_sof(first: F128, second: F128, bits: Seq<bool>) -> bool {
    &&& has_bits(first, bits.subrange(0, 128))
    &&& has_bits(second, bits.subrange(128, 256))
}

fn pack_digest(bits: &[bool; 256]) -> (r: [F128; 2])
    ensures
        is_sof(r@[0], r@[1], bits@),
{
    [pack_bits_to_f128(bits.as_slice(), 0, 128), pack_bits_to_f128(bits.as_slice(), 128, 256)]
}

/// The two elements that a route's output holds where it selects the child
/// with digest `d`.
pub fn digest_to_sof_f128(d: &[u8; 32]) -> (r: [F128; 2])
    ensures
        is_sof(r@[0], r@[1], route_bits(d@)),
{
    let bits = digest_bytes_to_route_bits(d);
    pack_digest(&bits)
}

/// The two elements that a route's output holds: the digest of the child whose
/// index the key spells under the mask.
pub fn route_sof_f128(rw: &RouteF32Witness) -> (r: [F128; 2])
    requires
        rw.children@.len() == 32,
    ensures
        is_sof(r@[0], r@[1], rw.children@[spelled_index(rw.route())]@),
{
    let mut idx: usize = 0;
    let ghost route = rw.route();
    if rw.key[0] && rw.mask[0] {
        idx = idx + 1;
    }
    if rw.key[1] && rw.mask[1] {
        idx = idx + 2;
    }
    if rw.key[2] && rw.mask[2] {
        idx = idx + 4;
    }
    if rw.key[3] && rw.mask[3] {
        idx = idx + 8;
    }
    if rw.key[4] && rw.mask[4] {
        idx = idx + 16;
    }
    assert(idx == spelled_index(route));
    pack_digest(&rw.children[idx])
}

/// Where a route's output starts in its block, in elements.
pub const SOF_PACKED_BASE: usize = 146;

/// How many elements a route's block has.
pub const BLOCK_PACKED: usize = 256;

/// The point that selects element `within` of the block of route `instance`.
pub fn pd_point(setup: &RouteF32Setup, instance: usize, within: usize) -> (p: Vec<F128>)
    requires
        setup.r1cs.m >= 7,
        256 * instance + within <= usize::MAX,
    ensures
        p@ == index_point((256 * instance + within) as nat, (setup.r1cs.m - 7) as nat),
{
    make_index_point(instance * BLOCK_PACKED + within, setup.r1cs.m - crate::r1cs::LOG_PACKING)
}

/// The point that selects element `within` of slot `slot` in hash block
/// `block_index`, where a block has `2^k_log` bits and a slot two elements.
pub fn merkle_slot_pd_point(
    m_merkle: usize,
    k_log: usize,
    block_index: usize,
    slot: usize,
    within: usize,
) -> (p: Vec<F128>)
    requires
        7 <= k_log <= m_merkle,
        block_index * pow2((k_log - 7) as nat) + slot * 2 + within <= usize::MAX,
        pow2((k_log - 7) as nat) <= usize::MAX,
    ensures
        p@ == index_point(
            (block_index * pow2((k_log - 7) as nat) + slot * 2 + within) as nat,
            (m_merkle - 7) as nat,
        ),
{
    let block_packed: usize = power_of_two(k_log - crate::r1cs::LOG_PACKING);
    assert(block_index * block_packed >= 0) by (nonlinear_arith);
    make_index_point(
        block_index * block_packed + slot * 2 + within,
        m_merkle - crate::r1cs::LOG_PACKING,
    )
}

/// What a walk from `leaf` comes to after `n` siblings, each on the side that
/// `sides` gives.
pub open spec fn walk_value(
    leaf: Seq<u32>,
    siblings: Seq<[u32; 8]>,
    sides: Seq<bool>,
    n: nat,
) -> Seq<u32>
    decreases n,
{
    if n == 0 {
        leaf
    } else {
        let below = walk_value(leaf, siblings, sides, (n - 1) as nat);
        if sides[n - 1] {
            hash_node(siblings[n - 1]@, below)
        } else {
            hash_node(below, siblings[n - 1]@)
        }
    }
}

/// Recomputes the root of a node's tree from a leaf, its siblings and its
/// sides.
pub fn recompute_native_root(
    leaf: &[u32; 8],
    siblings: &[[u32; 8]],
    sides: &[bool],
) -> (root: [u32; 8])
    requires
        siblings@.len() == sides@.len(),
    ensures
        root@ == walk_value(leaf@, siblings@, sides@, sides@.len()),
{
    let mut current: [u32; 8] = *leaf;
    for d in 0..siblings.len()
        invariant
            siblings@.len() == sides@.len(),
            current@ == walk_value(leaf@, siblings@, sides@, d as nat),
    {
        let m = if sides[d] {
            join_block(&siblings[d], &current)
        } else {
            join_block(&current, &siblings[d])
        };
        current = sha256_compress(&SHA256_IV, &m);
    }
    current
}

/// Walking from a child along its real siblings and sides comes to the root of
/// the node's tree.
pub proof fn law_recompute_native_root(
    children: Seq<[u8; 32]>,
    sel: nat,
    siblings: Seq<[u32; 8]>,
    sides: Seq<bool>,
)
    requires
        0 <= sel < children.len(),
        siblings.len() == tree_depth(children.len()),
        sides.len() == siblings.len(),
        forall|d: int|
            0 <= d < siblings.len() ==> (#[trigger] siblings[d])@
                == crate::native_witness::tree_node(
                children,
                d as nat,
                crate::native_witness::sibling(ancestor(sel, d as nat)) as int,
            ),
        forall|d: int|
            0 <= d < sides.len() ==> #[trigger] sides[d] == side_bit(sel, true, d as nat),
    ensures
        walk_value(tree_leaf(children, sel as int), siblings, sides, sides.len()) == tree_root(
            children,
        ),
{
    lemma_walk_follows_path(children, sel, siblings, sides, sides.len());
    let depth = tree_depth(children.len());
    lemma_ceil_log2(children.len());
    crate::native_witness::lemma_native_path_follows_tree(children, sel, depth);
    crate::native_witness::lemma_ancestor_bound(sel, depth, depth);
    lemma2_to64();
}

proof fn lemma_walk_follows_path(
    children: Seq<[u8; 32]>,
    sel: nat,
    siblings: Seq<[u32; 8]>,
    sides: Seq<bool>,
    n: nat,
)
    requires
        n <= siblings.len(),
        sides.len() == siblings.len(),
        forall|d: int|
            0 <= d < siblings.len() ==> (#[trigger] siblings[d])@
                == crate::native_witness::tree_node(
                children,
                d as nat,
                crate::native_witness::sibling(ancestor(sel, d as nat)) as int,
            ),
        forall|d: int|
            0 <= d < sides.len() ==> #[trigger] sides[d] == side_bit(sel, true, d as nat),
    ensures
        walk_value(tree_leaf(children, sel as int), siblings, sides, n) == path_value(
            children,
            sel,
            true,
            n,
        ),
    decreases n,
{
    if n > 0 {
        lemma_walk_follows_path(children, sel, siblings, sides, (n - 1) as nat);
        assert(siblings[n - 1]@ == siblings[n - 1]@);
        assert(sides[n - 1] == side_bit(sel, true, (n - 1) as nat));
    }
}

/// The route that leads to child `sel` of a node: its index as the key, under
/// a mask of the lowest five bits.
pub open spec fn node_route(children: Seq<[u8; 32]>, sel: nat) -> Route {
    Route {
        key: Seq::new(256, |j: int| j < 5 && nat_bit(sel, j as nat)),
        mask: Seq::new(256, |j: int| j < 5),
        children: Seq::new(
            32,
            |c: int|
                if c < children.len() {
                    route_bits(children[c]@)
                } else {
                    Seq::new(256, |j: int| false)
                },
        ),
    }
}

/// Builds the route through a node to its selected child.
pub fn mhot_node_to_route_witness(node: &MhotNodeWitness) -> (w: RouteF32Witness)
    requires
        node.children@.len() <= 32,
    ensures
        w.route() == node_route(node.children@, node.selected_child as nat),
        w.children@.len() == 32,
{
    let mut key = [false; 256];
    let mut mask = [false; 256];
    let mut rest: usize = node.selected_child;
    let ghost route = node_route(node.children@, node.selected_child as nat);
    for j in 0..W_MAX
        invariant
            W_MAX == 5,
            rest == ancestor(node.selected_child as nat, j as nat),
            forall|i: int|
                0 <= i < 256 ==> #[trigger] key@[i] == (i < j && nat_bit(
                    node.selected_child as nat,
                    i as nat,
                )),
            forall|i: int| 0 <= i < 256 ==> #[trigger] mask@[i] == (i < j),
    {
        mask[j] = true;
        key[j] = rest % 2 == 1;
        rest = rest / 2;
    }
    let fanout: usize = node.children.len();
    let mut child_bits: Vec<[bool; 256]> = Vec::new();
    for c in 0..fanout
        invariant
            fanout == node.children@.len(),
            child_bits@.len() == c,
            forall|i: int|
                0 <= i < c ==> (#[trigger] child_bits@[i])@ == route_bits(node.children@[i]@),
    {
        child_bits.push(digest_bytes_to_route_bits(&node.children[c]));
    }
    let w = RouteF32Witness::new_padded(key, mask, child_bits.as_slice(), fanout);
    proof {
        assert(w.route().key =~= route.key);
        assert(w.route().mask =~= route.mask);
        assert forall|c: int| 0 <= c < 32 implies w.route().children[c] == route.children[c] by {
            if c < fanout {
                assert(w.children@[c] == child_bits@[c]);
            }
        }
        assert(w.route().children =~= route.children);
    }
    w
}

/// The route to a child spells that child's index.
proof fn lemma_node_route_spells(children: Seq<[u8; 32]>, sel: nat)
    requires
        sel < 32,
    ensures
        spelled_index(node_route(children, sel)) == sel,
{
    let r = node_route(children, sel);
    reveal_with_fuel(ancestor, 6);
    assert(r.extracted(0) == (sel % 2 == 1));
    assert(r.extracted(1) == (sel / 2 % 2 == 1));
    assert(r.extracted(2) == (sel / 2 / 2 % 2 == 1));
    assert(r.extracted(3) == (sel / 2 / 2 / 2 % 2 == 1));
    assert(r.extracted(4) == (sel / 2 / 2 / 2 / 2 % 2 == 1));
}

/// The route through a node passes the route checks and selects the digest of
/// the node's selected child.
pub proof fn law_node_route_selects_child(node: MhotNodeWitness)
    requires
        node_valid(node),
        node.children@.len() <= 32,
    ensures
        ({
            let r = node_route(node.children@, node.selected_child as nat);
            &&& r.sized()
            &&& r.all_ok()
            &&& spelled_index(r) == node.selected_child
            &&& r.children[spelled_index(r)] == route_bits(
                node.children@[node.selected_child as int]@,
            )
        }),
{
    let r = node_route(node.children@, node.selected_child as nat);
    lemma_node_route_spells(node.children@, node.selected_child as nat);
    crate::route_f32::law_checks_are_compactness(r);
    lemma_prefix_mask_ok(r, 254);
    lemma_prefix_key_ok(r, 255);
}

proof fn lemma_prefix_mask_ok(r: Route, n: int)
    requires
        r.mask == Seq::new(256, |j: int| j < 5),
        0 <= n <= 254,
    ensures
        r.mask_ok(n),
    decreases n,
{
    if n > 0 {
        lemma_prefix_mask_ok(r, n - 1);
    }
}

proof fn lemma_prefix_key_ok(r: Route, n: int)
    requires
        r.mask == Seq::new(256, |j: int| j < 5),
        r.key.len() == 256,
        forall|j: int| 5 <= j < 256 ==> !r.key[j],
        0 <= n <= 255,
    ensures
        r.key_ok(n),
    decreases n,
{
    if n > 0 {
        lemma_prefix_key_ok(r, n - 1);
    }
}

/// In a packed batch the two elements at `SOF_PACKED_BASE` of a block hold the
/// digest of the child that the block's route spells: the values that
/// `route_sof_f128` claims there.
pub proof fn law_output_elements(
    z: Seq<F128>,
    a: Seq<F128>,
    b: Seq<F128>,
    routes: Seq<Route>,
    n: int,
    i: int,
)
    requires
        batch_filled(z, a, b, routes, n),
        0 <= i < n,
        batch_route(routes, i).sized(),
    ensures
        ({
            let r = batch_route(routes, i);
            is_sof(z[256 * i + 146], z[256 * i + 147], r.children[spelled_index(r)])
        }),
{
    let r = batch_route(routes, i);
    let child = r.children[spelled_index(r)];
    law_route_selects_spelled_child(r, 0);
    let bw = block_of(z, 512, i);
    assert(block_filled(z, a, b, 512, i, batch_cells(routes)(i)));
    assert forall|k: int| 0 <= k < 128 implies #[trigger] bit_at(
        element_words(z[256 * i + 146]),
        k,
    ) == child.subrange(0, 128)[k] by {
        law_route_selects_spelled_child(r, k);
        assert(bit_at(bw, 18688 + k) == r.cells()(18688 + k).z);
        assert(bw[292 + k / 64] == element_words(z[256 * i + 146])[k / 64]);
    }
    assert forall|k: int| 0 <= k < 128 implies #[trigger] bit_at(
        element_words(z[256 * i + 147]),
        k,
    ) == child.subrange(128, 256)[k] by {
        law_route_selects_spelled_child(r, 128 + k);
        assert(bit_at(bw, 18816 + k) == r.cells()(18816 + k).z);
        assert(bw[294 + k / 64] == element_words(z[256 * i + 147])[k / 64]);
    }
}

/// The path inside a node, padded: what is committed, and what it comes to.
#[derive(Clone, Debug)]
pub struct PaddedPath {
    pub compressions: Vec<Compression>,
    pub b_bits: Vec<bool>,
    pub leaf: [u32; 8],
    /// What the padded path comes to.
    pub root: [u32; 8],
    /// The root of the node's tree.
    pub native_root: [u32; 8],
    /// How many compressions are not padding.
    pub n_real: usize,
}

/// The compression at position `d` of a padded path: its input block.
pub open spec fn padded_block(
    children: Seq<[u8; 32]>,
    sel: nat,
    native_order: bool,
    d: nat,
) -> Seq<u32> {
    let depth = tree_depth(children.len());
    if d < depth {
        path_block(children, sel, native_order, d)
    } else {
        pad_value(path_value(children, sel, native_order, depth), (d - depth) as nat)
            + zero_words()
    }
}

/// The side bits of a path padded to `needed`.
pub open spec fn padded_sides(n: nat, sel: nat, native_order: bool, needed: nat) -> Seq<bool> {
    Seq::new(needed, |d: int| d < tree_depth(n) && side_bit(sel, native_order, d as nat))
}

/// Whether `p` is the padded path to child `sel`.
pub open spec fn is_padded_path(
    p: PaddedPath,
    children: Seq<[u8; 32]>,
    sel: nat,
    native_order: bool,
) -> bool {
    let depth = tree_depth(children.len());
    let needed = path_blocks(depth);
    &&& p.n_real == depth
    &&& p.compressions@.len() == needed
    &&& forall|d: int|
        #![trigger p.compressions@[d]]
        0 <= d < needed ==> p.compressions@[d].0@ == SHA256_IV@ && p.compressions@[d].1@
            == padded_block(children, sel, native_order, d as nat)
    &&& p.b_bits@ == padded_sides(children.len(), sel, native_order, needed)
    &&& p.leaf@ == tree_leaf(children, sel as int)
    &&& p.native_root@ == tree_root(children)
    &&& p.root@ == pad_value(
        path_value(children, sel, native_order, depth),
        (needed - depth) as nat,
    )
}

/// Builds the path inside a node and pads it.
pub fn padded_path(node: &MhotNodeWitness, native_order: bool) -> (p: PaddedPath)
    requires
        node_valid(*node),
    ensures
        is_padded_path(p, node.children@, node.selected_child as nat, native_order),
{
    let w = mhot_node_to_sha256_merkle(node, native_order);
    let n_real: usize = w.compressions.len();
    let mut compressions = w.compressions;
    let mut b_bits = w.b_bits;
    let ghost children = node.children@;
    let ghost sel = node.selected_child as nat;
    let ghost depth = tree_depth(children.len());
    let ghost before = compressions@;
    let ghost bits = b_bits@;
    let log: usize = min_n_blocks_log(n_real);
    proof {
        lemma_node_depth(*node);
        lemma_path_blocks(depth);
        lemma2_to64();
        assert(path_blocks(depth) <= 64) by {
            crate::math::lemma_ceil_log2_of_bound(depth, 6);
            crate::math::lemma_pow2_mono(
                if ceil_log2(depth) < 3 {
                    3
                } else {
                    ceil_log2(depth)
                },
                6,
            );
        }
    }
    let needed: usize = power_of_two(log);
    let root = pad_to_needed(&mut compressions, &mut b_bits, needed);
    let p = PaddedPath {
        compressions,
        b_bits,
        leaf: w.leaf,
        root,
        native_root: w.native_root,
        n_real,
    };
    proof {
        assert(before.last() == before[depth - 1]);
        assert(last_output(before) == path_value(children, sel, native_order, depth));
        assert forall|d: int| #![trigger p.compressions@[d]] 0 <= d < needed implies p.compressions@[d].0@
            == SHA256_IV@ && p.compressions@[d].1@ == padded_block(
            children,
            sel,
            native_order,
            d as nat,
        ) by {
            if d < depth {
                assert(p.compressions@[d] == before[d]);
            }
        }
        assert(p.b_bits@ =~= padded_sides(children.len(), sel, native_order, needed as nat)) by {
            assert forall|d: int| 0 <= d < needed implies p.b_bits@[d] == padded_sides(
                children.len(),
                sel,
                native_order,
                needed as nat,
            )[d] by {
                if d < depth {
                    assert(p.b_bits@[d] == bits[d]);
                }
            }
        }
    }
    p
}

/// The tree of a node has a height between 1 and the length of a machine word.
pub proof fn lemma_node_depth(node: MhotNodeWitness)
    requires
        node_valid(node),
    ensures
        1 <= tree_depth(node.children@.len()) <= 64,
{
    let n = node.children@.len();
    assert(node.children.len() as nat == n);
    lemma_usize_log(n);
}

/// A padded path in native order comes to the node's tree root, padded forward
/// from its height: whichever child it starts from.
pub proof fn law_padded_root_is_tree_determined(p: PaddedPath, node: MhotNodeWitness)
    requires
        node_valid(node),
        is_padded_path(p, node.children@, node.selected_child as nat, true),
    ensures
        p.root@ == pad_value(
            tree_root(node.children@),
            (path_blocks(tree_depth(node.children@.len())) - tree_depth(
                node.children@.len(),
            )) as nat,
        ),
{
    let children = node.children@;
    let depth = tree_depth(children.len());
    lemma_ceil_log2(children.len());
    crate::native_witness::lemma_native_path_follows_tree(
        children,
        node.selected_child as nat,
        depth,
    );
    crate::native_witness::lemma_ancestor_bound(node.selected_child as nat, depth, depth);
    lemma2_to64();
}

/// The proof of one node's path, with what it is about.
#[derive(Clone, Debug)]
pub struct NodeMerkleProof {
    /// The proof system's encoding.
    pub proof: Vec<u8>,
    pub commitment: Commitment,
    pub leaf: [u32; 8],
    /// What the padded path comes to.
    pub root: [u32; 8],
    /// The root of the node's tree.
    pub native_root: [u32; 8],
    pub b_bits: Vec<bool>,
    pub n_real_compressions: usize,
}

/// Whether `np` states the path of `node`.
pub open spec fn states_node(np: NodeMerkleProof, node: MhotNodeWitness) -> bool {
    let children = node.children@;
    let sel = node.selected_child as nat;
    let depth = tree_depth(children.len());
    &&& np.leaf@ == tree_leaf(children, sel as int)
    &&& np.native_root@ == tree_root(children)
    &&& np.root@ == pad_value(
        path_value(children, sel, false, depth),
        (path_blocks(depth) - depth) as nat,
    )
    &&& np.b_bits@ == padded_sides(children.len(), sel, false, depth)
    &&& np.n_real_compressions == depth
}

/// What is committed for the path inside a node: the padded path that places
/// the leaf on the left.
pub fn plan_node_merkle(node: &MhotNodeWitness) -> (p: PaddedPath)
    requires
        node_valid(*node),
    ensures
        is_padded_path(p, node.children@, node.selected_child as nat, false),
{
    padded_path(node, false)
}

/// The proof of a node's path, given what the proof system makes of its plan.
pub fn prove_node_merkle(
    node: &MhotNodeWitness,
    plan: &PaddedPath,
    proof: Vec<u8>,
    commitment: Commitment,
) -> (np: NodeMerkleProof)
    requires
        node_valid(*node),
        is_padded_path(*plan, node.children@, node.selected_child as nat, false),
    ensures
        states_node(np, *node),
        np.proof == proof,
        np.commitment == commitment,
{
    proof {
        lemma_path_blocks(tree_depth(node.children@.len()));
    }
    let mut b_bits: Vec<bool> = Vec::new();
    for d in 0..plan.n_real
        invariant
            plan.n_real <= plan.b_bits@.len(),
            b_bits@ == plan.b_bits@.take(d as int),
    {
        b_bits.push(plan.b_bits[d]);
    }
    let np = NodeMerkleProof {
        proof,
        commitment,
        leaf: plan.leaf,
        root: plan.root,
        native_root: plan.native_root,
        b_bits,
        n_real_compressions: plan.n_real,
    };
    assert(np.b_bits@ =~= padded_sides(
        node.children@.len(),
        node.selected_child as nat,
        false,
        tree_depth(node.children@.len()),
    ));
    np
}

/// What the proof system is asked about a node's path.
#[derive(Clone, Debug)]
pub struct NodePathStatement {
    pub n_blocks: usize,
    pub leaf: [u32; 8],
    pub root: [u32; 8],
    pub b_bits: Vec<bool>,
}

/// What the proof system is asked about a node's path: the side bits are
/// filled up to the number of blocks.
pub fn node_path_statement(proof: &NodeMerkleProof) -> (st: NodePathStatement)
    requires
        path_blocks(proof.b_bits@.len()) <= usize::MAX,
    ensures
        is_node_statement(st, *proof),
{
    let n: usize = proof.b_bits.len();
    let log: usize = min_n_blocks_log(n);
    let n_blocks: usize = power_of_two(log);
    let mut b_bits: Vec<bool> = vstd::slice::slice_to_vec(proof.b_bits.as_slice());
    assert(b_bits@ =~= proof.b_bits@ + Seq::new(0, |i: int| false));
    for i in n..n_blocks
        invariant
            n == proof.b_bits@.len(),
            b_bits@ == proof.b_bits@ + Seq::new((i - n) as nat, |i: int| false),
    {
        b_bits.push(false);
        assert(b_bits@ =~= proof.b_bits@ + Seq::new((i + 1 - n) as nat, |i: int| false));
    }
    NodePathStatement { n_blocks, leaf: proof.leaf, root: proof.root, b_bits }
}

/// The question about a node's path: whether `proof` shows that what is
/// committed leads from the leaf to the root of the statement.
#[derive(Clone, Debug)]
pub struct NodeQuestion<'a> {
    pub statement: NodePathStatement,
    pub proof: &'a Vec<u8>,
    pub commitment: Commitment,
}

/// Whether a statement is that of a node's path.
pub open spec fn is_node_statement(st: NodePathStatement, proof: NodeMerkleProof) -> bool {
    &&& st.n_blocks == path_blocks(proof.b_bits@.len())
    &&& st.leaf == proof.leaf
    &&& st.root == proof.root
    &&& st.b_bits@ == proof.b_bits@ + Seq::new(
        (st.n_blocks - proof.b_bits@.len()) as nat,
        |i: int| false,
    )
}

/// The question about a node's path.
pub fn node_question(proof: &NodeMerkleProof) -> (q: NodeQuestion<'_>)
    requires
        path_blocks(proof.b_bits@.len()) <= usize::MAX,
    ensures
        is_node_statement(q.statement, *proof),
        *q.proof == proof.proof,
        q.commitment == proof.commitment,
{
    NodeQuestion {
        statement: node_path_statement(proof),
        proof: &proof.proof,
        commitment: proof.commitment,
    }
}

/// What is asked about an honest node's path is what was committed.
pub proof fn law_node_statement_matches_plan(
    np: NodeMerkleProof,
    plan: PaddedPath,
    st: NodePathStatement,
    node: MhotNodeWitness,
)
    requires
        node_valid(node),
        is_padded_path(plan, node.children@, node.selected_child as nat, false),
        states_node(np, node),
        is_node_statement(st, np),
    ensures
        st.n_blocks == plan.compressions@.len(),
        st.leaf@ == plan.leaf@,
        st.root@ == plan.root@,
        st.b_bits@ == plan.b_bits@,
{
    lemma_path_blocks(tree_depth(node.children@.len()));
    assert(st.b_bits@ =~= plan.b_bits@);
}

/// Decides on the proof of a node's path, given what the proof system says of
/// its statement.
pub fn verify_node_merkle(
    proof: &NodeMerkleProof,
    reply: Result<(), MerklePathVerifyError>,
) -> (r: Result<(), MerklePathVerifyError>)
    ensures
        r == reply,
{
    reply
}

/// The plans of the nodes on a path.
pub fn plan_path_merkle(nodes: &[MhotNodeWitness]) -> (plans: Vec<PaddedPath>)
    requires
        forall|i: int| 0 <= i < nodes@.len() ==> node_valid(#[trigger] nodes@[i]),
    ensures
        plans@.len() == nodes@.len(),
        forall|i: int|
            0 <= i < nodes@.len() ==> is_padded_path(
                #[trigger] plans@[i],
                nodes@[i].children@,
                nodes@[i].selected_child as nat,
                false,
            ),
{
    let mut plans: Vec<PaddedPath> = Vec::new();
    for i in 0..nodes.len()
        invariant
            forall|k: int| 0 <= k < nodes@.len() ==> node_valid(#[trigger] nodes@[k]),
            plans@.len() == i,
            forall|k: int|
                0 <= k < i ==> is_padded_path(
                    #[trigger] plans@[k],
                    nodes@[k].children@,
                    nodes@[k].selected_child as nat,
                    false,
                ),
    {
        plans.push(plan_node_merkle(&nodes[i]));
    }
    plans
}

/// What the proof system makes of one plan: the encoding of its proof, and the
/// commitment.
#[derive(Clone, Debug)]
pub struct ProvedPart {
    pub proof: Vec<u8>,
    pub commitment: Commitment,
}

fn copy_bytes(b: &Vec<u8>) -> (c: Vec<u8>)
    ensures
        c@ == b@,
{
    vstd::slice::slice_to_vec(b.as_slice())
}

/// The proofs of the nodes on a path, given what the proof system makes of
/// their plans.
pub fn prove_path_merkle(
    nodes: &[MhotNodeWitness],
    plans: &[PaddedPath],
    parts: &[ProvedPart],
) -> (proofs: Vec<NodeMerkleProof>)
    requires
        forall|i: int| 0 <= i < nodes@.len() ==> node_valid(#[trigger] nodes@[i]),
        plans@.len() == nodes@.len(),
        parts@.len() == nodes@.len(),
        forall|i: int|
            0 <= i < nodes@.len() ==> is_padded_path(
                #[trigger] plans@[i],
                nodes@[i].children@,
                nodes@[i].selected_child as nat,
                false,
            ),
    ensures
        proofs@.len() == nodes@.len(),
        forall|i: int|
            0 <= i < nodes@.len() ==> states_node(#[trigger] proofs@[i], nodes@[i])
                && proofs@[i].proof@ == parts@[i].proof@ && proofs@[i].commitment
                == parts@[i].commitment,
{
    let mut proofs: Vec<NodeMerkleProof> = Vec::new();
    for i in 0..nodes.len()
        invariant
            forall|k: int| 0 <= k < nodes@.len() ==> node_valid(#[trigger] nodes@[k]),
            plans@.len() == nodes@.len(),
            parts@.len() == nodes@.len(),
            forall|k: int|
                0 <= k < nodes@.len() ==> is_padded_path(
                    #[trigger] plans@[k],
                    nodes@[k].children@,
                    nodes@[k].selected_child as nat,
                    false,
                ),
            proofs@.len() == i,
            forall|k: int|
                0 <= k < i ==> states_node(#[trigger] proofs@[k], nodes@[k]) && proofs@[k].proof@
                    == parts@[k].proof@ && proofs@[k].commitment == parts@[k].commitment,
    {
        assert(node_valid(nodes@[i as int]));
        let np = prove_node_merkle(
            &nodes[i],
            &plans[i],
            copy_bytes(&parts[i].proof),
            parts[i].commitment,
        );
        proofs.push(np);
    }
    proofs
}

/// The first of `replies` from `i` on that is an error, or their number.
pub open spec fn first_error<E>(replies: Seq<Result<(), E>>, i: int) -> int
    decreases replies.len() - i,
{
    if i >= replies.len() || replies[i] is Err {
        i
    } else {
        first_error(replies, i + 1)
    }
}

/// Whether the replies to `n` questions, asked in order until one fails, are
/// complete.
pub open spec fn complete<E>(replies: Seq<Result<(), E>>, n: nat) -> bool {
    replies.len() == n || (replies.len() < n && replies.len() > 0 && replies.last() is Err)
}

/// The first node from `i` on that does not select the node below it, or the
/// last node.
pub open spec fn first_unlinked(leaves: Seq<[u32; 8]>, roots: Seq<[u32; 8]>, i: int) -> int
    decreases leaves.len() - i,
{
    if i + 1 >= leaves.len() || leaves[i] != roots[i + 1] {
        i
    } else {
        first_unlinked(leaves, roots, i + 1)
    }
}

/// What the links of a path come to: each leaf must be the root below it.
pub open spec fn links_verdict(
    leaves: Seq<[u32; 8]>,
    roots: Seq<[u32; 8]>,
) -> Result<(), MhotMembershipError> {
    let i = first_unlinked(leaves, roots, 0);
    if i + 1 < leaves.len() {
        Err(
            MhotMembershipError::CrossNodeBinding {
                parent_idx: i as usize,
                parent_leaf: leaves[i],
                child_root: roots[i + 1],
            },
        )
    } else {
        Ok(())
    }
}

/// The leaves of a path's nodes.
pub open spec fn node_leaves(proofs: Seq<NodeMerkleProof>) -> Seq<[u32; 8]> {
    proofs.map_values(|p: NodeMerkleProof| p.leaf)
}

/// What the paths of a path's nodes come to.
pub open spec fn node_roots(proofs: Seq<NodeMerkleProof>) -> Seq<[u32; 8]> {
    proofs.map_values(|p: NodeMerkleProof| p.root)
}

/// What verifying the nodes of a path comes to.
pub open spec fn path_verdict(
    proofs: Seq<NodeMerkleProof>,
    replies: Seq<Result<(), MerklePathVerifyError>>,
) -> Result<(), MhotMembershipError> {
    let e = first_error(replies, 0);
    if e < replies.len() {
        Err(MhotMembershipError::NodeVerify(replies[e]->Err_0))
    } else {
        links_verdict(node_leaves(proofs), node_roots(proofs))
    }
}

/// Checks that each node's leaf is the root below it.
pub fn check_links(leaves: &[[u32; 8]], roots: &[[u32; 8]]) -> (r: Result<
    (),
    MhotMembershipError,
>)
    requires
        leaves@.len() == roots@.len(),
    ensures
        r == links_verdict(leaves@, roots@),
{
    let n: usize = leaves.len();
    let mut i: usize = 0;
    while n > 0 && i < n - 1
        invariant
            n == leaves@.len() == roots@.len(),
            n > 0 ==> i <= n - 1,
            n == 0 ==> i == 0,
            first_unlinked(leaves@, roots@, 0) == first_unlinked(leaves@, roots@, i as int),
        decreases n - i,
    {
        if !crate::bytes::same_words(&leaves[i], &roots[i + 1]) {
            return Err(
                MhotMembershipError::CrossNodeBinding {
                    parent_idx: i,
                    parent_leaf: leaves[i],
                    child_root: roots[i + 1],
                },
            );
        }
        i = i + 1;
    }
    Ok(())
}

/// Decides on the nodes of a path, given what the proof system says of each,
/// asked in order until one fails.
pub fn verify_path_merkle(
    proofs: &[NodeMerkleProof],
    replies: &[Result<(), MerklePathVerifyError>],
) -> (r: Result<(), MhotMembershipError>)
    requires
        complete(replies@, proofs@.len()),
    ensures
        r == path_verdict(proofs@, replies@),
{
    for i in 0..replies.len()
        invariant
            first_error(replies@, 0) == first_error(replies@, i as int),
    {
        match replies[i] {
            Ok(()) => {},
            Err(e) => {
                return Err(MhotMembershipError::NodeVerify(e));
            },
        }
    }
    let mut leaves: Vec<[u32; 8]> = Vec::new();
    let mut roots: Vec<[u32; 8]> = Vec::new();
    for i in 0..proofs.len()
        invariant
            leaves@ == node_leaves(proofs@.take(i as int)),
            roots@ == node_roots(proofs@.take(i as int)),
    {
        leaves.push(proofs[i].leaf);
        roots.push(proofs[i].root);
        assert(leaves@ =~= node_leaves(proofs@.take(i + 1)));
        assert(roots@ =~= node_roots(proofs@.take(i + 1)));
    }
    assert(proofs@.take(proofs@.len() as int) =~= proofs@);
    check_links(leaves.as_slice(), roots.as_slice())
}

/// A path of `n` steps is padded to the least power of two that is at least
/// eight and at least `n`; a chain likewise.
#[verifier::rlimit(40)]
pub proof fn law_padded_lengths(n: nat, k: nat)
    ensures
        exists|d: nat| path_blocks(n) == #[trigger] pow2(d),
        exists|d: nat| chain_blocks(n) == #[trigger] pow2(d),
        n <= path_blocks(n) && 8 <= path_blocks(n),
        n <= chain_blocks(n) && 8 <= chain_blocks(n),
        n <= pow2(k) && 8 <= pow2(k) ==> path_blocks(n) <= pow2(k) && chain_blocks(n) <= pow2(k),
{
    lemma2_to64();
    let m = if n < 8 {
        8
    } else {
        n
    };
    law_next_pow2_is_least(m, k);
    law_next_pow2_is_least(n, k);
    law_next_pow2_is_least(8, k);
    lemma_pow2_is_pow2(3);
    assert(chain_blocks(n) == pow2(ceil_log2(m)));
    let d = if ceil_log2(n) < 3 {
        3
    } else {
        ceil_log2(n)
    };
    assert(path_blocks(n) == pow2(d));
    lemma_pow2_mono(ceil_log2(n), d);
    lemma_pow2_mono(3, d);
    if n <= pow2(k) && 8 <= pow2(k) {
        lemma_pow2_mono(d, k);
    }
}

/// A padded path, level by level. Each compression starts from the initial
/// value; the first takes the leaf, every other the output of the one before.
/// Up to the depth of the tree the value below meets its sibling, the sibling
/// first where the side bit is set; past it the value stands first and zeros
/// follow. The root is the output of the last.
#[verifier::rlimit(40)]
pub proof fn law_padded_path_level(
    p: PaddedPath,
    node: MhotNodeWitness,
    native_order: bool,
    d: int,
)
    requires
        node_valid(node),
        is_padded_path(p, node.children@, node.selected_child as nat, native_order),
        0 <= d < p.compressions@.len(),
    ensures
        p.b_bits@.len() == p.compressions@.len(),
        p.compressions@.len() == path_blocks(p.n_real as nat),
        pow2((p.n_real - 1) as nat) < node.children@.len() <= pow2(p.n_real as nat),
        p.compressions@[d].0@ == SHA256_IV@,
        ({
            let place = (node.selected_child as nat / pow2(d as nat)) as int;
            let own = if d == 0 {
                p.leaf@
            } else {
                compress(p.compressions@[d - 1].0@, p.compressions@[d - 1].1@)
            };
            let sib = if d >= p.n_real {
                Seq::new(8, |i: int| 0u32)
            } else {
                crate::native_witness::tree_node(
                    node.children@,
                    d as nat,
                    if place % 2 == 1 {
                        place - 1
                    } else {
                        place + 1
                    },
                )
            };
            &&& p.b_bits@[d] == (d < p.n_real && place % 2 == 1 && (native_order || d > 0))
            &&& p.compressions@[d].1@ == if p.b_bits@[d] {
                sib + own
            } else {
                own + sib
            }
        }),
        p.leaf@ == crate::native_witness::tree_node(
            node.children@,
            0,
            node.selected_child as int,
        ),
        p.root@ == compress(p.compressions@.last().0@, p.compressions@.last().1@),
        p.native_root@ == crate::native_witness::tree_node(node.children@, p.n_real as nat, 0),
{
    let sel = node.selected_child as nat;
    let children = node.children@;
    law_ancestor(sel, d as nat);
    lemma_ceil_log2(children.len());
    lemma_path_blocks(tree_depth(children.len()));
    assert(p.compressions@[d].0@ == SHA256_IV@);
    assert(p.compressions@[d].1@ == padded_block(children, sel, native_order, d as nat));
    lemma_padded_value_below(p, node, native_order, d as nat);
    lemma_padded_value_below(p, node, native_order, p.compressions@.len());
}

/// The value that a padded path has come to before level `d`.
spec fn padded_value(children: Seq<[u8; 32]>, sel: nat, native_order: bool, d: nat) -> Seq<u32> {
    let depth = tree_depth(children.len());
    if d <= depth {
        path_value(children, sel, native_order, d)
    } else {
        pad_value(path_value(children, sel, native_order, depth), (d - depth) as nat)
    }
}

proof fn lemma_padded_value_below(
    p: PaddedPath,
    node: MhotNodeWitness,
    native_order: bool,
    d: nat,
)
    requires
        is_padded_path(p, node.children@, node.selected_child as nat, native_order),
        d <= p.compressions@.len(),
    ensures
        padded_value(node.children@, node.selected_child as nat, native_order, d) == if d == 0 {
            p.leaf@
        } else {
            compress(p.compressions@[d - 1].0@, p.compressions@[d - 1].1@)
        },
        padded_value(node.children@, node.selected_child as nat, native_order, d).len() == 8,
{
    let sel = node.selected_child as nat;
    let depth = tree_depth(node.children@.len());
    crate::native_witness::lemma_path_value_len(
        node.children@,
        sel,
        native_order,
        if d <= depth {
            d
        } else {
            depth
        },
    );
    if d > 0 {
        let e = (d - 1) as nat;
        assert(p.compressions@[d - 1].0@ == SHA256_IV@);
        assert(p.compressions@[d - 1].1@ == padded_block(node.children@, sel, native_order, e));
        if d > depth {
            let v = path_value(node.children@, sel, native_order, depth);
            assert(pad_value(v, (d - depth) as nat) == hash_node(
                pad_value(v, (e - depth) as nat),
                zero_words(),
            ));
        }
    }
}

/// The proof of a node states what its plan proves: the same leaf, the same
/// two roots, and the side bits of the levels of the tree.
pub proof fn law_node_proof_states_plan(np: NodeMerkleProof, plan: PaddedPath, node: MhotNodeWitness)
    requires
        node_valid(node),
        is_padded_path(plan, node.children@, node.selected_child as nat, false),
        states_node(np, node),
    ensures
        np.leaf@ == plan.leaf@,
        np.root@ == plan.root@,
        np.native_root@ == plan.native_root@,
        np.n_real_compressions == plan.n_real,
        np.b_bits@.len() == plan.n_real,
        forall|d: int| 0 <= d < plan.n_real ==> #[trigger] np.b_bits@[d] == plan.b_bits@[d],
        forall|d: int| plan.n_real <= d < plan.b_bits@.len() ==> !#[trigger] plan.b_bits@[d],
{
    lemma_path_blocks(tree_depth(node.children@.len()));
}

/// An extended chain, block by block: it starts from the initial value, each
/// block is compressed onto the output of the one before, the real blocks are
/// those of the padded message and the rest are zero.
#[verifier::rlimit(40)]
pub proof fn law_extended_chain_block(chain: Seq<Compression>, data: Seq<u8>, i: int, j: int)
    requires
        8 * data.len() <= u64::MAX,
        is_extended_chain(chain, data),
        0 <= i < chain.len(),
        0 <= j < 16,
    ensures
        pad(data).len() / 64 <= chain.len(),
        chain[i].0@ == if i == 0 {
            SHA256_IV@
        } else {
            compress(chain[i - 1].0@, chain[i - 1].1@)
        },
        i < pad(data).len() / 64 ==> chain[i].1@[j] == 0x100_0000 * pad(data)[64 * i + 4 * j]
            + 0x1_0000 * pad(data)[64 * i + 4 * j + 1] + 0x100 * pad(data)[64 * i + 4 * j + 2]
            + pad(data)[64 * i + 4 * j + 3],
        i >= pad(data).len() / 64 ==> chain[i].1@[j] == 0,
        i == pad(data).len() / 64 - 1 ==> compress(chain[i].0@, chain[i].1@) == sha256_words(data),
{
    law_pad_layout(data);
    let n = block_count(data.len()) as int;
    let own = chain.take(n);
    if i < n {
        assert(own[i] == chain[i]);
        law_be_word_value(pad(data), 64 * i + 4 * j);
    }
    if 0 < i <= n {
        assert(own[i - 1] == chain[i - 1]);
    }
    if i > n {
        assert(chain_pad(sha256_words(data), (i - n) as nat) == compress(
            chain_pad(sha256_words(data), (i - 1 - n) as nat),
            zero_block(),
        ));
        assert(chain[i - 1].1@ == zero_block());
    }
}

/// What a content hash covers: the message laid out from the masks, the keys,
/// the tree's root and the counts.
pub proof fn law_content_hash_message(meta: Meta, root: Seq<u32>, bytes: Seq<u8>)
    ensures
        meta.preimage(bytes) == content_preimage(meta.masks, meta.keys, bytes, meta.counts),
        meta.content_hash(root) == sha256_words(
            content_preimage(meta.masks, meta.keys, words_be(root), meta.counts),
        ),
{
}

/// Bit `8 k + t` of a digest's bits is bit `t` of its byte `k`.
pub proof fn law_route_bits(d: Seq<u8>, k: int, t: int)
    requires
        0 <= k < 32,
        0 <= t < 8,
    ensures
        route_bits(d).len() == 256,
        route_bits(d)[8 * k + t] <==> (d[k] >> (t as u8)) & 1 == 1,
{
    assert((8 * k + t) / 8 == k && (8 * k + t) % 8 == t);
}

/// The two elements of a digest hold its 256 bits in order, 64 in each half,
/// the low half of each element first.
pub proof fn law_sof_bits(first: F128, second: F128, bits: Seq<bool>, p: int)
    requires
        bits.len() == 256,
        is_sof(first, second, bits),
        0 <= p < 64,
    ensures
        (first.lo >> (p as u64)) & 1 == 1 <==> bits[p],
        (first.hi >> (p as u64)) & 1 == 1 <==> bits[64 + p],
        (second.lo >> (p as u64)) & 1 == 1 <==> bits[128 + p],
        (second.hi >> (p as u64)) & 1 == 1 <==> bits[192 + p],
{
    assert(bit_at(element_words(first), p) == bits.subrange(0, 128)[p]);
    assert(bit_at(element_words(first), 64 + p) == bits.subrange(0, 128)[64 + p]);
    assert(bit_at(element_words(second), p) == bits.subrange(128, 256)[p]);
    assert(bit_at(element_words(second), 64 + p) == bits.subrange(128, 256)[64 + p]);
}

/// The walk from a leaf: at each level one compression from the initial value,
/// the sibling first where its side is set.
pub proof fn law_walk_steps(leaf: Seq<u32>, siblings: Seq<[u32; 8]>, sides: Seq<bool>, n: nat)
    ensures
        walk_value(leaf, siblings, sides, 0) == leaf,
        walk_value(leaf, siblings, sides, n + 1) == compress(
            SHA256_IV@,
            if sides[n as int] {
                siblings[n as int]@ + walk_value(leaf, siblings, sides, n)
            } else {
                walk_value(leaf, siblings, sides, n) + siblings[n as int]@
            },
        ),
{
}

/// The route through a node: five mask bits, the key spells the selected child
/// in binary, and the children are the node's, with blank ones after.
pub proof fn law_node_route_fields(children: Seq<[u8; 32]>, sel: nat, c: int, j: int)
    requires
        0 <= c < 32,
        0 <= j < 256,
    ensures
        ({
            let r = node_route(children, sel);
            &&& r.key.len() == 256 && r.mask.len() == 256 && r.children.len() == 32
            &&& r.mask[j] <==> j < 5
            &&& r.key[j] <==> j < 5 && sel / pow2(j as nat) % 2 == 1
            &&& r.children[c].len() == 256
            &&& r.children[c][j] <==> c < children.len() && (children[c]@[j / 8] >> ((j
                % 8) as u8)) & 1 == 1
        }),
{
    law_ancestor(sel, j as nat);
}

/// The first reply that is an error: all before it are not.
pub proof fn law_first_error<E>(replies: Seq<Result<(), E>>, i: int)
    requires
        0 <= i <= replies.len(),
    ensures
        i <= first_error(replies, i) <= replies.len(),
        forall|k: int| i <= k < first_error(replies, i) ==> #[trigger] replies[k] is Ok,
        first_error(replies, i) < replies.len() ==> replies[first_error(replies, i)] is Err,
    decreases replies.len() - i,
{
    if i < replies.len() && replies[i] is Ok {
        law_first_error(replies, i + 1);
    }
}

proof fn lemma_first_unlinked(leaves: Seq<[u32; 8]>, roots: Seq<[u32; 8]>, i: int)
    requires
        0 <= i < leaves.len(),
        leaves.len() == roots.len(),
    ensures
        i <= first_unlinked(leaves, roots, i) < leaves.len(),
        forall|k: int|
            i <= k < first_unlinked(leaves, roots, i) ==> #[trigger] leaves[k] == roots[k + 1],
        first_unlinked(leaves, roots, i) + 1 < leaves.len() ==> leaves[first_unlinked(
            leaves,
            roots,
            i,
        )] != roots[first_unlinked(leaves, roots, i) + 1],
    decreases leaves.len() - i,
{
    if i + 1 < leaves.len() && leaves[i] == roots[i + 1] {
        lemma_first_unlinked(leaves, roots, i + 1);
    }
}

/// Nodes are linked where the leaf of each is the root of the next.
pub proof fn law_links_verdict(leaves: Seq<[u32; 8]>, roots: Seq<[u32; 8]>)
    requires
        leaves.len() == roots.len(),
    ensures
        links_verdict(leaves, roots) is Ok <==> forall|i: int|
            0 <= i < leaves.len() - 1 ==> #[trigger] leaves[i] == roots[i + 1],
{
    if leaves.len() > 0 {
        lemma_first_unlinked(leaves, roots, 0);
    }
}

/// Of nodes that are not linked, the first pair is named, with both values.
pub proof fn law_unlinked_pair_is_named(leaves: Seq<[u32; 8]>, roots: Seq<[u32; 8]>, i: int)
    requires
        leaves.len() == roots.len(),
        0 <= i < leaves.len() - 1,
        forall|k: int| 0 <= k < i ==> #[trigger] leaves[k] == roots[k + 1],
        leaves[i] != roots[i + 1],
    ensures
        links_verdict(leaves, roots) == Err::<(), MhotMembershipError>(
            MhotMembershipError::CrossNodeBinding {
                parent_idx: i as usize,
                parent_leaf: leaves[i],
                child_root: roots[i + 1],
            },
        ),
{
    lemma_first_unlinked(leaves, roots, 0);
}

/// A path of node proofs is accepted where every reply is, and the leaf of
/// each proof is the root of the next.
pub proof fn law_path_accepted_iff(
    proofs: Seq<NodeMerkleProof>,
    replies: Seq<Result<(), MerklePathVerifyError>>,
)
    requires
        complete(replies, proofs.len()),
    ensures
        path_verdict(proofs, replies) is Ok <==> {
            &&& replies.len() == proofs.len()
            &&& forall|i: int| 0 <= i < replies.len() ==> #[trigger] replies[i] is Ok
            &&& forall|i: int|
                0 <= i < proofs.len() - 1 ==> (#[trigger] proofs[i]).leaf == proofs[i + 1].root
        },
{
    law_first_error(replies, 0);
    let (leaves, roots) = (node_leaves(proofs), node_roots(proofs));
    law_links_verdict(leaves, roots);
    if forall|i: int|
        0 <= i < proofs.len() - 1 ==> (#[trigger] proofs[i]).leaf == proofs[i + 1].root {
        assert forall|i: int| 0 <= i < leaves.len() - 1 implies #[trigger] leaves[i] == roots[i
            + 1] by {
            assert(proofs[i].leaf == proofs[i + 1].root);
        }
    }
    if forall|i: int| 0 <= i < leaves.len() - 1 ==> #[trigger] leaves[i] == roots[i + 1] {
        assert forall|i: int| 0 <= i < proofs.len() - 1 implies (#[trigger] proofs[i]).leaf
            == proofs[i + 1].root by {
            assert(leaves[i] == roots[i + 1]);
        }
    }
}

/// Of replies that are not all accepted, the first error is the verdict.
pub proof fn law_path_refused_by_first_reply(
    proofs: Seq<NodeMerkleProof>,
    replies: Seq<Result<(), MerklePathVerifyError>>,
    i: int,
)
    requires
        0 <= i < replies.len(),
        forall|k: int| 0 <= k < i ==> #[trigger] replies[k] is Ok,
        replies[i] is Err,
    ensures
        path_verdict(proofs, replies) == Err::<(), MhotMembershipError>(
            MhotMembershipError::NodeVerify(replies[i]->Err_0),
        ),
{
    law_first_error(replies, 0);
}

/// Padding adds compressions up to the number asked for: each joins the output
/// of the one before, or zeros where there is none, with zeros.
pub proof fn law_padded_compressions(
    before: Seq<Compression>,
    after: Seq<Compression>,
    needed: nat,
    i: int,
)
    requires
        is_padded(before, after, needed),
        0 <= i < after.len(),
    ensures
        after.len() == if before.len() < needed {
            needed
        } else {
            before.len()
        },
        i < before.len() ==> after[i] == before[i],
        i >= before.len() ==> {
            let zero = Seq::new(8, |k: int| 0u32);
            &&& after[i].0@ == SHA256_IV@
            &&& after[i].1@ == (if i == 0 {
                zero
            } else {
                compress(after[i - 1].0@, after[i - 1].1@)
            }) + zero
        },
{
    let n = before.len() as int;
    if i >= n {
        let zero = Seq::new(8, |k: int| 0u32);
        assert(zero_words() =~= zero);
        assert(after[i].1@ == pad_value(last_output(before), (i - n) as nat) + zero_words());
        if i > n {
            assert(after[i - 1].0@ == SHA256_IV@);
            assert(after[i - 1].1@ == pad_value(last_output(before), (i - 1 - n) as nat)
                + zero_words());
            assert(pad_value(last_output(before), (i - n) as nat) == hash_node(
                pad_value(last_output(before), (i - 1 - n) as nat),
                zero_words(),
            ));
        } else if i > 0 {
            assert(after[i - 1] == before[i - 1]);
        }
    }
}

/// An element packs up to 128 bits, the first 64 in its low half.
pub proof fn law_packed_bits(v: F128, bits: Seq<bool>, k: int)
    requires
        has_bits(v, bits),
        0 <= k < 64,
    ensures
        (v.lo >> (k as u64)) & 1 == 1 <==> k < bits.len() && bits[k],
        (v.hi >> (k as u64)) & 1 == 1 <==> 64 + k < bits.len() && bits[64 + k],
{
    assert(bit_at(element_words(v), k) == (k < bits.len() && bits[k]));
    assert(bit_at(element_words(v), 64 + k) == (64 + k < bits.len() && bits[64 + k]));
}

} // verus!
