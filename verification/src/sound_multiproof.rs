//! One proof for many paths: the form of the proof, and how it is verified.

use vstd::arithmetic::div_mod::lemma_basic_div;
use vstd::arithmetic::power2::{lemma2_to64, lemma_pow2_adds, lemma_pow2_pos, pow2};
use vstd::prelude::*;

use crate::backend::{
    asks_base, transcript, BaseQuestion, Commitment, Observed, Relation, TranscriptOp, VerifyError,
};
use crate::bytes::{
    append_u64_le, append_words_le, be_words, digest_words, le64, lemma_words_array, same_words,
    words_array, words_be, words_le,
};
use crate::entry_binding::{
    bits_value, compute_dense_key, count_mask_bits, discriminative_bits, law_routed_child,
    leaf_content_hash, leaf_preimage, lemma_bit_of_value, lemma_bits_value_bound,
    lemma_dense_key_fits, lemma_routed_child, mask_width, routed_child, search_in_sparse_keys,
    PathEntry,
};
use crate::math::{
    ceil_log2, is_pow2, is_power_of_two, law_next_pow2_is_least, lemma_ceil_log2,
    lemma_ceil_log2_of_bound, lemma_pow2_is_pow2, log2_ceil, next_pow2, next_power_of_two,
    power_of_two,
};
use crate::membership_proof::{is_output_claims, leaf_output_claims, leaf_outputs};
use crate::merkle_membership::{
    compute_content_hash, is_padded_path, leaf_words_to_digest_bytes, pad_value, padded_path,
    padded_sides, zero_words, ContentMeta, MhotMembershipError, PaddedPath,
};
use crate::mhot_to_sha256::content_preimage;
use crate::multiproof::{fork_observed, fork_pcs_challenger};
use crate::native_witness::{
    ancestor, hash_node, join_block, law_ancestor, law_tree_nodes, path_block, path_value, tree_leaf,
    tree_node, MhotNodeWitness,
};
use crate::route_f32_setup::RouteF32Setup;
use crate::sha256::{compress, sha256, sha256_compress, sha256_words, SHA256_IV};

verus! {

/// The most blocks that a node's path may have.
pub const MAX_MERKLE_BLOCKS: usize = 64;

/// How many blocks every node's path has.
pub const MERKLE_BLOCKS_PER_NODE: usize = 8;

/// The greatest base-two logarithm of the number of hash blocks.
pub const MAX_N_LOG_MERKLE: usize = 20;

/// The greatest length of an entry's value.
pub const MAX_ENTRY_VALUE_LEN: usize = 0x10_0000;

/// The pairs that each path runs through, from the root down.
#[derive(Clone, Debug)]
pub struct PathMapping {
    pub node_indices: Vec<Vec<usize>>,
}

/// A proof for many paths. A pair is a node and a selected child of it; each
/// pair is proved once, and what only depends on the node is stated once for
/// all its pairs.
#[derive(Clone, Debug)]
pub struct SoundMultiproof {
    pub merkle_zc: Vec<u8>,
    pub merkle_lc: Vec<u8>,
    pub merkle_pcs: Vec<u8>,
    pub merkle_commitment: Commitment,
    /// The proof that the committed blocks form the paths of all pairs.
    pub merkle_shift: Vec<u8>,
    /// For each pair, the digest of its selected child.
    pub merkle_leaves: Vec<[u32; 8]>,
    /// For each pair, the sides of its path.
    pub merkle_b_bits: Vec<Vec<bool>>,
    /// For each pair, its node.
    pub pair_phys: Vec<usize>,
    /// For each node, what its padded paths come to.
    pub merkle_roots: Vec<[u32; 8]>,
    /// For each node, the root of its tree.
    pub merkle_native_roots: Vec<[u32; 8]>,
    pub content_metas: Vec<ContentMeta>,
    pub merkle_block_counts: Vec<usize>,
    pub n_log_merkle: usize,
    pub route_zc: Vec<u8>,
    pub route_lc: Vec<u8>,
    pub route_pcs: Vec<u8>,
    pub route_commitment: Commitment,
    pub n_routes: usize,
    pub path_depths: Vec<usize>,
    pub path_mapping: PathMapping,
}

/// The height of a node's tree, from its fanout.
pub fn innode_depth(meta: &ContentMeta) -> (d: usize)
    ensures
        d == ceil_log2(meta@.keys.len()),
        d <= usize::BITS,
{
    let n: usize = meta.sparse_partial_keys.len();
    if n == 0 {
        return 0;
    }
    proof {
        lemma2_to64();
        if usize::BITS == 32 {
            crate::math::lemma_ceil_log2_of_bound(n as nat, 32);
        } else {
            crate::math::lemma_ceil_log2_of_bound(n as nat, 64);
        }
    }
    log2_ceil(n)
}

/// The error for a proof that cannot be related to the root at all.
pub open spec fn no_root(expected: [u32; 8]) -> MhotMembershipError {
    MhotMembershipError::RootMismatch { expected, actual: words_array(zero_words()) }
}

fn no_root_error(expected: &[u32; 8]) -> (e: MhotMembershipError)
    ensures
        e == no_root(*expected),
{
    let zeros = [0u32; 8];
    proof {
        assert(zeros@ =~= zero_words());
        lemma_words_array(zeros);
    }
    MhotMembershipError::RootMismatch { expected: *expected, actual: zeros }
}

impl SoundMultiproof {
    /// The number of pairs.
    pub open spec fn pairs(self) -> nat {
        self.merkle_leaves@.len()
    }

    /// The number of nodes.
    pub open spec fn nodes(self) -> nat {
        self.merkle_roots@.len()
    }

    /// Whether what is stated per pair and per node is as long as there are
    /// pairs and nodes.
    pub open spec fn aligned(self) -> bool {
        &&& self.pairs() > 0
        &&& self.merkle_b_bits@.len() == self.pairs()
        &&& self.pair_phys@.len() == self.pairs()
        &&& self.nodes() > 0
        &&& self.merkle_native_roots@.len() == self.nodes()
        &&& self.content_metas@.len() == self.nodes()
        &&& self.merkle_block_counts@.len() == self.nodes()
    }

    /// The height of the tree of node `p`.
    pub open spec fn depth(self, p: int) -> nat {
        ceil_log2(self.content_metas@[p]@.keys.len())
    }

    /// Whether the content and the block count of node `p` have the form that
    /// a node's have.
    pub open spec fn node_formed(self, p: int) -> bool {
        let meta = self.content_metas@[p]@;
        let count = self.merkle_block_counts@[p];
        &&& mask_width(meta.masks) <= 32
        &&& meta.keys.len() == meta.counts.len()
        &&& 2 <= meta.keys.len() <= 32
        &&& self.depth(p) <= count
        &&& is_pow2(count as nat)
        &&& count <= 64
    }

    /// What the form of the nodes from `p` on comes to.
    pub open spec fn nodes_form(self, root: [u32; 8], p: int) -> Result<(), MhotMembershipError>
        decreases self.nodes() - p,
    {
        if p >= self.nodes() {
            Ok(())
        } else if !self.node_formed(p) {
            Err(no_root(root))
        } else if self.merkle_block_counts@[p] != 8 {
            Err(
                MhotMembershipError::MalformedProof {
                    reason: "non-uniform merkle block count (expected 8)",
                },
            )
        } else {
            self.nodes_form(root, p + 1)
        }
    }

    /// What the form of the pairs from `i` on comes to.
    pub open spec fn pairs_form(self, i: int) -> Result<(), MhotMembershipError>
        decreases self.pairs() - i,
    {
        if i >= self.pairs() {
            Ok(())
        } else if self.pair_phys@[i] >= self.nodes() {
            Err(MhotMembershipError::MalformedProof { reason: "pair_phys index out of range" })
        } else if self.merkle_b_bits@[i]@.len() != 8 {
            Err(MhotMembershipError::MalformedProof { reason: "b_bits length != 8" })
        } else {
            self.pairs_form(i + 1)
        }
    }

    /// What the form of the proof comes to, where a proof covers `min_n`
    /// blocks at the least.
    pub open spec fn form(self, root: [u32; 8], min_n: nat) -> Result<(), MhotMembershipError> {
        if !self.aligned() {
            Err(no_root(root))
        } else if self.n_log_merkle > 20 {
            Err(MhotMembershipError::MalformedProof { reason: "n_log_merkle over absolute cap" })
        } else if self.n_routes != self.pairs() {
            Err(MhotMembershipError::MalformedProof { reason: "n_routes != unique pair count" })
        } else if self.nodes() > self.pairs() {
            Err(MhotMembershipError::MalformedProof { reason: "n_phys exceeds pair count" })
        } else if self.nodes_form(root, 0) is Err {
            self.nodes_form(root, 0)
        } else if self.pairs_form(0) is Err {
            self.pairs_form(0)
        } else if pow2(self.n_log_merkle as nat) != allocated_blocks(self.pairs(), min_n) {
            Err(
                MhotMembershipError::MalformedProof {
                    reason: "n_log_merkle != canonical allocation size",
                },
            )
        } else {
            Ok(())
        }
    }
}

/// How many blocks are committed for `u` pairs.
pub open spec fn allocated_blocks(u: nat, min_n: nat) -> nat {
    next_pow2(if 8 * u < min_n {
        min_n
    } else {
        8 * u
    })
}

/// At least eight blocks are committed per pair, and no more than `2^22` for
/// up to `2^17` pairs where a proof covers no more at the least.
pub proof fn lemma_allocated_blocks(u: nat, min_n: nat)
    requires
        u > 0,
    ensures
        allocated_blocks(u, min_n) >= 8 * u,
        allocated_blocks(u, min_n) >= min_n,
        u <= 0x2_0000 && min_n <= 0x40_0000 ==> allocated_blocks(u, min_n) <= 0x40_0000,
{
    let n = if 8 * u < min_n {
        min_n
    } else {
        8 * u
    };
    lemma_ceil_log2(n);
    lemma2_to64();
    if u <= 0x2_0000 && min_n <= 0x40_0000 {
        crate::math::lemma_ceil_log2_of_bound(n, 22);
        crate::math::lemma_pow2_mono(ceil_log2(n), 22);
    }
}

/// How many blocks are committed for `u` pairs.
pub fn allocate_blocks(u: usize, min_n: usize) -> (n: usize)
    requires
        allocated_blocks(u as nat, min_n as nat) <= usize::MAX,
        u > 0,
    ensures
        n == allocated_blocks(u as nat, min_n as nat),
        n >= 8 * u,
        n >= min_n,
{
    proof {
        lemma_ceil_log2(if 8 * (u as nat) < min_n {
            min_n as nat
        } else {
            8 * (u as nat)
        });
    }
    let n_real: usize = u * MERKLE_BLOCKS_PER_NODE;
    next_power_of_two(
        if n_real < min_n {
            min_n
        } else {
            n_real
        },
    )
}

/// Checks the form of a proof. Nothing else of a proof is looked at before
/// this passes, so that no size in it is believed unchecked.
pub fn check_form(proof: &SoundMultiproof, expected_root: &[u32; 8], min_n: usize) -> (r: Result<
    (),
    MhotMembershipError,
>)
    ensures
        r == proof.form(*expected_root, min_n as nat),
{
    let u: usize = proof.merkle_leaves.len();
    let n_phys: usize = proof.merkle_roots.len();
    if u == 0 || u != proof.merkle_b_bits.len() || u != proof.pair_phys.len() || n_phys == 0
        || n_phys != proof.merkle_native_roots.len() || n_phys != proof.content_metas.len()
        || n_phys != proof.merkle_block_counts.len() {
        return Err(no_root_error(expected_root));
    }
    if proof.n_log_merkle > MAX_N_LOG_MERKLE {
        return Err(
            MhotMembershipError::MalformedProof { reason: "n_log_merkle over absolute cap" },
        );
    }
    if proof.n_routes != u {
        return Err(
            MhotMembershipError::MalformedProof { reason: "n_routes != unique pair count" },
        );
    }
    if n_phys > u {
        return Err(MhotMembershipError::MalformedProof { reason: "n_phys exceeds pair count" });
    }
    match check_nodes_form(proof, expected_root) {
        Err(e) => {
            return Err(e);
        },
        Ok(()) => {},
    }
    match check_pairs_form(proof) {
        Err(e) => {
            return Err(e);
        },
        Ok(()) => {},
    }
    proof {
        lemma2_to64();
        crate::math::lemma_pow2_mono(proof.n_log_merkle as nat, 20);
        lemma_allocated_blocks(u as nat, min_n as nat);
    }
    if u > 0x2_0000 || min_n > 0x40_0000 || power_of_two(proof.n_log_merkle) != allocate_blocks(
        u,
        min_n,
    ) {
        return Err(
            MhotMembershipError::MalformedProof {
                reason: "n_log_merkle != canonical allocation size",
            },
        );
    }
    Ok(())
}

fn check_nodes_form(proof: &SoundMultiproof, expected_root: &[u32; 8]) -> (r: Result<
    (),
    MhotMembershipError,
>)
    requires
        proof.aligned(),
    ensures
        r == proof.nodes_form(*expected_root, 0),
{
    for p in 0..proof.merkle_roots.len()
        invariant
            proof.aligned(),
            proof.nodes_form(*expected_root, 0) == proof.nodes_form(*expected_root, p as int),
    {
        let meta: &ContentMeta = &proof.content_metas[p];
        let mask_bits: usize = count_mask_bits(&meta.extraction_masks);
        let fanout: usize = meta.sparse_partial_keys.len();
        let count: usize = proof.merkle_block_counts[p];
        if mask_bits > 32 || fanout != meta.child_leaf_counts.len() || fanout < 2 || fanout > 32
            || innode_depth(meta) > count || !is_power_of_two(count) || count > MAX_MERKLE_BLOCKS {
            assert(!proof.node_formed(p as int));
            return Err(no_root_error(expected_root));
        }
        if count != MERKLE_BLOCKS_PER_NODE {
            return Err(
                MhotMembershipError::MalformedProof {
                    reason: "non-uniform merkle block count (expected 8)",
                },
            );
        }
    }
    Ok(())
}

fn check_pairs_form(proof: &SoundMultiproof) -> (r: Result<(), MhotMembershipError>)
    requires
        proof.aligned(),
    ensures
        r == proof.pairs_form(0),
{
    for i in 0..proof.merkle_leaves.len()
        invariant
            proof.aligned(),
            proof.pairs_form(0) == proof.pairs_form(i as int),
    {
        if proof.pair_phys[i] >= proof.merkle_roots.len() {
            return Err(
                MhotMembershipError::MalformedProof { reason: "pair_phys index out of range" },
            );
        }
        if proof.merkle_b_bits[i].len() != MERKLE_BLOCKS_PER_NODE {
            return Err(MhotMembershipError::MalformedProof { reason: "b_bits length != 8" });
        }
    }
    Ok(())
}

/// Digests as little-endian words, one after another.
pub open spec fn digests_le(ds: Seq<[u32; 8]>) -> Seq<u8>
    decreases ds.len(),
{
    if ds.len() == 0 {
        Seq::empty()
    } else {
        digests_le(ds.drop_last()) + words_le(ds.last()@)
    }
}

/// A bit as a byte.
pub open spec fn bit_byte(b: bool) -> u8 {
    if b {
        1
    } else {
        0
    }
}

/// Bits as bytes.
pub open spec fn bits_bytes(bits: Seq<bool>) -> Seq<u8> {
    bits.map_values(|b: bool| bit_byte(b))
}

/// Bits are determined by their bytes.
pub proof fn lemma_bits_bytes_injective(a: Seq<bool>, b: Seq<bool>)
    requires
        bits_bytes(a) == bits_bytes(b),
    ensures
        a == b,
{
    assert(bits_bytes(a).len() == a.len() && bits_bytes(b).len() == b.len());
    assert forall|i: int| 0 <= i < a.len() implies a[i] == b[i] by {
        assert(bits_bytes(a)[i] == bit_byte(a[i]));
        assert(bits_bytes(b)[i] == bit_byte(b[i]));
    }
    assert(a =~= b);
}

/// Lists of bits as bytes, each behind its length.
pub open spec fn bit_lists(lists: Seq<Vec<bool>>) -> Seq<u8>
    decreases lists.len(),
{
    if lists.len() == 0 {
        Seq::empty()
    } else {
        bit_lists(lists.drop_last()) + le64(lists.last()@.len() as u64) + bits_bytes(
            lists.last()@,
        )
    }
}

/// Numbers as little-endian words.
pub open spec fn numbers_le(ns: Seq<usize>) -> Seq<u8>
    decreases ns.len(),
{
    if ns.len() == 0 {
        Seq::empty()
    } else {
        numbers_le(ns.drop_last()) + le64(ns.last() as u64)
    }
}

/// Everything public that the proof of all paths is about, as one string of
/// bytes.
pub open spec fn public_io(
    leaves: Seq<[u32; 8]>,
    b_bits: Seq<Vec<bool>>,
    pair_phys: Seq<usize>,
    roots: Seq<[u32; 8]>,
    n_log_merkle: usize,
    n_routes: usize,
) -> Seq<u8> {
    le64(leaves.len() as u64) + digests_le(leaves) + le64(b_bits.len() as u64) + bit_lists(b_bits)
        + le64(pair_phys.len() as u64) + numbers_le(pair_phys) + le64(roots.len() as u64)
        + digests_le(roots) + le64(n_log_merkle as u64) + le64(n_routes as u64)
}

/// What is put into the transcript for these bytes.
pub open spec fn io_observed(bytes: Seq<u8>) -> Seq<Observed> {
    seq![Observed::Label("mhot-sound-public-io-v0"@), Observed::Bytes(bytes)]
}

fn append_digests(buf: &mut Vec<u8>, ds: &[[u32; 8]])
    ensures
        final(buf)@ == old(buf)@ + digests_le(ds@),
{
    assert(buf@ =~= old(buf)@ + digests_le(ds@.take(0)));
    for i in 0..ds.len()
        invariant
            buf@ == old(buf)@ + digests_le(ds@.take(i as int)),
    {
        append_words_le(buf, ds[i].as_slice());
        assert(ds@.take(i + 1).drop_last() =~= ds@.take(i as int));
        assert(buf@ =~= old(buf)@ + digests_le(ds@.take(i + 1)));
    }
    assert(ds@.take(ds@.len() as int) =~= ds@);
}

fn append_bits(buf: &mut Vec<u8>, bits: &Vec<bool>)
    ensures
        final(buf)@ == old(buf)@ + bits_bytes(bits@),
{
    for i in 0..bits.len()
        invariant
            buf@ == old(buf)@ + bits_bytes(bits@.take(i as int)),
    {
        buf.push(
            if bits[i] {
                1
            } else {
                0
            },
        );
        assert(buf@ =~= old(buf)@ + bits_bytes(bits@.take(i + 1)));
    }
    assert(bits@.take(bits@.len() as int) =~= bits@);
}

fn append_bit_lists(buf: &mut Vec<u8>, lists: &[Vec<bool>])
    ensures
        final(buf)@ == old(buf)@ + bit_lists(lists@),
{
    assert(buf@ =~= old(buf)@ + bit_lists(lists@.take(0)));
    for i in 0..lists.len()
        invariant
            buf@ == old(buf)@ + bit_lists(lists@.take(i as int)),
    {
        append_u64_le(buf, lists[i].len() as u64);
        append_bits(buf, &lists[i]);
        assert(lists@.take(i + 1).drop_last() =~= lists@.take(i as int));
        assert(buf@ =~= old(buf)@ + bit_lists(lists@.take(i + 1)));
    }
    assert(lists@.take(lists@.len() as int) =~= lists@);
}

fn append_numbers(buf: &mut Vec<u8>, ns: &[usize])
    ensures
        final(buf)@ == old(buf)@ + numbers_le(ns@),
{
    assert(buf@ =~= old(buf)@ + numbers_le(ns@.take(0)));
    for i in 0..ns.len()
        invariant
            buf@ == old(buf)@ + numbers_le(ns@.take(i as int)),
    {
        append_u64_le(buf, ns[i] as u64);
        assert(ns@.take(i + 1).drop_last() =~= ns@.take(i as int));
        assert(buf@ =~= old(buf)@ + numbers_le(ns@.take(i + 1)));
    }
    assert(ns@.take(ns@.len() as int) =~= ns@);
}

/// What prover and verifier put into the transcript before the challenges
/// that join the paths of all pairs into one claim: everything public that
/// this claim is about.
pub fn absorb_public_io(
    leaves: &[[u32; 8]],
    b_bits: &[Vec<bool>],
    pair_phys: &[usize],
    roots: &[[u32; 8]],
    n_log_merkle: usize,
    n_routes: usize,
) -> (ops: Vec<TranscriptOp>)
    ensures
        transcript(ops@) == io_observed(
            public_io(leaves@, b_bits@, pair_phys@, roots@, n_log_merkle, n_routes),
        ),
{
    let mut buf: Vec<u8> = Vec::new();
    append_u64_le(&mut buf, leaves.len() as u64);
    append_digests(&mut buf, leaves);
    append_u64_le(&mut buf, b_bits.len() as u64);
    append_bit_lists(&mut buf, b_bits);
    append_u64_le(&mut buf, pair_phys.len() as u64);
    append_numbers(&mut buf, pair_phys);
    append_u64_le(&mut buf, roots.len() as u64);
    append_digests(&mut buf, roots);
    append_u64_le(&mut buf, n_log_merkle as u64);
    append_u64_le(&mut buf, n_routes as u64);
    assert(buf@ =~= public_io(leaves@, b_bits@, pair_phys@, roots@, n_log_merkle, n_routes));
    let mut ops: Vec<TranscriptOp> = Vec::new();
    ops.push(TranscriptOp::Label("mhot-sound-public-io-v0"));
    ops.push(TranscriptOp::Bytes(buf));
    assert(transcript(ops@) =~= io_observed(
        public_io(leaves@, b_bits@, pair_phys@, roots@, n_log_merkle, n_routes),
    ));
    ops
}

/// A zero digest.
pub open spec fn zero_digest() -> [u8; 32] {
    choose|d: [u8; 32]| d@ == Seq::new(32, |i: int| 0u8)
}

/// The children of the node that stands behind the last pair: two zero
/// digests.
pub open spec fn dummy_children() -> Seq<[u8; 32]> {
    seq![zero_digest(), zero_digest()]
}

/// The path that fills the blocks behind the last pair.
pub fn dummy_padding_chain() -> (p: PaddedPath)
    ensures
        is_padded_path(p, dummy_children(), 0, true),
        p.compressions@.len() == 8,
        p.b_bits@ == filler_sides(),
        p.leaf@ == filler_leaf(),
        p.root@ == filler_root(),
{
    let zero = [0u8; 32];
    proof {
        let d = zero_digest();
        assert(zero@ =~= Seq::new(32, |i: int| 0u8));
        assert(d@ == zero@);
        assert(d =~= zero) by {
            assert forall|i: int| 0 <= i < 32 implies d[i] == zero[i] by {
                assert(d@[i] == zero@[i]);
            }
        }
    }
    let mut children: Vec<[u8; 32]> = Vec::new();
    children.push(zero);
    children.push(zero);
    let node = MhotNodeWitness { children, selected_child: 0 };
    proof {
        assert(node.children@ =~= dummy_children());
        reveal_with_fuel(ceil_log2, 3);
        lemma2_to64();
        crate::merkle_membership::lemma_path_blocks(1);
    }
    padded_path(&node, true)
}

/// What the proof system is asked about the paths of all pairs: for each of
/// `2^path_log` paths its leaf and root, and the sides of all blocks.
#[derive(Clone, Debug)]
pub struct ShiftStatement {
    pub path_log: usize,
    pub leaves: Vec<[u32; 8]>,
    pub roots: Vec<[u32; 8]>,
    pub b_bits: Vec<bool>,
}

/// The sides of all blocks: those of each pair, then those of the path that
/// fills up.
pub open spec fn all_sides(b_bits: Seq<Vec<bool>>, filler: Seq<bool>, n_total: nat) -> Seq<bool> {
    Seq::new(
        n_total,
        |k: int|
            if k / 8 < b_bits.len() {
                b_bits[k / 8]@[k % 8]
            } else {
                filler[k % 8]
            },
    )
}

/// Lays out the sides of all blocks.
pub fn lay_out_sides(b_bits: &[Vec<bool>], filler: &Vec<bool>, n_total: usize) -> (all: Vec<bool>)
    requires
        forall|i: int| 0 <= i < b_bits@.len() ==> (#[trigger] b_bits@[i])@.len() == 8,
        filler@.len() == 8,
    ensures
        all@ == all_sides(b_bits@, filler@, n_total as nat),
{
    let mut all: Vec<bool> = Vec::new();
    for k in 0..n_total
        invariant
            forall|i: int| 0 <= i < b_bits@.len() ==> (#[trigger] b_bits@[i])@.len() == 8,
            filler@.len() == 8,
            all@ == all_sides(b_bits@, filler@, k as nat),
    {
        let node: usize = k / MERKLE_BLOCKS_PER_NODE;
        if node < b_bits.len() {
            assert(b_bits@[node as int]@.len() == 8);
            all.push(b_bits[node][k % MERKLE_BLOCKS_PER_NODE]);
        } else {
            all.push(filler[k % MERKLE_BLOCKS_PER_NODE]);
        }
        assert(all@ =~= all_sides(b_bits@, filler@, (k + 1) as nat));
    }
    all
}

/// The sides of the path that fills up.
pub open spec fn filler_sides() -> Seq<bool> {
    padded_sides(2, 0, true, 8)
}

/// The leaf of the path that fills up.
pub open spec fn filler_leaf() -> Seq<u32> {
    tree_leaf(dummy_children(), 0)
}

/// What the path that fills up comes to.
pub open spec fn filler_root() -> Seq<u32> {
    pad_value(path_value(dummy_children(), 0, true, 1), 7)
}

/// Whether `st` asks about the paths of all pairs of `proof`.
pub open spec fn is_shift_statement(st: ShiftStatement, proof: SoundMultiproof) -> bool {
    let n_total = pow2(proof.n_log_merkle as nat);
    &&& st.path_log == proof.n_log_merkle - 3
    &&& st.leaves@.len() == n_total / 8
    &&& st.roots@.len() == n_total / 8
    &&& st.b_bits@ == all_sides(proof.merkle_b_bits@, filler_sides(), n_total)
    &&& forall|i: int|
        0 <= i < st.leaves@.len() ==> (#[trigger] st.leaves@[i])@ == if i < proof.pairs() {
            proof.merkle_leaves@[i]@
        } else {
            filler_leaf()
        }
    &&& forall|i: int|
        0 <= i < st.roots@.len() ==> (#[trigger] st.roots@[i])@ == if i < proof.pairs() {
            proof.merkle_roots@[proof.pair_phys@[i] as int]@
        } else {
            filler_root()
        }
}

impl SoundMultiproof {
    /// Whether the paths of all pairs fit the committed blocks.
    pub open spec fn laid_out(self) -> bool {
        &&& self.aligned()
        &&& 3 <= self.n_log_merkle <= 20
        &&& 8 * self.pairs() <= pow2(self.n_log_merkle as nat)
        &&& forall|i: int|
            0 <= i < self.pairs() ==> #[trigger] self.pair_phys@[i] < self.nodes()
        &&& forall|i: int|
            0 <= i < self.pairs() ==> (#[trigger] self.merkle_b_bits@[i])@.len() == 8
    }
}

/// A proof whose form is right states what it says it states.
pub proof fn lemma_form(proof: SoundMultiproof, root: [u32; 8], min_n: nat)
    requires
        proof.form(root, min_n) is Ok,
    ensures
        proof.aligned(),
        proof.n_log_merkle <= 20,
        proof.n_routes == proof.pairs(),
        proof.nodes() <= proof.pairs(),
        forall|p: int|
            #![trigger proof.merkle_block_counts@[p]]
            0 <= p < proof.nodes() ==> proof.node_formed(p) && proof.merkle_block_counts@[p] == 8,
        forall|p: int|
            #![trigger proof.content_metas@[p]]
            0 <= p < proof.nodes() ==> proof.node_formed(p),
        forall|i: int|
            0 <= i < proof.pairs() ==> #[trigger] proof.pair_phys@[i] < proof.nodes(),
        forall|i: int|
            0 <= i < proof.pairs() ==> (#[trigger] proof.merkle_b_bits@[i])@.len() == 8,
        pow2(proof.n_log_merkle as nat) == allocated_blocks(proof.pairs(), min_n),
        proof.laid_out(),
{
    lemma_nodes_form(proof, root, 0);
    lemma_pairs_form(proof, 0);
    lemma_ceil_log2(if 8 * proof.pairs() < min_n {
        min_n
    } else {
        8 * proof.pairs()
    });
    lemma2_to64();
    if proof.n_log_merkle < 3 {
        crate::math::lemma_pow2_mono(proof.n_log_merkle as nat, 2);
    }
}

proof fn lemma_nodes_form(proof: SoundMultiproof, root: [u32; 8], p: int)
    requires
        0 <= p,
        proof.nodes_form(root, p) is Ok,
    ensures
        forall|k: int|
            #![trigger proof.merkle_block_counts@[k]]
            p <= k < proof.nodes() ==> proof.node_formed(k) && proof.merkle_block_counts@[k] == 8,
        forall|k: int|
            #![trigger proof.content_metas@[k]]
            p <= k < proof.nodes() ==> proof.node_formed(k),
    decreases proof.nodes() - p,
{
    if p < proof.nodes() {
        lemma_nodes_form(proof, root, p + 1);
    }
}

proof fn lemma_pairs_form(proof: SoundMultiproof, i: int)
    requires
        0 <= i,
        proof.pairs_form(i) is Ok,
    ensures
        forall|k: int|
            i <= k < proof.pairs() ==> #[trigger] proof.pair_phys@[k] < proof.nodes(),
        forall|k: int|
            i <= k < proof.pairs() ==> (#[trigger] proof.merkle_b_bits@[k])@.len() == 8,
    decreases proof.pairs() - i,
{
    if i < proof.pairs() {
        lemma_pairs_form(proof, i + 1);
    }
}

/// What the proof system is asked about the paths of all pairs.
pub fn shift_statement(proof: &SoundMultiproof) -> (st: ShiftStatement)
    requires
        proof.laid_out(),
    ensures
        is_shift_statement(st, *proof),
{
    let u: usize = proof.merkle_leaves.len();
    proof {
        lemma2_to64();
        crate::math::lemma_pow2_mono(proof.n_log_merkle as nat, 20);
    }
    let n_total: usize = power_of_two(proof.n_log_merkle);
    let filler = dummy_padding_chain();
    let p_nodes: usize = n_total / MERKLE_BLOCKS_PER_NODE;
    let mut leaves: Vec<[u32; 8]> = Vec::new();
    let mut roots: Vec<[u32; 8]> = Vec::new();
    for i in 0..p_nodes
        invariant
            proof.laid_out(),
            u == proof.pairs(),
            filler.leaf@ == filler_leaf(),
            filler.root@ == filler_root(),
            leaves@.len() == i,
            roots@.len() == i,
            forall|k: int|
                0 <= k < i ==> (#[trigger] leaves@[k])@ == if k < proof.pairs() {
                    proof.merkle_leaves@[k]@
                } else {
                    filler_leaf()
                },
            forall|k: int|
                0 <= k < i ==> (#[trigger] roots@[k])@ == if k < proof.pairs() {
                    proof.merkle_roots@[proof.pair_phys@[k] as int]@
                } else {
                    filler_root()
                },
    {
        if i < u {
            assert(proof.pair_phys@[i as int] < proof.nodes());
            leaves.push(proof.merkle_leaves[i]);
            roots.push(proof.merkle_roots[proof.pair_phys[i]]);
        } else {
            leaves.push(filler.leaf);
            roots.push(filler.root);
        }
    }
    let b_bits = lay_out_sides(proof.merkle_b_bits.as_slice(), &filler.b_bits, n_total);
    ShiftStatement { path_log: proof.n_log_merkle - 3, leaves, roots, b_bits }
}

impl SoundMultiproof {
    /// Whether the tree root of node `p`, padded forward from the height of
    /// its tree, is what its paths come to.
    pub open spec fn root_padded(self, p: int) -> bool {
        pad_value(
            self.merkle_native_roots@[p]@,
            (self.merkle_block_counts@[p] - self.depth(p)) as nat,
        ) == self.merkle_roots@[p]@
    }

    /// What the tree roots of the nodes from `p` on come to.
    pub open spec fn roots_verdict(self, p: int) -> Result<(), MhotMembershipError>
        decreases self.nodes() - p,
    {
        if p >= self.nodes() {
            Ok(())
        } else if !self.root_padded(p) {
            Err(MhotMembershipError::NativeRootMismatch { node_idx: p as usize })
        } else {
            self.roots_verdict(p + 1)
        }
    }

    /// The words of the content hash of node `p`.
    pub open spec fn content_hash(self, p: int) -> Seq<u32> {
        self.content_metas@[p]@.content_hash(self.merkle_native_roots@[p]@)
    }

    /// The words of the content hash of the node of pair `i`.
    pub open spec fn pair_hash(self, i: int) -> Seq<u32> {
        self.content_hash(self.pair_phys@[i] as int)
    }

    /// What the links of path `indices` from level `j` on come to.
    pub open spec fn links_verdict(
        self,
        root: [u32; 8],
        indices: Seq<usize>,
        j: int,
    ) -> Result<(), MhotMembershipError>
        decreases indices.len() - j,
    {
        if j + 1 >= indices.len() {
            Ok(())
        } else if indices[j] >= self.pairs() || indices[j + 1] >= self.pairs() {
            Err(no_root(root))
        } else if self.merkle_leaves@[indices[j] as int]@ != self.pair_hash(
            indices[j + 1] as int,
        ) {
            Err(
                MhotMembershipError::CrossNodeBinding {
                    parent_idx: indices[j],
                    parent_leaf: self.merkle_leaves@[indices[j] as int],
                    child_root: words_array(self.pair_hash(indices[j + 1] as int)),
                },
            )
        } else {
            self.links_verdict(root, indices, j + 1)
        }
    }

    /// The pairs of path `p`.
    pub open spec fn path(self, p: int) -> Seq<usize> {
        self.path_mapping.node_indices@[p]@
    }

    /// The number of paths.
    pub open spec fn paths(self) -> nat {
        self.path_mapping.node_indices@.len()
    }

    /// What the links of the paths from `p` on come to.
    pub open spec fn cross_verdict(self, root: [u32; 8], p: int) -> Result<(), MhotMembershipError>
        decreases self.paths() - p,
    {
        if p >= self.paths() {
            Ok(())
        } else if p >= self.path_depths@.len() || self.path(p).len() != self.path_depths@[p] {
            Err(no_root(root))
        } else if self.links_verdict(root, self.path(p), 0) is Err {
            self.links_verdict(root, self.path(p), 0)
        } else {
            self.cross_verdict(root, p + 1)
        }
    }

    /// What the first nodes of the paths from `p` on come to.
    pub open spec fn tops_verdict(self, root: [u32; 8], p: int) -> Result<(), MhotMembershipError>
        decreases self.paths() - p,
    {
        if p >= self.paths() {
            Ok(())
        } else if self.path(p).len() == 0 || self.path(p)[0] >= self.pairs() {
            Err(no_root(root))
        } else if self.pair_hash(self.path(p)[0] as int) != root@ {
            Err(
                MhotMembershipError::RootMismatch {
                    expected: root,
                    actual: words_array(self.pair_hash(self.path(p)[0] as int)),
                },
            )
        } else {
            self.tops_verdict(root, p + 1)
        }
    }

    /// What everything in the proof that needs no proof system comes to, once
    /// the paths of all pairs are accepted.
    pub open spec fn binding_verdict(self, root: [u32; 8]) -> Result<(), MhotMembershipError> {
        if self.roots_verdict(0) is Err {
            self.roots_verdict(0)
        } else if self.cross_verdict(root, 0) is Err {
            self.cross_verdict(root, 0)
        } else {
            self.tops_verdict(root, 0)
        }
    }

    /// What verifying the proof against a root comes to.
    pub open spec fn verdict(
        self,
        root: [u32; 8],
        min_n: nat,
        replies: SoundReplies,
    ) -> Result<(), MhotMembershipError> {
        if self.form(root, min_n) is Err {
            self.form(root, min_n)
        } else if replies.merkle_core is Err {
            Err(MhotMembershipError::NodeVerify2(replies.merkle_core->Err_0))
        } else if !replies.merkle_shift {
            Err(MhotMembershipError::NodeVerify2(VerifyError::Wiring))
        } else if replies.merkle_opening is Err {
            Err(MhotMembershipError::NodeVerify2(replies.merkle_opening->Err_0))
        } else if self.binding_verdict(root) is Err {
            self.binding_verdict(root)
        } else if replies.route_core is Err {
            Err(MhotMembershipError::RouteVerify(replies.route_core->Err_0))
        } else if replies.route_opening is Err {
            Err(MhotMembershipError::RouteOpening(replies.route_opening->Err_0))
        } else {
            Ok(())
        }
    }
}

/// What the proof system says of a proof: of the committed hash blocks, of
/// their forming the paths of all pairs, of the opening of the hash base, and
/// of the routes and their opening.
#[derive(Clone, Copy, Debug)]
pub struct SoundReplies {
    pub merkle_core: Result<(), VerifyError>,
    pub merkle_shift: bool,
    pub merkle_opening: Result<(), VerifyError>,
    pub route_core: Result<(), VerifyError>,
    pub route_opening: Result<(), VerifyError>,
}

/// Pads a tree root forward by `n` compressions.
pub fn pad_forward(native_root: &[u32; 8], n: usize) -> (r: [u32; 8])
    ensures
        r@ == pad_value(native_root@, n as nat),
{
    let zeros = [0u32; 8];
    assert(zeros@ =~= zero_words());
    let mut padded: [u32; 8] = *native_root;
    for k in 0..n
        invariant
            zeros@ == zero_words(),
            padded@ == pad_value(native_root@, k as nat),
    {
        let m = join_block(&padded, &zeros);
        padded = sha256_compress(&SHA256_IV, &m);
    }
    padded
}

/// Whether `hashes` are the content hashes of the nodes.
pub open spec fn are_content_hashes(proof: SoundMultiproof, hashes: Seq<[u32; 8]>) -> bool {
    &&& hashes.len() == proof.nodes()
    &&& forall|p: int|
        0 <= p < proof.nodes() ==> (#[trigger] hashes[p])@ == proof.content_hash(p)
}

/// The words of a digest.
pub fn bytes_to_words(b: &[u8; 32]) -> (w: [u32; 8])
    ensures
        w@ == be_words(b@, 0, 8),
{
    digest_words(b)
}

/// The words of the digest are the words of the hash.
proof fn lemma_digest_words(data: Seq<u8>)
    ensures
        be_words(sha256(data), 0, 8) == sha256_words(data),
{
    reveal(sha256);
    crate::sha256::lemma_chain_value_len(
        crate::sha256::pad(data),
        crate::sha256::block_count(data.len()),
    );
    crate::bytes::lemma_words_of_bytes(sha256_words(data));
}

/// Checks the tree root of every node, and computes its content hash.
fn check_node_roots(proof: &SoundMultiproof) -> (r: Result<Vec<[u32; 8]>, MhotMembershipError>)
    requires
        proof.aligned(),
        forall|p: int|
            #![trigger proof.content_metas@[p]]
            0 <= p < proof.nodes() ==> proof.node_formed(p),
    ensures
        match r {
            Ok(hashes) => proof.roots_verdict(0) is Ok && are_content_hashes(*proof, hashes@),
            Err(e) => proof.roots_verdict(0) == Err::<(), MhotMembershipError>(e),
        },
{
    let mut hashes: Vec<[u32; 8]> = Vec::new();
    for p in 0..proof.merkle_roots.len()
        invariant
            proof.aligned(),
            forall|k: int|
                #![trigger proof.content_metas@[k]]
                0 <= k < proof.nodes() ==> proof.node_formed(k),
            proof.roots_verdict(0) == proof.roots_verdict(p as int),
            hashes@.len() == p,
            forall|k: int| 0 <= k < p ==> (#[trigger] hashes@[k])@ == proof.content_hash(k),
    {
        let meta: &ContentMeta = &proof.content_metas[p];
        assert(proof.node_formed(p as int));
        let n_pad: usize = proof.merkle_block_counts[p] - innode_depth(meta);
        let padded = pad_forward(&proof.merkle_native_roots[p], n_pad);
        if !same_words(&padded, &proof.merkle_roots[p]) {
            return Err(MhotMembershipError::NativeRootMismatch { node_idx: p });
        }
        let root = leaf_words_to_digest_bytes(&proof.merkle_native_roots[p]);
        let hash = compute_content_hash(meta, &root);
        proof {
            lemma_digest_words(meta@.preimage(root@));
        }
        hashes.push(bytes_to_words(&hash));
    }
    Ok(hashes)
}

/// Checks the links of one path.
fn check_path_links(
    proof: &SoundMultiproof,
    expected_root: &[u32; 8],
    indices: &Vec<usize>,
    hashes: &Vec<[u32; 8]>,
) -> (r: Result<(), MhotMembershipError>)
    requires
        proof.laid_out(),
        are_content_hashes(*proof, hashes@),
    ensures
        r == proof.links_verdict(*expected_root, indices@, 0),
{
    let n: usize = indices.len();
    let u: usize = proof.merkle_leaves.len();
    let mut j: usize = 0;
    while n > 0 && j < n - 1
        invariant
            proof.laid_out(),
            are_content_hashes(*proof, hashes@),
            n == indices@.len(),
            u == proof.pairs(),
            n > 0 ==> j <= n - 1,
            n == 0 ==> j == 0,
            proof.links_verdict(*expected_root, indices@, 0) == proof.links_verdict(
                *expected_root,
                indices@,
                j as int,
            ),
        decreases n - j,
    {
        let parent: usize = indices[j];
        let child: usize = indices[j + 1];
        if parent >= u || child >= u {
            return Err(no_root_error(expected_root));
        }
        assert(proof.pair_phys@[child as int] < proof.nodes());
        let child_hash: [u32; 8] = hashes[proof.pair_phys[child]];
        let parent_leaf: [u32; 8] = proof.merkle_leaves[parent];
        if !same_words(&parent_leaf, &child_hash) {
            proof {
                lemma_words_array(child_hash);
            }
            return Err(
                MhotMembershipError::CrossNodeBinding {
                    parent_idx: parent,
                    parent_leaf,
                    child_root: child_hash,
                },
            );
        }
        j = j + 1;
    }
    Ok(())
}

fn check_cross_nodes(
    proof: &SoundMultiproof,
    expected_root: &[u32; 8],
    hashes: &Vec<[u32; 8]>,
) -> (r: Result<(), MhotMembershipError>)
    requires
        proof.laid_out(),
        are_content_hashes(*proof, hashes@),
    ensures
        r == proof.cross_verdict(*expected_root, 0),
{
    for p in 0..proof.path_mapping.node_indices.len()
        invariant
            proof.laid_out(),
            are_content_hashes(*proof, hashes@),
            proof.cross_verdict(*expected_root, 0) == proof.cross_verdict(
                *expected_root,
                p as int,
            ),
    {
        let indices: &Vec<usize> = &proof.path_mapping.node_indices[p];
        if p >= proof.path_depths.len() || indices.len() != proof.path_depths[p] {
            return Err(no_root_error(expected_root));
        }
        match check_path_links(proof, expected_root, indices, hashes) {
            Err(e) => {
                return Err(e);
            },
            Ok(()) => {},
        }
    }
    Ok(())
}

fn check_tops(
    proof: &SoundMultiproof,
    expected_root: &[u32; 8],
    hashes: &Vec<[u32; 8]>,
) -> (r: Result<(), MhotMembershipError>)
    requires
        proof.laid_out(),
        are_content_hashes(*proof, hashes@),
    ensures
        r == proof.tops_verdict(*expected_root, 0),
{
    for p in 0..proof.path_mapping.node_indices.len()
        invariant
            proof.laid_out(),
            are_content_hashes(*proof, hashes@),
            proof.tops_verdict(*expected_root, 0) == proof.tops_verdict(
                *expected_root,
                p as int,
            ),
    {
        let indices: &Vec<usize> = &proof.path_mapping.node_indices[p];
        if indices.len() == 0 || indices[0] >= proof.merkle_leaves.len() {
            return Err(no_root_error(expected_root));
        }
        assert(proof.pair_phys@[indices@[0] as int] < proof.nodes());
        let actual: [u32; 8] = hashes[proof.pair_phys[indices[0]]];
        if !same_words(&actual, expected_root) {
            proof {
                lemma_words_array(actual);
            }
            return Err(
                MhotMembershipError::RootMismatch { expected: *expected_root, actual },
            );
        }
    }
    Ok(())
}

/// Checks that the nodes of a proof are bound to each other and to the root.
pub fn check_binding(proof: &SoundMultiproof, expected_root: &[u32; 8]) -> (r: Result<
    (),
    MhotMembershipError,
>)
    requires
        proof.laid_out(),
        forall|p: int|
            #![trigger proof.content_metas@[p]]
            0 <= p < proof.nodes() ==> proof.node_formed(p),
    ensures
        r == proof.binding_verdict(*expected_root),
{
    match check_node_roots(proof) {
        Err(e) => Err(e),
        Ok(hashes) => {
            match check_cross_nodes(proof, expected_root, &hashes) {
                Err(e) => Err(e),
                Ok(()) => check_tops(proof, expected_root, &hashes),
            }
        },
    }
}

/// The questions about the paths of all pairs, in the order in which they are
/// asked: the core of the base, then, once `public_io` is in the transcript,
/// whether `shift` shows that what is committed forms the paths of the
/// statement, then the opening, which also bears out the claim that the second
/// leaves open.
#[derive(Clone, Debug)]
pub struct PathQuestions<'a> {
    pub base: BaseQuestion<'a>,
    pub public_io: Vec<TranscriptOp>,
    pub statement: ShiftStatement,
    pub shift: &'a Vec<u8>,
}

/// Whether these are the questions about the paths of all pairs.
pub open spec fn are_path_questions(q: PathQuestions, proof: SoundMultiproof) -> bool {
    &&& asks_base(
        q.base,
        Relation::Sha256 { n_blocks: pow2(proof.n_log_merkle as nat) as usize },
        proof.merkle_zc,
        proof.merkle_lc,
        proof.merkle_pcs,
        proof.merkle_commitment,
    )
    &&& q.base.claims@.len() == 0
    &&& transcript(q.base.fork@) == fork_observed("merkle"@)
    &&& transcript(q.public_io@) == io_observed(
        public_io(
            proof.merkle_leaves@,
            proof.merkle_b_bits@,
            proof.pair_phys@,
            proof.merkle_roots@,
            proof.n_log_merkle,
            proof.n_routes,
        ),
    )
    &&& is_shift_statement(q.statement, proof)
    &&& *q.shift == proof.merkle_shift
}

/// The questions about the paths of all pairs of a proof whose form is right.
pub fn path_questions(proof: &SoundMultiproof) -> (q: PathQuestions<'_>)
    requires
        proof.laid_out(),
    ensures
        are_path_questions(q, *proof),
{
    proof {
        lemma2_to64();
        crate::math::lemma_pow2_mono(proof.n_log_merkle as nat, 20);
    }
    PathQuestions {
        base: BaseQuestion {
            relation: Relation::Sha256 { n_blocks: power_of_two(proof.n_log_merkle) },
            zc: &proof.merkle_zc,
            lc: &proof.merkle_lc,
            pcs: &proof.merkle_pcs,
            commitment: proof.merkle_commitment,
            claims: Vec::new(),
            fork: fork_pcs_challenger("merkle"),
        },
        public_io: absorb_public_io(
            proof.merkle_leaves.as_slice(),
            proof.merkle_b_bits.as_slice(),
            proof.pair_phys.as_slice(),
            proof.merkle_roots.as_slice(),
            proof.n_log_merkle,
            proof.n_routes,
        ),
        statement: shift_statement(proof),
        shift: &proof.merkle_shift,
    }
}

/// The question about the routes of all pairs: that each puts out the leaf
/// that its path is proved for.
pub fn route_question<'a>(proof: &'a SoundMultiproof, setup: &RouteF32Setup) -> (q: BaseQuestion<
    'a,
>)
    requires
        setup.r1cs.m >= 7,
        256 * proof.merkle_leaves@.len() <= usize::MAX,
    ensures
        asks_base(
            q,
            Relation::Route { n: proof.n_routes },
            proof.route_zc,
            proof.route_lc,
            proof.route_pcs,
            proof.route_commitment,
        ),
        is_output_claims(
            q.claims@,
            leaf_outputs(proof.merkle_leaves@),
            setup.r1cs.m as nat,
        ),
        transcript(q.fork@) == fork_observed("route"@),
{
    BaseQuestion {
        relation: Relation::Route { n: proof.n_routes },
        zc: &proof.route_zc,
        lc: &proof.route_lc,
        pcs: &proof.route_pcs,
        commitment: proof.route_commitment,
        claims: leaf_output_claims(setup, proof.merkle_leaves.as_slice()),
        fork: fork_pcs_challenger("route"),
    }
}

/// Decides on a proof against a root, given what the proof system says to
/// `path_questions` and to `route_question`.
///
/// This checks that the proof is of chains of nodes below the root. It binds no
/// key and no value: `verify_sound_multiproof_with_entries` does.
pub fn verify_sound_multiproof(
    proof: &SoundMultiproof,
    expected_root: &[u32; 8],
    min_n: usize,
    replies: &SoundReplies,
) -> (r: Result<(), MhotMembershipError>)
    ensures
        r == proof.verdict(*expected_root, min_n as nat, *replies),
{
    match check_form(proof, expected_root, min_n) {
        Err(e) => {
            return Err(e);
        },
        Ok(()) => {},
    }
    match replies.merkle_core {
        Err(e) => {
            return Err(MhotMembershipError::NodeVerify2(e));
        },
        Ok(()) => {},
    }
    if !replies.merkle_shift {
        return Err(MhotMembershipError::NodeVerify2(VerifyError::Wiring));
    }
    match replies.merkle_opening {
        Err(e) => {
            return Err(MhotMembershipError::NodeVerify2(e));
        },
        Ok(()) => {},
    }
    proof {
        lemma_form(*proof, *expected_root, min_n as nat);
    }
    match check_binding(proof, expected_root) {
        Err(e) => {
            return Err(e);
        },
        Ok(()) => {},
    }
    match replies.route_core {
        Err(e) => Err(MhotMembershipError::RouteVerify(e)),
        Ok(()) => match replies.route_opening {
            Err(e) => Err(MhotMembershipError::RouteOpening(e)),
            Ok(()) => Ok(()),
        },
    }
}

impl SoundMultiproof {
    /// The side of the path of pair `i` at height `d`.
    pub open spec fn side(self, i: int, d: int) -> bool {
        d < self.merkle_b_bits@[i]@.len() && self.merkle_b_bits@[i]@[d]
    }

    /// The child that pair `i` selects, as the sides of its path write it.
    pub open spec fn selected(self, i: int) -> nat {
        bits_value(
            Seq::new(self.depth(self.pair_phys@[i] as int), |d: int| self.side(i, d)),
        )
    }

    /// The child that a key routes to in the node of pair `i`.
    pub open spec fn matched(self, key: Seq<u8>, i: int) -> nat {
        let meta = self.content_metas@[self.pair_phys@[i] as int]@;
        routed_child(bits_value(discriminative_bits(key, meta.masks)) as u32, meta.keys)
    }

    /// What routing a key along path `p` from `level` on comes to.
    pub open spec fn routing_verdict(self, p: int, key: Seq<u8>, level: int) -> Result<
        (),
        MhotMembershipError,
    >
        decreases self.path(p).len() - level,
    {
        if level >= self.path(p).len() {
            Ok(())
        } else {
            let i = self.path(p)[level] as int;
            if self.matched(key, i) != self.selected(i) {
                Err(
                    MhotMembershipError::RoutingMismatch {
                        path_idx: p as usize,
                        level: level as usize,
                        matched: self.matched(key, i) as usize,
                        selected: self.selected(i) as usize,
                    },
                )
            } else {
                self.routing_verdict(p, key, level + 1)
            }
        }
    }

    /// Whether path `p` ends at the leaf of an entry: the last selected child
    /// has one leaf below it, and its digest is that of the entry.
    pub open spec fn ends_at(self, p: int, entry: PathEntry) -> bool {
        let i = self.path(p).last() as int;
        let counts = self.content_metas@[self.pair_phys@[i] as int]@.counts;
        &&& self.selected(i) < counts.len()
        &&& counts[self.selected(i) as int] == 1
        &&& self.merkle_leaves@[i]@ == sha256_words(leaf_preimage(entry.key@, entry.value@))
    }

    /// Whether path `p` leads to an entry: in every node the key routes to the
    /// child that the path selects, and the path ends at the entry's leaf.
    pub open spec fn leads_to(self, p: int, entry: PathEntry) -> bool {
        &&& forall|j: int|
            #![trigger self.path(p)[j]]
            0 <= j < self.path(p).len() ==> self.matched(entry.key@, self.path(p)[j] as int)
                == self.selected(self.path(p)[j] as int)
        &&& self.ends_at(p, entry)
    }

    /// What the entry of path `p` comes to.
    #[verifier::opaque]
    pub open spec fn entry_verdict(self, p: int, entry: PathEntry) -> Result<
        (),
        MhotMembershipError,
    > {
        if self.routing_verdict(p, entry.key@, 0) is Err {
            self.routing_verdict(p, entry.key@, 0)
        } else if !self.ends_at(p, entry) {
            Err(MhotMembershipError::EntryLeafMismatch { path_idx: p as usize })
        } else {
            Ok(())
        }
    }

    /// What the entries of the paths from `p` on come to.
    pub open spec fn entries_verdict(self, entries: Seq<PathEntry>, p: int) -> Result<
        (),
        MhotMembershipError,
    >
        decreases self.paths() - p,
    {
        if p >= self.paths() {
            Ok(())
        } else if self.entry_verdict(p, entries[p]) is Err {
            self.entry_verdict(p, entries[p])
        } else {
            self.entries_verdict(entries, p + 1)
        }
    }

    /// What entries come to before the proof is looked at: there is one for each
    /// path, and none has too long a value.
    pub open spec fn entries_form(self, entries: Seq<PathEntry>) -> Result<
        (),
        MhotMembershipError,
    > {
        if entries.len() != self.paths() {
            Err(
                MhotMembershipError::EntryCountMismatch {
                    n_entries: entries.len() as usize,
                    n_paths: self.paths() as usize,
                },
            )
        } else if exists|k: int|
            0 <= k < entries.len() && (#[trigger] entries[k]).value@.len() > 0x10_0000 {
            Err(MhotMembershipError::MalformedProof { reason: "entry value over length cap" })
        } else {
            Ok(())
        }
    }

    /// What verifying the proof against a root and entries comes to.
    pub open spec fn verdict_with_entries(
        self,
        root: [u32; 8],
        entries: Seq<PathEntry>,
        min_n: nat,
        replies: SoundReplies,
    ) -> Result<(), MhotMembershipError> {
        if self.entries_form(entries) is Err {
            self.entries_form(entries)
        } else if self.verdict(root, min_n, replies) is Err {
            self.verdict(root, min_n, replies)
        } else {
            self.entries_verdict(entries, 0)
        }
    }

    /// Whether every path is of pairs of this proof, and has one.
    pub open spec fn paths_in_range(self) -> bool {
        forall|p: int, j: int|
            #![trigger self.path(p)[j]]
            0 <= p < self.paths() && 0 <= j < self.path(p).len() ==> self.path(p)[j]
                < self.pairs()
    }
}

/// The child that pair `i` selects.
pub fn selected_index(proof: &SoundMultiproof, i: usize) -> (sel: usize)
    requires
        proof.laid_out(),
        i < proof.pairs(),
        proof.node_formed(proof.pair_phys@[i as int] as int),
    ensures
        sel == proof.selected(i as int),
        sel < 32,
{
    assert(proof.pair_phys@[i as int] < proof.nodes());
    let depth: usize = innode_depth(&proof.content_metas[proof.pair_phys[i]]);
    proof {
        lemma2_to64();
        crate::math::lemma_ceil_log2_of_bound(
            proof.content_metas@[proof.pair_phys@[i as int] as int]@.keys.len(),
            5,
        );
    }
    let bits: &Vec<bool> = &proof.merkle_b_bits[i];
    assert(bits@.len() == 8);
    let ghost sides = Seq::new(depth as nat, |d: int| proof.side(i as int, d));
    let mut acc: usize = 0;
    let mut weight: usize = 1;
    for d in 0..depth
        invariant
            depth <= 5,
            bits@.len() == 8,
            bits@ == proof.merkle_b_bits@[i as int]@,
            sides == Seq::new(depth as nat, |d: int| proof.side(i as int, d)),
            acc == bits_value(sides.take(d as int)),
            acc < weight,
            weight == pow2(d as nat),
            weight <= 32,
    {
        if bits[d] {
            acc = acc + weight;
        }
        proof {
            assert(sides.take(d + 1).drop_last() =~= sides.take(d as int));
            assert(sides.take(d + 1).last() == bits@[d as int]);
            vstd::arithmetic::power2::lemma_pow2_unfold((d + 1) as nat);
            lemma2_to64();
            crate::math::lemma_pow2_mono((d + 1) as nat, 5);
        }
        weight = weight * 2;
    }
    assert(sides.take(depth as int) =~= sides);
    acc
}

/// Checks that a key routes along a path.
fn check_routing(
    proof: &SoundMultiproof,
    p: usize,
    key: &[u8; 32],
    selected: &Vec<usize>,
) -> (r: Result<(), MhotMembershipError>)
    requires
        proof.laid_out(),
        proof.paths_in_range(),
        p < proof.paths(),
        forall|k: int|
            #![trigger proof.content_metas@[k]]
            0 <= k < proof.nodes() ==> proof.node_formed(k),
        selected@.len() == proof.pairs(),
        forall|i: int|
            0 <= i < proof.pairs() ==> #[trigger] selected@[i] == proof.selected(i),
    ensures
        r == proof.routing_verdict(p as int, key@, 0),
{
    let indices: &Vec<usize> = &proof.path_mapping.node_indices[p];
    for level in 0..indices.len()
        invariant
            proof.laid_out(),
            proof.paths_in_range(),
            p < proof.paths(),
            indices@ == proof.path(p as int),
            forall|k: int|
                #![trigger proof.content_metas@[k]]
                0 <= k < proof.nodes() ==> proof.node_formed(k),
            selected@.len() == proof.pairs(),
            forall|i: int|
                0 <= i < proof.pairs() ==> #[trigger] selected@[i] == proof.selected(i),
            proof.routing_verdict(p as int, key@, 0) == proof.routing_verdict(
                p as int,
                key@,
                level as int,
            ),
    {
        let i: usize = indices[level];
        assert(proof.path(p as int)[level as int] < proof.pairs());
        assert(proof.pair_phys@[i as int] < proof.nodes());
        let meta: &ContentMeta = &proof.content_metas[proof.pair_phys[i]];
        assert(proof.node_formed(proof.pair_phys@[i as int] as int));
        proof {
            lemma_dense_key_fits(key@, meta@.masks);
        }
        let dense: u32 = compute_dense_key(key, &meta.extraction_masks);
        let matched: usize = search_in_sparse_keys(dense, meta.sparse_partial_keys.as_slice());
        assert(matched == proof.matched(key@, i as int));
        assert(selected@[i as int] == proof.selected(i as int));
        if matched != selected[i] {
            return Err(
                MhotMembershipError::RoutingMismatch {
                    path_idx: p,
                    level,
                    matched,
                    selected: selected[i],
                },
            );
        }
    }
    Ok(())
}

/// Checks that a path ends at the leaf of an entry.
fn check_leaf(
    proof: &SoundMultiproof,
    p: usize,
    entry: &PathEntry,
    selected: &Vec<usize>,
) -> (ok: bool)
    requires
        proof.laid_out(),
        proof.paths_in_range(),
        p < proof.paths(),
        proof.path(p as int).len() > 0,
        selected@.len() == proof.pairs(),
        forall|i: int|
            0 <= i < proof.pairs() ==> #[trigger] selected@[i] == proof.selected(i),
        entry.value@.len() <= 0x10_0000,
    ensures
        ok == proof.ends_at(p as int, *entry),
{
    let indices: &Vec<usize> = &proof.path_mapping.node_indices[p];
    let last: usize = indices[indices.len() - 1];
    assert(proof.path(p as int)[indices@.len() - 1] < proof.pairs());
    assert(proof.pair_phys@[last as int] < proof.nodes());
    assert(selected@[last as int] == proof.selected(last as int));
    let sel: usize = selected[last];
    let counts: &Vec<u32> = &proof.content_metas[proof.pair_phys[last]].child_leaf_counts;
    if sel >= counts.len() || counts[sel] != 1 {
        return false;
    }
    let hash = leaf_content_hash(entry);
    proof {
        lemma_digest_words(leaf_preimage(entry.key@, entry.value@));
    }
    let expected = bytes_to_words(&hash);
    same_words(&proof.merkle_leaves[last], &expected)
}

/// Checks the entries of all paths.
fn check_entries(
    proof: &SoundMultiproof,
    entries: &[PathEntry],
    selected: &Vec<usize>,
) -> (r: Result<(), MhotMembershipError>)
    requires
        proof.laid_out(),
        proof.paths_in_range(),
        entries@.len() == proof.paths(),
        forall|k: int| 0 <= k < proof.paths() ==> (#[trigger] proof.path(k)).len() > 0,
        forall|k: int|
            #![trigger proof.content_metas@[k]]
            0 <= k < proof.nodes() ==> proof.node_formed(k),
        selected@.len() == proof.pairs(),
        forall|i: int|
            0 <= i < proof.pairs() ==> #[trigger] selected@[i] == proof.selected(i),
        forall|j: int|
            0 <= j < entries@.len() ==> (#[trigger] entries@[j]).value@.len() <= 0x10_0000,
    ensures
        r == proof.entries_verdict(entries@, 0),
{
    for p in 0..entries.len()
        invariant
            proof.laid_out(),
            proof.paths_in_range(),
            entries@.len() == proof.paths(),
            forall|k: int| 0 <= k < proof.paths() ==> (#[trigger] proof.path(k)).len() > 0,
            forall|k: int|
                #![trigger proof.content_metas@[k]]
                0 <= k < proof.nodes() ==> proof.node_formed(k),
            selected@.len() == proof.pairs(),
            forall|i: int|
                0 <= i < proof.pairs() ==> #[trigger] selected@[i] == proof.selected(i),
            forall|j: int|
                0 <= j < entries@.len() ==> (#[trigger] entries@[j]).value@.len() <= 0x10_0000,
            proof.entries_verdict(entries@, 0) == proof.entries_verdict(entries@, p as int),
    {
        let entry: &PathEntry = &entries[p];
        let r = check_entry(proof, p, entry, selected);
        assert(r == proof.entry_verdict(p as int, *entry));
        match r {
            Err(e) => {
                return Err(e);
            },
            Ok(()) => {},
        }
    }
    Ok(())
}

/// Checks the entry of one path.
fn check_entry(
    proof: &SoundMultiproof,
    p: usize,
    entry: &PathEntry,
    selected: &Vec<usize>,
) -> (r: Result<(), MhotMembershipError>)
    requires
        proof.laid_out(),
        proof.paths_in_range(),
        p < proof.paths(),
        proof.path(p as int).len() > 0,
        forall|k: int|
            #![trigger proof.content_metas@[k]]
            0 <= k < proof.nodes() ==> proof.node_formed(k),
        selected@.len() == proof.pairs(),
        forall|i: int|
            0 <= i < proof.pairs() ==> #[trigger] selected@[i] == proof.selected(i),
        entry.value@.len() <= 0x10_0000,
    ensures
        r == proof.entry_verdict(p as int, *entry),
{
    reveal(SoundMultiproof::entry_verdict);
    match check_routing(proof, p, &entry.key, selected) {
        Err(e) => Err(e),
        Ok(()) => if check_leaf(proof, p, entry, selected) {
            Ok(())
        } else {
            Err(MhotMembershipError::EntryLeafMismatch { path_idx: p })
        },
    }
}

/// Decides on the entries that the paths of a proof are to lead to, before the
/// proof is looked at.
pub fn check_entries_form(proof: &SoundMultiproof, entries: &[PathEntry]) -> (r: Result<
    (),
    MhotMembershipError,
>)
    ensures
        r == proof.entries_form(entries@),
{
    let n_paths: usize = proof.path_mapping.node_indices.len();
    if entries.len() != n_paths {
        return Err(
            MhotMembershipError::EntryCountMismatch { n_entries: entries.len(), n_paths },
        );
    }
    for k in 0..entries.len()
        invariant
            entries@.len() == proof.paths(),
            forall|j: int| 0 <= j < k ==> (#[trigger] entries@[j]).value@.len() <= 0x10_0000,
    {
        if entries[k].value.len() > MAX_ENTRY_VALUE_LEN {
            assert(entries@[k as int].value@.len() > 0x10_0000);
            return Err(
                MhotMembershipError::MalformedProof { reason: "entry value over length cap" },
            );
        }
    }
    Ok(())
}

/// Decides on a proof against a root and the entries that its paths are to
/// lead to, given what the proof system says of it: each key must route along
/// its path, and the path must end at the entry's leaf.
pub fn verify_sound_multiproof_with_entries(
    proof: &SoundMultiproof,
    expected_root: &[u32; 8],
    entries: &[PathEntry],
    min_n: usize,
    replies: &SoundReplies,
) -> (r: Result<(), MhotMembershipError>)
    ensures
        r == proof.verdict_with_entries(*expected_root, entries@, min_n as nat, *replies),
{
    match check_entries_form(proof, entries) {
        Err(e) => {
            return Err(e);
        },
        Ok(()) => {},
    }
    match verify_sound_multiproof(proof, expected_root, min_n, replies) {
        Err(e) => {
            return Err(e);
        },
        Ok(()) => {},
    }
    proof {
        lemma_form(*proof, *expected_root, min_n as nat);
        lemma_binding(*proof, *expected_root);
    }
    let u: usize = proof.merkle_leaves.len();
    let mut selected: Vec<usize> = Vec::new();
    for i in 0..u
        invariant
            u == proof.pairs(),
            proof.laid_out(),
            forall|k: int|
                #![trigger proof.content_metas@[k]]
                0 <= k < proof.nodes() ==> proof.node_formed(k),
            selected@.len() == i,
            forall|k: int| 0 <= k < i ==> #[trigger] selected@[k] == proof.selected(k),
    {
        assert(proof.pair_phys@[i as int] < proof.nodes());
        let ghost meta = proof.content_metas@[proof.pair_phys@[i as int] as int];
        selected.push(selected_index(proof, i));
    }
    check_entries(proof, entries, &selected)
}

/// What a proof's binding means: the tree root of every node, padded, is what
/// its paths come to; every path is of pairs of the proof, from a node with
/// the expected content hash down, each selecting the node of the next.
pub proof fn lemma_binding(proof: SoundMultiproof, root: [u32; 8])
    requires
        proof.binding_verdict(root) is Ok,
    ensures
        forall|p: int|
            #![trigger proof.merkle_roots@[p]]
            0 <= p < proof.nodes() ==> proof.root_padded(p),
        forall|p: int| 0 <= p < proof.paths() ==> (#[trigger] proof.path(p)).len() > 0,
        proof.paths_in_range(),
        forall|p: int|
            #![trigger proof.path(p)]
            0 <= p < proof.paths() ==> proof.pair_hash(proof.path(p)[0] as int) == root@,
        forall|p: int, j: int|
            #![trigger proof.path(p)[j]]
            0 <= p < proof.paths() && 0 <= j && j + 1 < proof.path(p).len()
                ==> proof.merkle_leaves@[proof.path(p)[j] as int]@ == proof.pair_hash(
                proof.path(p)[j + 1] as int,
            ),
{
    lemma_roots_verdict(proof, 0);
    assert forall|p: int| #![trigger proof.path(p)] 0 <= p < proof.paths() implies proof.path(
        p,
    ).len() > 0 && proof.pair_hash(proof.path(p)[0] as int) == root@ by {
        lemma_tops_verdict(proof, root, 0, p);
    }
    assert forall|p: int, j: int|
        #![trigger proof.path(p)[j]]
        0 <= p < proof.paths() && 0 <= j < proof.path(p).len() implies proof.path(p)[j]
        < proof.pairs() && (j + 1 < proof.path(p).len()
        ==> proof.merkle_leaves@[proof.path(p)[j] as int]@ == proof.pair_hash(
        proof.path(p)[j + 1] as int,
    )) by {
        lemma_tops_verdict(proof, root, 0, p);
        lemma_cross_verdict(proof, root, 0, p);
        if j + 1 < proof.path(p).len() {
            lemma_links_verdict(proof, root, proof.path(p), 0, j);
        } else if j > 0 {
            lemma_links_verdict(proof, root, proof.path(p), 0, j - 1);
        }
    }
}

proof fn lemma_roots_verdict(proof: SoundMultiproof, p: int)
    requires
        0 <= p,
        proof.roots_verdict(p) is Ok,
    ensures
        forall|k: int|
            #![trigger proof.merkle_roots@[k]]
            p <= k < proof.nodes() ==> proof.root_padded(k),
    decreases proof.nodes() - p,
{
    if p < proof.nodes() {
        lemma_roots_verdict(proof, p + 1);
    }
}

proof fn lemma_tops_verdict(proof: SoundMultiproof, root: [u32; 8], from: int, p: int)
    requires
        0 <= from <= p < proof.paths(),
        proof.tops_verdict(root, from) is Ok,
    ensures
        proof.path(p).len() > 0,
        proof.path(p)[0] < proof.pairs(),
        proof.pair_hash(proof.path(p)[0] as int) == root@,
    decreases p - from,
{
    if from < p {
        lemma_tops_verdict(proof, root, from + 1, p);
    }
}

proof fn lemma_cross_verdict(proof: SoundMultiproof, root: [u32; 8], from: int, p: int)
    requires
        0 <= from <= p < proof.paths(),
        proof.cross_verdict(root, from) is Ok,
    ensures
        proof.links_verdict(root, proof.path(p), 0) is Ok,
        p < proof.path_depths@.len(),
        proof.path(p).len() == proof.path_depths@[p],
    decreases p - from,
{
    if from < p {
        lemma_cross_verdict(proof, root, from + 1, p);
    }
}

proof fn lemma_links_verdict(
    proof: SoundMultiproof,
    root: [u32; 8],
    indices: Seq<usize>,
    from: int,
    j: int,
)
    requires
        0 <= from <= j,
        j + 1 < indices.len(),
        proof.links_verdict(root, indices, from) is Ok,
    ensures
        indices[j] < proof.pairs(),
        indices[j + 1] < proof.pairs(),
        proof.merkle_leaves@[indices[j] as int]@ == proof.pair_hash(indices[j + 1] as int),
    decreases j - from,
{
    if from < j {
        lemma_links_verdict(proof, root, indices, from + 1, j);
    }
}

/// A proof that verifies with entries proves each of them a member: its key
/// routes, in every node of its path, to the child that the path selects; the
/// path leads from the root down, each node selecting the next; and it ends
/// at a child with one leaf whose digest is that of the entry.
pub proof fn law_verified_entries_are_members(
    proof: SoundMultiproof,
    root: [u32; 8],
    entries: Seq<PathEntry>,
    min_n: nat,
    replies: SoundReplies,
)
    requires
        proof.verdict_with_entries(root, entries, min_n, replies) is Ok,
    ensures
        entries.len() == proof.paths(),
        replies.merkle_core is Ok && replies.merkle_shift && replies.merkle_opening is Ok
            && replies.route_core is Ok && replies.route_opening is Ok,
        forall|p: int| 0 <= p < proof.paths() ==> (#[trigger] proof.path(p)).len() > 0,
        proof.paths_in_range(),
        forall|p: int|
            #![trigger proof.path(p)]
            0 <= p < proof.paths() ==> proof.pair_hash(proof.path(p)[0] as int) == root@,
        forall|p: int, j: int|
            #![trigger proof.path(p)[j]]
            0 <= p < proof.paths() && 0 <= j && j + 1 < proof.path(p).len()
                ==> proof.merkle_leaves@[proof.path(p)[j] as int]@ == proof.pair_hash(
                proof.path(p)[j + 1] as int,
            ),
        forall|p: int, j: int|
            #![trigger proof.path(p)[j]]
            0 <= p < proof.paths() && 0 <= j < proof.path(p).len() ==> proof.matched(
                entries[p].key@,
                proof.path(p)[j] as int,
            ) == proof.selected(proof.path(p)[j] as int),
        forall|p: int|
            #![trigger entries[p]]
            0 <= p < proof.paths() ==> proof.ends_at(p, entries[p]),
{
    lemma_binding(proof, root);
    assert forall|p: int| #![trigger entries[p]] 0 <= p < proof.paths() implies proof.ends_at(
        p,
        entries[p],
    ) by {
        lemma_entries_verdict(proof, entries, 0, p);
    }
    assert forall|p: int, j: int|
        #![trigger proof.path(p)[j]]
        0 <= p < proof.paths() && 0 <= j < proof.path(p).len() implies proof.matched(
        entries[p].key@,
        proof.path(p)[j] as int,
    ) == proof.selected(proof.path(p)[j] as int) by {
        lemma_entries_verdict(proof, entries, 0, p);
        lemma_routing_verdict(proof, p, entries[p].key@, 0, j);
    }
}

proof fn lemma_entries_verdict(
    proof: SoundMultiproof,
    entries: Seq<PathEntry>,
    from: int,
    p: int,
)
    requires
        0 <= from <= p < proof.paths(),
        proof.entries_verdict(entries, from) is Ok,
    ensures
        proof.routing_verdict(p, entries[p].key@, 0) is Ok,
        proof.ends_at(p, entries[p]),
    decreases p - from,
{
    reveal(SoundMultiproof::entry_verdict);
    if from < p {
        lemma_entries_verdict(proof, entries, from + 1, p);
    }
}

proof fn lemma_routes_pass(proof: SoundMultiproof, p: int, key: Seq<u8>, from: int)
    requires
        0 <= from,
        forall|j: int|
            #![trigger proof.path(p)[j]]
            0 <= j < proof.path(p).len() ==> proof.matched(key, proof.path(p)[j] as int)
                == proof.selected(proof.path(p)[j] as int),
    ensures
        proof.routing_verdict(p, key, from) is Ok,
    decreases proof.path(p).len() - from,
{
    if from < proof.path(p).len() {
        lemma_routes_pass(proof, p, key, from + 1);
        let _ = proof.path(p)[from];
    }
}

proof fn lemma_entries_pass(proof: SoundMultiproof, entries: Seq<PathEntry>, from: int)
    requires
        0 <= from,
        entries.len() == proof.paths(),
        forall|p: int|
            #![trigger entries[p]]
            0 <= p < entries.len() ==> proof.leads_to(p, entries[p]),
    ensures
        proof.entries_verdict(entries, from) is Ok,
    decreases proof.paths() - from,
{
    if from < proof.paths() {
        lemma_entries_pass(proof, entries, from + 1);
        reveal(SoundMultiproof::entry_verdict);
        assert(proof.leads_to(from, entries[from]));
        lemma_routes_pass(proof, from, entries[from].key@, 0);
    }
}

/// A proof verifies with entries exactly when it verifies, there is an entry
/// for each path, no value is too long, and each path leads to its entry.
pub proof fn law_verifies_with_entries_iff(
    proof: SoundMultiproof,
    root: [u32; 8],
    entries: Seq<PathEntry>,
    min_n: nat,
    replies: SoundReplies,
)
    ensures
        proof.verdict_with_entries(root, entries, min_n, replies) is Ok <==> {
            &&& proof.verdict(root, min_n, replies) is Ok
            &&& entries.len() == proof.paths()
            &&& forall|p: int|
                0 <= p < entries.len() ==> (#[trigger] entries[p]).value@.len() <= 0x10_0000
            &&& forall|p: int|
                #![trigger entries[p]]
                0 <= p < entries.len() ==> proof.leads_to(p, entries[p])
        },
{
    if proof.verdict_with_entries(root, entries, min_n, replies) is Ok {
        law_verified_entries_are_members(proof, root, entries, min_n, replies);
        assert forall|p: int| #![trigger entries[p]] 0 <= p < entries.len() implies proof.leads_to(
            p,
            entries[p],
        ) by {
            assert(proof.ends_at(p, entries[p]));
        }
    } else if proof.verdict(root, min_n, replies) is Ok && entries.len() == proof.paths() && (
    forall|p: int| #![trigger entries[p]] 0 <= p < entries.len() ==> proof.leads_to(p, entries[p])) {
        lemma_entries_pass(proof, entries, 0);
    }
}

proof fn lemma_routing_verdict(
    proof: SoundMultiproof,
    p: int,
    key: Seq<u8>,
    from: int,
    level: int,
)
    requires
        0 <= from <= level < proof.path(p).len(),
        proof.routing_verdict(p, key, from) is Ok,
    ensures
        proof.matched(key, proof.path(p)[level] as int) == proof.selected(
            proof.path(p)[level] as int,
        ),
    decreases level - from,
{
    if from < level {
        lemma_routing_verdict(proof, p, key, from + 1, level);
    }
}

/// An accepted key routes through every node of its path to an existing child,
/// whose sparse key it covers if it covers any, and no later child's.
pub proof fn law_accepted_route(
    proof: SoundMultiproof,
    root: [u32; 8],
    entries: Seq<PathEntry>,
    min_n: nat,
    replies: SoundReplies,
    p: int,
    j: int,
)
    requires
        proof.verdict_with_entries(root, entries, min_n, replies) is Ok,
        0 <= p < proof.paths(),
        0 <= j < proof.path(p).len(),
    ensures
        ({
            let i = proof.path(p)[j] as int;
            let meta = proof.content_metas@[proof.pair_phys@[i] as int]@;
            let dense = bits_value(discriminative_bits(entries[p].key@, meta.masks)) as u32;
            &&& proof.selected(i) < meta.keys.len()
            &&& forall|c: int|
                proof.selected(i) < c < meta.keys.len() ==> !crate::entry_binding::covers(
                    dense,
                    #[trigger] meta.keys[c],
                )
        }),
{
    law_verified_entries_are_members(proof, root, entries, min_n, replies);
    lemma_form(proof, root, min_n);
    let i = proof.path(p)[j] as int;
    assert(proof.pair_phys@[i] < proof.nodes());
    let full = proof.content_metas@[proof.pair_phys@[i] as int];
    let meta = full@;
    let dense = bits_value(discriminative_bits(entries[p].key@, meta.masks)) as u32;
    lemma_routed_child(dense, meta.keys);
}

/// The blocks committed for `u` pairs: the least power of two that holds eight
/// for each pair, and no fewer than asked for.
pub proof fn law_allocated_blocks(u: nat, min_n: nat, k: nat)
    ensures
        exists|d: nat| allocated_blocks(u, min_n) == #[trigger] pow2(d),
        8 * u <= allocated_blocks(u, min_n),
        min_n <= allocated_blocks(u, min_n),
        8 * u <= pow2(k) && min_n <= pow2(k) ==> allocated_blocks(u, min_n) <= pow2(k),
{
    let n = if 8 * u < min_n {
        min_n
    } else {
        8 * u
    };
    law_next_pow2_is_least(n, k);
    assert(allocated_blocks(u, min_n) == pow2(ceil_log2(n)));
}

proof fn lemma_nodes_formed(proof: SoundMultiproof, root: [u32; 8], from: int)
    requires
        0 <= from,
        forall|p: int|
            #![trigger proof.content_metas@[p]]
            0 <= p < proof.merkle_roots@.len() ==> {
            let meta = proof.content_metas@[p]@;
            &&& mask_width(meta.masks) <= 32
            &&& meta.keys.len() == meta.counts.len()
            &&& 2 <= meta.keys.len() <= 32
            &&& proof.merkle_block_counts@[p] == 8
        },
    ensures
        proof.nodes_form(root, from) is Ok,
    decreases proof.nodes() - from,
{
    if from < proof.nodes() {
        lemma_nodes_formed(proof, root, from + 1);
        let n = proof.content_metas@[from]@.keys.len();
        lemma2_to64();
        lemma_ceil_log2_of_bound(n, 5);
        lemma_pow2_is_pow2(3);
    }
}

proof fn lemma_pairs_formed(proof: SoundMultiproof, from: int)
    requires
        0 <= from,
        forall|i: int|
            0 <= i < proof.pairs() ==> #[trigger] proof.pair_phys@[i] < proof.nodes(),
        forall|i: int|
            0 <= i < proof.pairs() ==> (#[trigger] proof.merkle_b_bits@[i])@.len() == 8,
    ensures
        proof.pairs_form(from) is Ok,
    decreases proof.pairs() - from,
{
    if from < proof.pairs() {
        lemma_pairs_formed(proof, from + 1);
    }
}

/// A proof has the form that every proof has exactly when its lists fit each
/// other, its nodes have 2 to 32 children, keys of at most 32 bits and eight
/// blocks, its pairs name nodes of it and have eight sides each, and it commits
/// to as many blocks as its pairs need.
#[verifier::rlimit(40)]
pub proof fn law_form_accepted_iff(proof: SoundMultiproof, root: [u32; 8], min_n: nat)
    ensures
        proof.form(root, min_n) is Ok <==> {
            &&& 0 < proof.merkle_leaves@.len()
            &&& proof.merkle_b_bits@.len() == proof.merkle_leaves@.len()
            &&& proof.pair_phys@.len() == proof.merkle_leaves@.len()
            &&& proof.n_routes == proof.merkle_leaves@.len()
            &&& 0 < proof.merkle_roots@.len() <= proof.merkle_leaves@.len()
            &&& proof.merkle_native_roots@.len() == proof.merkle_roots@.len()
            &&& proof.content_metas@.len() == proof.merkle_roots@.len()
            &&& proof.merkle_block_counts@.len() == proof.merkle_roots@.len()
            &&& proof.n_log_merkle <= 20
            &&& pow2(proof.n_log_merkle as nat) == allocated_blocks(
                proof.merkle_leaves@.len(),
                min_n,
            )
            &&& forall|p: int|
                #![trigger proof.content_metas@[p]]
                0 <= p < proof.merkle_roots@.len() ==> {
            let meta = proof.content_metas@[p]@;
            &&& mask_width(meta.masks) <= 32
            &&& meta.keys.len() == meta.counts.len()
            &&& 2 <= meta.keys.len() <= 32
            &&& proof.merkle_block_counts@[p] == 8
        }
            &&& forall|i: int|
                0 <= i < proof.merkle_leaves@.len() ==> #[trigger] proof.pair_phys@[i]
                    < proof.merkle_roots@.len()
            &&& forall|i: int|
                0 <= i < proof.merkle_leaves@.len() ==> (
                #[trigger] proof.merkle_b_bits@[i])@.len() == 8
        },
{
    if proof.form(root, min_n) is Ok {
        lemma_form(proof, root, min_n);
        assert forall|p: int| #![trigger proof.content_metas@[p]] 0 <= p
            < proof.merkle_roots@.len() implies {
            let meta = proof.content_metas@[p]@;
            &&& mask_width(meta.masks) <= 32
            &&& meta.keys.len() == meta.counts.len()
            &&& 2 <= meta.keys.len() <= 32
            &&& proof.merkle_block_counts@[p] == 8
        } by {
            assert(proof.merkle_block_counts@[p] == 8);
        }
    } else {
        if forall|p: int|
            #![trigger proof.content_metas@[p]]
            0 <= p < proof.merkle_roots@.len() ==> {
            let meta = proof.content_metas@[p]@;
            &&& mask_width(meta.masks) <= 32
            &&& meta.keys.len() == meta.counts.len()
            &&& 2 <= meta.keys.len() <= 32
            &&& proof.merkle_block_counts@[p] == 8
        } {
            lemma_nodes_formed(proof, root, 0);
        }
        if (forall|i: int|
            0 <= i < proof.merkle_leaves@.len() ==> #[trigger] proof.pair_phys@[i]
                < proof.merkle_roots@.len()) && (forall|i: int|
            0 <= i < proof.merkle_leaves@.len() ==> (#[trigger] proof.merkle_b_bits@[i])@.len()
                == 8) {
            lemma_pairs_formed(proof, 0);
        }
    }
}

/// The content hash of a pair is the digest of the masks and keys of its node,
/// of the root of the node's tree, and of its counts.
pub proof fn law_pair_hash_message(proof: SoundMultiproof, i: int)
    ensures
        ({
            let p = proof.pair_phys@[i] as int;
            let meta = proof.content_metas@[p]@;
            proof.pair_hash(i) == sha256_words(
                content_preimage(
                    meta.masks,
                    meta.keys,
                    words_be(proof.merkle_native_roots@[p]@),
                    meta.counts,
                ),
            )
        }),
{
}

proof fn lemma_roots_pass(proof: SoundMultiproof, from: int)
    requires
        0 <= from,
        forall|p: int|
            #![trigger proof.merkle_roots@[p]]
            0 <= p < proof.nodes() ==> proof.root_padded(p),
    ensures
        proof.roots_verdict(from) is Ok,
    decreases proof.nodes() - from,
{
    if from < proof.nodes() {
        lemma_roots_pass(proof, from + 1);
        let _ = proof.merkle_roots@[from];
    }
}

proof fn lemma_links_pass(proof: SoundMultiproof, root: [u32; 8], p: int, from: int)
    requires
        0 <= from,
        0 <= p < proof.paths(),
        forall|j: int|
            #![trigger proof.path_mapping.node_indices@[p]@[j]]
            0 <= j < proof.path_mapping.node_indices@[p]@.len() - 1 ==> {
                let path = proof.path_mapping.node_indices@[p]@;
                &&& path[j] < proof.pairs() && path[j + 1] < proof.pairs()
                &&& proof.merkle_leaves@[path[j] as int]@ == proof.pair_hash(path[j + 1] as int)
            },
    ensures
        proof.links_verdict(root, proof.path(p), from) is Ok,
    decreases proof.path(p).len() - from,
{
    if from + 1 < proof.path(p).len() {
        lemma_links_pass(proof, root, p, from + 1);
        let _ = proof.path_mapping.node_indices@[p]@[from];
    }
}

proof fn lemma_paths_pass(proof: SoundMultiproof, root: [u32; 8], from: int)
    requires
        0 <= from,
        proof.paths() <= proof.path_depths@.len(),
        forall|p: int|
            #![trigger proof.path_mapping.node_indices@[p]]
            0 <= p < proof.paths() ==> {
                let path = proof.path_mapping.node_indices@[p]@;
                &&& path.len() == proof.path_depths@[p]
                &&& path.len() > 0
                &&& path[0] < proof.pairs()
                &&& proof.pair_hash(path[0] as int) == root@
            },
        forall|p: int, j: int|
            #![trigger proof.path_mapping.node_indices@[p]@[j]]
            0 <= p < proof.paths() && 0 <= j < proof.path_mapping.node_indices@[p]@.len() - 1 ==> {
                let path = proof.path_mapping.node_indices@[p]@;
                &&& path[j] < proof.pairs() && path[j + 1] < proof.pairs()
                &&& proof.merkle_leaves@[path[j] as int]@ == proof.pair_hash(path[j + 1] as int)
            },
    ensures
        proof.cross_verdict(root, from) is Ok,
        proof.tops_verdict(root, from) is Ok,
    decreases proof.paths() - from,
{
    if from < proof.paths() {
        lemma_paths_pass(proof, root, from + 1);
        let _ = proof.path_mapping.node_indices@[from];
        lemma_links_pass(proof, root, from, 0);
    }
}

/// A proof is accepted exactly when its form is right, the proof system accepts
/// all five parts, every node's tree root comes to the stated root over the
/// blocks that its tree leaves free, every path is as deep as stated, starts in
/// a node whose content hash is the expected root, and each of its pairs
/// selects the content hash of the next.
#[verifier::rlimit(40)]
pub proof fn law_verdict_accepted_iff(
    proof: SoundMultiproof,
    root: [u32; 8],
    min_n: nat,
    replies: SoundReplies,
)
    ensures
        proof.verdict(root, min_n, replies) is Ok <==> {
            &&& proof.form(root, min_n) is Ok
            &&& replies.merkle_core is Ok && replies.merkle_shift && replies.merkle_opening is Ok
            &&& replies.route_core is Ok && replies.route_opening is Ok
            &&& forall|p: int|
                #![trigger proof.merkle_roots@[p]]
                0 <= p < proof.merkle_roots@.len() ==> pad_value(
                    proof.merkle_native_roots@[p]@,
                    (8 - ceil_log2(proof.content_metas@[p]@.keys.len())) as nat,
                ) == proof.merkle_roots@[p]@
            &&& proof.path_mapping.node_indices@.len() <= proof.path_depths@.len()
            &&& forall|p: int|
                #![trigger proof.path_mapping.node_indices@[p]]
                0 <= p < proof.path_mapping.node_indices@.len() ==> {
                    let path = proof.path_mapping.node_indices@[p]@;
                    &&& path.len() == proof.path_depths@[p]
                    &&& path.len() > 0
                    &&& path[0] < proof.merkle_leaves@.len()
                    &&& proof.pair_hash(path[0] as int) == root@
                }
            &&& forall|p: int, j: int|
                #![trigger proof.path_mapping.node_indices@[p]@[j]]
                0 <= p < proof.path_mapping.node_indices@.len() && 0 <= j
                    < proof.path_mapping.node_indices@[p]@.len() - 1 ==> {
                    let path = proof.path_mapping.node_indices@[p]@;
                    &&& path[j] < proof.merkle_leaves@.len() && path[j + 1]
                        < proof.merkle_leaves@.len()
                    &&& proof.merkle_leaves@[path[j] as int]@ == proof.pair_hash(
                        path[j + 1] as int,
                    )
                }
        },
{
    if proof.form(root, min_n) is Ok {
        lemma_form(proof, root, min_n);
        assert forall|p: int| #![trigger proof.merkle_roots@[p]] 0 <= p
            < proof.merkle_roots@.len() implies proof.root_padded(p) == (pad_value(
            proof.merkle_native_roots@[p]@,
            (8 - ceil_log2(proof.content_metas@[p]@.keys.len())) as nat,
        ) == proof.merkle_roots@[p]@) by {
            assert(proof.merkle_block_counts@[p] == 8);
        }
        if proof.verdict(root, min_n, replies) is Ok {
            lemma_accepted_parts(proof, root);
        } else {
            if forall|p: int|
                #![trigger proof.merkle_roots@[p]]
                0 <= p < proof.merkle_roots@.len() ==> pad_value(
                    proof.merkle_native_roots@[p]@,
                    (8 - ceil_log2(proof.content_metas@[p]@.keys.len())) as nat,
                ) == proof.merkle_roots@[p]@ {
                lemma_roots_pass(proof, 0);
            }
            lemma_accepted_paths(proof, root);
        }
    }
}

proof fn lemma_accepted_parts(proof: SoundMultiproof, root: [u32; 8])
    requires
        proof.binding_verdict(root) is Ok,
    ensures
        forall|p: int|
            #![trigger proof.merkle_roots@[p]]
            0 <= p < proof.nodes() ==> proof.root_padded(p),
        proof.paths() <= proof.path_depths@.len(),
        forall|p: int|
            #![trigger proof.path_mapping.node_indices@[p]]
            0 <= p < proof.paths() ==> {
                let path = proof.path_mapping.node_indices@[p]@;
                &&& path.len() == proof.path_depths@[p]
                &&& path.len() > 0
                &&& path[0] < proof.pairs()
                &&& proof.pair_hash(path[0] as int) == root@
            },
        forall|p: int, j: int|
            #![trigger proof.path_mapping.node_indices@[p]@[j]]
            0 <= p < proof.paths() && 0 <= j < proof.path_mapping.node_indices@[p]@.len() - 1 ==> {
                let path = proof.path_mapping.node_indices@[p]@;
                &&& path[j] < proof.pairs() && path[j + 1] < proof.pairs()
                &&& proof.merkle_leaves@[path[j] as int]@ == proof.pair_hash(path[j + 1] as int)
            },
{
    lemma_roots_verdict(proof, 0);
    if proof.paths() > 0 {
        lemma_cross_verdict(proof, root, 0, proof.paths() - 1);
    }
    assert forall|p: int|
        #![trigger proof.path_mapping.node_indices@[p]]
        0 <= p < proof.paths() implies {
        let path = proof.path_mapping.node_indices@[p]@;
        &&& path.len() == proof.path_depths@[p]
        &&& path.len() > 0
        &&& path[0] < proof.pairs()
        &&& proof.pair_hash(path[0] as int) == root@
    } by {
        lemma_cross_verdict(proof, root, 0, p);
        lemma_tops_verdict(proof, root, 0, p);
    }
    assert forall|p: int, j: int|
        #![trigger proof.path_mapping.node_indices@[p]@[j]]
        0 <= p < proof.paths() && 0 <= j < proof.path_mapping.node_indices@[p]@.len() - 1 implies {
        let path = proof.path_mapping.node_indices@[p]@;
        &&& path[j] < proof.pairs() && path[j + 1] < proof.pairs()
        &&& proof.merkle_leaves@[path[j] as int]@ == proof.pair_hash(path[j + 1] as int)
    } by {
        lemma_cross_verdict(proof, root, 0, p);
        lemma_links_verdict(proof, root, proof.path(p), 0, j);
    }
}

proof fn lemma_accepted_paths(proof: SoundMultiproof, root: [u32; 8])
    ensures
        ({
            &&& proof.paths() <= proof.path_depths@.len()
            &&& forall|p: int|
                #![trigger proof.path_mapping.node_indices@[p]]
                0 <= p < proof.paths() ==> {
                    let path = proof.path_mapping.node_indices@[p]@;
                    &&& path.len() == proof.path_depths@[p]
                    &&& path.len() > 0
                    &&& path[0] < proof.pairs()
                    &&& proof.pair_hash(path[0] as int) == root@
                }
            &&& forall|p: int, j: int|
                #![trigger proof.path_mapping.node_indices@[p]@[j]]
                0 <= p < proof.paths() && 0 <= j < proof.path_mapping.node_indices@[p]@.len() - 1
                    ==> {
                    let path = proof.path_mapping.node_indices@[p]@;
                    &&& path[j] < proof.pairs() && path[j + 1] < proof.pairs()
                    &&& proof.merkle_leaves@[path[j] as int]@ == proof.pair_hash(
                        path[j + 1] as int,
                    )
                }
        }) ==> proof.cross_verdict(root, 0) is Ok && proof.tops_verdict(root, 0) is Ok,
{
    if ({
        &&& proof.paths() <= proof.path_depths@.len()
        &&& forall|p: int|
            #![trigger proof.path_mapping.node_indices@[p]]
            0 <= p < proof.paths() ==> {
                let path = proof.path_mapping.node_indices@[p]@;
                &&& path.len() == proof.path_depths@[p]
                &&& path.len() > 0
                &&& path[0] < proof.pairs()
                &&& proof.pair_hash(path[0] as int) == root@
            }
        &&& forall|p: int, j: int|
            #![trigger proof.path_mapping.node_indices@[p]@[j]]
            0 <= p < proof.paths() && 0 <= j < proof.path_mapping.node_indices@[p]@.len() - 1 ==> {
                let path = proof.path_mapping.node_indices@[p]@;
                &&& path[j] < proof.pairs() && path[j + 1] < proof.pairs()
                &&& proof.merkle_leaves@[path[j] as int]@ == proof.pair_hash(path[j + 1] as int)
            }
    }) {
        lemma_paths_pass(proof, root, 0);
    }
}

/// The child that a pair selects, bit by bit: its bit with value two to the `d`
/// is the side of its path at level `d`, as far as the node's tree is deep.
pub proof fn law_selected_bit(proof: SoundMultiproof, i: int, d: nat)
    requires
        proof.merkle_b_bits@[i]@.len() == 8,
        ceil_log2(proof.content_metas@[proof.pair_phys@[i] as int]@.keys.len()) <= 8,
    ensures
        proof.selected(i) / pow2(d) % 2 == if d < ceil_log2(
            proof.content_metas@[proof.pair_phys@[i] as int]@.keys.len(),
        ) && proof.merkle_b_bits@[i]@[d as int] {
            1nat
        } else {
            0nat
        },
        proof.selected(i) < pow2(
            ceil_log2(proof.content_metas@[proof.pair_phys@[i] as int]@.keys.len()),
        ),
{
    let bits = Seq::new(proof.depth(proof.pair_phys@[i] as int), |d: int| proof.side(i, d));
    lemma_bit_of_value(bits, d);
    lemma_bits_value_bound(bits);
}

/// The child that a key matches in the node of a pair is the last whose sparse
/// key the dense key covers, bit for bit, or else the first.
pub proof fn law_matched_child(proof: SoundMultiproof, key: Seq<u8>, i: int, c: int)
    requires
        0 <= c < proof.content_metas@[proof.pair_phys@[i] as int]@.keys.len(),
    ensures
        ({
            let meta = proof.content_metas@[proof.pair_phys@[i] as int]@;
            let dense = bits_value(discriminative_bits(key, meta.masks)) as u32;
            let r = proof.matched(key, i);
            &&& r < meta.keys.len()
            &&& r < c ==> dense & meta.keys[c] != meta.keys[c]
            &&& r == 0 || dense & meta.keys[r as int] == meta.keys[r as int]
        }),
{
    let meta = proof.content_metas@[proof.pair_phys@[i] as int]@;
    law_routed_child(bits_value(discriminative_bits(key, meta.masks)) as u32, meta.keys);
}

/// An accepted entry: its key matches, in every node of its path, the child
/// that the path selects; in the last, the selected child counts one leaf and
/// is the digest of the entry's key, the length of its value and the value.
pub proof fn law_accepted_entry(
    proof: SoundMultiproof,
    root: [u32; 8],
    entries: Seq<PathEntry>,
    min_n: nat,
    replies: SoundReplies,
    p: int,
    j: int,
)
    requires
        proof.verdict_with_entries(root, entries, min_n, replies) is Ok,
        0 <= p < proof.path_mapping.node_indices@.len(),
        0 <= j < proof.path_mapping.node_indices@[p]@.len(),
    ensures
        entries.len() == proof.path_mapping.node_indices@.len(),
        proof.verdict(root, min_n, replies) is Ok,
        entries[p].value@.len() <= 0x10_0000,
        ({
            let path = proof.path_mapping.node_indices@[p]@;
            let last = path.last() as int;
            let counts = proof.content_metas@[proof.pair_phys@[last] as int]@.counts;
            &&& proof.matched(entries[p].key@, path[j] as int) == proof.selected(path[j] as int)
            &&& proof.selected(last) < counts.len()
            &&& counts[proof.selected(last) as int] == 1
            &&& proof.merkle_leaves@[last]@ == sha256_words(
                leaf_preimage(entries[p].key@, entries[p].value@),
            )
        }),
{
    law_verifies_with_entries_iff(proof, root, entries, min_n, replies);
    assert(proof.leads_to(p, entries[p]));
    assert(proof.path(p)[j] == proof.path_mapping.node_indices@[p]@[j]);
}

/// A proof whose paths all do what `law_accepted_entry` says is accepted.
pub proof fn law_matching_entries_are_accepted(
    proof: SoundMultiproof,
    root: [u32; 8],
    entries: Seq<PathEntry>,
    min_n: nat,
    replies: SoundReplies,
)
    requires
        proof.verdict(root, min_n, replies) is Ok,
        entries.len() == proof.path_mapping.node_indices@.len(),
        forall|p: int|
            #![trigger entries[p]]
            0 <= p < entries.len() ==> {
                let last = proof.path_mapping.node_indices@[p]@.last() as int;
                let counts = proof.content_metas@[proof.pair_phys@[last] as int]@.counts;
                &&& entries[p].value@.len() <= 0x10_0000
                &&& proof.selected(last) < counts.len()
                &&& counts[proof.selected(last) as int] == 1
                &&& proof.merkle_leaves@[last]@ == sha256_words(
                    leaf_preimage(entries[p].key@, entries[p].value@),
                )
            },
        forall|p: int, j: int|
            #![trigger proof.path_mapping.node_indices@[p]@[j]]
            0 <= p < entries.len() && 0 <= j < proof.path_mapping.node_indices@[p]@.len()
                ==> proof.matched(
                entries[p].key@,
                proof.path_mapping.node_indices@[p]@[j] as int,
            ) == proof.selected(proof.path_mapping.node_indices@[p]@[j] as int),
    ensures
        proof.verdict_with_entries(root, entries, min_n, replies) is Ok,
{
    assert forall|p: int| #![trigger entries[p]] 0 <= p < entries.len() implies proof.leads_to(
        p,
        entries[p],
    ) by {
        assert forall|j: int| #![trigger proof.path(p)[j]] 0 <= j < proof.path(
            p,
        ).len() implies proof.matched(entries[p].key@, proof.path(p)[j] as int) == proof.selected(
            proof.path(p)[j] as int,
        ) by {
            let _ = proof.path_mapping.node_indices@[p]@[j];
        }
    }
    law_verifies_with_entries_iff(proof, root, entries, min_n, replies);
}

/// What is asked of the paths of all pairs: for each pair its leaf, its eight
/// sides and the root of its node; for each path past the last pair a blank
/// leaf and no side set.
#[verifier::rlimit(40)]
pub proof fn law_shift_statement_entries(
    st: ShiftStatement,
    proof: SoundMultiproof,
    i: int,
    d: int,
)
    requires
        proof.laid_out(),
        is_shift_statement(st, proof),
        0 <= i < st.leaves@.len(),
        0 <= d < 8,
    ensures
        8 * st.leaves@.len() == pow2(proof.n_log_merkle as nat),
        pow2(st.path_log as nat) == st.leaves@.len(),
        st.roots@.len() == st.leaves@.len(),
        st.b_bits@.len() == 8 * st.leaves@.len(),
        i < proof.merkle_leaves@.len() ==> {
            &&& st.leaves@[i]@ == proof.merkle_leaves@[i]@
            &&& st.roots@[i]@ == proof.merkle_roots@[proof.pair_phys@[i] as int]@
            &&& st.b_bits@[8 * i + d] == proof.merkle_b_bits@[i]@[d]
        },
        i >= proof.merkle_leaves@.len() ==> {
            &&& st.leaves@[i]@ == Seq::new(8, |k: int| 0u32)
            &&& st.roots@[i]@ == pad_value(Seq::new(8, |k: int| 0u32), 8)
            &&& !st.b_bits@[8 * i + d]
        },
{
    let n = proof.n_log_merkle as nat;
    lemma_pow2_adds(3, (n - 3) as nat);
    lemma2_to64();
    assert((8 * i + d) / 8 == i && (8 * i + d) % 8 == d);
    assert(st.leaves@[i]@ == if i < proof.pairs() {
        proof.merkle_leaves@[i]@
    } else {
        filler_leaf()
    });
    lemma_filler(d);
}

#[verifier::rlimit(40)]
proof fn lemma_filler(d: int)
    requires
        0 <= d < 8,
    ensures
        filler_leaf() == Seq::new(8, |k: int| 0u32),
        filler_root() == pad_value(Seq::new(8, |k: int| 0u32), 8),
        !filler_sides()[d],
{
    let zero = Seq::new(8, |k: int| 0u32);
    let blank = vstd::array::spec_array_fill_for_copy_type::<u8, 32>(0u8);
    assert(blank@ =~= Seq::new(32, |i: int| 0u8));
    law_tree_nodes(dummy_children(), 0, 0, 0);
    assert forall|j: int| 0 <= j < 8 implies tree_leaf(dummy_children(), 0)[j] == 0 by {
        law_tree_nodes(dummy_children(), 0, 0, j);
    }
    assert forall|j: int| 0 <= j < 8 implies tree_leaf(dummy_children(), 1)[j] == 0 by {
        law_tree_nodes(dummy_children(), 0, 1, j);
    }
    assert(tree_leaf(dummy_children(), 0) =~= zero);
    assert(tree_leaf(dummy_children(), 1) =~= zero);
    assert(zero_words() =~= zero);
    assert forall|k: nat| 0 < k ==> #[trigger] ancestor(0, k) == 0 by {
        law_ancestor(0, k);
        lemma_pow2_pos(k);
        lemma_basic_div(0, pow2(k) as int);
    }
    let v = path_value(dummy_children(), 0, true, 1);
    reveal_with_fuel(path_value, 2);
    reveal_with_fuel(path_block, 2);
    assert(ancestor(0, 0) == 0);
    assert(tree_node(dummy_children(), 0, 1) == zero);
    assert(path_block(dummy_children(), 0, true, 0) == zero + zero);
    assert(v == hash_node(zero, zero));
    lemma_pad_shift(zero, 7);
}

proof fn lemma_pad_shift(zero: Seq<u32>, k: nat)
    requires
        zero == zero_words(),
    ensures
        pad_value(hash_node(zero, zero), k) == pad_value(zero, k + 1),
    decreases k,
{
    if k == 0 {
        assert(pad_value(zero, 1) == hash_node(pad_value(zero, 0), zero_words()));
    } else {
        lemma_pad_shift(zero, (k - 1) as nat);
        assert(pad_value(zero, k + 1) == hash_node(pad_value(zero, k), zero_words()));
    }
}

/// A node's padding: nothing changes without it, and each further level is one
/// compression of the value below followed by zeros.
pub proof fn law_pad_value_steps(v: Seq<u32>, k: nat)
    ensures
        pad_value(v, 0) == v,
        pad_value(v, k + 1) == compress(
            SHA256_IV@,
            pad_value(v, k) + Seq::new(8, |i: int| 0u32),
        ),
{
}

/// What is asked about the paths of all pairs: the parts of the proof, for as
/// many compressions as it commits to, with the public bytes and the statement
/// of what it states, and no claim beside.
pub proof fn law_path_questions_ask_proof(q: PathQuestions, proof: SoundMultiproof)
    requires
        are_path_questions(q, proof),
    ensures
        q.base.relation == (Relation::Sha256 {
            n_blocks: pow2(proof.n_log_merkle as nat) as usize,
        }),
        *q.base.zc == proof.merkle_zc && *q.base.lc == proof.merkle_lc,
        *q.base.pcs == proof.merkle_pcs && q.base.commitment == proof.merkle_commitment,
        *q.shift == proof.merkle_shift,
        q.base.claims@.len() == 0,
        transcript(q.base.fork@) == seq![
            Observed::Label("mhot-multiproof-pcs-fork-v0"@),
            Observed::Label("merkle"@),
        ],
        transcript(q.public_io@) == seq![
            Observed::Label("mhot-sound-public-io-v0"@),
            Observed::Bytes(
                public_io(
                    proof.merkle_leaves@,
                    proof.merkle_b_bits@,
                    proof.pair_phys@,
                    proof.merkle_roots@,
                    proof.n_log_merkle,
                    proof.n_routes,
                ),
            ),
        ],
        is_shift_statement(q.statement, proof),
{
}

/// What refuses a proof, in the order in which it is looked at: its form, the
/// three parts about its paths, its binding, the two parts about its routes.
pub proof fn law_verdict_refusals(
    proof: SoundMultiproof,
    root: [u32; 8],
    min_n: nat,
    replies: SoundReplies,
)
    ensures
        proof.form(root, min_n) is Err ==> proof.verdict(root, min_n, replies) == proof.form(
            root,
            min_n,
        ),
        proof.form(root, min_n) is Ok ==> {
            let v = proof.verdict(root, min_n, replies);
            &&& replies.merkle_core matches Err(e) ==> v == Err::<(), MhotMembershipError>(
                MhotMembershipError::NodeVerify2(e),
            )
            &&& replies.merkle_core is Ok ==> {
                &&& !replies.merkle_shift ==> v == Err::<(), MhotMembershipError>(
                    MhotMembershipError::NodeVerify2(VerifyError::Wiring),
                )
                &&& replies.merkle_shift ==> {
                    &&& replies.merkle_opening matches Err(e) ==> v == Err::<
                        (),
                        MhotMembershipError,
                    >(MhotMembershipError::NodeVerify2(e))
                    &&& replies.merkle_opening is Ok ==> {
                        &&& proof.binding_verdict(root) is Err ==> v == proof.binding_verdict(root)
                        &&& proof.binding_verdict(root) is Ok ==> {
                            &&& replies.route_core matches Err(e) ==> v == Err::<
                                (),
                                MhotMembershipError,
                            >(MhotMembershipError::RouteVerify(e))
                            &&& replies.route_core is Ok ==> (replies.route_opening matches Err(e)
                                ==> v == Err::<(), MhotMembershipError>(
                                MhotMembershipError::RouteOpening(e),
                            ))
                        }
                    }
                }
            }
        },
{
}

/// The first node whose tree root does not come to the stated root is named.
pub proof fn law_first_unpadded_root(proof: SoundMultiproof, from: int, p: usize)
    requires
        0 <= from <= p < proof.nodes(),
        forall|q: int|
            #![trigger proof.merkle_roots@[q]]
            from <= q < p ==> pad_value(
                proof.merkle_native_roots@[q]@,
                (proof.merkle_block_counts@[q] - ceil_log2(
                    proof.content_metas@[q]@.keys.len(),
                )) as nat,
            ) == proof.merkle_roots@[q]@,
        pad_value(
            proof.merkle_native_roots@[p as int]@,
            (proof.merkle_block_counts@[p as int] - ceil_log2(
                proof.content_metas@[p as int]@.keys.len(),
            )) as nat,
        ) != proof.merkle_roots@[p as int]@,
    ensures
        proof.roots_verdict(from) == Err::<(), MhotMembershipError>(
            MhotMembershipError::NativeRootMismatch { node_idx: p },
        ),
    decreases p - from,
{
    if from < p {
        let _ = proof.merkle_roots@[from];
        law_first_unpadded_root(proof, from + 1, p);
    }
}

/// The first level at which an entry's key matches another child than the path
/// selects is named, with both; an entry that matches everywhere but is not
/// what its path ends at is named too.
pub proof fn law_entry_refusals(
    proof: SoundMultiproof,
    p: usize,
    entry: PathEntry,
    from: int,
    level: usize,
)
    requires
        0 <= from <= level < proof.path(p as int).len(),
        forall|k: int|
            #![trigger proof.path(p as int)[k]]
            from <= k < level ==> proof.matched(entry.key@, proof.path(p as int)[k] as int)
                == proof.selected(proof.path(p as int)[k] as int),
    ensures
        ({
            let i = proof.path(p as int)[level as int] as int;
            proof.matched(entry.key@, i) != proof.selected(i) ==> proof.routing_verdict(
                p as int,
                entry.key@,
                from,
            ) == Err::<(), MhotMembershipError>(
                MhotMembershipError::RoutingMismatch {
                    path_idx: p,
                    level,
                    matched: proof.matched(entry.key@, i) as usize,
                    selected: proof.selected(i) as usize,
                },
            )
        }),
        proof.routing_verdict(p as int, entry.key@, 0) is Ok && !proof.ends_at(p as int, entry)
            ==> proof.entry_verdict(p as int, entry) == Err::<(), MhotMembershipError>(
            MhotMembershipError::EntryLeafMismatch { path_idx: p },
        ),
    decreases level - from,
{
    reveal(SoundMultiproof::entry_verdict);
    if from < level {
        let _ = proof.path(p as int)[from];
        law_entry_refusals(proof, p, entry, from + 1, level);
    }
}

/// Entries are refused before anything else where there are not as many as
/// paths, and then where a value is too long.
pub proof fn law_entries_form_refusals(
    proof: SoundMultiproof,
    root: [u32; 8],
    entries: Seq<PathEntry>,
    min_n: nat,
    replies: SoundReplies,
)
    ensures
        entries.len() != proof.path_mapping.node_indices@.len() ==> proof.verdict_with_entries(
            root,
            entries,
            min_n,
            replies,
        ) == Err::<(), MhotMembershipError>(
            MhotMembershipError::EntryCountMismatch {
                n_entries: entries.len() as usize,
                n_paths: proof.path_mapping.node_indices@.len() as usize,
            },
        ),
        entries.len() == proof.path_mapping.node_indices@.len() && (exists|k: int|
            0 <= k < entries.len() && (#[trigger] entries[k]).value@.len() > 0x10_0000)
            ==> proof.verdict_with_entries(root, entries, min_n, replies) == Err::<
            (),
            MhotMembershipError,
        >(MhotMembershipError::MalformedProof { reason: "entry value over length cap" }),
{
}

/// The sides of all blocks: eight for each pair, and the same eight for every
/// path past the last pair.
pub proof fn law_all_sides(b_bits: Seq<Vec<bool>>, filler: Seq<bool>, n_total: nat, i: int, d: int)
    requires
        0 <= i,
        0 <= d < 8,
        8 * i + d < n_total,
    ensures
        all_sides(b_bits, filler, n_total).len() == n_total,
        all_sides(b_bits, filler, n_total)[8 * i + d] == if i < b_bits.len() {
            b_bits[i]@[d]
        } else {
            filler[d]
        },
{
    assert((8 * i + d) / 8 == i && (8 * i + d) % 8 == d);
}

/// What refuses a proof's form, in the order in which it is looked at. Lists
/// that do not fit each other are answered as a root that nothing comes to.
pub proof fn law_form_refusals(proof: SoundMultiproof, root: [u32; 8], min_n: nat)
    ensures
        ({
            let r = proof.form(root, min_n);
            let (u, n) = (proof.merkle_leaves@.len(), proof.merkle_roots@.len());
            let fits = {
                &&& u > 0 && proof.merkle_b_bits@.len() == u && proof.pair_phys@.len() == u
                &&& n > 0 && proof.merkle_native_roots@.len() == n && proof.content_metas@.len()
                    == n && proof.merkle_block_counts@.len() == n
            };
            &&& !fits ==> r == Err::<(), MhotMembershipError>(
                MhotMembershipError::RootMismatch {
                    expected: root,
                    actual: words_array(Seq::new(8, |i: int| 0u32)),
                },
            )
            &&& fits && proof.n_log_merkle > 20 ==> r == Err::<(), MhotMembershipError>(
                MhotMembershipError::MalformedProof { reason: "n_log_merkle over absolute cap" },
            )
            &&& fits && proof.n_log_merkle <= 20 && proof.n_routes != u ==> r == Err::<
                (),
                MhotMembershipError,
            >(MhotMembershipError::MalformedProof { reason: "n_routes != unique pair count" })
            &&& fits && proof.n_log_merkle <= 20 && proof.n_routes == u && n > u ==> r == Err::<
                (),
                MhotMembershipError,
            >(MhotMembershipError::MalformedProof { reason: "n_phys exceeds pair count" })
        }),
{
}

} // verus!
