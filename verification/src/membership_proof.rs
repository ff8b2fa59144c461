//! Proofs that one path leads from a root down to a leaf.

use vstd::arithmetic::power2::{lemma2_to64, pow2};
use vstd::prelude::*;

use crate::backend::{
    asks_base, index_point, law_index_point_bit, transcript, BaseQuestion, ChainVerifyError, Commitment,
    MerklePathVerifyError, Observed, OpenedCore, PackedDirectClaim, Relation, TranscriptOp,
    VerifyError,
};
use crate::bytes::{
    append_u64_le, law_word_bytes, le64, lemma_words_array, same_words, words_be,
};
use crate::math::{
    ceil_log2, law_next_pow2_is_least, lemma_ceil_log2, lemma_is_pow2_log, next_pow2,
    next_power_of_two,
};
use crate::merkle_membership::{
    build_content_hash_chain, chain_blocks, chain_pad, check_links, complete, digest_to_sof_f128,
    extend_chain, first_error, first_unlinked, is_extended_chain, is_padded_path, is_sof,
    law_extended_chain_block, law_first_error, law_links_verdict, law_padded_lengths, law_route_bits,
    law_sof_bits,
    leaf_words_to_digest_bytes, lemma_element_of_bits, links_verdict, mhot_node_to_route_witness,
    node_leaves, node_route, padded_path, pd_point, prove_node_merkle, route_bits, route_sof_f128,
    states_node, zero_block, ContentMeta, Meta, MhotMembershipError, NodeMerkleProof, PaddedPath,
    ProvedPart, SOF_PACKED_BASE,
};
use crate::mhot_to_sha256::law_content_preimage_layout;
use crate::native_witness::{node_valid, tree_leaf, tree_root, MhotNodeWitness};
use crate::r1cs::F128;
use crate::route_f32::{spelled_index, Route};
use crate::route_f32_setup::{
    batch_filled, generate_witness_with_ab_packed_and_lincheck, padded_instances, routes_of,
    RouteF32Setup, RouteF32Witness,
};
use crate::sha256::{block_count, compress, law_pad_layout, sha256_compress, Compression, SHA256_IV};

verus! {

/// One step of a path: a node, the route through it and its content.
#[derive(Clone, Debug)]
pub struct MhotMembershipInput {
    pub node: MhotNodeWitness,
    pub route_witness: RouteF32Witness,
    pub content: ContentMeta,
}

impl MhotMembershipInput {
    /// A step with made-up content: each chunk selects its lowest five bits,
    /// and every child has the sparse key 0 and one leaf.
    pub fn from_node(node: MhotNodeWitness) -> (s: Self)
        requires
            node.children@.len() <= 32,
        ensures
            s.node == node,
            s.route_witness.route() == node_route(node.children@, node.selected_child as nat),
            s.route_witness.children@.len() == 32,
            s.content@.masks == seq![0x1Fu64, 0x1Fu64, 0x1Fu64, 0x1Fu64],
            s.content@.keys == Seq::new(node.children@.len(), |i: int| 0u32),
            s.content@.counts == Seq::new(node.children@.len(), |i: int| 1u32),
    {
        let route_witness = mhot_node_to_route_witness(&node);
        let nc: usize = node.children.len();
        let mut sparse_partial_keys: Vec<u32> = Vec::new();
        let mut child_leaf_counts: Vec<u32> = Vec::new();
        for i in 0..nc
            invariant
                sparse_partial_keys@ == Seq::new(i as nat, |j: int| 0u32),
                child_leaf_counts@ == Seq::new(i as nat, |j: int| 1u32),
        {
            sparse_partial_keys.push(0);
            child_leaf_counts.push(1);
            assert(sparse_partial_keys@ =~= Seq::new((i + 1) as nat, |j: int| 0u32));
            assert(child_leaf_counts@ =~= Seq::new((i + 1) as nat, |j: int| 1u32));
        }
        let content = ContentMeta {
            extraction_masks: [0x1F, 0x1F, 0x1F, 0x1F],
            sparse_partial_keys,
            child_leaf_counts,
        };
        assert(content@.masks =~= seq![0x1Fu64, 0x1Fu64, 0x1Fu64, 0x1Fu64]);
        MhotMembershipInput { node, route_witness, content }
    }

    /// The words of the content hash of the step's node.
    pub open spec fn content_hash(self) -> Seq<u32> {
        self.content@.content_hash(tree_root(self.node.children@))
    }
}

/// The chain of a node's content hash, run on over zero blocks.
#[derive(Clone, Debug)]
pub struct ContentChainPlan {
    pub compressions: Vec<Compression>,
    pub content_hash: [u32; 8],
    /// What the whole chain comes to.
    pub cv_last: [u32; 8],
    /// How many blocks hash the content.
    pub n_real: usize,
}

/// How many blocks a chain of `n` real ones has when it is proved on its own,
/// where a proof covers `min_blocks` at the least.
pub open spec fn standalone_blocks(n: nat, min_blocks: nat) -> nat {
    next_pow2(if chain_blocks(n) < min_blocks {
        min_blocks
    } else {
        chain_blocks(n)
    })
}

/// Whether the chain of a node with this content can be built.
pub open spec fn chain_fits(meta: Meta, min_blocks: nat) -> bool {
    let n = block_count((64 + 4 * meta.keys.len() + 4 * meta.counts.len()) as nat);
    &&& meta.fits()
    &&& chain_blocks(n) <= usize::MAX
    &&& standalone_blocks(n, min_blocks) <= usize::MAX
}

/// Whether `plan` is the chain of the content hash of a node with this content
/// and this tree root.
pub open spec fn is_chain_plan(
    plan: ContentChainPlan,
    meta: Meta,
    root: Seq<u32>,
    min_blocks: nat,
) -> bool {
    let data = meta.preimage(words_be(root));
    &&& plan.n_real == block_count(data.len())
    &&& plan.compressions@.len() == standalone_blocks(plan.n_real as nat, min_blocks)
    &&& is_extended_chain(plan.compressions@, data)
    &&& plan.content_hash@ == meta.content_hash(root)
    &&& plan.cv_last@ == chain_pad(
        plan.content_hash@,
        (plan.compressions@.len() - plan.n_real) as nat,
    )
}

/// Builds the chain of a node's content hash.
pub fn plan_content_chain(
    meta: &ContentMeta,
    native_root: &[u32; 8],
    min_blocks: usize,
) -> (plan: ContentChainPlan)
    requires
        chain_fits(meta@, min_blocks as nat),
    ensures
        is_chain_plan(plan, meta@, native_root@, min_blocks as nat),
{
    let root = leaf_words_to_digest_bytes(native_root);
    proof {
        crate::merkle_membership::lemma_preimage_len(meta@, root@);
    }
    let (compressions, content_hash, cv, n_real) = build_content_hash_chain(meta, &root);
    let mut compressions = compressions;
    let len: usize = compressions.len();
    let floor: usize = if len < min_blocks {
        min_blocks
    } else {
        len
    };
    proof {
        lemma_chain_blocks(n_real as nat);
        lemma_ceil_log2(floor as nat);
    }
    let n: usize = next_power_of_two(floor);
    let cv_last = extend_chain(&mut compressions, cv, n, Ghost(meta@.preimage(root@)));
    ContentChainPlan { compressions, content_hash, cv_last, n_real }
}

proof fn lemma_chain_blocks(n: nat)
    ensures
        chain_blocks(n) >= n,
        chain_blocks(n) >= 8,
{
    lemma_ceil_log2(if n < 8 {
        8
    } else {
        n
    });
}

/// The proof of a content chain, with what it is about.
#[derive(Clone, Debug)]
pub struct ContentChainProof {
    /// The proof system's encoding.
    pub proof: Vec<u8>,
    pub commitment: Commitment,
    pub content_hash: [u32; 8],
    pub cv_last: [u32; 8],
    pub n_compressions: usize,
    pub n_real_compressions: usize,
}

/// Whether running on from the content hash over the zero blocks of a chain
/// comes to what the chain was proved to come to.
pub open spec fn chain_consistent(cp: ContentChainProof) -> bool {
    &&& cp.n_real_compressions <= cp.n_compressions
    &&& chain_pad(
        cp.content_hash@,
        (cp.n_compressions - cp.n_real_compressions) as nat,
    ) == cp.cv_last@
}

/// Checks that a chain's content hash leads to what the chain comes to.
pub fn check_content_chain(cp: &ContentChainProof) -> (ok: bool)
    ensures
        ok == chain_consistent(*cp),
{
    if cp.n_real_compressions > cp.n_compressions {
        return false;
    }
    let n_pad: usize = cp.n_compressions - cp.n_real_compressions;
    let zeros = [0u32; 16];
    assert(zeros@ =~= zero_block());
    let mut expected_cv: [u32; 8] = cp.content_hash;
    for k in 0..n_pad
        invariant
            zeros@ == zero_block(),
            expected_cv@ == chain_pad(cp.content_hash@, k as nat),
    {
        expected_cv = sha256_compress(&expected_cv, &zeros);
    }
    same_words(&expected_cv, &cp.cv_last)
}

/// What the transcript of a node's content chain adds to that of the path.
pub fn fork_content_challenger(node_idx: usize) -> (ops: Vec<TranscriptOp>)
    ensures
        transcript(ops@) == seq![
            Observed::Label("mhot-content-chain-fork-v0"@),
            Observed::Bytes(le64(node_idx as u64)),
        ],
{
    let mut idx: Vec<u8> = Vec::new();
    append_u64_le(&mut idx, node_idx as u64);
    assert(idx@ =~= le64(node_idx as u64));
    let mut ops: Vec<TranscriptOp> = Vec::new();
    ops.push(TranscriptOp::Label("mhot-content-chain-fork-v0"));
    ops.push(TranscriptOp::Bytes(idx));
    assert(transcript(ops@) =~= seq![
        Observed::Label("mhot-content-chain-fork-v0"@),
        Observed::Bytes(le64(node_idx as u64)),
    ]);
    ops
}

/// The question about a node's content chain: whether `proof` shows that what
/// is committed is a chain of `n_blocks` compressions from `start` to `end`.
/// Its transcript is that of the path with `fork` added; once it is asked,
/// that of the path goes on with `seal`.
#[derive(Clone, Debug)]
pub struct ChainQuestion<'a> {
    pub n_blocks: usize,
    pub start: [u32; 8],
    pub end: [u32; 8],
    pub proof: &'a Vec<u8>,
    pub commitment: Commitment,
    pub fork: Vec<TranscriptOp>,
    pub seal: Vec<TranscriptOp>,
}

/// Whether a question is that about the content chain of node `node_idx`.
pub open spec fn is_chain_question(
    q: ChainQuestion,
    cp: ContentChainProof,
    node_idx: usize,
) -> bool {
    &&& q.n_blocks == cp.n_compressions
    &&& q.start@ == SHA256_IV@
    &&& q.end == cp.cv_last
    &&& *q.proof == cp.proof
    &&& q.commitment == cp.commitment
    &&& transcript(q.fork@) == seq![
        Observed::Label("mhot-content-chain-fork-v0"@),
        Observed::Bytes(le64(node_idx as u64)),
    ]
    &&& transcript(q.seal@) == seq![Observed::Bytes(cp.commitment.root@)]
}

/// The question about the content chain of node `node_idx`.
pub fn chain_question(cp: &ContentChainProof, node_idx: usize) -> (q: ChainQuestion<'_>)
    ensures
        is_chain_question(q, *cp, node_idx),
{
    let mut seal: Vec<TranscriptOp> = Vec::new();
    seal.push(TranscriptOp::Bytes(vstd::slice::slice_to_vec(cp.commitment.root.as_slice())));
    let q = ChainQuestion {
        n_blocks: cp.n_compressions,
        start: SHA256_IV,
        end: cp.cv_last,
        proof: &cp.proof,
        commitment: cp.commitment,
        fork: fork_content_challenger(node_idx),
        seal,
    };
    assert(transcript(q.seal@) =~= seq![Observed::Bytes(cp.commitment.root@)]);
    q
}

/// Whether a setup is for batches padded as one of `n` is.
pub open spec fn setup_serves(setup: RouteF32Setup, n: nat) -> bool {
    &&& setup.is_setup_of(setup.n_instances as nat)
    &&& setup.setup_n_instances == padded_instances(n)
}

/// Whether claims `2 * i` and `2 * i + 1` say that the output of route `i`
/// holds these bits.
pub open spec fn is_output_claim(
    claims: Seq<PackedDirectClaim>,
    i: int,
    bits: Seq<bool>,
    m: nat,
) -> bool {
    &&& claims[2 * i].point@ == index_point((256 * i + 146) as nat, (m - 7) as nat)
    &&& claims[2 * i + 1].point@ == index_point((256 * i + 147) as nat, (m - 7) as nat)
    &&& is_sof(claims[2 * i].value, claims[2 * i + 1].value, bits)
}

/// Whether `claims` say that the output of each route holds these bits.
pub open spec fn is_output_claims(
    claims: Seq<PackedDirectClaim>,
    outputs: Seq<Seq<bool>>,
    m: nat,
) -> bool {
    &&& claims.len() == 2 * outputs.len()
    &&& forall|i: int|
        0 <= i < outputs.len() ==> #[trigger] is_output_claim(claims, i, outputs[i], m)
}

fn push_output_claims(
    claims: &mut Vec<PackedDirectClaim>,
    setup: &RouteF32Setup,
    i: usize,
    sof: [F128; 2],
    Ghost(outputs): Ghost<Seq<Seq<bool>>>,
    Ghost(bits): Ghost<Seq<bool>>,
)
    requires
        setup.r1cs.m >= 7,
        256 * (i + 1) <= usize::MAX,
        outputs.len() == i,
        is_output_claims(old(claims)@, outputs, setup.r1cs.m as nat),
        is_sof(sof@[0], sof@[1], bits),
    ensures
        is_output_claims(final(claims)@, outputs.push(bits), setup.r1cs.m as nat),
{
    let ghost before = claims@;
    let first = PackedDirectClaim { point: pd_point(setup, i, SOF_PACKED_BASE), value: sof[0] };
    let second = PackedDirectClaim {
        point: pd_point(setup, i, SOF_PACKED_BASE + 1),
        value: sof[1],
    };
    claims.push(first);
    claims.push(second);
    proof {
        let all = outputs.push(bits);
        assert forall|k: int| 0 <= k < all.len() implies #[trigger] is_output_claim(
            claims@,
            k,
            all[k],
            setup.r1cs.m as nat,
        ) by {
            if k < i {
                assert(is_output_claim(before, k, outputs[k], setup.r1cs.m as nat));
            } else {
                assert(claims@[2 * k] == first);
                assert(claims@[2 * k + 1] == second);
            }
        }
    }
}

/// The bits that the routes of a batch put out.
pub open spec fn route_outputs(routes: Seq<Route>) -> Seq<Seq<bool>> {
    routes.map_values(|r: Route| r.children[spelled_index(r)])
}

/// The bits of the digests with these words.
pub open spec fn leaf_outputs(leaves: Seq<[u32; 8]>) -> Seq<Seq<bool>> {
    leaves.map_values(|l: [u32; 8]| route_bits(words_be(l@)))
}

/// The claims that a prover opens on the routes of a batch: what each route
/// puts out.
pub fn route_output_claims(
    setup: &RouteF32Setup,
    witnesses: &[RouteF32Witness],
) -> (claims: Vec<PackedDirectClaim>)
    requires
        setup.r1cs.m >= 7,
        256 * witnesses@.len() <= usize::MAX,
        forall|i: int| 0 <= i < witnesses@.len() ==> (#[trigger] witnesses@[i]).children@.len() == 32,
    ensures
        is_output_claims(
            claims@,
            route_outputs(routes_of(witnesses@)),
            setup.r1cs.m as nat,
        ),
{
    let mut claims: Vec<PackedDirectClaim> = Vec::new();
    for i in 0..witnesses.len()
        invariant
            setup.r1cs.m >= 7,
            256 * witnesses@.len() <= usize::MAX,
            forall|k: int|
                0 <= k < witnesses@.len() ==> (#[trigger] witnesses@[k]).children@.len() == 32,
            is_output_claims(
                claims@,
                route_outputs(routes_of(witnesses@.take(i as int))),
                setup.r1cs.m as nat,
            ),
    {
        let sof = route_sof_f128(&witnesses[i]);
        let ghost done = route_outputs(routes_of(witnesses@.take(i as int)));
        let ghost route = witnesses@[i as int].route();
        proof {
            crate::route_f32::law_route_selects_spelled_child(route, 0);
        }
        let ghost bits = route.children[spelled_index(route)];
        push_output_claims(&mut claims, setup, i, sof, Ghost(done), Ghost(bits));
        assert(route_outputs(routes_of(witnesses@.take(i + 1))) =~= done.push(bits));
    }
    assert(witnesses@.take(witnesses@.len() as int) =~= witnesses@);
    claims
}

/// The claims that a verifier checks on the routes of a batch: that each puts
/// out the leaf that the hash side was proved for.
pub fn leaf_output_claims(
    setup: &RouteF32Setup,
    leaves: &[[u32; 8]],
) -> (claims: Vec<PackedDirectClaim>)
    requires
        setup.r1cs.m >= 7,
        256 * leaves@.len() <= usize::MAX,
    ensures
        is_output_claims(claims@, leaf_outputs(leaves@), setup.r1cs.m as nat),
{
    let mut claims: Vec<PackedDirectClaim> = Vec::new();
    for i in 0..leaves.len()
        invariant
            setup.r1cs.m >= 7,
            256 * leaves@.len() <= usize::MAX,
            is_output_claims(
                claims@,
                leaf_outputs(leaves@.take(i as int)),
                setup.r1cs.m as nat,
            ),
    {
        let sof = digest_to_sof_f128(&leaf_words_to_digest_bytes(&leaves[i]));
        let ghost done = leaf_outputs(leaves@.take(i as int));
        let ghost bits = route_bits(words_be(leaves@[i as int]@));
        push_output_claims(&mut claims, setup, i, sof, Ghost(done), Ghost(bits));
        assert(leaf_outputs(leaves@.take(i + 1)) =~= done.push(bits));
    }
    assert(leaves@.take(leaves@.len() as int) =~= leaves@);
    claims
}

/// Claims on the same outputs are the same claims.
pub proof fn law_output_claims_determined(
    a: Seq<PackedDirectClaim>,
    b: Seq<PackedDirectClaim>,
    outputs: Seq<Seq<bool>>,
    m: nat,
)
    requires
        is_output_claims(a, outputs, m),
        is_output_claims(b, outputs, m),
    ensures
        a.len() == b.len(),
        forall|k: int|
            0 <= k < a.len() ==> (#[trigger] a[k]).point@ == b[k].point@ && a[k].value
                == b[k].value,
{
    assert forall|k: int| 0 <= k < a.len() implies (#[trigger] a[k]).point@ == b[k].point@
        && a[k].value == b[k].value by {
        let i = k / 2;
        let bits = outputs[i];
        assert(is_output_claim(a, i, bits, m));
        assert(is_output_claim(b, i, bits, m));
        lemma_element_of_bits(a[2 * i].value, b[2 * i].value, bits.subrange(0, 128));
        lemma_element_of_bits(a[2 * i + 1].value, b[2 * i + 1].value, bits.subrange(128, 256));
        assert(k == 2 * i || k == 2 * i + 1);
    }
}

/// Whether a step can be proved.
pub open spec fn input_valid(input: MhotMembershipInput, min_blocks: nat) -> bool {
    &&& node_valid(input.node)
    &&& input.route_witness.children@.len() == 32
    &&& chain_fits(input.content@, min_blocks)
}

/// Whether a path can be proved.
pub open spec fn path_valid(path: Seq<MhotMembershipInput>, min_blocks: nat) -> bool {
    &&& path.len() > 0
    &&& forall|i: int| 0 <= i < path.len() ==> input_valid(#[trigger] path[i], min_blocks)
}

/// The routes of a path's steps.
pub open spec fn path_routes(path: Seq<MhotMembershipInput>) -> Seq<Route> {
    path.map_values(|p: MhotMembershipInput| p.route_witness.route())
}

/// What is committed and opened for a path.
pub struct MembershipPlan {
    pub nodes: Vec<PaddedPath>,
    pub chains: Vec<ContentChainPlan>,
    pub route_z: Vec<F128>,
    pub route_a: Vec<F128>,
    pub route_b: Vec<F128>,
    pub route_claims: Vec<PackedDirectClaim>,
}

/// Whether `plan` is the plan of `path`.
pub open spec fn is_membership_plan(
    plan: MembershipPlan,
    path: Seq<MhotMembershipInput>,
    setup: RouteF32Setup,
    min_blocks: nat,
) -> bool {
    &&& plan.nodes@.len() == path.len()
    &&& forall|i: int|
        0 <= i < path.len() ==> is_padded_path(
            #[trigger] plan.nodes@[i],
            path[i].node.children@,
            path[i].node.selected_child as nat,
            false,
        )
    &&& plan.chains@.len() == path.len()
    &&& forall|i: int|
        0 <= i < path.len() ==> is_chain_plan(
            #[trigger] plan.chains@[i],
            path[i].content@,
            tree_root(path[i].node.children@),
            min_blocks,
        )
    &&& batch_filled(
        plan.route_z@,
        plan.route_a@,
        plan.route_b@,
        path_routes(path),
        setup.setup_n_instances as int,
    )
    &&& is_output_claims(
        plan.route_claims@,
        route_outputs(path_routes(path)),
        setup.r1cs.m as nat,
    )
}

/// A setup pads a batch of `n` to a power of two that is no less.
pub proof fn lemma_setup_serves(setup: RouteF32Setup, n: nat)
    requires
        setup_serves(setup, n),
    ensures
        setup.r1cs.m >= 22,
        setup.r1cs.k_log == 15,
        setup.r1cs.m - setup.r1cs.k_log == ceil_log2(padded_instances(n)),
        pow2(ceil_log2(padded_instances(n))) == setup.setup_n_instances,
        n <= setup.setup_n_instances,
{
    let k = if n < 128 {
        128
    } else {
        n
    };
    lemma_ceil_log2(k);
    lemma_is_pow2_log(padded_instances(n));
    lemma2_to64();
    if ceil_log2(padded_instances(n)) < 7 {
        crate::math::lemma_pow2_mono(ceil_log2(padded_instances(n)), 6);
    }
}

/// Builds what is committed and opened for a path.
pub fn plan_membership(
    path: &[MhotMembershipInput],
    setup: &RouteF32Setup,
    min_blocks: usize,
) -> (plan: MembershipPlan)
    requires
        path_valid(path@, min_blocks as nat),
        setup_serves(*setup, path@.len()),
        256 * path@.len() <= usize::MAX,
    ensures
        is_membership_plan(plan, path@, *setup, min_blocks as nat),
{
    let mut nodes: Vec<PaddedPath> = Vec::new();
    let mut chains: Vec<ContentChainPlan> = Vec::new();
    let mut witnesses: Vec<RouteF32Witness> = Vec::new();
    for i in 0..path.len()
        invariant
            path_valid(path@, min_blocks as nat),
            nodes@.len() == i,
            chains@.len() == i,
            witnesses@.len() == i,
            forall|k: int|
                0 <= k < i ==> is_padded_path(
                    #[trigger] nodes@[k],
                    path@[k].node.children@,
                    path@[k].node.selected_child as nat,
                    false,
                ),
            forall|k: int|
                0 <= k < i ==> is_chain_plan(
                    #[trigger] chains@[k],
                    path@[k].content@,
                    tree_root(path@[k].node.children@),
                    min_blocks as nat,
                ),
            forall|k: int|
                0 <= k < i ==> (#[trigger] witnesses@[k]).route() == path@[k].route_witness.route()
                    && witnesses@[k].children@.len() == 32,
    {
        assert(input_valid(path@[i as int], min_blocks as nat));
        let node = padded_path(&path[i].node, false);
        let chain = plan_content_chain(&path[i].content, &node.native_root, min_blocks);
        nodes.push(node);
        chains.push(chain);
        witnesses.push(path[i].route_witness.copied());
    }
    proof {
        lemma_setup_serves(*setup, path@.len());
        assert(routes_of(witnesses@) =~= path_routes(path@));
    }
    let (route_z, route_a, route_b) = generate_witness_with_ab_packed_and_lincheck(
        witnesses.as_slice(),
        setup.n_blocks_log(),
    );
    let route_claims = route_output_claims(setup, witnesses.as_slice());
    MembershipPlan { nodes, chains, route_z, route_a, route_b, route_claims }
}

/// The proof of a path: of each node's hash path, of each node's content hash,
/// and of all its routes.
pub struct MhotMembershipProof {
    pub hash_proofs: Vec<NodeMerkleProof>,
    pub content_proofs: Vec<ContentChainProof>,
    pub route_zc: Vec<u8>,
    pub route_lc: Vec<u8>,
    pub route_pcs: Vec<u8>,
    pub route_commitment: Commitment,
    pub n_routes: usize,
}

/// Whether `cp` states the content hash of a step's node.
pub open spec fn states_content(
    cp: ContentChainProof,
    input: MhotMembershipInput,
    min_blocks: nat,
) -> bool {
    let n_real = block_count(input.content@.preimage(words_be(tree_root(input.node.children@))).len());
    &&& cp.content_hash@ == input.content_hash()
    &&& cp.n_real_compressions == n_real
    &&& cp.n_compressions == standalone_blocks(n_real, min_blocks)
    &&& cp.cv_last@ == chain_pad(
        cp.content_hash@,
        (cp.n_compressions - cp.n_real_compressions) as nat,
    )
}

/// Whether a proof states the steps of `path`.
pub open spec fn states_path(
    proof: MhotMembershipProof,
    path: Seq<MhotMembershipInput>,
    min_blocks: nat,
) -> bool {
    &&& proof.hash_proofs@.len() == path.len()
    &&& proof.content_proofs@.len() == path.len()
    &&& proof.n_routes == path.len()
    &&& forall|i: int|
        0 <= i < path.len() ==> states_node(#[trigger] proof.hash_proofs@[i], path[i].node)
    &&& forall|i: int|
        0 <= i < path.len() ==> states_content(
            #[trigger] proof.content_proofs@[i],
            path[i],
            min_blocks,
        )
}

/// The proof of a path, given what the proof system makes of its plan.
pub fn prove_membership(
    path: &[MhotMembershipInput],
    plan: &MembershipPlan,
    setup: &RouteF32Setup,
    min_blocks: usize,
    node_parts: &[ProvedPart],
    chain_parts: &[ProvedPart],
    route: OpenedCore,
) -> (proof: MhotMembershipProof)
    requires
        path_valid(path@, min_blocks as nat),
        is_membership_plan(*plan, path@, *setup, min_blocks as nat),
        node_parts@.len() == path@.len(),
        chain_parts@.len() == path@.len(),
    ensures
        states_path(proof, path@, min_blocks as nat),
        forall|i: int|
            0 <= i < path@.len() ==> (#[trigger] proof.hash_proofs@[i]).proof@
                == node_parts@[i].proof@ && proof.hash_proofs@[i].commitment
                == node_parts@[i].commitment,
        forall|i: int|
            0 <= i < path@.len() ==> (#[trigger] proof.content_proofs@[i]).proof@
                == chain_parts@[i].proof@ && proof.content_proofs@[i].commitment
                == chain_parts@[i].commitment,
        proof.route_zc == route.zc_proof,
        proof.route_lc == route.lc_proof,
        proof.route_pcs == route.pcs_open,
        proof.route_commitment == route.commitment,
{
    let mut hash_proofs: Vec<NodeMerkleProof> = Vec::new();
    let mut content_proofs: Vec<ContentChainProof> = Vec::new();
    for i in 0..path.len()
        invariant
            path_valid(path@, min_blocks as nat),
            is_membership_plan(*plan, path@, *setup, min_blocks as nat),
            node_parts@.len() == path@.len(),
            chain_parts@.len() == path@.len(),
            hash_proofs@.len() == i,
            content_proofs@.len() == i,
            forall|k: int|
                0 <= k < i ==> states_node(#[trigger] hash_proofs@[k], path@[k].node)
                    && hash_proofs@[k].proof@ == node_parts@[k].proof@
                    && hash_proofs@[k].commitment == node_parts@[k].commitment,
            forall|k: int|
                0 <= k < i ==> states_content(
                    #[trigger] content_proofs@[k],
                    path@[k],
                    min_blocks as nat,
                ) && content_proofs@[k].proof@ == chain_parts@[k].proof@
                    && content_proofs@[k].commitment == chain_parts@[k].commitment,
    {
        assert(input_valid(path@[i as int], min_blocks as nat));
        hash_proofs.push(
            prove_node_merkle(
                &path[i].node,
                &plan.nodes[i],
                vstd::slice::slice_to_vec(node_parts[i].proof.as_slice()),
                node_parts[i].commitment,
            ),
        );
        let chain: &ContentChainPlan = &plan.chains[i];
        content_proofs.push(
            ContentChainProof {
                proof: vstd::slice::slice_to_vec(chain_parts[i].proof.as_slice()),
                commitment: chain_parts[i].commitment,
                content_hash: chain.content_hash,
                cv_last: chain.cv_last,
                n_compressions: chain.compressions.len(),
                n_real_compressions: chain.n_real,
            },
        );
    }
    MhotMembershipProof {
        hash_proofs,
        content_proofs,
        route_zc: route.zc_proof,
        route_lc: route.lc_proof,
        route_pcs: route.pcs_open,
        route_commitment: route.commitment,
        n_routes: path.len(),
    }
}

/// What the proof system says of the parts of a path's proof. Nodes and chains
/// are asked in order until one fails.
pub struct MembershipReplies {
    pub nodes: Vec<Result<(), MerklePathVerifyError>>,
    pub chains: Vec<Result<(), ChainVerifyError>>,
    pub route_core: Result<(), VerifyError>,
    pub route_opening: Result<(), VerifyError>,
}

/// The first content chain from `i` on that is rejected, by the proof system
/// or by its own check, or their number.
pub open spec fn first_bad_chain(
    proofs: Seq<ContentChainProof>,
    replies: Seq<Result<(), ChainVerifyError>>,
    i: int,
) -> int
    decreases replies.len() - i,
{
    if i >= replies.len() || replies[i] is Err || !chain_consistent(proofs[i]) {
        i
    } else {
        first_bad_chain(proofs, replies, i + 1)
    }
}

/// The content hashes of a path's nodes.
pub open spec fn content_hashes(proofs: Seq<ContentChainProof>) -> Seq<[u32; 8]> {
    proofs.map_values(|p: ContentChainProof| p.content_hash)
}

/// What the links and the root of a path come to.
pub open spec fn binding_verdict(
    proof: MhotMembershipProof,
    expected_root: [u32; 8],
) -> Result<(), MhotMembershipError> {
    let hashes = content_hashes(proof.content_proofs@);
    let links = links_verdict(node_leaves(proof.hash_proofs@), hashes);
    if links is Err {
        links
    } else if hashes[0] != expected_root {
        Err(MhotMembershipError::RootMismatch { expected: expected_root, actual: hashes[0] })
    } else {
        Ok(())
    }
}

/// What verifying a path's proof against a root comes to.
pub open spec fn membership_verdict(
    proof: MhotMembershipProof,
    expected_root: [u32; 8],
    replies: MembershipReplies,
) -> Result<(), MhotMembershipError> {
    let e = first_error(replies.nodes@, 0);
    let c = first_bad_chain(proof.content_proofs@, replies.chains@, 0);
    if e < replies.nodes@.len() {
        Err(MhotMembershipError::NodeVerify(replies.nodes@[e]->Err_0))
    } else if c < replies.chains@.len() {
        match replies.chains@[c] {
            Err(x) => Err(MhotMembershipError::ContentChainVerify(c as usize, x)),
            Ok(_) => Err(MhotMembershipError::ContentHashMismatch { node_idx: c as usize }),
        }
    } else if binding_verdict(proof, expected_root) is Err {
        binding_verdict(proof, expected_root)
    } else {
        match (replies.route_core, replies.route_opening) {
            (Err(x), _) => Err(MhotMembershipError::RouteVerify(x)),
            (Ok(_), Err(x)) => Err(MhotMembershipError::RouteOpening(x)),
            (Ok(_), Ok(_)) => Ok(()),
        }
    }
}

/// Whether the replies cover what has to be asked of a path's proof.
pub open spec fn replies_cover(proof: MhotMembershipProof, replies: MembershipReplies) -> bool {
    &&& complete(replies.nodes@, proof.hash_proofs@.len())
    &&& replies.chains@.len() <= proof.content_proofs@.len()
    &&& replies.chains@.len() == proof.content_proofs@.len() || first_error(replies.nodes@, 0)
        < replies.nodes@.len() || first_bad_chain(proof.content_proofs@, replies.chains@, 0)
        < replies.chains@.len()
}

/// Checks that each node of a path selects the content hash of the node below
/// it, and that the first has the expected one.
pub fn check_path_binding(proof: &MhotMembershipProof, expected_root: &[u32; 8]) -> (r: Result<
    (),
    MhotMembershipError,
>)
    requires
        proof.hash_proofs@.len() > 0,
        proof.hash_proofs@.len() == proof.content_proofs@.len(),
    ensures
        r == binding_verdict(*proof, *expected_root),
{
    let n: usize = proof.hash_proofs.len();
    let mut leaves: Vec<[u32; 8]> = Vec::new();
    let mut hashes: Vec<[u32; 8]> = Vec::new();
    for i in 0..n
        invariant
            n == proof.hash_proofs@.len() == proof.content_proofs@.len(),
            leaves@ == node_leaves(proof.hash_proofs@.take(i as int)),
            hashes@ == content_hashes(proof.content_proofs@.take(i as int)),
    {
        leaves.push(proof.hash_proofs[i].leaf);
        hashes.push(proof.content_proofs[i].content_hash);
        assert(leaves@ =~= node_leaves(proof.hash_proofs@.take(i + 1)));
        assert(hashes@ =~= content_hashes(proof.content_proofs@.take(i + 1)));
    }
    assert(proof.hash_proofs@.take(n as int) =~= proof.hash_proofs@);
    assert(proof.content_proofs@.take(n as int) =~= proof.content_proofs@);
    match check_links(leaves.as_slice(), hashes.as_slice()) {
        Err(e) => {
            return Err(e);
        },
        Ok(()) => {},
    }
    if !same_words(&hashes[0], expected_root) {
        return Err(
            MhotMembershipError::RootMismatch { expected: *expected_root, actual: hashes[0] },
        );
    }
    Ok(())
}

/// The question about the routes of a path: that each puts out the leaf of its
/// node. Core and opening follow each other in the transcript of the path.
pub fn route_question<'a>(proof: &'a MhotMembershipProof, setup: &RouteF32Setup) -> (q:
    BaseQuestion<'a>)
    requires
        setup.r1cs.m >= 7,
        256 * proof.hash_proofs@.len() <= usize::MAX,
    ensures
        asks_base(
            q,
            Relation::Route { n: proof.n_routes },
            proof.route_zc,
            proof.route_lc,
            proof.route_pcs,
            proof.route_commitment,
        ),
        is_output_claims(
            q.claims@,
            leaf_outputs(node_leaves(proof.hash_proofs@)),
            setup.r1cs.m as nat,
        ),
        q.fork@.len() == 0,
{
    let mut leaves: Vec<[u32; 8]> = Vec::new();
    for i in 0..proof.hash_proofs.len()
        invariant
            leaves@ == node_leaves(proof.hash_proofs@.take(i as int)),
    {
        leaves.push(proof.hash_proofs[i].leaf);
        assert(leaves@ =~= node_leaves(proof.hash_proofs@.take(i + 1)));
    }
    assert(proof.hash_proofs@.take(proof.hash_proofs@.len() as int) =~= proof.hash_proofs@);
    BaseQuestion {
        relation: Relation::Route { n: proof.n_routes },
        zc: &proof.route_zc,
        lc: &proof.route_lc,
        pcs: &proof.route_pcs,
        commitment: proof.route_commitment,
        claims: leaf_output_claims(setup, leaves.as_slice()),
        fork: Vec::new(),
    }
}

/// Decides on the proof of a path against a root, given what the proof system
/// says of its parts: to `node_question` of each node, to `chain_question` of
/// each content chain, and to `route_question`.
pub fn verify_membership(
    proof: &MhotMembershipProof,
    expected_root: &[u32; 8],
    replies: &MembershipReplies,
) -> (r: Result<(), MhotMembershipError>)
    requires
        proof.hash_proofs@.len() > 0,
        proof.hash_proofs@.len() == proof.content_proofs@.len(),
        replies_cover(*proof, *replies),
    ensures
        r == membership_verdict(*proof, *expected_root, *replies),
{
    for i in 0..replies.nodes.len()
        invariant
            first_error(replies.nodes@, 0) == first_error(replies.nodes@, i as int),
    {
        match replies.nodes[i] {
            Ok(()) => {},
            Err(e) => {
                return Err(MhotMembershipError::NodeVerify(e));
            },
        }
    }
    for i in 0..replies.chains.len()
        invariant
            first_error(replies.nodes@, 0) == replies.nodes@.len(),
            replies.chains@.len() <= proof.content_proofs@.len(),
            first_bad_chain(proof.content_proofs@, replies.chains@, 0) == first_bad_chain(
                proof.content_proofs@,
                replies.chains@,
                i as int,
            ),
    {
        match replies.chains[i] {
            Ok(()) => {},
            Err(e) => {
                return Err(MhotMembershipError::ContentChainVerify(i, e));
            },
        }
        if !check_content_chain(&proof.content_proofs[i]) {
            return Err(MhotMembershipError::ContentHashMismatch { node_idx: i });
        }
    }
    match check_path_binding(proof, expected_root) {
        Err(e) => {
            return Err(e);
        },
        Ok(()) => {},
    }
    match replies.route_core {
        Err(e) => Err(MhotMembershipError::RouteVerify(e)),
        Ok(()) => match replies.route_opening {
            Err(e) => Err(MhotMembershipError::RouteOpening(e)),
            Ok(()) => Ok(()),
        },
    }
}

/// Whether each step of a path selects the node of the next.
pub open spec fn path_linked(path: Seq<MhotMembershipInput>) -> bool {
    forall|i: int|
        #![trigger path[i]]
        0 <= i && i + 1 < path.len() ==> tree_leaf(
            path[i].node.children@,
            path[i].node.selected_child as int,
        ) == path[i + 1].content_hash()
}

/// Whether the proof system accepts every part.
pub open spec fn all_accept(replies: MembershipReplies, n: nat) -> bool {
    &&& replies.nodes@.len() == n
    &&& replies.chains@.len() == n
    &&& forall|i: int| 0 <= i < n ==> #[trigger] replies.nodes@[i] is Ok
    &&& forall|i: int| 0 <= i < n ==> #[trigger] replies.chains@[i] is Ok
    &&& replies.route_core is Ok
    &&& replies.route_opening is Ok
}

proof fn lemma_no_error<E>(replies: Seq<Result<(), E>>, i: int)
    requires
        0 <= i <= replies.len(),
        forall|k: int| 0 <= k < replies.len() ==> #[trigger] replies[k] is Ok,
    ensures
        first_error(replies, i) == replies.len(),
    decreases replies.len() - i,
{
    if i < replies.len() {
        lemma_no_error(replies, i + 1);
    }
}

proof fn lemma_no_bad_chain(
    proofs: Seq<ContentChainProof>,
    replies: Seq<Result<(), ChainVerifyError>>,
    i: int,
)
    requires
        0 <= i <= replies.len(),
        replies.len() == proofs.len(),
        forall|k: int| 0 <= k < replies.len() ==> #[trigger] replies[k] is Ok,
        forall|k: int| 0 <= k < proofs.len() ==> chain_consistent(#[trigger] proofs[k]),
    ensures
        first_bad_chain(proofs, replies, i) == replies.len(),
    decreases replies.len() - i,
{
    if i < replies.len() {
        lemma_no_bad_chain(proofs, replies, i + 1);
    }
}

/// Where every leaf is the root below it, no link fails.
pub proof fn lemma_all_linked(leaves: Seq<[u32; 8]>, roots: Seq<[u32; 8]>, i: int)
    requires
        0 <= i,
        leaves.len() == 0 || i < leaves.len(),
        forall|k: int| #![trigger leaves[k]] 0 <= k && k + 1 < leaves.len() ==> leaves[k]@
            == roots[k + 1]@,
    ensures
        first_unlinked(leaves, roots, i) + 1 >= leaves.len(),
    decreases leaves.len() - i,
{
    if i + 1 < leaves.len() {
        lemma_words_array(leaves[i]);
        lemma_words_array(roots[i + 1]);
        lemma_all_linked(leaves, roots, i + 1);
    }
}

/// The proof of a linked path verifies against the content hash of its first
/// node, wherever the proof system accepts every part.
pub proof fn law_linked_path_verifies(
    proof: MhotMembershipProof,
    path: Seq<MhotMembershipInput>,
    expected_root: [u32; 8],
    replies: MembershipReplies,
    min_blocks: nat,
)
    requires
        path_valid(path, min_blocks),
        path_linked(path),
        states_path(proof, path, min_blocks),
        expected_root@ == path[0].content_hash(),
        all_accept(replies, path.len()),
    ensures
        membership_verdict(proof, expected_root, replies) is Ok,
{
    lemma_no_error(replies.nodes@, 0);
    let cps = proof.content_proofs@;
    assert forall|k: int| 0 <= k < cps.len() implies chain_consistent(#[trigger] cps[k]) by {
        assert(states_content(cps[k], path[k], min_blocks));
        assert(input_valid(path[k], min_blocks));
        let n_real = cps[k].n_real_compressions as nat;
        lemma_chain_blocks(n_real);
        lemma_ceil_log2(if chain_blocks(n_real) < min_blocks {
            min_blocks
        } else {
            chain_blocks(n_real)
        });
    }
    lemma_no_bad_chain(cps, replies.chains@, 0);
    let leaves = node_leaves(proof.hash_proofs@);
    let hashes = content_hashes(cps);
    assert forall|k: int| #![trigger leaves[k]] 0 <= k && k + 1 < leaves.len() implies leaves[k]@
        == hashes[k + 1]@ by {
        assert(states_node(proof.hash_proofs@[k], path[k].node));
        assert(states_content(cps[k + 1], path[k + 1], min_blocks));
    }
    lemma_all_linked(leaves, hashes, 0);
    assert(states_content(cps[0], path[0], min_blocks));
    lemma_words_array(hashes[0]);
    lemma_words_array(expected_root);
}

/// A path's proof that verifies links every node to the one below it and the
/// first to the expected root; its chains lead to what they were proved to
/// come to; and the proof system accepts every part.
pub proof fn law_verified_path_is_linked(
    proof: MhotMembershipProof,
    expected_root: [u32; 8],
    replies: MembershipReplies,
)
    requires
        proof.hash_proofs@.len() > 0,
        proof.hash_proofs@.len() == proof.content_proofs@.len(),
        replies_cover(proof, replies),
        membership_verdict(proof, expected_root, replies) is Ok,
    ensures
        all_accept(replies, proof.hash_proofs@.len()),
        proof.content_proofs@[0].content_hash == expected_root,
        forall|i: int|
            0 <= i < proof.content_proofs@.len() ==> chain_consistent(
                #[trigger] proof.content_proofs@[i],
            ),
        forall|i: int|
            #![trigger proof.hash_proofs@[i]]
            0 <= i && i + 1 < proof.hash_proofs@.len() ==> proof.hash_proofs@[i].leaf
                == proof.content_proofs@[i + 1].content_hash,
{
    lemma_first_error_bound(replies.nodes@, 0);
    lemma_first_bad_chain_bound(proof.content_proofs@, replies.chains@, 0);
    let leaves = node_leaves(proof.hash_proofs@);
    let hashes = content_hashes(proof.content_proofs@);
    lemma_first_unlinked_bound(leaves, hashes, 0);
    assert forall|i: int| #![trigger proof.hash_proofs@[i]] 0 <= i && i + 1
        < proof.hash_proofs@.len() implies proof.hash_proofs@[i].leaf
        == proof.content_proofs@[i + 1].content_hash by {
        assert(leaves[i] == hashes[i + 1]);
    }
}

proof fn lemma_first_error_bound<E>(replies: Seq<Result<(), E>>, i: int)
    requires
        0 <= i <= replies.len(),
    ensures
        i <= first_error(replies, i) <= replies.len(),
        forall|k: int| i <= k < first_error(replies, i) ==> #[trigger] replies[k] is Ok,
    decreases replies.len() - i,
{
    if i < replies.len() && replies[i] is Ok {
        lemma_first_error_bound(replies, i + 1);
    }
}

proof fn lemma_first_bad_chain_bound(
    proofs: Seq<ContentChainProof>,
    replies: Seq<Result<(), ChainVerifyError>>,
    i: int,
)
    requires
        0 <= i <= replies.len(),
    ensures
        i <= first_bad_chain(proofs, replies, i) <= replies.len(),
        forall|k: int|
            i <= k < first_bad_chain(proofs, replies, i) ==> #[trigger] replies[k] is Ok,
        forall|k: int|
            i <= k < first_bad_chain(proofs, replies, i) ==> chain_consistent(
                #[trigger] proofs[k],
            ),
    decreases replies.len() - i,
{
    if i < replies.len() && replies[i] is Ok && chain_consistent(proofs[i]) {
        lemma_first_bad_chain_bound(proofs, replies, i + 1);
    }
}

/// Before the first link that fails, none does.
pub proof fn lemma_first_unlinked_bound(leaves: Seq<[u32; 8]>, roots: Seq<[u32; 8]>, i: int)
    requires
        0 <= i,
        leaves.len() > 0,
        i < leaves.len(),
    ensures
        i <= first_unlinked(leaves, roots, i) < leaves.len(),
        forall|k: int|
            i <= k < first_unlinked(leaves, roots, i) ==> #[trigger] leaves[k] == roots[k + 1],
    decreases leaves.len() - i,
{
    if i + 1 < leaves.len() && leaves[i] == roots[i + 1] {
        lemma_first_unlinked_bound(leaves, roots, i + 1);
    }
}

/// The claims that the prover opens on a path whose routes select what its
/// nodes do are the claims that the verifier checks.
pub proof fn law_path_claims_agree(
    proof: MhotMembershipProof,
    path: Seq<MhotMembershipInput>,
    min_blocks: nat,
)
    requires
        path_valid(path, min_blocks),
        states_path(proof, path, min_blocks),
        forall|i: int|
            #![trigger path[i]]
            0 <= i < path.len() ==> path[i].node.children@.len() <= 32
                && path[i].route_witness.route() == node_route(
                path[i].node.children@,
                path[i].node.selected_child as nat,
            ),
    ensures
        route_outputs(path_routes(path)) == leaf_outputs(node_leaves(proof.hash_proofs@)),
{
    let a = route_outputs(path_routes(path));
    let b = leaf_outputs(node_leaves(proof.hash_proofs@));
    assert forall|i: int| 0 <= i < path.len() implies a[i] == b[i] by {
        let node = path[i].node;
        assert(input_valid(path[i], min_blocks));
        assert(states_node(proof.hash_proofs@[i], node));
        crate::merkle_membership::law_node_route_selects_child(node);
        let d = node.children@[node.selected_child as int]@;
        crate::bytes::lemma_bytes_of_words(d, 8);
    }
    assert(a =~= b);
}

/// A chain's padding: nothing changes without it, and each further block of
/// sixteen zero words is compressed onto what came before.
pub proof fn law_chain_pad_steps(v: Seq<u32>, k: nat)
    ensures
        chain_pad(v, 0) == v,
        chain_pad(v, k + 1) == compress(chain_pad(v, k), Seq::new(16, |i: int| 0u32)),
{
}

/// A chain's proof is consistent where its end is what the stated content hash
/// comes to over the zero blocks that follow the real ones.
pub proof fn law_chain_consistent(cp: ContentChainProof)
    ensures
        chain_consistent(cp) <==> cp.n_real_compressions <= cp.n_compressions && cp.cv_last@
            == chain_pad(cp.content_hash@, (cp.n_compressions - cp.n_real_compressions) as nat),
{
}

/// The plan of a content chain: it has a power of two of blocks, no fewer than
/// asked for nor than eight; the stated hash is the output of its last real
/// block, and its end that of its last block.
#[verifier::rlimit(40)]
pub proof fn law_chain_plan(
    plan: ContentChainPlan,
    meta: Meta,
    root: Seq<u32>,
    min_blocks: nat,
)
    requires
        meta.masks.len() == 4,
        root.len() == 8,
        meta.fits(),
        is_chain_plan(plan, meta, root, min_blocks),
    ensures
        plan.n_real == (64 + 4 * meta.keys.len() + 4 * meta.counts.len() + 9 + 63) / 64,
        exists|d: nat| plan.compressions@.len() == #[trigger] pow2(d),
        plan.n_real <= plan.compressions@.len(),
        8 <= plan.compressions@.len(),
        min_blocks <= plan.compressions@.len(),
        plan.content_hash@ == compress(
            plan.compressions@[plan.n_real - 1].0@,
            plan.compressions@[plan.n_real - 1].1@,
        ),
        plan.cv_last@ == compress(plan.compressions@.last().0@, plan.compressions@.last().1@),
{
    let data = meta.preimage(words_be(root));
    let n = plan.n_real as nat;
    let chain = plan.compressions@;
    law_content_preimage_layout(meta.masks, meta.keys, words_be(root), meta.counts);
    law_padded_lengths(n, 0);
    let most = if chain_blocks(n) < min_blocks {
        min_blocks
    } else {
        chain_blocks(n)
    };
    law_next_pow2_is_least(most, 0);
    assert(chain.len() == pow2(ceil_log2(most)));
    law_pad_layout(data);
    law_extended_chain_block(chain, data, n - 1, 0);
    if chain.len() > n {
        let k = (chain.len() - n) as nat;
        law_chain_pad_steps(plan.content_hash@, (k - 1) as nat);
        assert(chain.last() == chain[chain.len() - 1]);
        assert(zero_block() =~= Seq::new(16, |i: int| 0u32));
    }
}

/// The claims on the outputs of a batch: two for each, at the elements 146 and
/// 147 of its block of 256, which together hold its 256 bits.
pub proof fn law_output_claim_fields(
    claims: Seq<PackedDirectClaim>,
    outputs: Seq<Seq<bool>>,
    m: nat,
    i: int,
    k: int,
    p: int,
)
    requires
        is_output_claims(claims, outputs, m),
        m >= 7,
        0 <= i < outputs.len(),
        outputs[i].len() == 256,
        0 <= k < m - 7,
        0 <= p < 64,
    ensures
        claims.len() == 2 * outputs.len(),
        claims[2 * i].point@.len() == m - 7,
        claims[2 * i + 1].point@.len() == m - 7,
        claims[2 * i].point@[k].hi == 0,
        claims[2 * i + 1].point@[k].hi == 0,
        claims[2 * i].point@[k].lo == (256 * i + 146) as nat / pow2(k as nat) % 2,
        claims[2 * i + 1].point@[k].lo == (256 * i + 147) as nat / pow2(k as nat) % 2,
        (claims[2 * i].value.lo >> (p as u64)) & 1 == 1 <==> outputs[i][p],
        (claims[2 * i].value.hi >> (p as u64)) & 1 == 1 <==> outputs[i][64 + p],
        (claims[2 * i + 1].value.lo >> (p as u64)) & 1 == 1 <==> outputs[i][128 + p],
        (claims[2 * i + 1].value.hi >> (p as u64)) & 1 == 1 <==> outputs[i][192 + p],
{
    assert(is_output_claim(claims, i, outputs[i], m));
    law_index_point_bit((256 * i + 146) as nat, (m - 7) as nat, k);
    law_index_point_bit((256 * i + 147) as nat, (m - 7) as nat, k);
    law_sof_bits(claims[2 * i].value, claims[2 * i + 1].value, outputs[i], p);
}

/// A path's proof is accepted exactly when every part of it is, every chain is
/// consistent, the leaf of every node is the content hash of the next, and the
/// content hash of the first is the expected root.
#[verifier::rlimit(40)]
pub proof fn law_membership_accepted_iff(
    proof: MhotMembershipProof,
    expected_root: [u32; 8],
    replies: MembershipReplies,
)
    requires
        proof.hash_proofs@.len() > 0,
        proof.hash_proofs@.len() == proof.content_proofs@.len(),
        replies.nodes@.len() == proof.hash_proofs@.len(),
        replies.chains@.len() == proof.content_proofs@.len(),
    ensures
        membership_verdict(proof, expected_root, replies) is Ok <==> {
            &&& forall|i: int| 0 <= i < replies.nodes@.len() ==> #[trigger] replies.nodes@[i] is Ok
            &&& forall|i: int|
                0 <= i < replies.chains@.len() ==> #[trigger] replies.chains@[i] is Ok
            &&& forall|i: int|
                0 <= i < proof.content_proofs@.len() ==> chain_consistent(
                    #[trigger] proof.content_proofs@[i],
                )
            &&& forall|i: int|
                0 <= i < proof.hash_proofs@.len() - 1 ==> (#[trigger] proof.hash_proofs@[i]).leaf
                    == proof.content_proofs@[i + 1].content_hash
            &&& proof.content_proofs@[0].content_hash == expected_root
            &&& replies.route_core is Ok
            &&& replies.route_opening is Ok
        },
{
    law_first_error(replies.nodes@, 0);
    lemma_first_bad_chain_bound(proof.content_proofs@, replies.chains@, 0);
    lemma_bad_chain_is_bad(proof.content_proofs@, replies.chains@, 0);
    let leaves = node_leaves(proof.hash_proofs@);
    let hashes = content_hashes(proof.content_proofs@);
    law_links_verdict(leaves, hashes);
    if links_verdict(leaves, hashes) is Ok {
        assert forall|i: int| 0 <= i < proof.hash_proofs@.len() - 1 implies (
        #[trigger] proof.hash_proofs@[i]).leaf == proof.content_proofs@[i + 1].content_hash by {
            assert(leaves[i] == hashes[i + 1]);
        }
    } else {
        let i = choose|i: int|
            0 <= i < leaves.len() - 1 && #[trigger] leaves[i] != hashes[i + 1];
        assert(proof.hash_proofs@[i].leaf != proof.content_proofs@[i + 1].content_hash);
    }
}

proof fn lemma_bad_chain_is_bad(
    proofs: Seq<ContentChainProof>,
    replies: Seq<Result<(), ChainVerifyError>>,
    i: int,
)
    requires
        0 <= i <= replies.len(),
    ensures
        first_bad_chain(proofs, replies, i) < replies.len() ==> {
            let c = first_bad_chain(proofs, replies, i);
            replies[c] is Err || !chain_consistent(proofs[c])
        },
    decreases replies.len() - i,
{
    if i < replies.len() && replies[i] is Ok && chain_consistent(proofs[i]) {
        lemma_bad_chain_is_bad(proofs, replies, i + 1);
    }
}

/// What refuses a path's proof, in the order in which it is looked at: the
/// first node's error, the first chain's error or inconsistency, the links and
/// the root, the routes, their opening.
pub proof fn law_membership_refusals(
    proof: MhotMembershipProof,
    expected_root: [u32; 8],
    replies: MembershipReplies,
    i: usize,
)
    requires
        proof.hash_proofs@.len() == proof.content_proofs@.len(),
    ensures
        i < replies.nodes@.len() && replies.nodes@[i as int] is Err && (forall|k: int|
            0 <= k < i ==> #[trigger] replies.nodes@[k] is Ok) ==> membership_verdict(
            proof,
            expected_root,
            replies,
        ) == Err::<(), MhotMembershipError>(
            MhotMembershipError::NodeVerify(replies.nodes@[i as int]->Err_0),
        ),
        i < replies.chains@.len() && (forall|k: int|
            0 <= k < replies.nodes@.len() ==> #[trigger] replies.nodes@[k] is Ok) && (forall|k: int|
            0 <= k < i ==> #[trigger] replies.chains@[k] is Ok && chain_consistent(
                proof.content_proofs@[k],
            )) ==> (replies.chains@[i as int] matches Err(x) ==> membership_verdict(
            proof,
            expected_root,
            replies,
        ) == Err::<(), MhotMembershipError>(MhotMembershipError::ContentChainVerify(i, x))) && (
        replies.chains@[i as int] is Ok && !chain_consistent(proof.content_proofs@[i as int])
            ==> membership_verdict(proof, expected_root, replies) == Err::<
            (),
            MhotMembershipError,
        >(MhotMembershipError::ContentHashMismatch { node_idx: i })),
{
    law_first_error(replies.nodes@, 0);
    lemma_first_bad_chain_bound(proof.content_proofs@, replies.chains@, 0);
    lemma_bad_chain_is_bad(proof.content_proofs@, replies.chains@, 0);
}

/// What a step of a path puts out: the bits of the digest that its leaf spells,
/// most significant byte of each word first.
pub proof fn law_leaf_output_bit(leaves: Seq<[u32; 8]>, i: int, w: int, j: int, t: int)
    requires
        0 <= i < leaves.len(),
        0 <= w < 8,
        0 <= j < 4,
        0 <= t < 8,
    ensures
        leaf_outputs(leaves).len() == leaves.len(),
        leaf_outputs(leaves)[i].len() == 256,
        leaf_outputs(leaves)[i][32 * w + 8 * j + t] <==> ((((leaves[i]@[w] >> ((24 - 8
            * j) as u32)) as u8) >> (t as u8)) & 1 == 1),
{
    law_word_bytes(leaves[i]@, w, j);
    law_route_bits(words_be(leaves[i]@), 4 * w + j, t);
    assert(8 * (4 * w + j) + t == 32 * w + 8 * j + t);
}

/// What a route puts out is the child that it spells.
pub proof fn law_route_output(routes: Seq<Route>, i: int)
    requires
        0 <= i < routes.len(),
    ensures
        route_outputs(routes).len() == routes.len(),
        route_outputs(routes)[i] == routes[i].children[spelled_index(routes[i])],
{
}

/// What is asked about a content chain: whether as many blocks as stated lead
/// from the initial value to the stated end.
pub proof fn law_chain_question_asks_proof(q: ChainQuestion, cp: ContentChainProof, node_idx: usize)
    requires
        is_chain_question(q, cp, node_idx),
    ensures
        q.n_blocks == cp.n_compressions,
        q.start@ == SHA256_IV@,
        q.end@ == cp.cv_last@,
        *q.proof == cp.proof,
        q.commitment == cp.commitment,
        transcript(q.fork@) == seq![
            Observed::Label("mhot-content-chain-fork-v0"@),
            Observed::Bytes(le64(node_idx as u64)),
        ],
        transcript(q.seal@) == seq![Observed::Bytes(cp.commitment.root@)],
{
}

/// What a plan holds for step `i` of a path: its padded path, its content chain
/// over the root of its tree, and its route among the batch.
pub proof fn law_membership_plan_step(
    plan: MembershipPlan,
    path: Seq<MhotMembershipInput>,
    setup: RouteF32Setup,
    min_blocks: nat,
    i: int,
)
    requires
        is_membership_plan(plan, path, setup, min_blocks),
        0 <= i < path.len(),
    ensures
        plan.nodes@.len() == path.len(),
        plan.chains@.len() == path.len(),
        is_padded_path(
            plan.nodes@[i],
            path[i].node.children@,
            path[i].node.selected_child as nat,
            false,
        ),
        is_chain_plan(
            plan.chains@[i],
            path[i].content@,
            tree_root(path[i].node.children@),
            min_blocks,
        ),
        batch_filled(
            plan.route_z@,
            plan.route_a@,
            plan.route_b@,
            Seq::new(path.len(), |k: int| path[k].route_witness.route()),
            setup.setup_n_instances as int,
        ),
        plan.route_claims@.len() == 2 * path.len(),
        is_output_claim(
            plan.route_claims@,
            i,
            ({
                let r = path[i].route_witness.route();
                r.children[spelled_index(r)]
            }),
            setup.r1cs.m as nat,
        ),
{
    let routes = path_routes(path);
    assert(routes =~= Seq::new(path.len(), |k: int| path[k].route_witness.route()));
    assert(is_output_claim(plan.route_claims@, i, route_outputs(routes)[i], setup.r1cs.m as nat));
    let _ = (plan.nodes@[i], plan.chains@[i]);
}

/// The proof of a content chain states what its plan proves: the same content
/// hash, as many blocks, as many real ones, and the same end.
pub proof fn law_content_proof_states_plan(
    cp: ContentChainProof,
    plan: ContentChainPlan,
    input: MhotMembershipInput,
    min_blocks: nat,
)
    requires
        states_content(cp, input, min_blocks),
        is_chain_plan(plan, input.content@, tree_root(input.node.children@), min_blocks),
    ensures
        cp.content_hash@ == plan.content_hash@,
        cp.n_real_compressions == plan.n_real,
        cp.n_compressions == plan.compressions@.len(),
        cp.cv_last@ == plan.cv_last@,
{
}

} // verus!
