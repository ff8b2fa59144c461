//! What holds of a proof for many paths as a whole.

use vstd::arithmetic::power2::{lemma2_to64, lemma_pow2_unfold, pow2};
use vstd::prelude::*;

use crate::backend::{transcript, Relation};
use crate::bytes::{
    dwords_le, le32, le64, lemma_le64_injective, lemma_split, lemma_words_array, words_le,
};
use crate::entry_binding::{
    bits_value, discriminative_bits, leaf_preimage, mask_width, routed_child, PathEntry,
};
use crate::math::{ceil_log2, lemma_ceil_log2};
use crate::membership_proof::{leaf_outputs, route_outputs, MhotMembershipInput};
use crate::merkle_membership::{node_route, pad_value, padded_block};
use crate::native_witness::{ancestor, path_value, side_bit, tree_depth, tree_leaf};
use crate::route_f32_setup::RouteF32Setup;
use crate::sha256::{compress, sha256_words, Compression, SHA256_IV};
use crate::sound_multiproof::{
    allocated_blocks, are_path_questions, bit_lists, bits_bytes, digests_le, dummy_children,
    is_shift_statement, lemma_bits_bytes_injective, numbers_le, public_io, PathQuestions,
    ShiftStatement, SoundMultiproof, SoundReplies,
};
use crate::sound_plan::{
    is_dedup, is_sound_plan, join_digests, lemma_dedup_counts, lemma_dedup_index, lemma_dedup_node,
    lemma_dedup_pair, lemma_hash_block, lemma_states_node, lemma_states_pair, nodes_of, pairs_of,
    paths_valid, step_at, step_routes, step_valid, Dedup, SoundPlan,
};

verus! {

/// A word is determined by its little-endian bytes.
proof fn lemma_le32_injective(a: u32, b: u32)
    requires
        le32(a) == le32(b),
    ensures
        a == b,
{
    let (x, y) = (le32(a), le32(b));
    assert(x[0] == y[0] && x[1] == y[1] && x[2] == y[2] && x[3] == y[3]);
    assert(a == b) by (bit_vector)
        requires
            a as u8 == b as u8,
            (a >> 8) as u8 == (b >> 8) as u8,
            (a >> 16) as u8 == (b >> 16) as u8,
            (a >> 24) as u8 == (b >> 24) as u8,
    ;
}

/// Words are determined by their bytes.
pub proof fn lemma_words_le_injective(a: Seq<u32>, b: Seq<u32>)
    requires
        words_le(a) == words_le(b),
    ensures
        a == b,
{
    let (x, y) = (words_le(a), words_le(b));
    assert(x.len() == y.len());
    assert forall|i: int| 0 <= i < a.len() implies a[i] == b[i] by {
        assert(x[4 * i] == y[4 * i] && x[4 * i + 1] == y[4 * i + 1]);
        assert(x[4 * i + 2] == y[4 * i + 2] && x[4 * i + 3] == y[4 * i + 3]);
        assert(le32(a[i]) =~= le32(b[i]));
        lemma_le32_injective(a[i], b[i]);
    }
    assert(a =~= b);
}

/// Double words are determined by their bytes.
pub proof fn lemma_dwords_le_injective(a: Seq<u64>, b: Seq<u64>)
    requires
        dwords_le(a) == dwords_le(b),
    ensures
        a == b,
{
    let (x, y) = (dwords_le(a), dwords_le(b));
    assert(x.len() == y.len());
    assert forall|i: int| 0 <= i < a.len() implies a[i] == b[i] by {
        assert(x[8 * i] == y[8 * i] && x[8 * i + 1] == y[8 * i + 1]);
        assert(x[8 * i + 2] == y[8 * i + 2] && x[8 * i + 3] == y[8 * i + 3]);
        assert(x[8 * i + 4] == y[8 * i + 4] && x[8 * i + 5] == y[8 * i + 5]);
        assert(x[8 * i + 6] == y[8 * i + 6] && x[8 * i + 7] == y[8 * i + 7]);
        assert(le64(a[i]) =~= le64(b[i]));
        lemma_le64_injective(a[i], b[i]);
    }
    assert(a =~= b);
}

proof fn lemma_join_digests_len(ds: Seq<[u8; 32]>)
    ensures
        join_digests(ds).len() == 32 * ds.len(),
    decreases ds.len(),
{
    if ds.len() > 0 {
        lemma_join_digests_len(ds.drop_last());
    }
}

proof fn lemma_digest_ext(a: [u8; 32], b: [u8; 32])
    requires
        a@ == b@,
    ensures
        a == b,
{
    assert(a =~= b) by {
        assert forall|i: int| 0 <= i < 32 implies a[i] == b[i] by {
            assert(a@[i] == b@[i]);
        }
    }
}

/// As many digests are determined by their bytes.
proof fn lemma_join_digests_injective(a: Seq<[u8; 32]>, b: Seq<[u8; 32]>)
    requires
        join_digests(a) == join_digests(b),
        a.len() == b.len(),
    ensures
        a == b,
    decreases a.len(),
{
    if a.len() > 0 {
        lemma_join_digests_len(a.drop_last());
        lemma_join_digests_len(b.drop_last());
        lemma_split(
            join_digests(a.drop_last()),
            a.last()@,
            join_digests(b.drop_last()),
            b.last()@,
        );
        lemma_join_digests_injective(a.drop_last(), b.drop_last());
        lemma_digest_ext(a.last(), b.last());
        assert(a =~= a.drop_last().push(a.last()));
        assert(b =~= b.drop_last().push(b.last()));
    } else {
        assert(a =~= b);
    }
}

/// Whether the lengths of a step's lists fit a word.
pub open spec fn countable(step: MhotMembershipInput) -> bool {
    &&& step.node.children@.len() <= u32::MAX
    &&& step.node.selected_child <= u32::MAX
    &&& step.content@.keys.len() <= u32::MAX
    &&& step.content@.counts.len() <= u32::MAX
}

/// Steps with the same identity are of the same node: the same children and
/// the same content.
pub proof fn law_node_identity(a: MhotMembershipInput, b: MhotMembershipInput)
    requires
        countable(a),
        countable(b),
        a.node_id() == b.node_id(),
    ensures
        a.node.children@ == b.node.children@,
        a.content@ == b.content@,
{
    let (ca, cb) = (a.node.children@, b.node.children@);
    let (ma, mb) = (a.content@, b.content@);
    let a6 = words_le(ma.counts);
    let a5 = le32(ma.counts.len() as u32);
    let a4 = words_le(ma.keys);
    let a3 = le32(ma.keys.len() as u32);
    let a2 = dwords_le(ma.masks);
    let a1 = join_digests(ca);
    let a0 = le32(ca.len() as u32);
    let b6 = words_le(mb.counts);
    let b5 = le32(mb.counts.len() as u32);
    let b4 = words_le(mb.keys);
    let b3 = le32(mb.keys.len() as u32);
    let b2 = dwords_le(mb.masks);
    let b1 = join_digests(cb);
    let b0 = le32(cb.len() as u32);
    assert(a.node_id() =~= a0 + (a1 + (a2 + (a3 + (a4 + (a5 + a6))))));
    assert(b.node_id() =~= b0 + (b1 + (b2 + (b3 + (b4 + (b5 + b6))))));
    lemma_split(a0, a1 + (a2 + (a3 + (a4 + (a5 + a6)))), b0, b1 + (b2 + (b3 + (b4 + (b5 + b6)))));
    lemma_le32_injective(ca.len() as u32, cb.len() as u32);
    lemma_join_digests_len(ca);
    lemma_join_digests_len(cb);
    lemma_split(a1, a2 + (a3 + (a4 + (a5 + a6))), b1, b2 + (b3 + (b4 + (b5 + b6))));
    lemma_join_digests_injective(ca, cb);
    lemma_split(a2, a3 + (a4 + (a5 + a6)), b2, b3 + (b4 + (b5 + b6)));
    lemma_dwords_le_injective(ma.masks, mb.masks);
    lemma_split(a3, a4 + (a5 + a6), b3, b4 + (b5 + b6));
    lemma_le32_injective(ma.keys.len() as u32, mb.keys.len() as u32);
    lemma_split(a4, a5 + a6, b4, b5 + b6);
    lemma_words_le_injective(ma.keys, mb.keys);
    lemma_split(a5, a6, b5, b6);
    lemma_words_le_injective(ma.counts, mb.counts);
}

/// Steps with the same identity of node and selected child select the same
/// child of the same node.
pub proof fn law_pair_identity(a: MhotMembershipInput, b: MhotMembershipInput)
    requires
        countable(a),
        countable(b),
        a.pair_id() == b.pair_id(),
    ensures
        a.node.children@ == b.node.children@,
        a.content@ == b.content@,
        a.node.selected_child == b.node.selected_child,
        a.node_id() == b.node_id(),
{
    let sa = le32(a.node.selected_child as u32);
    let sb = le32(b.node.selected_child as u32);
    assert(a.pair_id().len() == a.node_id().len() + 4);
    assert(b.pair_id().len() == b.node_id().len() + 4);
    lemma_split(a.node_id(), sa, b.node_id(), sb);
    lemma_le32_injective(a.node.selected_child as u32, b.node.selected_child as u32);
    law_node_identity(a, b);
}

/// Whether the content of a step has the form that a node's has: at most 32
/// selected key bits, and a sparse key and a leaf count for each of 2 to 32
/// children.
pub open spec fn step_formed(step: MhotMembershipInput) -> bool {
    &&& mask_width(step.content@.masks) <= 32
    &&& step.content@.keys.len() == step.node.children@.len()
    &&& step.content@.counts.len() == step.node.children@.len()
    &&& 2 <= step.node.children@.len() <= 32
    &&& step.node.selected_child < step.node.children@.len()
}

/// Whether many paths lead down from one root: each step is formed, the first
/// step of each path is of the node with the root's content hash, and each
/// step selects the node of the next.
pub open spec fn lead_down(paths: Seq<Vec<MhotMembershipInput>>, root: Seq<u32>) -> bool {
    &&& paths_valid(paths)
    &&& forall|p: int, j: int|
        #![trigger paths[p]@[j]]
        0 <= p < paths.len() && 0 <= j < paths[p]@.len() ==> step_formed(paths[p]@[j])
    &&& forall|p: int|
        0 <= p < paths.len() ==> (#[trigger] paths[p])@[0].content_hash() == root
    &&& forall|p: int, j: int|
        #![trigger paths[p]@[j]]
        0 <= p < paths.len() && 0 <= j && j + 1 < paths[p]@.len() ==> tree_leaf(
            paths[p]@[j].node.children@,
            paths[p]@[j].node.selected_child as int,
        ) == paths[p]@[j + 1].content_hash()
}

/// Whether a proof states what a plan does.
pub open spec fn states_plan(proof: SoundMultiproof, plan: SoundPlan) -> bool {
    &&& proof.merkle_leaves == plan.leaves
    &&& proof.merkle_b_bits == plan.b_bits
    &&& proof.pair_phys == plan.dedup.pair_phys
    &&& proof.merkle_roots == plan.roots
    &&& proof.merkle_native_roots == plan.native_roots
    &&& proof.content_metas == plan.metas
    &&& proof.merkle_block_counts == plan.block_counts
    &&& proof.n_log_merkle == plan.n_log_merkle
    &&& proof.n_routes == plan.leaves@.len()
    &&& proof.path_depths == plan.path_depths
    &&& proof.path_mapping.node_indices == plan.dedup.node_indices
}

/// The pair that path `p` has at level `j` is the step there.
proof fn lemma_pair_is_step(
    plan: SoundPlan,
    paths: Seq<Vec<MhotMembershipInput>>,
    root: Seq<u32>,
    p: int,
    j: int,
)
    requires
        lead_down(paths, root),
        is_dedup(plan.dedup, paths),
        0 <= p < paths.len(),
        p <= usize::MAX,
        0 <= j < paths[p]@.len(),
    ensures
        ({
            let pairs = pairs_of(plan.dedup, paths);
            let indices = plan.dedup.node_indices@[p]@;
            &&& indices.len() == paths[p]@.len()
            &&& indices[j] < pairs.len()
            &&& pairs[indices[j] as int].node.children@ == paths[p]@[j].node.children@
            &&& pairs[indices[j] as int].node.selected_child == paths[p]@[j].node.selected_child
            &&& pairs[indices[j] as int].content@ == paths[p]@[j].content@
            &&& step_formed(pairs[indices[j] as int])
        }),
{
    let d = plan.dedup;
    let indices = d.node_indices@[p]@;
    assert(paths[p].len() as nat == paths[p]@.len());
    lemma_dedup_index(d, paths, p, j);
    let at = d.occurrences@[indices[j] as int];
    lemma_dedup_pair(d, paths, indices[j] as int);
    let a = step_at(paths, at);
    let b = paths[p]@[j];
    assert(a == paths[at.0 as int]@[at.1 as int]);
    assert(step_formed(a));
    assert(step_formed(b));
    law_pair_identity(a, b);
}

/// Every pair is a formed step.
proof fn lemma_pairs_formed(d: Dedup, paths: Seq<Vec<MhotMembershipInput>>, root: Seq<u32>, i: int)
    requires
        lead_down(paths, root),
        is_dedup(d, paths),
        0 <= i < pairs_of(d, paths).len(),
    ensures
        step_formed(pairs_of(d, paths)[i]),
        step_valid(pairs_of(d, paths)[i]),
{
    let at = d.occurrences@[i];
    lemma_dedup_pair(d, paths, i);
    let a = paths[at.0 as int]@[at.1 as int];
    assert(step_formed(a));
    assert(step_valid(a));
}

/// The content hash that a proof comes to for the node of a pair is that of
/// the pair's step.
proof fn lemma_pair_hash(
    proof: SoundMultiproof,
    plan: SoundPlan,
    paths: Seq<Vec<MhotMembershipInput>>,
    setup: RouteF32Setup,
    min_n: nat,
    root: Seq<u32>,
    i: int,
)
    requires
        lead_down(paths, root),
        is_sound_plan(plan, paths, setup, min_n),
        states_plan(proof, plan),
        0 <= i < proof.pairs(),
    ensures
        proof.pair_phys@[i] < proof.nodes(),
        proof.pair_hash(i) == pairs_of(plan.dedup, paths)[i].content_hash(),
        proof.content_metas@[proof.pair_phys@[i] as int]@ == pairs_of(
            plan.dedup,
            paths,
        )[i].content@,
{
    let d = plan.dedup;
    let pairs = pairs_of(d, paths);
    let nodes = nodes_of(d, paths);
    lemma_states_pair(plan.leaves@, plan.b_bits@, pairs, i);
    let p = d.pair_phys@[i] as int;
    lemma_dedup_pair(d, paths, i);
    let f = d.first_pairs@[p] as int;
    lemma_dedup_node(d, paths, p);
    lemma_pairs_formed(d, paths, root, i);
    lemma_pairs_formed(d, paths, root, f);
    law_node_identity(pairs[f], pairs[i]);
    assert(nodes[p] == pairs[f]);
    lemma_states_node(
        plan.roots@,
        plan.native_roots@,
        plan.metas@,
        plan.block_counts@,
        nodes,
        p,
    );
}

proof fn lemma_nodes_pass(
    proof: SoundMultiproof,
    plan: SoundPlan,
    paths: Seq<Vec<MhotMembershipInput>>,
    setup: RouteF32Setup,
    min_n: nat,
    root: [u32; 8],
    p: int,
)
    requires
        lead_down(paths, root@),
        is_sound_plan(plan, paths, setup, min_n),
        states_plan(proof, plan),
        0 <= p,
    ensures
        proof.nodes_form(root, p) is Ok,
        proof.roots_verdict(p) is Ok,
    decreases proof.nodes() - p,
{
    let d = plan.dedup;
    let pairs = pairs_of(d, paths);
    let nodes = nodes_of(d, paths);
    lemma_states_node(
        plan.roots@,
        plan.native_roots@,
        plan.metas@,
        plan.block_counts@,
        nodes,
        p,
    );
    if p < proof.nodes() {
        lemma_dedup_node(d, paths, p);
        let f = d.first_pairs@[p] as int;
        lemma_pairs_formed(d, paths, root@, f);
        assert(nodes[p] == pairs[f]);
        lemma2_to64();
        crate::math::lemma_ceil_log2_of_bound(nodes[p].node.children@.len(), 5);
        crate::math::lemma_pow2_is_pow2(3);
        assert(proof.node_formed(p));
        assert(proof.root_padded(p));
        lemma_nodes_pass(proof, plan, paths, setup, min_n, root, p + 1);
    }
}

proof fn lemma_pairs_pass(
    proof: SoundMultiproof,
    plan: SoundPlan,
    paths: Seq<Vec<MhotMembershipInput>>,
    setup: RouteF32Setup,
    min_n: nat,
    root: Seq<u32>,
    i: int,
)
    requires
        lead_down(paths, root),
        is_sound_plan(plan, paths, setup, min_n),
        states_plan(proof, plan),
        0 <= i,
    ensures
        proof.pairs_form(i) is Ok,
    decreases proof.pairs() - i,
{
    lemma_states_pair(plan.leaves@, plan.b_bits@, pairs_of(plan.dedup, paths), i);
    if i < proof.pairs() {
        lemma_pair_hash(proof, plan, paths, setup, min_n, root, i);
        lemma_pairs_pass(proof, plan, paths, setup, min_n, root, i + 1);
    }
}

/// The form of an honest proof is right.
proof fn lemma_form_passes(
    proof: SoundMultiproof,
    plan: SoundPlan,
    paths: Seq<Vec<MhotMembershipInput>>,
    setup: RouteF32Setup,
    min_n: nat,
    root: [u32; 8],
)
    requires
        lead_down(paths, root@),
        is_sound_plan(plan, paths, setup, min_n),
        states_plan(proof, plan),
        allocated_blocks(proof.pairs(), min_n) <= 0x10_0000,
    ensures
        proof.form(root, min_n) is Ok,
{
    let d = plan.dedup;
    assert(paths[0]@.len() > 0);
    lemma_pair_is_step(plan, paths, root@, 0, 0);
    lemma_states_pair(plan.leaves@, plan.b_bits@, pairs_of(d, paths), 0);
    lemma_states_node(
        plan.roots@,
        plan.native_roots@,
        plan.metas@,
        plan.block_counts@,
        nodes_of(d, paths),
        0,
    );
    lemma_dedup_pair(d, paths, 0);
    lemma_dedup_counts(d, paths);
    lemma_nodes_pass(proof, plan, paths, setup, min_n, root, 0);
    lemma_pairs_pass(proof, plan, paths, setup, min_n, root@, 0);
    lemma2_to64();
    if proof.n_log_merkle > 20 {
        crate::math::lemma_pow2_mono(21, proof.n_log_merkle as nat);
    }
}

proof fn lemma_links_pass(
    proof: SoundMultiproof,
    plan: SoundPlan,
    paths: Seq<Vec<MhotMembershipInput>>,
    setup: RouteF32Setup,
    min_n: nat,
    root: [u32; 8],
    p: int,
    j: int,
)
    requires
        lead_down(paths, root@),
        is_sound_plan(plan, paths, setup, min_n),
        states_plan(proof, plan),
        0 <= p < paths.len(),
        p <= usize::MAX,
        0 <= j,
    ensures
        proof.links_verdict(root, proof.path(p), j) is Ok,
    decreases proof.path(p).len() - j,
{
    let indices = proof.path(p);
    lemma_states_pair(plan.leaves@, plan.b_bits@, pairs_of(plan.dedup, paths), 0);
    assert(paths[p]@.len() > 0);
    lemma_pair_is_step(plan, paths, root@, p, 0);
    if j + 1 < indices.len() {
        lemma_pair_is_step(plan, paths, root@, p, j);
        lemma_pair_is_step(plan, paths, root@, p, j + 1);
        lemma_pair_hash(proof, plan, paths, setup, min_n, root@, indices[j + 1] as int);
        let a = paths[p]@[j];
        let b = paths[p]@[j + 1];
        lemma_states_pair(
            plan.leaves@,
            plan.b_bits@,
            pairs_of(plan.dedup, paths),
            indices[j] as int,
        );
        lemma_links_pass(proof, plan, paths, setup, min_n, root, p, j + 1);
    }
}

proof fn lemma_paths_pass(
    proof: SoundMultiproof,
    plan: SoundPlan,
    paths: Seq<Vec<MhotMembershipInput>>,
    setup: RouteF32Setup,
    min_n: nat,
    root: [u32; 8],
    p: int,
)
    requires
        lead_down(paths, root@),
        is_sound_plan(plan, paths, setup, min_n),
        states_plan(proof, plan),
        0 <= p,
    ensures
        proof.cross_verdict(root, p) is Ok,
        proof.tops_verdict(root, p) is Ok,
    decreases proof.paths() - p,
{
    lemma_dedup_counts(plan.dedup, paths);
    lemma_states_pair(plan.leaves@, plan.b_bits@, pairs_of(plan.dedup, paths), 0);
    if p < proof.paths() {
        assert(proof.path_mapping.node_indices.len() as nat == proof.paths());
        assert(paths[p].len() as nat == paths[p]@.len());
        assert(paths[p]@.len() > 0);
        lemma_pair_is_step(plan, paths, root@, p, 0);
        lemma_pair_hash(proof, plan, paths, setup, min_n, root@, proof.path(p)[0] as int);
        lemma_links_pass(proof, plan, paths, setup, min_n, root, p, 0);
        assert(proof.path_depths@[p] == paths[p]@.len());
        lemma_paths_pass(proof, plan, paths, setup, min_n, root, p + 1);
    }
}

/// Whether the proof system accepts a proof.
pub open spec fn accepts(replies: SoundReplies) -> bool {
    &&& replies.merkle_core is Ok
    &&& replies.merkle_shift
    &&& replies.merkle_opening is Ok
    &&& replies.route_core is Ok
    &&& replies.route_opening is Ok
}

/// The proof of paths that lead down from a root verifies against that root,
/// wherever the proof system accepts it. The one limit is the number of hash
/// blocks, which a verifier takes up to `2^20` of.
pub proof fn law_honest_proof_verifies(
    proof: SoundMultiproof,
    plan: SoundPlan,
    paths: Seq<Vec<MhotMembershipInput>>,
    setup: RouteF32Setup,
    min_n: nat,
    root: [u32; 8],
    replies: SoundReplies,
)
    requires
        lead_down(paths, root@),
        is_sound_plan(plan, paths, setup, min_n),
        states_plan(proof, plan),
        allocated_blocks(proof.pairs(), min_n) <= 0x10_0000,
        accepts(replies),
    ensures
        proof.verdict(root, min_n, replies) is Ok,
{
    lemma_form_passes(proof, plan, paths, setup, min_n, root);
    lemma_nodes_pass(proof, plan, paths, setup, min_n, root, 0);
    lemma_paths_pass(proof, plan, paths, setup, min_n, root, 0);
    lemma_parts_make_verdict(proof, min_n, root, replies);
}

/// A proof whose form and binding are right verifies, where the proof system
/// accepts it.
proof fn lemma_parts_make_verdict(
    proof: SoundMultiproof,
    min_n: nat,
    root: [u32; 8],
    replies: SoundReplies,
)
    requires
        proof.form(root, min_n) is Ok,
        proof.roots_verdict(0) is Ok,
        proof.cross_verdict(root, 0) is Ok,
        proof.tops_verdict(root, 0) is Ok,
        accepts(replies),
    ensures
        proof.verdict(root, min_n, replies) is Ok,
{
}

/// The sides of a path, read as a number, are the index of its leaf.
pub proof fn lemma_sides_write_index(sel: nat, depth: nat)
    requires
        sel < pow2(depth),
    ensures
        bits_value(Seq::new(depth, |d: int| side_bit(sel, true, d as nat))) == sel,
    decreases depth,
{
    lemma_low_bits(sel, depth);
    lemma2_to64();
    crate::native_witness::lemma_ancestor_bound(sel, depth, depth);
}

/// The lowest `n` bits of `sel` write what is left of it without its ancestor.
proof fn lemma_low_bits(sel: nat, n: nat)
    ensures
        bits_value(Seq::new(n, |d: int| side_bit(sel, true, d as nat))) + pow2(n) * ancestor(sel, n)
            == sel,
    decreases n,
{
    let bits = Seq::new(n, |d: int| side_bit(sel, true, d as nat));
    lemma2_to64();
    if n > 0 {
        let k = (n - 1) as nat;
        lemma_low_bits(sel, k);
        let low = Seq::new(k, |d: int| side_bit(sel, true, d as nat));
        assert(bits.drop_last() =~= low);
        lemma_pow2_unfold(n);
        let a = ancestor(sel, k);
        assert(ancestor(sel, n) == a / 2);
        assert(a == 2 * (a / 2) + a % 2);
        assert(pow2(k) * a == pow2(n) * (a / 2) + (if a % 2 == 1 {
            pow2(k)
        } else {
            0
        })) by (nonlinear_arith)
            requires
                a == 2 * (a / 2) + a % 2,
                pow2(n) == 2 * pow2(k),
                a % 2 == 0 || a % 2 == 1,
        ;
        assert(bits.last() == (a % 2 == 1));
    } else {
        assert(bits =~= Seq::empty());
    }
}

/// The child that a verifier reads off the sides of a pair is the child that
/// the pair selects.
pub proof fn law_selected_child_recovered(
    proof: SoundMultiproof,
    plan: SoundPlan,
    paths: Seq<Vec<MhotMembershipInput>>,
    setup: RouteF32Setup,
    min_n: nat,
    root: [u32; 8],
    i: int,
)
    requires
        lead_down(paths, root@),
        is_sound_plan(plan, paths, setup, min_n),
        states_plan(proof, plan),
        0 <= i < proof.pairs(),
    ensures
        proof.selected(i) == pairs_of(plan.dedup, paths)[i].node.selected_child,
{
    let pairs = pairs_of(plan.dedup, paths);
    lemma_states_pair(plan.leaves@, plan.b_bits@, pairs, i);
    lemma_pair_hash(proof, plan, paths, setup, min_n, root@, i);
    lemma_pairs_formed(plan.dedup, paths, root@, i);
    let n = pairs[i].node.children@.len();
    let sel = pairs[i].node.selected_child as nat;
    let depth = ceil_log2(n);
    lemma_ceil_log2(n);
    lemma2_to64();
    crate::math::lemma_ceil_log2_of_bound(n, 5);
    lemma_sides_write_index(sel, depth);
    lemma_states_pair(plan.leaves@, plan.b_bits@, pairs, i);
    assert(proof.depth(proof.pair_phys@[i] as int) == depth);
    assert(Seq::new(depth, |d: int| proof.side(i, d)) =~= Seq::new(
        depth,
        |d: int| side_bit(sel, true, d as nat),
    ));
}

/// Whether an entry's key routes along a path of steps to the child that each
/// selects, and the last selected child is the entry's leaf.
pub open spec fn leads_to(path: Seq<MhotMembershipInput>, entry: PathEntry) -> bool {
    let last = path.last();
    &&& forall|j: int|
        #![trigger path[j]]
        0 <= j < path.len() ==> routed_child(
            bits_value(discriminative_bits(entry.key@, path[j].content@.masks)) as u32,
            path[j].content@.keys,
        ) == path[j].node.selected_child
    &&& last.content@.counts[last.node.selected_child as int] == 1
    &&& tree_leaf(last.node.children@, last.node.selected_child as int) == sha256_words(
        leaf_preimage(entry.key@, entry.value@),
    )
}

proof fn lemma_routing_passes(
    proof: SoundMultiproof,
    plan: SoundPlan,
    paths: Seq<Vec<MhotMembershipInput>>,
    setup: RouteF32Setup,
    min_n: nat,
    root: [u32; 8],
    entry: PathEntry,
    p: int,
    level: int,
)
    requires
        lead_down(paths, root@),
        is_sound_plan(plan, paths, setup, min_n),
        states_plan(proof, plan),
        0 <= p < paths.len(),
        p <= usize::MAX,
        0 <= level,
        leads_to(paths[p]@, entry),
    ensures
        proof.routing_verdict(p, entry.key@, level) is Ok,
    decreases proof.path(p).len() - level,
{
    assert(paths[p]@.len() > 0);
    lemma_states_pair(plan.leaves@, plan.b_bits@, pairs_of(plan.dedup, paths), 0);
    lemma_pair_is_step(plan, paths, root@, p, 0);
    if level < proof.path(p).len() {
        lemma_pair_is_step(plan, paths, root@, p, level);
        let i = proof.path(p)[level] as int;
        lemma_pair_hash(proof, plan, paths, setup, min_n, root@, i);
        law_selected_child_recovered(proof, plan, paths, setup, min_n, root, i);
        let step = paths[p]@[level];
        lemma_routing_passes(proof, plan, paths, setup, min_n, root, entry, p, level + 1);
    }
}

proof fn lemma_entries_pass(
    proof: SoundMultiproof,
    plan: SoundPlan,
    paths: Seq<Vec<MhotMembershipInput>>,
    setup: RouteF32Setup,
    min_n: nat,
    root: [u32; 8],
    entries: Seq<PathEntry>,
    p: int,
)
    requires
        lead_down(paths, root@),
        is_sound_plan(plan, paths, setup, min_n),
        states_plan(proof, plan),
        entries.len() == paths.len(),
        forall|k: int|
            #![trigger entries[k]]
            0 <= k < paths.len() ==> leads_to(paths[k]@, entries[k]),
        0 <= p,
    ensures
        proof.entries_verdict(entries, p) is Ok,
    decreases proof.paths() - p,
{
    lemma_dedup_counts(plan.dedup, paths);
    lemma_states_pair(plan.leaves@, plan.b_bits@, pairs_of(plan.dedup, paths), 0);
    if p < proof.paths() {
        assert(proof.path_mapping.node_indices.len() as nat == proof.paths());
        assert(leads_to(paths[p]@, entries[p]));
        lemma_routing_passes(proof, plan, paths, setup, min_n, root, entries[p], p, 0);
        let n = paths[p]@.len();
        assert(n > 0);
        lemma_pair_is_step(plan, paths, root@, p, n - 1);
        let i = proof.path(p).last() as int;
        lemma_pair_hash(proof, plan, paths, setup, min_n, root@, i);
        law_selected_child_recovered(proof, plan, paths, setup, min_n, root, i);
        lemma_states_pair(plan.leaves@, plan.b_bits@, pairs_of(plan.dedup, paths), i);
        assert(proof.ends_at(p, entries[p]));
        reveal(SoundMultiproof::entry_verdict);
        lemma_entries_pass(proof, plan, paths, setup, min_n, root, entries, p + 1);
    }
}

/// The proof of paths that lead down from a root to these entries verifies
/// against that root and these entries, wherever the proof system accepts it.
pub proof fn law_honest_entries_verify(
    proof: SoundMultiproof,
    plan: SoundPlan,
    paths: Seq<Vec<MhotMembershipInput>>,
    setup: RouteF32Setup,
    min_n: nat,
    root: [u32; 8],
    entries: Seq<PathEntry>,
    replies: SoundReplies,
)
    requires
        lead_down(paths, root@),
        is_sound_plan(plan, paths, setup, min_n),
        states_plan(proof, plan),
        allocated_blocks(proof.pairs(), min_n) <= 0x10_0000,
        accepts(replies),
        entries.len() == paths.len(),
        forall|k: int|
            #![trigger entries[k]]
            0 <= k < paths.len() ==> leads_to(paths[k]@, entries[k]) && entries[k].value@.len()
                <= 0x10_0000,
    ensures
        proof.verdict_with_entries(root, entries, min_n, replies) is Ok,
{
    law_honest_proof_verifies(proof, plan, paths, setup, min_n, root, replies);
    lemma_entries_pass(proof, plan, paths, setup, min_n, root, entries, 0);
    lemma_dedup_counts(plan.dedup, paths);
    lemma_entries_make_verdict(proof, min_n, root, entries, replies);
}

/// A proof that verifies and whose entries pass verifies with them.
proof fn lemma_entries_make_verdict(
    proof: SoundMultiproof,
    min_n: nat,
    root: [u32; 8],
    entries: Seq<PathEntry>,
    replies: SoundReplies,
)
    requires
        proof.verdict(root, min_n, replies) is Ok,
        proof.entries_verdict(entries, 0) is Ok,
        entries.len() == proof.paths(),
        forall|k: int|
            #![trigger entries[k]]
            0 <= k < entries.len() ==> entries[k].value@.len() <= 0x10_0000,
    ensures
        proof.verdict_with_entries(root, entries, min_n, replies) is Ok,
{
}

/// Whether a block holds `v` on the side that `side` gives.
pub open spec fn holds_on_side(block: Seq<u32>, side: bool, v: Seq<u32>) -> bool {
    if side {
        block.subrange(8, 16) == v
    } else {
        block.subrange(0, 8) == v
    }
}

/// Whether block `k` holds what it has to: the leaf of its path, or what the
/// block before it comes to.
pub open spec fn block_linked(comps: Seq<Compression>, st: ShiftStatement, k: int) -> bool {
    &&& comps[k].0@ == SHA256_IV@
    &&& holds_on_side(
        comps[k].1@,
        st.b_bits@[k],
        if k % 8 == 0 {
            st.leaves@[k / 8]@
        } else {
            compress(SHA256_IV@, comps[k - 1].1@)
        },
    )
}

/// Whether committed blocks form the paths that a statement asks about: the
/// first block of each path holds its leaf, each other block what the block
/// before it comes to, both on the side that the statement gives; and the last
/// block comes to the path's root.
pub open spec fn form_paths(comps: Seq<Compression>, st: ShiftStatement) -> bool {
    &&& comps.len() == st.b_bits@.len()
    &&& comps.len() == 8 * st.leaves@.len()
    &&& st.roots@.len() == st.leaves@.len()
    &&& forall|k: int| 0 <= k < comps.len() ==> #[trigger] block_linked(comps, st, k)
    &&& forall|n: int|
        #![trigger st.roots@[n]]
        0 <= n < st.roots@.len() ==> compress(SHA256_IV@, comps[8 * n + 7].1@) == st.roots@[n]@
}

/// What a padded path has come to before position `d`.
spec fn padded_value(children: Seq<[u8; 32]>, sel: nat, d: nat) -> Seq<u32> {
    let depth = tree_depth(children.len());
    if d <= depth {
        path_value(children, sel, true, d)
    } else {
        pad_value(path_value(children, sel, true, depth), (d - depth) as nat)
    }
}

pub proof fn lemma_pad_value_len(v: Seq<u32>, k: nat)
    requires
        v.len() == 8,
    ensures
        pad_value(v, k).len() == 8,
    decreases k,
{
}

/// The block at position `d` of a padded path holds what the path has come to,
/// and leads on.
proof fn lemma_padded_step(children: Seq<[u8; 32]>, sel: nat, d: nat)
    ensures
        holds_on_side(
            padded_block(children, sel, true, d),
            d < tree_depth(children.len()) && side_bit(sel, true, d),
            padded_value(children, sel, d),
        ),
        compress(SHA256_IV@, padded_block(children, sel, true, d)) == padded_value(
            children,
            sel,
            d + 1,
        ),
{
    let depth = tree_depth(children.len());
    let block = padded_block(children, sel, true, d);
    let v = padded_value(children, sel, d);
    crate::native_witness::lemma_path_value_len(children, sel, true, d);
    crate::native_witness::lemma_path_value_len(children, sel, true, depth);
    if d < depth {
        let sib = crate::native_witness::tree_node(
            children,
            d,
            crate::native_witness::sibling(ancestor(sel, d)) as int,
        );
        crate::native_witness::lemma_tree_node_len(
            children,
            d,
            crate::native_witness::sibling(ancestor(sel, d)) as int,
        );
        if side_bit(sel, true, d) {
            assert(block.subrange(8, 16) =~= v);
        } else {
            assert(block.subrange(0, 8) =~= v);
        }
    } else {
        let base = path_value(children, sel, true, depth);
        lemma_pad_value_len(base, (d - depth) as nat);
        assert(pad_value(base, 0) == base);
        assert(block.subrange(0, 8) =~= v);
    }
}

/// Steps whose lists can be counted.
pub open spec fn all_countable(paths: Seq<Vec<MhotMembershipInput>>) -> bool {
    forall|p: int, j: int|
        #![trigger paths[p]@[j]]
        0 <= p < paths.len() && 0 <= j < paths[p]@.len() ==> countable(paths[p]@[j])
}

/// The first pair of a pair's node has the pair's children.
proof fn lemma_same_children(d: Dedup, paths: Seq<Vec<MhotMembershipInput>>, i: int)
    requires
        paths_valid(paths),
        all_countable(paths),
        is_dedup(d, paths),
        0 <= i < d.occurrences@.len(),
    ensures
        d.pair_phys@[i] < d.first_pairs@.len(),
        nodes_of(d, paths)[d.pair_phys@[i] as int].node.children@ == pairs_of(
            d,
            paths,
        )[i].node.children@,
        step_valid(pairs_of(d, paths)[i]),
{
    let p = d.pair_phys@[i] as int;
    lemma_dedup_pair(d, paths, i);
    let f = d.first_pairs@[p] as int;
    lemma_dedup_node(d, paths, p);
    lemma_dedup_pair(d, paths, f);
    let (x, y) = (d.occurrences@[f], d.occurrences@[i]);
    let a = paths[x.0 as int]@[x.1 as int];
    let b = paths[y.0 as int]@[y.1 as int];
    assert(countable(a) && countable(b));
    assert(step_valid(b));
    law_node_identity(a, b);
}

/// What the verifier asks about the paths of all pairs is about as many blocks
/// as the prover commits and holds of them, and both put the same bytes into the transcript
/// and lay out the same sides.
pub proof fn law_committed_blocks_form_paths(
    proof: SoundMultiproof,
    plan: SoundPlan,
    paths: Seq<Vec<MhotMembershipInput>>,
    setup: RouteF32Setup,
    min_n: nat,
    q: PathQuestions,
)
    requires
        paths_valid(paths),
        all_countable(paths),
        is_sound_plan(plan, paths, setup, min_n),
        states_plan(proof, plan),
        are_path_questions(q, proof),
    ensures
        q.base.relation == (Relation::Sha256 { n_blocks: plan.merkle_comps@.len() as usize }),
        form_paths(plan.merkle_comps@, q.statement),
        q.statement.b_bits@ == plan.all_b_bits@,
        transcript(q.public_io@) == transcript(plan.public_io@),
{
    let st = q.statement;
    let comps = plan.merkle_comps@;
    let pairs = pairs_of(plan.dedup, paths);
    let n_total = allocated_blocks(pairs.len(), min_n);
    lemma_states_pair(plan.leaves@, plan.b_bits@, pairs, 0);
    lemma_total_is_whole(n_total, pairs, min_n, paths, plan.dedup);
    lemma_hash_block(comps, pairs, n_total, 0);
    assert forall|k: int| 0 <= k < comps.len() implies #[trigger] block_linked(comps, st, k) by {
        lemma_block_links(proof, plan, paths, setup, min_n, st, k);
    }
    assert forall|n: int| #![trigger st.roots@[n]] 0 <= n < st.roots@.len() implies compress(
        SHA256_IV@,
        comps[8 * n + 7].1@,
    ) == st.roots@[n]@ by {
        let (children, sel) = path_origin(pairs, n);
        lemma_padded_step(children, sel, 7);
        lemma_statement_of_path(proof, plan, paths, setup, min_n, st, n);
        lemma_hash_block(comps, pairs, n_total, 8 * n + 7);
    }
}

/// Committed block `k` holds what its path has come to.
proof fn lemma_block_links(
    proof: SoundMultiproof,
    plan: SoundPlan,
    paths: Seq<Vec<MhotMembershipInput>>,
    setup: RouteF32Setup,
    min_n: nat,
    st: ShiftStatement,
    k: int,
)
    requires
        paths_valid(paths),
        all_countable(paths),
        is_sound_plan(plan, paths, setup, min_n),
        states_plan(proof, plan),
        is_shift_statement(st, proof),
        0 <= k < plan.merkle_comps@.len(),
    ensures
        block_linked(plan.merkle_comps@, st, k),
{
    let comps = plan.merkle_comps@;
    let pairs = pairs_of(plan.dedup, paths);
    let n_total = allocated_blocks(pairs.len(), min_n);
    let n = k / 8;
    let y = (k % 8) as nat;
    let (children, sel) = path_origin(pairs, n);
    lemma_total_is_whole(n_total, pairs, min_n, paths, plan.dedup);
    lemma_states_pair(plan.leaves@, plan.b_bits@, pairs, n);
    lemma_hash_block(comps, pairs, n_total, k);
    lemma_padded_step(children, sel, y);
    lemma_statement_of_path(proof, plan, paths, setup, min_n, st, n);
    if y > 0 {
        lemma_padded_step(children, sel, (y - 1) as nat);
        lemma_hash_block(comps, pairs, n_total, k - 1);
        assert((k - 1) / 8 == n && (k - 1) % 8 == y - 1);
    }
    assert(st.b_bits@[k] == (y < tree_depth(children.len()) && side_bit(sel, true, y))) by {
        if n >= pairs.len() {
            assert(dummy_children().len() == 2);
        }
    }
}

/// The children and the selected child that committed path `n` is of.
spec fn path_origin(pairs: Seq<MhotMembershipInput>, n: int) -> (Seq<[u8; 32]>, nat) {
    if n < pairs.len() {
        (pairs[n].node.children@, pairs[n].node.selected_child as nat)
    } else {
        (dummy_children(), 0)
    }
}

/// The committed blocks are whole paths.
proof fn lemma_total_is_whole(
    n_total: nat,
    pairs: Seq<MhotMembershipInput>,
    min_n: nat,
    paths: Seq<Vec<MhotMembershipInput>>,
    d: Dedup,
)
    requires
        paths_valid(paths),
        is_dedup(d, paths),
        pairs == pairs_of(d, paths),
        n_total == allocated_blocks(pairs.len(), min_n),
    ensures
        n_total % 8 == 0,
        n_total >= 8,
{
    assert(paths[0]@.len() > 0);
    lemma_dedup_index(d, paths, 0, 0);
    let n = if 8 * pairs.len() < min_n {
        min_n
    } else {
        8 * pairs.len()
    };
    lemma_ceil_log2(n);
    lemma2_to64();
    let k = ceil_log2(n);
    if k < 3 {
        crate::math::lemma_pow2_mono(k, 2);
    }
    vstd::arithmetic::power2::lemma_pow2_adds((k - 3) as nat, 3);
}

/// What a statement says of committed path `n`.
proof fn lemma_statement_of_path(
    proof: SoundMultiproof,
    plan: SoundPlan,
    paths: Seq<Vec<MhotMembershipInput>>,
    setup: RouteF32Setup,
    min_n: nat,
    st: ShiftStatement,
    n: int,
)
    requires
        paths_valid(paths),
        all_countable(paths),
        is_sound_plan(plan, paths, setup, min_n),
        states_plan(proof, plan),
        is_shift_statement(st, proof),
        0 <= n < st.leaves@.len(),
    ensures
        ({
            let (children, sel) = path_origin(pairs_of(plan.dedup, paths), n);
            &&& st.leaves@[n]@ == padded_value(children, sel, 0)
            &&& st.roots@[n]@ == padded_value(children, sel, 8)
            &&& tree_depth(children.len()) <= 8
        }),
{
    let pairs = pairs_of(plan.dedup, paths);
    let (children, sel) = path_origin(pairs, n);
    lemma_states_pair(plan.leaves@, plan.b_bits@, pairs, n);
    if n < pairs.len() {
        lemma_same_children(plan.dedup, paths, n);
        let p = plan.dedup.pair_phys@[n] as int;
        let depth = tree_depth(children.len());
        lemma_states_node(
            plan.roots@,
            plan.native_roots@,
            plan.metas@,
            plan.block_counts@,
            nodes_of(plan.dedup, paths),
            p,
        );
        lemma_ceil_log2(children.len());
        crate::native_witness::lemma_native_path_follows_tree(children, sel, depth);
        crate::native_witness::lemma_ancestor_bound(sel, depth, depth);
        lemma2_to64();
        assert(pad_value(path_value(children, sel, true, depth), 0) == path_value(
            children,
            sel,
            true,
            depth,
        ));
    } else {
        reveal_with_fuel(ceil_log2, 3);
        assert(tree_depth(children.len()) == 1);
    }
}

/// What the prover opens of the routes is what the verifier checks of them,
/// where each route is the one through its step's node.
pub proof fn law_route_claims_agree(
    proof: SoundMultiproof,
    plan: SoundPlan,
    paths: Seq<Vec<MhotMembershipInput>>,
    setup: RouteF32Setup,
    min_n: nat,
)
    requires
        paths_valid(paths),
        is_sound_plan(plan, paths, setup, min_n),
        states_plan(proof, plan),
        forall|p: int, j: int|
            #![trigger paths[p]@[j]]
            0 <= p < paths.len() && 0 <= j < paths[p]@.len()
                ==> paths[p]@[j].node.children@.len() <= 32
                && paths[p]@[j].route_witness.route() == node_route(
                paths[p]@[j].node.children@,
                paths[p]@[j].node.selected_child as nat,
            ),
    ensures
        route_outputs(step_routes(pairs_of(plan.dedup, paths))) == leaf_outputs(
            proof.merkle_leaves@,
        ),
{
    let pairs = pairs_of(plan.dedup, paths);
    let a = route_outputs(step_routes(pairs));
    let b = leaf_outputs(proof.merkle_leaves@);
    lemma_states_pair(plan.leaves@, plan.b_bits@, pairs, 0);
    assert forall|i: int| 0 <= i < pairs.len() implies a[i] == b[i] by {
        let at = plan.dedup.occurrences@[i];
        lemma_dedup_pair(plan.dedup, paths, i);
        let step = paths[at.0 as int]@[at.1 as int];
        assert(step_valid(step));
        assert(pairs[i] == step);
        crate::merkle_membership::law_node_route_selects_child(step.node);
        let d = step.node.children@[step.node.selected_child as int]@;
        crate::bytes::lemma_bytes_of_words(d, 8);
        lemma_states_pair(plan.leaves@, plan.b_bits@, pairs, i);
    }
    assert(a =~= b);
}

proof fn lemma_digests_le_len(ds: Seq<[u32; 8]>)
    ensures
        digests_le(ds).len() == 32 * ds.len(),
    decreases ds.len(),
{
    if ds.len() > 0 {
        lemma_digests_le_len(ds.drop_last());
    }
}

/// As many digests are determined by their bytes.
proof fn lemma_digests_le_injective(a: Seq<[u32; 8]>, b: Seq<[u32; 8]>)
    requires
        digests_le(a) == digests_le(b),
        a.len() == b.len(),
    ensures
        a == b,
    decreases a.len(),
{
    if a.len() > 0 {
        lemma_digests_le_len(a.drop_last());
        lemma_digests_le_len(b.drop_last());
        lemma_split(
            digests_le(a.drop_last()),
            words_le(a.last()@),
            digests_le(b.drop_last()),
            words_le(b.last()@),
        );
        lemma_digests_le_injective(a.drop_last(), b.drop_last());
        lemma_words_le_injective(a.last()@, b.last()@);
        lemma_words_array(a.last());
        lemma_words_array(b.last());
        assert(a =~= a.drop_last().push(a.last()));
        assert(b =~= b.drop_last().push(b.last()));
    } else {
        assert(a =~= b);
    }
}

proof fn lemma_numbers_le_len(ns: Seq<usize>)
    ensures
        numbers_le(ns).len() == 8 * ns.len(),
    decreases ns.len(),
{
    if ns.len() > 0 {
        lemma_numbers_le_len(ns.drop_last());
    }
}

/// As many numbers are determined by their bytes.
proof fn lemma_numbers_le_injective(a: Seq<usize>, b: Seq<usize>)
    requires
        numbers_le(a) == numbers_le(b),
        a.len() == b.len(),
    ensures
        a == b,
    decreases a.len(),
{
    if a.len() > 0 {
        lemma_numbers_le_len(a.drop_last());
        lemma_numbers_le_len(b.drop_last());
        lemma_split(
            numbers_le(a.drop_last()),
            le64(a.last() as u64),
            numbers_le(b.drop_last()),
            le64(b.last() as u64),
        );
        lemma_numbers_le_injective(a.drop_last(), b.drop_last());
        lemma_le64_injective(a.last() as u64, b.last() as u64);
        assert(a =~= a.drop_last().push(a.last()));
        assert(b =~= b.drop_last().push(b.last()));
    } else {
        assert(a =~= b);
    }
}

/// Lists of bits start with the first one.
proof fn lemma_bit_lists_front(lists: Seq<Vec<bool>>)
    requires
        lists.len() > 0,
    ensures
        bit_lists(lists) == le64(lists[0]@.len() as u64) + bits_bytes(lists[0]@) + bit_lists(
            lists.drop_first(),
        ),
    decreases lists.len(),
{
    let head = le64(lists[0]@.len() as u64) + bits_bytes(lists[0]@);
    if lists.len() == 1 {
        assert(lists.drop_last() =~= Seq::empty());
        assert(lists.drop_first() =~= Seq::empty());
        assert(bit_lists(lists) =~= head + bit_lists(lists.drop_first()));
    } else {
        lemma_bit_lists_front(lists.drop_last());
        assert(lists.drop_first().drop_last() =~= lists.drop_last().drop_first());
        assert(lists.drop_first().last() == lists.last());
        assert(bit_lists(lists) =~= head + bit_lists(lists.drop_first()));
    }
}

/// Whether two lists of lists hold the same bits.
pub open spec fn same_bits(a: Seq<Vec<bool>>, b: Seq<Vec<bool>>) -> bool {
    a.len() == b.len() && forall|i: int| 0 <= i < a.len() ==> (#[trigger] a[i])@ == b[i]@
}

/// As many lists of bits are determined by their bytes, and so is what follows
/// them.
proof fn lemma_bit_lists_injective(
    a: Seq<Vec<bool>>,
    x: Seq<u8>,
    b: Seq<Vec<bool>>,
    y: Seq<u8>,
)
    requires
        bit_lists(a) + x == bit_lists(b) + y,
        a.len() == b.len(),
    ensures
        same_bits(a, b),
        x == y,
    decreases a.len(),
{
    if a.len() == 0 {
        assert(bit_lists(a) + x =~= x);
        assert(bit_lists(b) + y =~= y);
    } else {
        lemma_bit_lists_front(a);
        lemma_bit_lists_front(b);
        let (la, lb) = (le64(a[0]@.len() as u64), le64(b[0]@.len() as u64));
        let (ba, bb) = (bits_bytes(a[0]@), bits_bytes(b[0]@));
        let ta = bit_lists(a.drop_first()) + x;
        let tb = bit_lists(b.drop_first()) + y;
        assert(bit_lists(a) + x =~= la + (ba + ta));
        assert(bit_lists(b) + y =~= lb + (bb + tb));
        lemma_split(la, ba + ta, lb, bb + tb);
        assert(a[0].len() as nat == a[0]@.len() && b[0].len() as nat == b[0]@.len());
        lemma_le64_injective(a[0]@.len() as u64, b[0]@.len() as u64);
        lemma_split(ba, ta, bb, tb);
        lemma_bits_bytes_injective(a[0]@, b[0]@);
        lemma_bit_lists_injective(a.drop_first(), x, b.drop_first(), y);
        assert forall|i: int| 0 <= i < a.len() implies (#[trigger] a[i])@ == b[i]@ by {
            if i > 0 {
                assert(a.drop_first()[i - 1] == a[i]);
                assert(b.drop_first()[i - 1] == b[i]);
            }
        }
    }
}

/// Ten strings can be joined from the front or from the back.
proof fn lemma_join_ten(p: Seq<Seq<u8>>)
    requires
        p.len() == 10,
    ensures
        p[0] + p[1] + p[2] + p[3] + p[4] + p[5] + p[6] + p[7] + p[8] + p[9] == p[0] + (p[1] + (p[2]
            + (p[3] + (p[4] + (p[5] + (p[6] + (p[7] + (p[8] + p[9])))))))),
{
    assert(p[0] + p[1] + p[2] + p[3] + p[4] + p[5] + p[6] + p[7] + p[8] + p[9] =~= p[0] + (p[1] + (
    p[2] + (p[3] + (p[4] + (p[5] + (p[6] + (p[7] + (p[8] + p[9])))))))));
}

/// Two strings that start with a number agree in it and in the rest.
proof fn lemma_split_number(a: u64, x: Seq<u8>, b: u64, y: Seq<u8>)
    requires
        le64(a) + x == le64(b) + y,
    ensures
        a == b,
        x == y,
{
    lemma_split(le64(a), x, le64(b), y);
    lemma_le64_injective(a, b);
}

/// Two strings that start with a number and as many digests agree in them and
/// in the rest.
proof fn lemma_split_digests(a: Seq<[u32; 8]>, x: Seq<u8>, b: Seq<[u32; 8]>, y: Seq<u8>)
    requires
        a.len() <= u64::MAX && b.len() <= u64::MAX,
        le64(a.len() as u64) + (digests_le(a) + x) == le64(b.len() as u64) + (digests_le(b) + y),
    ensures
        a == b,
        x == y,
{
    lemma_split_number(a.len() as u64, digests_le(a) + x, b.len() as u64, digests_le(b) + y);
    lemma_digests_le_len(a);
    lemma_digests_le_len(b);
    lemma_split(digests_le(a), x, digests_le(b), y);
    lemma_digests_le_injective(a, b);
}

/// Two strings that start with a number and as many numbers agree in them and
/// in the rest.
proof fn lemma_split_numbers(a: Seq<usize>, x: Seq<u8>, b: Seq<usize>, y: Seq<u8>)
    requires
        a.len() <= u64::MAX && b.len() <= u64::MAX,
        le64(a.len() as u64) + (numbers_le(a) + x) == le64(b.len() as u64) + (numbers_le(b) + y),
    ensures
        a == b,
        x == y,
{
    lemma_split_number(a.len() as u64, numbers_le(a) + x, b.len() as u64, numbers_le(b) + y);
    lemma_numbers_le_len(a);
    lemma_numbers_le_len(b);
    lemma_split(numbers_le(a), x, numbers_le(b), y);
    lemma_numbers_le_injective(a, b);
}

/// Two strings that start with a number and as many lists of bits agree in
/// them and in the rest.
proof fn lemma_split_bit_lists(a: Seq<Vec<bool>>, x: Seq<u8>, b: Seq<Vec<bool>>, y: Seq<u8>)
    requires
        a.len() <= u64::MAX && b.len() <= u64::MAX,
        le64(a.len() as u64) + (bit_lists(a) + x) == le64(b.len() as u64) + (bit_lists(b) + y),
    ensures
        same_bits(a, b),
        x == y,
{
    lemma_split_number(a.len() as u64, bit_lists(a) + x, b.len() as u64, bit_lists(b) + y);
    lemma_bit_lists_injective(a, x, b, y);
}

/// The parts of the public bytes, the last joined first.
proof fn lemma_public_io_parts(
    leaves: Seq<[u32; 8]>,
    b_bits: Seq<Vec<bool>>,
    pair_phys: Seq<usize>,
    roots: Seq<[u32; 8]>,
    n_log: usize,
    n_routes: usize,
)
    ensures
        public_io(leaves, b_bits, pair_phys, roots, n_log, n_routes) == le64(leaves.len() as u64)
            + (digests_le(leaves) + (le64(b_bits.len() as u64) + (bit_lists(b_bits) + (le64(
            pair_phys.len() as u64,
        ) + (numbers_le(pair_phys) + (le64(roots.len() as u64) + (digests_le(roots) + (le64(
            n_log as u64,
        ) + le64(n_routes as u64))))))))),
{
    lemma_join_ten(
        seq![
            le64(leaves.len() as u64),
            digests_le(leaves),
            le64(b_bits.len() as u64),
            bit_lists(b_bits),
            le64(pair_phys.len() as u64),
            numbers_le(pair_phys),
            le64(roots.len() as u64),
            digests_le(roots),
            le64(n_log as u64),
            le64(n_routes as u64),
        ],
    );
}

/// The public bytes of the transcript determine all that they are taken of.
pub proof fn law_public_io_binds(
    leaves1: Seq<[u32; 8]>,
    b_bits1: Seq<Vec<bool>>,
    pair_phys1: Seq<usize>,
    roots1: Seq<[u32; 8]>,
    n_log1: usize,
    n_routes1: usize,
    leaves2: Seq<[u32; 8]>,
    b_bits2: Seq<Vec<bool>>,
    pair_phys2: Seq<usize>,
    roots2: Seq<[u32; 8]>,
    n_log2: usize,
    n_routes2: usize,
)
    requires
        leaves1.len() <= u64::MAX && leaves2.len() <= u64::MAX,
        b_bits1.len() <= u64::MAX && b_bits2.len() <= u64::MAX,
        pair_phys1.len() <= u64::MAX && pair_phys2.len() <= u64::MAX,
        roots1.len() <= u64::MAX && roots2.len() <= u64::MAX,
        public_io(leaves1, b_bits1, pair_phys1, roots1, n_log1, n_routes1) == public_io(
            leaves2,
            b_bits2,
            pair_phys2,
            roots2,
            n_log2,
            n_routes2,
        ),
    ensures
        leaves1 == leaves2,
        same_bits(b_bits1, b_bits2),
        pair_phys1 == pair_phys2,
        roots1 == roots2,
        n_log1 == n_log2,
        n_routes1 == n_routes2,
{
    lemma_public_io_parts(leaves1, b_bits1, pair_phys1, roots1, n_log1, n_routes1);
    lemma_public_io_parts(leaves2, b_bits2, pair_phys2, roots2, n_log2, n_routes2);
    let a8 = le64(n_log1 as u64) + le64(n_routes1 as u64);
    let a6 = le64(roots1.len() as u64) + (digests_le(roots1) + a8);
    let a4 = le64(pair_phys1.len() as u64) + (numbers_le(pair_phys1) + a6);
    let a2 = le64(b_bits1.len() as u64) + (bit_lists(b_bits1) + a4);
    let b8 = le64(n_log2 as u64) + le64(n_routes2 as u64);
    let b6 = le64(roots2.len() as u64) + (digests_le(roots2) + b8);
    let b4 = le64(pair_phys2.len() as u64) + (numbers_le(pair_phys2) + b6);
    let b2 = le64(b_bits2.len() as u64) + (bit_lists(b_bits2) + b4);
    lemma_split_digests(leaves1, a2, leaves2, b2);
    lemma_split_bit_lists(b_bits1, a4, b_bits2, b4);
    lemma_split_numbers(pair_phys1, a6, pair_phys2, b6);
    lemma_split_digests(roots1, a8, roots2, b8);
    lemma_split_number(
        n_log1 as u64,
        le64(n_routes1 as u64),
        n_log2 as u64,
        le64(n_routes2 as u64),
    );
    lemma_le64_injective(n_routes1 as u64, n_routes2 as u64);
}

} // verus!
