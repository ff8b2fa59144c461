//! Where each value stands in what a proof for many paths is told apart by,
//! bound by and planned as.

use vstd::arithmetic::power2::pow2;
use vstd::prelude::*;

use crate::backend::{transcript, Observed};
use crate::bytes::{dwords_le, law_word_bytes, le32, le64, words_le};
use crate::math::ceil_log2;
use crate::membership_proof::{is_output_claims, route_outputs, MhotMembershipInput};
use crate::merkle_membership::pad_value;
use crate::native_witness::{law_ancestor, tree_node};
use crate::route_f32::spelled_index;
use crate::route_f32_setup::{batch_filled, RouteF32Setup};
use crate::sound_laws::{countable, law_node_identity, law_pair_identity};
use crate::sound_multiproof::{
    allocated_blocks, bit_lists, bits_bytes, digests_le, numbers_le, public_io,
};
use crate::sound_plan::{
    is_dedup, is_sound_plan, join_digests, lemma_dedup_counts, lemma_dedup_index, lemma_dedup_node,
    lemma_dedup_pair, lemma_hash_block, lemma_states_node, lemma_states_pair, nodes_of, pairs_of,
    step_at, step_routes, Dedup, SoundPlan,
};

verus! {

proof fn lemma_le32_byte(w: u32, j: int)
    requires
        0 <= j < 4,
    ensures
        le32(w).len() == 4,
        le32(w)[j] == (w >> ((8 * j) as u32)) as u8,
{
    law_word_bytes(seq![w], 0, j);
    assert(words_le(seq![w])[j] == le32(w)[j]);
}

proof fn lemma_le64_byte(w: u64, j: int)
    requires
        0 <= j < 8,
    ensures
        le64(w).len() == 8,
        le64(w)[j] == (w >> ((8 * j) as u64)) as u8,
{
    assert(w >> 0u64 == w) by (bit_vector);
    assert(j == 0 || j == 1 || j == 2 || j == 3 || j == 4 || j == 5 || j == 6 || j == 7);
}

proof fn lemma_join_digests_byte(ds: Seq<[u8; 32]>, i: int, j: int)
    ensures
        join_digests(ds).len() == 32 * ds.len(),
        0 <= i < ds.len() && 0 <= j < 32 ==> join_digests(ds)[32 * i + j] == ds[i]@[j],
    decreases ds.len(),
{
    if ds.len() > 0 {
        lemma_join_digests_byte(ds.drop_last(), i, j);
    }
}

/// What identifies a node: the number of its children and their digests, its
/// four masks, the number of its keys and the keys, the number of its counts
/// and the counts; every number least significant byte first.
#[verifier::rlimit(40)]
pub proof fn law_node_id_layout(step: MhotMembershipInput)
    ensures
        ({
            let id = step.node_id();
            let children = step.node.children@;
            let meta = step.content@;
            let (n, k, c) = (
                children.len() as int,
                meta.keys.len() as int,
                meta.counts.len() as int,
            );
            &&& id.len() == 44 + 32 * n + 4 * k + 4 * c
            &&& forall|j: int| 0 <= j < 4 ==> #[trigger] id[j] == ((n as u32) >> ((8
                * j) as u32)) as u8
            &&& forall|i: int, j: int|
                0 <= i < n && 0 <= j < 32 ==> #[trigger] id[4 + 32 * i + j] == children[i]@[j]
            &&& forall|i: int, j: int|
                0 <= i < 4 && 0 <= j < 8 ==> #[trigger] id[4 + 32 * n + 8 * i + j] == (meta.masks[i]
                    >> ((8 * j) as u64)) as u8
            &&& forall|j: int|
                0 <= j < 4 ==> #[trigger] id[36 + 32 * n + j] == ((k as u32) >> ((8
                    * j) as u32)) as u8
            &&& forall|i: int, j: int|
                0 <= i < k && 0 <= j < 4 ==> #[trigger] id[40 + 32 * n + 4 * i + j] == (
                meta.keys[i] >> ((8 * j) as u32)) as u8
            &&& forall|j: int|
                0 <= j < 4 ==> #[trigger] id[40 + 32 * n + 4 * k + j] == ((c as u32) >> ((8
                    * j) as u32)) as u8
            &&& forall|i: int, j: int|
                0 <= i < c && 0 <= j < 4 ==> #[trigger] id[44 + 32 * n + 4 * k + 4 * i + j] == (
                meta.counts[i] >> ((8 * j) as u32)) as u8
        }),
{
    let id = step.node_id();
    let children = step.node.children@;
    let meta = step.content@;
    let (n, k, c) = (children.len() as int, meta.keys.len() as int, meta.counts.len() as int);
    lemma_join_digests_byte(children, 0, 0);
    assert(meta.masks.len() == 4);
    let (a, b, d) = (le32(n as u32), le32(k as u32), le32(c as u32));
    assert(a.len() == 4 && b.len() == 4 && d.len() == 4);
    assert forall|j: int| 0 <= j < 4 implies #[trigger] id[j] == ((n as u32) >> ((8
        * j) as u32)) as u8 by {
        lemma_le32_byte(n as u32, j);
        assert(id[j] == a[j]);
    }
    assert forall|i: int, j: int| 0 <= i < n && 0 <= j < 32 implies #[trigger] id[4 + 32 * i + j]
        == children[i]@[j] by {
        lemma_join_digests_byte(children, i, j);
        assert(id[4 + 32 * i + j] == join_digests(children)[32 * i + j]);
    }
    assert forall|i: int, j: int| 0 <= i < 4 && 0 <= j < 8 implies #[trigger] id[4 + 32 * n + 8 * i
        + j] == (meta.masks[i] >> ((8 * j) as u64)) as u8 by {
        lemma_le64_byte(meta.masks[i], j);
        assert((8 * i + j) / 8 == i && (8 * i + j) % 8 == j);
        assert(id[4 + 32 * n + 8 * i + j] == dwords_le(meta.masks)[8 * i + j]);
    }
    assert forall|j: int| 0 <= j < 4 implies #[trigger] id[36 + 32 * n + j] == ((k as u32) >> ((8
        * j) as u32)) as u8 by {
        lemma_le32_byte(k as u32, j);
        assert(id[36 + 32 * n + j] == b[j]);
    }
    assert forall|i: int, j: int| 0 <= i < k && 0 <= j < 4 implies #[trigger] id[40 + 32 * n + 4 * i
        + j] == (meta.keys[i] >> ((8 * j) as u32)) as u8 by {
        law_word_bytes(meta.keys, i, j);
        assert(id[40 + 32 * n + 4 * i + j] == words_le(meta.keys)[4 * i + j]);
    }
    assert forall|j: int| 0 <= j < 4 implies #[trigger] id[40 + 32 * n + 4 * k + j] == ((c as u32)
        >> ((8 * j) as u32)) as u8 by {
        lemma_le32_byte(c as u32, j);
        assert(id[40 + 32 * n + 4 * k + j] == d[j]);
    }
    assert forall|i: int, j: int| 0 <= i < c && 0 <= j < 4 implies #[trigger] id[44 + 32 * n + 4 * k
        + 4 * i + j] == (meta.counts[i] >> ((8 * j) as u32)) as u8 by {
        law_word_bytes(meta.counts, i, j);
        assert(id[44 + 32 * n + 4 * k + 4 * i + j] == words_le(meta.counts)[4 * i + j]);
    }
}

/// What identifies a pair: its node, and then the number of the selected child.
pub proof fn law_pair_id_layout(step: MhotMembershipInput, j: int)
    requires
        0 <= j < 4,
    ensures
        step.pair_id().len() == step.node_id().len() + 4,
        forall|i: int|
            0 <= i < step.node_id().len() ==> #[trigger] step.pair_id()[i] == step.node_id()[i],
        step.pair_id()[step.node_id().len() + j] == ((step.node.selected_child as u32) >> ((8
            * j) as u32)) as u8,
{
    lemma_le32_byte(step.node.selected_child as u32, j);
}

proof fn lemma_digests_le_byte(ds: Seq<[u32; 8]>, i: int, w: int, t: int)
    ensures
        digests_le(ds).len() == 32 * ds.len(),
        0 <= i < ds.len() && 0 <= w < 8 && 0 <= t < 4 ==> digests_le(ds)[32 * i + 4 * w + t] == (
        ds[i]@[w] >> ((8 * t) as u32)) as u8,
    decreases ds.len(),
{
    if ds.len() > 0 {
        lemma_digests_le_byte(ds.drop_last(), i, w, t);
        if i == ds.len() - 1 && 0 <= w < 8 && 0 <= t < 4 {
            law_word_bytes(ds.last()@, w, t);
            assert(digests_le(ds)[32 * i + 4 * w + t] == words_le(ds.last()@)[4 * w + t]);
        }
    }
}

proof fn lemma_numbers_le_byte(ns: Seq<usize>, i: int, t: int)
    ensures
        numbers_le(ns).len() == 8 * ns.len(),
        0 <= i < ns.len() && 0 <= t < 8 ==> numbers_le(ns)[8 * i + t] == ((ns[i] as u64) >> ((8
            * t) as u64)) as u8,
    decreases ns.len(),
{
    if ns.len() > 0 {
        lemma_numbers_le_byte(ns.drop_last(), i, t);
        if i == ns.len() - 1 && 0 <= t < 8 {
            lemma_le64_byte(ns.last() as u64, t);
        }
    }
}

proof fn lemma_bit_lists_byte(lists: Seq<Vec<bool>>, i: int, t: int)
    requires
        forall|k: int| 0 <= k < lists.len() ==> (#[trigger] lists[k])@.len() == 8,
    ensures
        bit_lists(lists).len() == 16 * lists.len(),
        0 <= i < lists.len() && 0 <= t < 8 ==> bit_lists(lists)[16 * i + t] == (8u64 >> ((8
            * t) as u64)) as u8 && bit_lists(lists)[16 * i + 8 + t] == if lists[i]@[t] {
            1u8
        } else {
            0u8
        },
    decreases lists.len(),
{
    if lists.len() > 0 {
        let front = lists.drop_last();
        assert forall|k: int| 0 <= k < front.len() implies (#[trigger] front[k])@.len() == 8 by {
            assert(front[k] == lists[k]);
        }
        lemma_bit_lists_byte(front, i, t);
        assert(bits_bytes(lists.last()@).len() == 8);
        if i == lists.len() - 1 && 0 <= t < 8 {
            lemma_le64_byte(8, t);
        }
    }
}

/// The public bytes of a proof, part by part: how many leaves and the leaves,
/// how many lists of sides and the lists, how many pairs and their nodes, how
/// many roots and the roots, the logarithm of the number of blocks, and the
/// number of routes.
#[verifier::rlimit(40)]
pub proof fn law_public_io_parts(
    leaves: Seq<[u32; 8]>,
    b_bits: Seq<Vec<bool>>,
    pair_phys: Seq<usize>,
    roots: Seq<[u32; 8]>,
    n_log: usize,
    n_routes: usize,
    t: int,
)
    requires
        0 <= t < 8,
        forall|k: int| 0 <= k < b_bits.len() ==> (#[trigger] b_bits[k])@.len() == 8,
    ensures
        ({
            let io = public_io(leaves, b_bits, pair_phys, roots, n_log, n_routes);
            let b = 8 + 32 * leaves.len();
            let c = b + 8 + 16 * b_bits.len();
            let d = c + 8 + 8 * pair_phys.len();
            let e = d + 8 + 32 * roots.len();
            let s = (8 * t) as u64;
            &&& io.len() == e + 16
            &&& io[t] == ((leaves.len() as u64) >> s) as u8
            &&& io[b + t] == ((b_bits.len() as u64) >> s) as u8
            &&& io[c + t] == ((pair_phys.len() as u64) >> s) as u8
            &&& io[d + t] == ((roots.len() as u64) >> s) as u8
            &&& io[e + t] == ((n_log as u64) >> s) as u8
            &&& io[e + 8 + t] == ((n_routes as u64) >> s) as u8
        }),
{
    lemma_digests_le_byte(leaves, 0, 0, 0);
    lemma_bit_lists_byte(b_bits, 0, 0);
    lemma_numbers_le_byte(pair_phys, 0, 0);
    lemma_digests_le_byte(roots, 0, 0, 0);
    lemma_le64_byte(leaves.len() as u64, t);
    lemma_le64_byte(b_bits.len() as u64, t);
    lemma_le64_byte(pair_phys.len() as u64, t);
    lemma_le64_byte(roots.len() as u64, t);
    lemma_le64_byte(n_log as u64, t);
    lemma_le64_byte(n_routes as u64, t);
}

/// The entries among the public bytes: word `w` of leaf `i`, side `t` of pair
/// `i`, the node of pair `i`, and word `w` of root `i`.
#[verifier::rlimit(40)]
pub proof fn law_public_io_entries(
    leaves: Seq<[u32; 8]>,
    b_bits: Seq<Vec<bool>>,
    pair_phys: Seq<usize>,
    roots: Seq<[u32; 8]>,
    n_log: usize,
    n_routes: usize,
    i: int,
    w: int,
    t: int,
)
    requires
        0 <= i,
        0 <= w < 8,
        0 <= t < 8,
        forall|k: int| 0 <= k < b_bits.len() ==> (#[trigger] b_bits[k])@.len() == 8,
    ensures
        ({
            let io = public_io(leaves, b_bits, pair_phys, roots, n_log, n_routes);
            let b = 8 + 32 * leaves.len();
            let c = b + 8 + 16 * b_bits.len();
            let d = c + 8 + 8 * pair_phys.len();
            &&& i < leaves.len() && t < 4 ==> io[8 + 32 * i + 4 * w + t] == (leaves[i]@[w] >> ((8
                * t) as u32)) as u8
            &&& i < b_bits.len() ==> io[b + 8 + 16 * i + t] == (8u64 >> ((8 * t) as u64)) as u8
            &&& i < b_bits.len() ==> io[b + 16 + 16 * i + t] == if b_bits[i]@[t] {
                1u8
            } else {
                0u8
            }
            &&& i < pair_phys.len() ==> io[c + 8 + 8 * i + t] == ((pair_phys[i] as u64) >> ((8
                * t) as u64)) as u8
            &&& i < roots.len() && t < 4 ==> io[d + 8 + 32 * i + 4 * w + t] == (roots[i]@[w] >> ((8
                * t) as u32)) as u8
        }),
{
    let io = public_io(leaves, b_bits, pair_phys, roots, n_log, n_routes);
    let b = 8 + 32 * leaves.len();
    let c = b + 8 + 16 * b_bits.len();
    let d = c + 8 + 8 * pair_phys.len();
    lemma_digests_le_byte(leaves, i, w, t);
    lemma_bit_lists_byte(b_bits, i, t);
    lemma_numbers_le_byte(pair_phys, i, t);
    lemma_digests_le_byte(roots, i, w, t);
    if i < leaves.len() && t < 4 {
        assert(io[8 + 32 * i + 4 * w + t] == digests_le(leaves)[32 * i + 4 * w + t]);
    }
    if i < b_bits.len() {
        assert(io[b + 8 + 16 * i + t] == bit_lists(b_bits)[16 * i + t]);
        assert(io[b + 16 + 16 * i + t] == bit_lists(b_bits)[16 * i + 8 + t]);
    }
    if i < pair_phys.len() {
        assert(io[c + 8 + 8 * i + t] == numbers_le(pair_phys)[8 * i + t]);
    }
    if i < roots.len() && t < 4 {
        assert(io[d + 8 + 32 * i + 4 * w + t] == digests_le(roots)[32 * i + 4 * w + t]);
    }
}

/// Every step of every path is among the distinct pairs: the pair that its
/// place names has the same children, the same content and the same selected
/// child.
pub proof fn law_dedup_keeps_every_step(
    d: Dedup,
    paths: Seq<Vec<MhotMembershipInput>>,
    p: int,
    j: int,
)
    requires
        is_dedup(d, paths),
        0 <= p < paths.len() <= usize::MAX,
        0 <= j < paths[p]@.len(),
        forall|p: int, j: int|
            #![trigger paths[p]@[j]]
            0 <= p < paths.len() && 0 <= j < paths[p]@.len() ==> countable(paths[p]@[j]),
    ensures
        d.node_indices@.len() == paths.len(),
        d.node_indices@[p]@.len() == paths[p]@.len(),
        d.node_indices@[p]@[j] < d.occurrences@.len(),
        ({
            let (q, k) = d.occurrences@[d.node_indices@[p]@[j] as int];
            let (kept, step) = (paths[q as int]@[k as int], paths[p]@[j]);
            &&& q < paths.len() && k < paths[q as int]@.len()
            &&& kept.node.children@ == step.node.children@
            &&& kept.content@ == step.content@
            &&& kept.node.selected_child == step.node.selected_child
        }),
{
    lemma_dedup_index(d, paths, p, j);
    let i = d.node_indices@[p]@[j] as int;
    lemma_dedup_pair(d, paths, i);
    let at = d.occurrences@[i];
    assert(countable(paths[at.0 as int]@[at.1 as int]));
    assert(countable(paths[p]@[j]));
    assert(paths[p].len() == paths[p]@.len());
    assert(step_at(paths, (p as usize, j as usize)) == paths[p]@[j]);
    law_pair_identity(step_at(paths, at), paths[p]@[j]);
}

/// The distinct pairs are in the order in which the paths meet them. No two of
/// them have the same children, content and selected child; and two have the
/// same node number exactly where they have the same children and content.
#[verifier::rlimit(40)]
pub proof fn law_dedup_tells_apart(
    d: Dedup,
    paths: Seq<Vec<MhotMembershipInput>>,
    i: int,
    k: int,
)
    requires
        is_dedup(d, paths),
        0 <= i < k < d.occurrences@.len(),
        forall|p: int, j: int|
            #![trigger paths[p]@[j]]
            0 <= p < paths.len() && 0 <= j < paths[p]@.len() ==> countable(paths[p]@[j]),
    ensures
        d.pair_phys@.len() == d.occurrences@.len(),
        ({
            let (a, b) = (
                step_at(paths, d.occurrences@[i]),
                step_at(paths, d.occurrences@[k]),
            );
            let (p, q) = (d.occurrences@[i], d.occurrences@[k]);
            &&& p.0 < q.0 || (p.0 == q.0 && p.1 < q.1)
            &&& !(a.node.children@ == b.node.children@ && a.content@ == b.content@
                && a.node.selected_child == b.node.selected_child)
            &&& d.pair_phys@[i] == d.pair_phys@[k] <==> a.node.children@ == b.node.children@
                && a.content@ == b.content@
        }),
{
    reveal(is_dedup);
    lemma_dedup_pair(d, paths, i);
    lemma_dedup_pair(d, paths, k);
    let occ = d.occurrences@;
    let (a, b) = (step_at(paths, occ[i]), step_at(paths, occ[k]));
    assert(countable(paths[occ[i].0 as int]@[occ[i].1 as int]));
    assert(countable(paths[occ[k].0 as int]@[occ[k].1 as int]));
    assert(a.pair_id() != b.pair_id());
    let (x, y) = (d.pair_phys@[i] as int, d.pair_phys@[k] as int);
    lemma_dedup_node(d, paths, x);
    lemma_dedup_node(d, paths, y);
    if x == y {
        assert(a.node_id() == b.node_id());
        law_node_identity(a, b);
    } else if a.node.children@ == b.node.children@ && a.content@ == b.content@ {
        assert(a.node_id() == b.node_id());
        if x < y {
            assert(d.first_pairs@[x] < d.first_pairs@[y]);
        } else {
            assert(d.first_pairs@[y] < d.first_pairs@[x]);
        }
    }
}

/// What is planned for pair `i`: the digest of the selected child, and eight
/// sides, the binary digits of the selected child as far as the tree is deep.
pub proof fn law_planned_pair(
    plan: SoundPlan,
    paths: Seq<Vec<MhotMembershipInput>>,
    setup: RouteF32Setup,
    min_n: nat,
    i: int,
    d: int,
)
    requires
        is_sound_plan(plan, paths, setup, min_n),
        0 <= i < plan.dedup.occurrences@.len(),
        0 <= d < 8,
    ensures
        plan.leaves@.len() == plan.dedup.occurrences@.len(),
        plan.b_bits@.len() == plan.dedup.occurrences@.len(),
        ({
            let at = plan.dedup.occurrences@[i];
            let node = paths[at.0 as int]@[at.1 as int].node;
            let sel = node.selected_child as nat;
            &&& plan.leaves@[i]@ == tree_node(node.children@, 0, sel as int)
            &&& plan.b_bits@[i]@.len() == 8
            &&& plan.b_bits@[i]@[d] <==> d < ceil_log2(node.children@.len()) && sel / pow2(d as nat)
                % 2 == 1
        }),
{
    let pairs = pairs_of(plan.dedup, paths);
    lemma_states_pair(plan.leaves@, plan.b_bits@, pairs, i);
    law_ancestor(pairs[i].node.selected_child as nat, d as nat);
}

/// What is planned for node `p`: the root of its tree, what that comes to over
/// eight levels, and its content.
pub proof fn law_planned_node(
    plan: SoundPlan,
    paths: Seq<Vec<MhotMembershipInput>>,
    setup: RouteF32Setup,
    min_n: nat,
    p: int,
)
    requires
        is_sound_plan(plan, paths, setup, min_n),
        0 <= p < plan.dedup.first_pairs@.len(),
    ensures
        plan.roots@.len() == plan.dedup.first_pairs@.len(),
        ({
            let at = plan.dedup.occurrences@[plan.dedup.first_pairs@[p] as int];
            let step = paths[at.0 as int]@[at.1 as int];
            let depth = ceil_log2(step.node.children@.len());
            &&& plan.native_roots@[p]@ == tree_node(step.node.children@, depth, 0)
            &&& plan.roots@[p]@ == pad_value(plan.native_roots@[p]@, (8 - depth) as nat)
            &&& plan.metas@[p]@ == step.content@
            &&& plan.block_counts@[p] == 8
        }),
        plan.path_depths@.len() == paths.len(),
        forall|q: int|
            0 <= q < paths.len() ==> #[trigger] plan.path_depths@[q] == paths[q]@.len(),
{
    lemma_dedup_node(plan.dedup, paths, p);
    lemma_dedup_counts(plan.dedup, paths);
    lemma_states_node(
        plan.roots@,
        plan.native_roots@,
        plan.metas@,
        plan.block_counts@,
        nodes_of(plan.dedup, paths),
        p,
    );
    assert forall|q: int| 0 <= q < paths.len() implies #[trigger] plan.path_depths@[q]
        == paths[q]@.len() by {
        assert(paths[q].len() == paths[q]@.len());
    }
}

/// What is planned for all pairs together: the routes of the distinct steps, in
/// their order, the claims on what they put out, the public bytes, and how many
/// blocks are committed.
pub proof fn law_planned_parts(
    plan: SoundPlan,
    paths: Seq<Vec<MhotMembershipInput>>,
    setup: RouteF32Setup,
    min_n: nat,
)
    requires
        is_sound_plan(plan, paths, setup, min_n),
    ensures
        ({
            let occ = plan.dedup.occurrences@;
            let routes = Seq::new(
                occ.len(),
                |i: int| paths[occ[i].0 as int]@[occ[i].1 as int].route_witness.route(),
            );
            &&& batch_filled(
                plan.route_z@,
                plan.route_a@,
                plan.route_b@,
                routes,
                setup.setup_n_instances as int,
            )
            &&& is_output_claims(
                plan.route_claims@,
                Seq::new(occ.len(), |i: int| routes[i].children[spelled_index(routes[i])]),
                setup.r1cs.m as nat,
            )
            &&& pow2(plan.n_log_merkle as nat) == allocated_blocks(occ.len(), min_n)
            &&& plan.merkle_comps@.len() == allocated_blocks(occ.len(), min_n)
            &&& plan.all_b_bits@.len() == allocated_blocks(occ.len(), min_n)
            &&& transcript(plan.public_io@) == seq![
                Observed::Label("mhot-sound-public-io-v0"@),
                Observed::Bytes(
                    public_io(
                        plan.leaves@,
                        plan.b_bits@,
                        plan.dedup.pair_phys@,
                        plan.roots@,
                        plan.n_log_merkle,
                        occ.len() as usize,
                    ),
                ),
            ]
        }),
{
    let occ = plan.dedup.occurrences@;
    let routes = Seq::new(
        occ.len(),
        |i: int| paths[occ[i].0 as int]@[occ[i].1 as int].route_witness.route(),
    );
    let pairs = pairs_of(plan.dedup, paths);
    assert(step_routes(pairs) =~= routes);
    assert(route_outputs(routes) =~= Seq::new(
        occ.len(),
        |i: int| routes[i].children[spelled_index(routes[i])],
    ));
    lemma_hash_block(plan.merkle_comps@, pairs, allocated_blocks(pairs.len(), min_n), 0);
}

} // verus!
