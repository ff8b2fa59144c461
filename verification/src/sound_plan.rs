//! One proof for many paths: what is committed for it, and how the proof is
//! put together.

use vstd::arithmetic::power2::pow2;
use vstd::prelude::*;

use crate::backend::{transcript, OpenedCore, PackedDirectClaim, TranscriptOp};
use crate::bytes::{
    append_bytes, append_dwords_le, append_words_le, dwords_le, le32, same_bytes, u32_le, words_le,
};
use crate::math::{ceil_log2, lemma_ceil_log2, log2_ceil};
use crate::membership_proof::{
    is_output_claims, lemma_setup_serves, route_output_claims, route_outputs, setup_serves,
    MhotMembershipInput,
};
use crate::merkle_membership::{
    is_padded_path, pad_value, padded_block, padded_path, padded_sides, ContentMeta, Meta,
    PaddedPath,
};
use crate::native_witness::{node_valid, tree_depth, tree_leaf, tree_root};
use crate::r1cs::F128;
use crate::route_f32::Route;
use crate::route_f32_setup::{
    batch_filled, generate_witness_with_ab_packed_and_lincheck, routes_of, RouteF32Setup,
    RouteF32Witness,
};
use crate::sha256::{Compression, SHA256_IV};
use crate::sound_multiproof::{
    absorb_public_io, all_sides, allocate_blocks, allocated_blocks, dummy_children,
    dummy_padding_chain, filler_sides, io_observed, lay_out_sides, public_io, PathMapping,
    SoundMultiproof, MERKLE_BLOCKS_PER_NODE,
};

verus! {

/// Digests, one after another.
pub open spec fn join_digests(ds: Seq<[u8; 32]>) -> Seq<u8>
    decreases ds.len(),
{
    if ds.len() == 0 {
        Seq::empty()
    } else {
        join_digests(ds.drop_last()) + ds.last()@
    }
}

/// What tells nodes apart: their children and their content, as bytes.
pub open spec fn node_bytes(children: Seq<[u8; 32]>, meta: Meta) -> Seq<u8> {
    le32(children.len() as u32) + join_digests(children) + dwords_le(meta.masks) + le32(
        meta.keys.len() as u32,
    ) + words_le(meta.keys) + le32(meta.counts.len() as u32) + words_le(meta.counts)
}

impl MhotMembershipInput {
    /// What tells the node of a step from others.
    pub open spec fn node_id(self) -> Seq<u8> {
        node_bytes(self.node.children@, self.content@)
    }

    /// What tells a step's node and selected child from others.
    pub open spec fn pair_id(self) -> Seq<u8> {
        self.node_id() + le32(self.node.selected_child as u32)
    }
}

/// What tells the node of a step from others, whichever child is selected.
pub fn phys_identity(input: &MhotMembershipInput) -> (id: Vec<u8>)
    ensures
        id@ == input.node_id(),
{
    let mut bytes: Vec<u8> = Vec::new();
    let children: &Vec<[u8; 32]> = &input.node.children;
    append_bytes(&mut bytes, u32_le(children.len() as u32).as_slice());
    let ghost head = bytes@;
    assert(bytes@ =~= head + join_digests(children@.take(0)));
    for c in 0..children.len()
        invariant
            bytes@ == head + join_digests(children@.take(c as int)),
    {
        append_bytes(&mut bytes, children[c].as_slice());
        assert(children@.take(c + 1).drop_last() =~= children@.take(c as int));
        assert(bytes@ =~= head + join_digests(children@.take(c + 1)));
    }
    assert(children@.take(children@.len() as int) =~= children@);
    append_dwords_le(&mut bytes, input.content.extraction_masks.as_slice());
    append_bytes(&mut bytes, u32_le(input.content.sparse_partial_keys.len() as u32).as_slice());
    append_words_le(&mut bytes, input.content.sparse_partial_keys.as_slice());
    append_bytes(&mut bytes, u32_le(input.content.child_leaf_counts.len() as u32).as_slice());
    append_words_le(&mut bytes, input.content.child_leaf_counts.as_slice());
    assert(bytes@ =~= input.node_id());
    bytes
}

/// What tells a step's node and selected child from others.
pub fn pair_identity(input: &MhotMembershipInput) -> (id: Vec<u8>)
    ensures
        id@ == input.pair_id(),
{
    let mut bytes = phys_identity(input);
    append_bytes(&mut bytes, u32_le(input.node.selected_child as u32).as_slice());
    assert(bytes@ =~= input.pair_id());
    bytes
}

fn find_bytes(ids: &Vec<Vec<u8>>, id: &Vec<u8>) -> (r: Option<usize>)
    ensures
        match r {
            Some(i) => i < ids@.len() && ids@[i as int]@ == id@,
            None => forall|i: int| 0 <= i < ids@.len() ==> (#[trigger] ids@[i])@ != id@,
        },
{
    for i in 0..ids.len()
        invariant
            forall|j: int| 0 <= j < i ==> (#[trigger] ids@[j])@ != id@,
    {
        if same_bytes(&ids[i], id) {
            return Some(i);
        }
    }
    None
}

/// Whether position `a` comes before position `b`, path by path.
pub open spec fn comes_before(a: (usize, usize), b: (usize, usize)) -> bool {
    a.0 < b.0 || (a.0 == b.0 && a.1 < b.1)
}

/// The step at a position.
pub open spec fn step_at(
    paths: Seq<Vec<MhotMembershipInput>>,
    at: (usize, usize),
) -> MhotMembershipInput {
    paths[at.0 as int]@[at.1 as int]
}

/// Whether a position is one of a step.
pub open spec fn is_position(paths: Seq<Vec<MhotMembershipInput>>, at: (usize, usize)) -> bool {
    at.0 < paths.len() && at.1 < paths[at.0 as int]@.len()
}

/// The distinct pairs of many paths, and the distinct nodes among them.
#[derive(Clone, Debug)]
pub struct Dedup {
    /// Where each pair occurs first.
    pub occurrences: Vec<(usize, usize)>,
    /// For each pair, its node.
    pub pair_phys: Vec<usize>,
    /// For each node, its first pair.
    pub first_pairs: Vec<usize>,
    /// For each path, its pairs.
    pub node_indices: Vec<Vec<usize>>,
}

/// Whether `occ` are the first positions of distinct pairs, in order.
pub open spec fn distinct_pairs(
    occ: Seq<(usize, usize)>,
    paths: Seq<Vec<MhotMembershipInput>>,
) -> bool {
    &&& forall|i: int| 0 <= i < occ.len() ==> is_position(paths, #[trigger] occ[i])
    &&& forall|i: int, k: int|
        #![trigger occ[i], occ[k]]
        0 <= i < k < occ.len() ==> comes_before(occ[i], occ[k]) && step_at(
            paths,
            occ[i],
        ).pair_id() != step_at(paths, occ[k]).pair_id()
}

/// Whether pair `i` is the pair at position `at`, first seen there or before.
pub open spec fn is_pair_of(
    occ: Seq<(usize, usize)>,
    paths: Seq<Vec<MhotMembershipInput>>,
    at: (usize, usize),
    i: usize,
) -> bool {
    &&& i < occ.len()
    &&& step_at(paths, occ[i as int]).pair_id() == step_at(paths, at).pair_id()
    &&& occ[i as int] == at || comes_before(occ[i as int], at)
}

/// Whether pairs are grouped by their nodes, and nodes numbered in the order
/// in which they first appear.
pub open spec fn grouped_by_node(
    occ: Seq<(usize, usize)>,
    pair_phys: Seq<usize>,
    first_pairs: Seq<usize>,
    paths: Seq<Vec<MhotMembershipInput>>,
) -> bool {
    &&& pair_phys.len() == occ.len()
    &&& forall|i: int|
        0 <= i < occ.len() ==> #[trigger] pair_phys[i] < first_pairs.len()
            && first_pairs[pair_phys[i] as int] <= i && step_at(
            paths,
            occ[first_pairs[pair_phys[i] as int] as int],
        ).node_id() == step_at(paths, occ[i]).node_id()
    &&& forall|p: int|
        0 <= p < first_pairs.len() ==> #[trigger] first_pairs[p] < occ.len()
            && pair_phys[first_pairs[p] as int] == p
    &&& forall|p: int, q: int|
        #![trigger first_pairs[p], first_pairs[q]]
        0 <= p < q < first_pairs.len() ==> first_pairs[p] < first_pairs[q] && step_at(
            paths,
            occ[first_pairs[p] as int],
        ).node_id() != step_at(paths, occ[first_pairs[q] as int]).node_id()
}

/// Whether the first `j` entries of `indices` are the pairs of path `p`.
pub open spec fn path_indexed(
    occ: Seq<(usize, usize)>,
    paths: Seq<Vec<MhotMembershipInput>>,
    p: int,
    indices: Seq<usize>,
    j: int,
) -> bool {
    &&& indices.len() == j
    &&& forall|k: int|
        0 <= k < j ==> is_pair_of(occ, paths, (p as usize, k as usize), #[trigger] indices[k])
}

/// Whether `d` is what many paths come to without repetition.
#[verifier::opaque]
pub open spec fn is_dedup(d: Dedup, paths: Seq<Vec<MhotMembershipInput>>) -> bool {
    &&& distinct_pairs(d.occurrences@, paths)
    &&& grouped_by_node(d.occurrences@, d.pair_phys@, d.first_pairs@, paths)
    &&& d.node_indices@.len() == paths.len()
    &&& forall|p: int|
        0 <= p < paths.len() ==> path_indexed(
            d.occurrences@,
            paths,
            p,
            (#[trigger] d.node_indices@[p])@,
            paths[p]@.len() as int,
        )
}

/// What is known of pair `i` of many paths.
pub proof fn lemma_dedup_pair(d: Dedup, paths: Seq<Vec<MhotMembershipInput>>, i: int)
    requires
        is_dedup(d, paths),
        0 <= i < d.occurrences@.len(),
    ensures
        is_position(paths, d.occurrences@[i]),
        d.pair_phys@.len() == d.occurrences@.len(),
        d.pair_phys@[i] < d.first_pairs@.len(),
        d.first_pairs@[d.pair_phys@[i] as int] <= i,
        step_at(
            paths,
            d.occurrences@[d.first_pairs@[d.pair_phys@[i] as int] as int],
        ).node_id() == step_at(paths, d.occurrences@[i]).node_id(),
{
    reveal(is_dedup);
}

/// What is known of node `p` of many paths.
pub proof fn lemma_dedup_node(d: Dedup, paths: Seq<Vec<MhotMembershipInput>>, p: int)
    requires
        is_dedup(d, paths),
        0 <= p < d.first_pairs@.len(),
    ensures
        d.first_pairs@[p] < d.occurrences@.len(),
        d.pair_phys@[d.first_pairs@[p] as int] == p,
{
    reveal(is_dedup);
}

/// There are no more nodes than pairs.
pub proof fn lemma_dedup_counts(d: Dedup, paths: Seq<Vec<MhotMembershipInput>>)
    requires
        is_dedup(d, paths),
    ensures
        d.pair_phys@.len() == d.occurrences@.len(),
        d.first_pairs@.len() <= d.occurrences@.len(),
        d.node_indices@.len() == paths.len(),
{
    reveal(is_dedup);
    if d.first_pairs@.len() > 0 {
        lemma_fewer_nodes(d.first_pairs@, d.occurrences@.len(), d.first_pairs@.len() - 1);
    }
}

proof fn lemma_fewer_nodes(first_pairs: Seq<usize>, n: nat, p: int)
    requires
        0 <= p < first_pairs.len(),
        forall|q: int| 0 <= q < first_pairs.len() ==> #[trigger] first_pairs[q] < n,
        forall|q: int, r: int|
            #![trigger first_pairs[q], first_pairs[r]]
            0 <= q < r < first_pairs.len() ==> first_pairs[q] < first_pairs[r],
    ensures
        first_pairs[p] >= p,
        p < n,
    decreases p,
{
    if p > 0 {
        lemma_fewer_nodes(first_pairs, n, p - 1);
        assert(first_pairs[p - 1] < first_pairs[p]);
    }
    assert(first_pairs[p] < n);
}

/// What is known of level `j` of path `p`.
pub proof fn lemma_dedup_index(
    d: Dedup,
    paths: Seq<Vec<MhotMembershipInput>>,
    p: int,
    j: int,
)
    requires
        is_dedup(d, paths),
        0 <= p < paths.len(),
        0 <= j < paths[p]@.len(),
    ensures
        d.node_indices@.len() == paths.len(),
        d.node_indices@[p]@.len() == paths[p]@.len(),
        is_pair_of(
            d.occurrences@,
            paths,
            (p as usize, j as usize),
            d.node_indices@[p]@[j],
        ),
{
    reveal(is_dedup);
    assert(path_indexed(
        d.occurrences@,
        paths,
        p,
        d.node_indices@[p]@,
        paths[p]@.len() as int,
    ));
}

/// The distinct pairs and nodes that have been seen, with what tells them
/// apart.
struct Seen {
    occurrences: Vec<(usize, usize)>,
    pair_phys: Vec<usize>,
    first_pairs: Vec<usize>,
    pair_ids: Vec<Vec<u8>>,
    node_ids: Vec<Vec<u8>>,
}

impl Seen {
    spec fn well_formed(self, paths: Seq<Vec<MhotMembershipInput>>) -> bool {
        &&& distinct_pairs(self.occurrences@, paths)
        &&& grouped_by_node(self.occurrences@, self.pair_phys@, self.first_pairs@, paths)
        &&& self.pair_ids@.len() == self.occurrences@.len()
        &&& forall|i: int|
            0 <= i < self.pair_ids@.len() ==> (#[trigger] self.pair_ids@[i])@ == step_at(
                paths,
                self.occurrences@[i],
            ).pair_id()
        &&& self.node_ids@.len() == self.first_pairs@.len()
        &&& forall|p: int|
            0 <= p < self.node_ids@.len() ==> (#[trigger] self.node_ids@[p])@ == step_at(
                paths,
                self.occurrences@[self.first_pairs@[p] as int],
            ).node_id()
    }

    /// Whether everything seen comes before `at`.
    spec fn before(self, at: (usize, usize)) -> bool {
        forall|i: int|
            0 <= i < self.occurrences@.len() ==> comes_before(
                #[trigger] self.occurrences@[i],
                at,
            )
    }

    /// Appending a pair keeps pairs grouped by their nodes.
    proof fn lemma_grouped(
        self,
        occ: Seq<(usize, usize)>,
        phys: Seq<usize>,
        firsts: Seq<usize>,
        at: (usize, usize),
        paths: Seq<Vec<MhotMembershipInput>>,
    )
        requires
            grouped_by_node(occ, phys, firsts, paths),
            self.occurrences@ == occ.push(at),
            occ.len() <= usize::MAX,
            ({
                ||| {
                    &&& self.first_pairs@ == firsts
                    &&& self.pair_phys@ == phys.push(self.pair_phys@.last())
                    &&& self.pair_phys@.last() < firsts.len()
                    &&& step_at(paths, occ[firsts[self.pair_phys@.last() as int] as int]).node_id()
                        == step_at(paths, at).node_id()
                }
                ||| {
                    &&& self.first_pairs@ == firsts.push(occ.len() as usize)
                    &&& self.pair_phys@ == phys.push(firsts.len() as usize)
                    &&& firsts.len() <= usize::MAX
                    &&& forall|p: int|
                        0 <= p < firsts.len() ==> step_at(
                            paths,
                            occ[#[trigger] firsts[p] as int],
                        ).node_id() != step_at(paths, at).node_id()
                }
            }),
        ensures
            grouped_by_node(self.occurrences@, self.pair_phys@, self.first_pairs@, paths),
    {
        let occ2 = self.occurrences@;
        let phys2 = self.pair_phys@;
        let firsts2 = self.first_pairs@;
        assert forall|p: int| 0 <= p < firsts2.len() implies #[trigger] firsts2[p] < occ2.len()
            && phys2[firsts2[p] as int] == p by {
            if p < firsts.len() {
                assert(firsts2[p] == firsts[p]);
                assert(phys2[firsts[p] as int] == phys[firsts[p] as int]);
            }
        }
        assert forall|i: int| 0 <= i < occ2.len() implies #[trigger] phys2[i] < firsts2.len()
            && firsts2[phys2[i] as int] <= i && step_at(
            paths,
            occ2[firsts2[phys2[i] as int] as int],
        ).node_id() == step_at(paths, occ2[i]).node_id() by {
            if i < occ.len() {
                assert(phys2[i] == phys[i]);
                assert(firsts2[phys[i] as int] == firsts[phys[i] as int]);
            } else if firsts2 == firsts {
                assert(firsts[phys2[i] as int] < occ.len());
            }
        }
        assert forall|p: int, q: int|
            #![trigger firsts2[p], firsts2[q]]
            0 <= p < q < firsts2.len() implies firsts2[p] < firsts2[q] && step_at(
            paths,
            occ2[firsts2[p] as int],
        ).node_id() != step_at(paths, occ2[firsts2[q] as int]).node_id() by {
            assert(firsts2[p] == firsts[p]);
            assert(firsts[p] < occ.len());
            if q < firsts.len() {
                assert(firsts2[q] == firsts[q]);
            }
        }
    }

    /// Takes in the step at `at`, which comes behind everything seen. Returns
    /// its pair.
    fn take_in(&mut self, paths: &[Vec<MhotMembershipInput>], at: (usize, usize)) -> (i: usize)
        requires
            is_position(paths@, at),
            old(self).well_formed(paths@),
            old(self).before(at),
        ensures
            final(self).well_formed(paths@),
            is_pair_of(final(self).occurrences@, paths@, at, i),
            final(self).occurrences@ == old(self).occurrences@ || final(self).occurrences@
                == old(self).occurrences@.push(at),
    {
        let input: &MhotMembershipInput = &paths[at.0][at.1];
        let id = pair_identity(input);
        match find_bytes(&self.pair_ids, &id) {
            Some(i) => {
                assert(self.pair_ids@[i as int]@ == id@);
                assert(comes_before(self.occurrences@[i as int], at));
                i
            },
            None => {
                let i: usize = self.occurrences.len();
                let node_id = phys_identity(input);
                let ghost occ = self.occurrences@;
                let ghost phys = self.pair_phys@;
                let ghost firsts = self.first_pairs@;
                let ghost ids = self.pair_ids@;
                match find_bytes(&self.node_ids, &node_id) {
                    Some(p) => {
                        self.pair_phys.push(p);
                        assert(self.node_ids@[p as int]@ == node_id@);
                    },
                    None => {
                        proof {
                            assert forall|p: int| 0 <= p < firsts.len() implies step_at(
                                paths@,
                                occ[#[trigger] firsts[p] as int],
                            ).node_id() != step_at(paths@, at).node_id() by {
                                assert(self.node_ids@[p]@ != node_id@);
                            }
                        }
                        self.pair_phys.push(self.first_pairs.len());
                        self.first_pairs.push(i);
                        self.node_ids.push(node_id);
                    },
                }
                self.occurrences.push(at);
                self.pair_ids.push(id);
                proof {
                    let occ2 = self.occurrences@;
                    assert forall|a: int, b: int|
                        #![trigger occ2[a], occ2[b]]
                        0 <= a < b < occ2.len() implies comes_before(occ2[a], occ2[b]) && step_at(
                        paths@,
                        occ2[a],
                    ).pair_id() != step_at(paths@, occ2[b]).pair_id() by {
                        assert(occ2[a] == occ[a]);
                        if b < occ.len() {
                            assert(occ2[b] == occ[b]);
                        } else {
                            assert(ids[a]@ != id@);
                        }
                    }
                    self.lemma_grouped(occ, phys, firsts, at, paths@);
                }
                i
            },
        }
    }
}

/// Finds the distinct pairs and nodes of many paths, in the order in which
/// they first appear.
pub fn dedup_paths(paths: &[Vec<MhotMembershipInput>]) -> (d: Dedup)
    ensures
        is_dedup(d, paths@),
{
    let mut seen = Seen {
        occurrences: Vec::new(),
        pair_phys: Vec::new(),
        first_pairs: Vec::new(),
        pair_ids: Vec::new(),
        node_ids: Vec::new(),
    };
    let mut node_indices: Vec<Vec<usize>> = Vec::new();
    for p in 0..paths.len()
        invariant
            seen.well_formed(paths@),
            seen.before((p, 0)),
            node_indices@.len() == p,
            forall|q: int|
                0 <= q < p ==> path_indexed(
                    seen.occurrences@,
                    paths@,
                    q,
                    (#[trigger] node_indices@[q])@,
                    paths@[q]@.len() as int,
                ),
    {
        let mut indices: Vec<usize> = Vec::new();
        let len: usize = paths[p].len();
        for j in 0..len
            invariant
                p < paths@.len(),
                len == paths@[p as int]@.len(),
                seen.well_formed(paths@),
                seen.before((p, j)),
                node_indices@.len() == p,
                forall|q: int|
                    0 <= q < p ==> path_indexed(
                        seen.occurrences@,
                        paths@,
                        q,
                        (#[trigger] node_indices@[q])@,
                        paths@[q]@.len() as int,
                    ),
                path_indexed(seen.occurrences@, paths@, p as int, indices@, j as int),
        {
            let ghost occ = seen.occurrences@;
            let ghost done = indices@;
            let i: usize = seen.take_in(paths, (p, j));
            indices.push(i);
            proof {
                let occ2 = seen.occurrences@;
                assert forall|a: int| 0 <= a < occ2.len() implies comes_before(
                    #[trigger] occ2[a],
                    (p, (j + 1) as usize),
                ) by {
                    if a < occ.len() {
                        assert(occ2[a] == occ[a]);
                        assert(comes_before(occ[a], (p, j)));
                    }
                }
                assert forall|q: int| 0 <= q < p implies path_indexed(
                    occ2,
                    paths@,
                    q,
                    (#[trigger] node_indices@[q])@,
                    paths@[q]@.len() as int,
                ) by {
                    lemma_still_indexed(
                        occ,
                        occ2,
                        paths@,
                        q,
                        node_indices@[q]@,
                        paths@[q]@.len() as int,
                    );
                }
                lemma_still_indexed(occ, occ2, paths@, p as int, done, j as int);
                assert forall|k: int| 0 <= k < j + 1 implies is_pair_of(
                    occ2,
                    paths@,
                    (p, k as usize),
                    #[trigger] indices@[k],
                ) by {
                    if k < j {
                        assert(indices@[k] == done[k]);
                    }
                }
            }
        }
        node_indices.push(indices);
        proof {
            assert forall|a: int| 0 <= a < seen.occurrences@.len() implies comes_before(
                #[trigger] seen.occurrences@[a],
                ((p + 1) as usize, 0),
            ) by {
                assert(is_position(paths@, seen.occurrences@[a]));
                assert(comes_before(seen.occurrences@[a], (p, len)));
            }
        }
    }
    reveal(is_dedup);
    Dedup {
        occurrences: seen.occurrences,
        pair_phys: seen.pair_phys,
        first_pairs: seen.first_pairs,
        node_indices,
    }
}

/// More pairs do not change the pairs that a path was found to have.
proof fn lemma_still_indexed(
    occ: Seq<(usize, usize)>,
    more: Seq<(usize, usize)>,
    paths: Seq<Vec<MhotMembershipInput>>,
    p: int,
    indices: Seq<usize>,
    j: int,
)
    requires
        path_indexed(occ, paths, p, indices, j),
        occ.len() <= more.len(),
        forall|i: int| 0 <= i < occ.len() ==> #[trigger] more[i] == occ[i],
    ensures
        path_indexed(more, paths, p, indices, j),
{
    assert forall|k: int| 0 <= k < j implies is_pair_of(
        more,
        paths,
        (p as usize, k as usize),
        #[trigger] indices[k],
    ) by {
        assert(more[indices[k] as int] == occ[indices[k] as int]);
    }
}

/// Whether many paths can be proved: there is one, none is empty, and the tree
/// of each node has a height of eight at the most.
pub open spec fn paths_valid(paths: Seq<Vec<MhotMembershipInput>>) -> bool {
    &&& paths.len() > 0
    &&& forall|p: int| 0 <= p < paths.len() ==> (#[trigger] paths[p])@.len() > 0
    &&& forall|p: int, j: int|
        #![trigger paths[p]@[j]]
        0 <= p < paths.len() && 0 <= j < paths[p]@.len() ==> step_valid(paths[p]@[j])
}

/// Whether a step can be proved.
pub open spec fn step_valid(step: MhotMembershipInput) -> bool {
    &&& node_valid(step.node)
    &&& tree_depth(step.node.children@.len()) <= 8
    &&& step.route_witness.children@.len() == 32
}

/// The distinct pairs, in order.
pub open spec fn pairs_of(d: Dedup, paths: Seq<Vec<MhotMembershipInput>>) -> Seq<
    MhotMembershipInput,
> {
    d.occurrences@.map_values(|at: (usize, usize)| step_at(paths, at))
}

/// The distinct nodes, each as its first pair.
pub open spec fn nodes_of(d: Dedup, paths: Seq<Vec<MhotMembershipInput>>) -> Seq<
    MhotMembershipInput,
> {
    d.first_pairs@.map_values(|i: usize| pairs_of(d, paths)[i as int])
}

/// The routes of steps.
pub open spec fn step_routes(steps: Seq<MhotMembershipInput>) -> Seq<Route> {
    steps.map_values(|s: MhotMembershipInput| s.route_witness.route())
}

/// What is committed and opened for many paths, and what the proof states.
pub struct SoundPlan {
    pub dedup: Dedup,
    pub leaves: Vec<[u32; 8]>,
    pub b_bits: Vec<Vec<bool>>,
    pub roots: Vec<[u32; 8]>,
    pub native_roots: Vec<[u32; 8]>,
    pub metas: Vec<ContentMeta>,
    pub block_counts: Vec<usize>,
    pub path_depths: Vec<usize>,
    pub n_log_merkle: usize,
    /// The committed hash blocks.
    pub merkle_comps: Vec<Compression>,
    /// The sides of all of them.
    pub all_b_bits: Vec<bool>,
    /// What goes into the transcript once they are committed.
    pub public_io: Vec<TranscriptOp>,
    pub route_z: Vec<F128>,
    pub route_a: Vec<F128>,
    pub route_b: Vec<F128>,
    pub route_claims: Vec<PackedDirectClaim>,
}

/// The input of hash block `k`: of the path of pair `k / 8`, or of the path
/// that fills up.
pub open spec fn hash_block(pairs: Seq<MhotMembershipInput>, k: int) -> Seq<u32> {
    if k / 8 < pairs.len() {
        let node = pairs[k / 8].node;
        padded_block(node.children@, node.selected_child as nat, true, (k % 8) as nat)
    } else {
        padded_block(dummy_children(), 0, true, (k % 8) as nat)
    }
}

/// Whether `leaves` and `b_bits` state the paths of these pairs.
#[verifier::opaque]
pub open spec fn states_pairs(
    leaves: Seq<[u32; 8]>,
    b_bits: Seq<Vec<bool>>,
    pairs: Seq<MhotMembershipInput>,
) -> bool {
    &&& leaves.len() == pairs.len()
    &&& b_bits.len() == pairs.len()
    &&& forall|i: int|
        0 <= i < pairs.len() ==> (#[trigger] leaves[i])@ == tree_leaf(
            pairs[i].node.children@,
            pairs[i].node.selected_child as int,
        )
    &&& forall|i: int|
        0 <= i < pairs.len() ==> (#[trigger] b_bits[i])@ == padded_sides(
            pairs[i].node.children@.len(),
            pairs[i].node.selected_child as nat,
            true,
            8,
        )
}

/// What the padded paths of a node come to.
pub open spec fn padded_root(children: Seq<[u8; 32]>) -> Seq<u32> {
    pad_value(tree_root(children), (8 - tree_depth(children.len())) as nat)
}

/// Whether these vectors state these nodes.
#[verifier::opaque]
pub open spec fn states_nodes(
    roots: Seq<[u32; 8]>,
    native_roots: Seq<[u32; 8]>,
    metas: Seq<ContentMeta>,
    block_counts: Seq<usize>,
    nodes: Seq<MhotMembershipInput>,
) -> bool {
    &&& roots.len() == nodes.len()
    &&& native_roots.len() == nodes.len()
    &&& metas.len() == nodes.len()
    &&& block_counts.len() == nodes.len()
    &&& forall|p: int|
        0 <= p < nodes.len() ==> (#[trigger] roots[p])@ == padded_root(nodes[p].node.children@)
    &&& forall|p: int|
        0 <= p < nodes.len() ==> (#[trigger] native_roots[p])@ == tree_root(
            nodes[p].node.children@,
        )
    &&& forall|p: int| 0 <= p < nodes.len() ==> (#[trigger] metas[p])@ == nodes[p].content@
    &&& forall|p: int| 0 <= p < nodes.len() ==> #[trigger] block_counts[p] == 8
}

/// Whether `comps` are the hash blocks of these pairs.
#[verifier::opaque]
pub open spec fn are_hash_blocks(
    comps: Seq<Compression>,
    pairs: Seq<MhotMembershipInput>,
    n_total: nat,
) -> bool {
    &&& comps.len() == n_total
    &&& forall|k: int|
        #![trigger comps[k]]
        0 <= k < n_total ==> comps[k].0@ == SHA256_IV@ && comps[k].1@ == hash_block(pairs, k)
}

/// What is stated of pair `i`.
pub proof fn lemma_states_pair(
    leaves: Seq<[u32; 8]>,
    b_bits: Seq<Vec<bool>>,
    pairs: Seq<MhotMembershipInput>,
    i: int,
)
    requires
        states_pairs(leaves, b_bits, pairs),
    ensures
        leaves.len() == pairs.len(),
        b_bits.len() == pairs.len(),
        0 <= i < pairs.len() ==> leaves[i]@ == tree_leaf(
            pairs[i].node.children@,
            pairs[i].node.selected_child as int,
        ) && b_bits[i]@ == padded_sides(
            pairs[i].node.children@.len(),
            pairs[i].node.selected_child as nat,
            true,
            8,
        ),
{
    reveal(states_pairs);
}

/// What is stated of node `p`.
pub proof fn lemma_states_node(
    roots: Seq<[u32; 8]>,
    native_roots: Seq<[u32; 8]>,
    metas: Seq<ContentMeta>,
    block_counts: Seq<usize>,
    nodes: Seq<MhotMembershipInput>,
    p: int,
)
    requires
        states_nodes(roots, native_roots, metas, block_counts, nodes),
    ensures
        roots.len() == nodes.len(),
        native_roots.len() == nodes.len(),
        metas.len() == nodes.len(),
        block_counts.len() == nodes.len(),
        0 <= p < nodes.len() ==> roots[p]@ == padded_root(nodes[p].node.children@)
            && native_roots[p]@ == tree_root(nodes[p].node.children@) && metas[p]@
            == nodes[p].content@ && block_counts[p] == 8,
{
    reveal(states_nodes);
}

/// What is known of hash block `k`.
pub proof fn lemma_hash_block(
    comps: Seq<Compression>,
    pairs: Seq<MhotMembershipInput>,
    n_total: nat,
    k: int,
)
    requires
        are_hash_blocks(comps, pairs, n_total),
    ensures
        comps.len() == n_total,
        0 <= k < n_total ==> comps[k].0@ == SHA256_IV@ && comps[k].1@ == hash_block(pairs, k),
{
    reveal(are_hash_blocks);
}

/// Whether `plan` is the plan of `paths`.
pub open spec fn is_sound_plan(
    plan: SoundPlan,
    paths: Seq<Vec<MhotMembershipInput>>,
    setup: RouteF32Setup,
    min_n: nat,
) -> bool {
    let pairs = pairs_of(plan.dedup, paths);
    &&& is_dedup(plan.dedup, paths)
    &&& states_pairs(plan.leaves@, plan.b_bits@, pairs)
    &&& states_nodes(
        plan.roots@,
        plan.native_roots@,
        plan.metas@,
        plan.block_counts@,
        nodes_of(plan.dedup, paths),
    )
    &&& plan.path_depths@ == paths.map_values(|p: Vec<MhotMembershipInput>| p@.len() as usize)
    &&& pow2(plan.n_log_merkle as nat) == allocated_blocks(pairs.len(), min_n)
    &&& are_hash_blocks(plan.merkle_comps@, pairs, allocated_blocks(pairs.len(), min_n))
    &&& plan.all_b_bits@ == all_sides(
        plan.b_bits@,
        filler_sides(),
        allocated_blocks(pairs.len(), min_n),
    )
    &&& transcript(plan.public_io@) == io_observed(
        public_io(
            plan.leaves@,
            plan.b_bits@,
            plan.dedup.pair_phys@,
            plan.roots@,
            plan.n_log_merkle,
            pairs.len() as usize,
        ),
    )
    &&& batch_filled(
        plan.route_z@,
        plan.route_a@,
        plan.route_b@,
        step_routes(pairs),
        setup.setup_n_instances as int,
    )
    &&& is_output_claims(plan.route_claims@, route_outputs(step_routes(pairs)), setup.r1cs.m as nat)
}

/// Builds the paths of all pairs.
fn build_pair_paths(paths: &[Vec<MhotMembershipInput>], dedup: &Dedup) -> (built: Vec<PaddedPath>)
    requires
        paths_valid(paths@),
        is_dedup(*dedup, paths@),
    ensures
        are_pair_paths(built@, pairs_of(*dedup, paths@)),
{
    let mut built: Vec<PaddedPath> = Vec::new();
    let ghost pairs = pairs_of(*dedup, paths@);
    for i in 0..dedup.occurrences.len()
        invariant
            paths_valid(paths@),
            is_dedup(*dedup, paths@),
            pairs == pairs_of(*dedup, paths@),
            built@.len() == i,
            forall|k: int|
                0 <= k < i ==> is_padded_path(
                    #[trigger] built@[k],
                    pairs[k].node.children@,
                    pairs[k].node.selected_child as nat,
                    true,
                ) && built@[k].compressions@.len() == 8,
    {
        let at: (usize, usize) = dedup.occurrences[i];
        proof {
            lemma_dedup_pair(*dedup, paths@, i as int);
        }
        assert(step_valid(paths@[at.0 as int]@[at.1 as int]));
        let p = padded_path(&paths[at.0][at.1].node, true);
        proof {
            crate::merkle_membership::lemma_path_blocks(
                tree_depth(pairs[i as int].node.children@.len()),
            );
        }
        built.push(p);
    }
    built
}

/// Whether `built` are the paths of these pairs, each of eight blocks.
pub open spec fn are_pair_paths(built: Seq<PaddedPath>, pairs: Seq<MhotMembershipInput>) -> bool {
    &&& built.len() == pairs.len()
    &&& forall|i: int|
        0 <= i < pairs.len() ==> is_padded_path(
            #[trigger] built[i],
            pairs[i].node.children@,
            pairs[i].node.selected_child as nat,
            true,
        ) && built[i].compressions@.len() == 8
}

/// Lays out the hash blocks of all pairs, and fills up.
fn build_comp_vec(
    built: &Vec<PaddedPath>,
    filler: &PaddedPath,
    n_total: usize,
    Ghost(pairs): Ghost<Seq<MhotMembershipInput>>,
) -> (comps: Vec<Compression>)
    requires
        are_pair_paths(built@, pairs),
        is_padded_path(*filler, dummy_children(), 0, true),
        filler.compressions@.len() == 8,
    ensures
        are_hash_blocks(comps@, pairs, n_total as nat),
{
    let mut comps: Vec<Compression> = Vec::new();
    reveal(are_hash_blocks);
    for k in 0..n_total
        invariant
            are_pair_paths(built@, pairs),
            is_padded_path(*filler, dummy_children(), 0, true),
            filler.compressions@.len() == 8,
            are_hash_blocks(comps@, pairs, k as nat),
    {
        let node: usize = k / MERKLE_BLOCKS_PER_NODE;
        let y: usize = k % MERKLE_BLOCKS_PER_NODE;
        let ghost before = comps@;
        reveal(are_hash_blocks);
        if node < built.len() {
            let p: &PaddedPath = &built[node];
            assert(built@[node as int].compressions@.len() == 8);
            comps.push(p.compressions[y]);
            assert(p.compressions@[y as int].1@ == hash_block(pairs, k as int));
        } else {
            comps.push(filler.compressions[y]);
            assert(filler.compressions@[y as int].1@ == hash_block(pairs, k as int));
        }
        assert forall|j: int| #![trigger comps@[j]] 0 <= j < k + 1 implies comps@[j].0@
            == SHA256_IV@ && comps@[j].1@ == hash_block(pairs, j) by {
            if j < k {
                assert(comps@[j] == before[j]);
            }
        }
    }
    comps
}

/// The base-two logarithm of the number of committed blocks.
fn blocks_log(n_total: usize, Ghost(u): Ghost<nat>, Ghost(min_n): Ghost<nat>) -> (n_log: usize)
    requires
        n_total == allocated_blocks(u, min_n),
        u > 0,
    ensures
        pow2(n_log as nat) == n_total,
{
    proof {
        let n = if 8 * u < min_n {
            min_n
        } else {
            8 * u
        };
        lemma_ceil_log2(n);
        crate::math::lemma_pow2_is_pow2(ceil_log2(n));
    }
    log2_ceil(n_total)
}

/// Builds what is stated of each node.
fn build_node_data(
    paths: &[Vec<MhotMembershipInput>],
    dedup: &Dedup,
    built: &Vec<PaddedPath>,
) -> (r: (Vec<[u32; 8]>, Vec<[u32; 8]>, Vec<ContentMeta>, Vec<usize>))
    requires
        paths_valid(paths@),
        is_dedup(*dedup, paths@),
        are_pair_paths(built@, pairs_of(*dedup, paths@)),
    ensures
        states_nodes(r.0@, r.1@, r.2@, r.3@, nodes_of(*dedup, paths@)),
{
    let mut roots: Vec<[u32; 8]> = Vec::new();
    let mut native_roots: Vec<[u32; 8]> = Vec::new();
    let mut metas: Vec<ContentMeta> = Vec::new();
    let mut block_counts: Vec<usize> = Vec::new();
    let ghost pairs = pairs_of(*dedup, paths@);
    let ghost nodes = nodes_of(*dedup, paths@);
    reveal(states_nodes);
    for p in 0..dedup.first_pairs.len()
        invariant
            paths_valid(paths@),
            is_dedup(*dedup, paths@),
            pairs == pairs_of(*dedup, paths@),
            nodes == nodes_of(*dedup, paths@),
            are_pair_paths(built@, pairs),
            states_nodes(
                roots@,
                native_roots@,
                metas@,
                block_counts@,
                nodes.take(p as int),
            ),
    {
        let i: usize = dedup.first_pairs[p];
        proof {
            lemma_dedup_node(*dedup, paths@, p as int);
        }
        let at: (usize, usize) = dedup.occurrences[i];
        proof {
            lemma_dedup_pair(*dedup, paths@, i as int);
        }
        assert(step_valid(paths@[at.0 as int]@[at.1 as int]));
        assert(nodes[p as int] == pairs[i as int]);
        let b: &PaddedPath = &built[i];
        assert(is_padded_path(
            built@[i as int],
            pairs[i as int].node.children@,
            pairs[i as int].node.selected_child as nat,
            true,
        ));
        proof {
            crate::merkle_membership::law_padded_root_is_tree_determined(
                *b,
                pairs[i as int].node,
            );
        }
        reveal(states_nodes);
        roots.push(b.root);
        native_roots.push(b.native_root);
        metas.push(paths[at.0][at.1].content.copied());
        block_counts.push(b.compressions.len());
        assert(nodes.take(p + 1) =~= nodes.take(p as int).push(nodes[p as int]));
    }
    assert(nodes.take(nodes.len() as int) =~= nodes);
    (roots, native_roots, metas, block_counts)
}

/// Builds what is stated of each pair.
fn build_pair_data(
    built: &Vec<PaddedPath>,
    Ghost(pairs): Ghost<Seq<MhotMembershipInput>>,
) -> (r: (Vec<[u32; 8]>, Vec<Vec<bool>>))
    requires
        are_pair_paths(built@, pairs),
    ensures
        states_pairs(r.0@, r.1@, pairs),
{
    let mut leaves: Vec<[u32; 8]> = Vec::new();
    let mut b_bits: Vec<Vec<bool>> = Vec::new();
    reveal(states_pairs);
    for i in 0..built.len()
        invariant
            are_pair_paths(built@, pairs),
            states_pairs(leaves@, b_bits@, pairs.take(i as int)),
    {
        let b: &PaddedPath = &built[i];
        assert(is_padded_path(
            built@[i as int],
            pairs[i as int].node.children@,
            pairs[i as int].node.selected_child as nat,
            true,
        ));
        reveal(states_pairs);
        leaves.push(b.leaf);
        b_bits.push(vstd::slice::slice_to_vec(b.b_bits.as_slice()));
        assert(pairs.take(i + 1) =~= pairs.take(i as int).push(pairs[i as int]));
    }
    assert(pairs.take(pairs.len() as int) =~= pairs);
    (leaves, b_bits)
}

/// Copies the routes of all pairs.
fn pair_route_witnesses(paths: &[Vec<MhotMembershipInput>], dedup: &Dedup) -> (ws: Vec<
    RouteF32Witness,
>)
    requires
        paths_valid(paths@),
        is_dedup(*dedup, paths@),
    ensures
        routes_of(ws@) == step_routes(pairs_of(*dedup, paths@)),
        forall|i: int| 0 <= i < ws@.len() ==> (#[trigger] ws@[i]).children@.len() == 32,
{
    let mut ws: Vec<RouteF32Witness> = Vec::new();
    let ghost pairs = pairs_of(*dedup, paths@);
    for i in 0..dedup.occurrences.len()
        invariant
            paths_valid(paths@),
            is_dedup(*dedup, paths@),
            pairs == pairs_of(*dedup, paths@),
            ws@.len() == i,
            forall|k: int|
                0 <= k < i ==> (#[trigger] ws@[k]).route() == pairs[k].route_witness.route()
                    && ws@[k].children@.len() == 32,
    {
        let at: (usize, usize) = dedup.occurrences[i];
        proof {
            lemma_dedup_pair(*dedup, paths@, i as int);
        }
        assert(step_valid(paths@[at.0 as int]@[at.1 as int]));
        ws.push(paths[at.0][at.1].route_witness.copied());
    }
    assert(routes_of(ws@) =~= step_routes(pairs));
    ws
}

/// Builds what is committed and opened for many paths.
pub fn plan_sound_multiproof(
    paths: &[Vec<MhotMembershipInput>],
    dedup: Dedup,
    setup: &RouteF32Setup,
    min_n: usize,
) -> (plan: SoundPlan)
    requires
        paths_valid(paths@),
        is_dedup(dedup, paths@),
        setup_serves(*setup, dedup.occurrences@.len()),
        256 * dedup.occurrences@.len() <= usize::MAX,
        allocated_blocks(dedup.occurrences@.len(), min_n as nat) <= usize::MAX,
    ensures
        is_sound_plan(plan, paths@, *setup, min_n as nat),
        plan.dedup == dedup,
{
    let ghost pairs = pairs_of(dedup, paths@);
    let u: usize = dedup.occurrences.len();
    proof {
        assert(paths@[0]@.len() > 0);
        lemma_dedup_index(dedup, paths@, 0, 0);
        lemma_setup_serves(*setup, u as nat);
    }
    let built = build_pair_paths(paths, &dedup);
    let (leaves, b_bits) = build_pair_data(&built, Ghost(pairs));
    let (roots, native_roots, metas, block_counts) = build_node_data(paths, &dedup, &built);
    let mut path_depths: Vec<usize> = Vec::new();
    let ghost depths = paths@.map_values(|p: Vec<MhotMembershipInput>| p@.len() as usize);
    for p in 0..paths.len()
        invariant
            depths == paths@.map_values(|p: Vec<MhotMembershipInput>| p@.len() as usize),
            path_depths@ == depths.take(p as int),
    {
        path_depths.push(paths[p].len());
        assert(path_depths@ =~= depths.take(p + 1));
    }
    assert(depths.take(paths@.len() as int) =~= depths);
    let n_total: usize = allocate_blocks(u, min_n);
    let n_log_merkle: usize = blocks_log(n_total, Ghost(u as nat), Ghost(min_n as nat));
    let filler = dummy_padding_chain();
    let merkle_comps = build_comp_vec(&built, &filler, n_total, Ghost(pairs));
    assert forall|i: int| 0 <= i < b_bits@.len() implies (#[trigger] b_bits@[i])@.len() == 8 by {
        reveal(states_pairs);
    }
    let all_b_bits = lay_out_sides(b_bits.as_slice(), &filler.b_bits, n_total);
    let public_io = absorb_public_io(
        leaves.as_slice(),
        b_bits.as_slice(),
        dedup.pair_phys.as_slice(),
        roots.as_slice(),
        n_log_merkle,
        u,
    );
    let witnesses = pair_route_witnesses(paths, &dedup);
    assert(witnesses@.len() == routes_of(witnesses@).len());
    let (route_z, route_a, route_b) = generate_witness_with_ab_packed_and_lincheck(
        witnesses.as_slice(),
        setup.n_blocks_log(),
    );
    let route_claims = route_output_claims(setup, witnesses.as_slice());
    SoundPlan {
        dedup,
        leaves,
        b_bits,
        roots,
        native_roots,
        metas,
        block_counts,
        path_depths,
        n_log_merkle,
        merkle_comps,
        all_b_bits,
        public_io,
        route_z,
        route_a,
        route_b,
        route_claims,
    }
}

/// The proof for many paths, given what the proof system makes of their plan.
pub fn prove_sound_multiproof(
    plan: SoundPlan,
    merkle: OpenedCore,
    merkle_shift: Vec<u8>,
    route: OpenedCore,
) -> (proof: SoundMultiproof)
    ensures
        proof.merkle_zc == merkle.zc_proof,
        proof.merkle_lc == merkle.lc_proof,
        proof.merkle_pcs == merkle.pcs_open,
        proof.merkle_commitment == merkle.commitment,
        proof.merkle_shift == merkle_shift,
        proof.merkle_leaves == plan.leaves,
        proof.merkle_b_bits == plan.b_bits,
        proof.pair_phys == plan.dedup.pair_phys,
        proof.merkle_roots == plan.roots,
        proof.merkle_native_roots == plan.native_roots,
        proof.content_metas == plan.metas,
        proof.merkle_block_counts == plan.block_counts,
        proof.n_log_merkle == plan.n_log_merkle,
        proof.route_zc == route.zc_proof,
        proof.route_lc == route.lc_proof,
        proof.route_pcs == route.pcs_open,
        proof.route_commitment == route.commitment,
        proof.n_routes == plan.leaves@.len(),
        proof.path_depths == plan.path_depths,
        proof.path_mapping.node_indices == plan.dedup.node_indices,
{
    let n_routes: usize = plan.leaves.len();
    SoundMultiproof {
        merkle_zc: merkle.zc_proof,
        merkle_lc: merkle.lc_proof,
        merkle_pcs: merkle.pcs_open,
        merkle_commitment: merkle.commitment,
        merkle_shift,
        merkle_leaves: plan.leaves,
        merkle_b_bits: plan.b_bits,
        pair_phys: plan.dedup.pair_phys,
        merkle_roots: plan.roots,
        merkle_native_roots: plan.native_roots,
        content_metas: plan.metas,
        merkle_block_counts: plan.block_counts,
        n_log_merkle: plan.n_log_merkle,
        route_zc: route.zc_proof,
        route_lc: route.lc_proof,
        route_pcs: route.pcs_open,
        route_commitment: route.commitment,
        n_routes,
        path_depths: plan.path_depths,
        path_mapping: PathMapping { node_indices: plan.dedup.node_indices },
    }
}

} // verus!
