//! Membership of paths whose content is public: the hash path inside each node
//! is proved, and the verifier recomputes the content hash of each node.

use vstd::prelude::*;

use crate::backend::MerklePathVerifyError;
use crate::bytes::{same_words, words_be, words_digest};
use crate::merkle_membership::{
    is_padded_path, plan_node_merkle, prove_node_merkle, states_node, Meta, NodeMerkleProof,
    PaddedPath, ProvedPart,
};
use crate::mhot_to_sha256::{content_hash_to_sha256_chain, content_preimage};
use crate::native_witness::{node_valid, tree_leaf, tree_root, MhotNodeWitness};
use crate::sha256::{sha256_words, MAX_MESSAGE_LEN};
use crate::soundness::{lemma_preimage_binds, messages_apart};

verus! {

/// A node with its content.
#[derive(Clone, Debug)]
pub struct MhotNodeFullWitness {
    pub children: Vec<[u8; 32]>,
    pub selected_child: usize,
    pub extraction_masks: [u64; 4],
    pub sparse_keys: Vec<u32>,
    pub counts: Vec<u32>,
}

impl MhotNodeFullWitness {
    /// Whether the node has a path, and a sparse key and a leaf count for as
    /// many children as the other.
    pub open spec fn valid(self) -> bool {
        &&& node_valid(self.node())
        &&& self.hashable()
    }

    /// Whether the content hash can be taken.
    pub open spec fn hashable(self) -> bool {
        &&& self.sparse_keys@.len() == self.counts@.len()
        &&& 64 + 8 * self.sparse_keys@.len() <= MAX_MESSAGE_LEN
    }

    /// The node without its content.
    pub open spec fn node(self) -> MhotNodeWitness {
        MhotNodeWitness { children: self.children, selected_child: self.selected_child }
    }

    /// The words of the content hash, where the node's tree has this root.
    pub open spec fn content_hash(self, root: Seq<u8>) -> Seq<u32> {
        sha256_words(
            content_preimage(
                self.extraction_masks@,
                self.sparse_keys@,
                root,
                self.counts@,
            ),
        )
    }

    /// The words of the node's own content hash.
    pub open spec fn own_hash(self) -> Seq<u32> {
        self.content_hash(words_be(tree_root(self.children@)))
    }

    /// The content.
    pub open spec fn meta(self) -> Meta {
        Meta { masks: self.extraction_masks@, keys: self.sparse_keys@, counts: self.counts@ }
    }

    /// Whether another node has the same children, selection and content.
    pub open spec fn same_as(self, other: Self) -> bool {
        &&& self.children@ == other.children@
        &&& self.selected_child == other.selected_child
        &&& self.extraction_masks@ == other.extraction_masks@
        &&& self.sparse_keys@ == other.sparse_keys@
        &&& self.counts@ == other.counts@
    }

    fn copied(&self) -> (c: Self)
        ensures
            c.same_as(*self),
    {
        MhotNodeFullWitness {
            children: vstd::slice::slice_to_vec(self.children.as_slice()),
            selected_child: self.selected_child,
            extraction_masks: self.extraction_masks,
            sparse_keys: vstd::slice::slice_to_vec(self.sparse_keys.as_slice()),
            counts: vstd::slice::slice_to_vec(self.counts.as_slice()),
        }
    }

    fn merkle_node(&self) -> (n: MhotNodeWitness)
        ensures
            n.children@ == self.children@,
            n.selected_child == self.selected_child,
    {
        MhotNodeWitness {
            children: vstd::slice::slice_to_vec(self.children.as_slice()),
            selected_child: self.selected_child,
        }
    }
}

/// The proof of one path.
pub struct MhotPathProof {
    pub node_proofs: Vec<NodeMerkleProof>,
    pub content_hashes: Vec<[u32; 8]>,
    /// The tree root of each node.
    pub native_merkle_roots: Vec<[u8; 32]>,
    pub node_witnesses: Vec<MhotNodeFullWitness>,
}

/// The proofs of many paths.
pub struct MhotMultipointProof {
    pub path_proofs: Vec<MhotPathProof>,
}

/// Why a path is rejected.
#[derive(Clone, Copy, Debug, PartialEq, Eq)]
pub enum MembershipVerifyError {
    /// The hash path inside a node fails.
    MerklePath { path_idx: usize, node_idx: usize, inner: MerklePathVerifyError },
    /// A node is not what its parent selects.
    CrossNodeMismatch { path_idx: usize, parent_node_idx: usize },
    /// A node's content does not have the stated hash.
    ContentHashMismatch { path_idx: usize, node_idx: usize },
}

/// Whether a path can be proved: it has a node, each is valid, and each
/// selects the content hash of the next.
pub open spec fn path_provable(nodes: Seq<MhotNodeFullWitness>) -> bool {
    &&& nodes.len() > 0
    &&& forall|i: int| 0 <= i < nodes.len() ==> (#[trigger] nodes[i]).valid()
    &&& forall|i: int|
        #![trigger nodes[i]]
        1 <= i < nodes.len() ==> nodes[i].own_hash() == tree_leaf(
            nodes[i - 1].children@,
            nodes[i - 1].selected_child as int,
        )
}

/// Whether these are the plans of the nodes.
pub open spec fn are_plans(plans: Seq<PaddedPath>, nodes: Seq<MhotNodeFullWitness>) -> bool {
    &&& plans.len() == nodes.len()
    &&& forall|i: int|
        0 <= i < nodes.len() ==> is_padded_path(
            #[trigger] plans[i],
            nodes[i].children@,
            nodes[i].selected_child as nat,
            false,
        )
}

/// What is committed for a path: the hash path inside each node.
pub fn plan_path(nodes: &[MhotNodeFullWitness]) -> (plans: Vec<PaddedPath>)
    requires
        path_provable(nodes@),
    ensures
        are_plans(plans@, nodes@),
{
    let mut plans: Vec<PaddedPath> = Vec::new();
    for i in 0..nodes.len()
        invariant
            path_provable(nodes@),
            plans@.len() == i,
            forall|k: int|
                0 <= k < i ==> is_padded_path(
                    #[trigger] plans@[k],
                    nodes@[k].children@,
                    nodes@[k].selected_child as nat,
                    false,
                ),
    {
        assert(nodes@[i as int].valid());
        let node = nodes[i].merkle_node();
        plans.push(plan_node_merkle(&node));
    }
    plans
}

/// Whether a proof states a path.
pub open spec fn states_path(proof: MhotPathProof, nodes: Seq<MhotNodeFullWitness>) -> bool {
    &&& proof.node_proofs@.len() == nodes.len()
    &&& proof.content_hashes@.len() == nodes.len()
    &&& proof.native_merkle_roots@.len() == nodes.len()
    &&& proof.node_witnesses@.len() == nodes.len()
    &&& forall|i: int|
        0 <= i < nodes.len() ==> states_node(#[trigger] proof.node_proofs@[i], nodes[i].node())
    &&& forall|i: int|
        0 <= i < nodes.len() ==> (#[trigger] proof.content_hashes@[i])@ == nodes[i].own_hash()
    &&& forall|i: int|
        0 <= i < nodes.len() ==> (#[trigger] proof.native_merkle_roots@[i])@ == words_be(
            tree_root(nodes[i].children@),
        )
    &&& forall|i: int|
        0 <= i < nodes.len() ==> (#[trigger] proof.node_witnesses@[i]).same_as(nodes[i])
}

/// The proof of a path, given what the proof system makes of its plans.
pub fn prove_path(
    nodes: &[MhotNodeFullWitness],
    plans: &[PaddedPath],
    parts: &[ProvedPart],
) -> (proof: MhotPathProof)
    requires
        path_provable(nodes@),
        are_plans(plans@, nodes@),
        parts@.len() == nodes@.len(),
    ensures
        states_path(proof, nodes@),
        forall|i: int|
            0 <= i < nodes@.len() ==> (#[trigger] proof.node_proofs@[i]).proof@
                == parts@[i].proof@ && proof.node_proofs@[i].commitment == parts@[i].commitment,
{
    let mut node_proofs: Vec<NodeMerkleProof> = Vec::new();
    let mut content_hashes: Vec<[u32; 8]> = Vec::new();
    let mut native_merkle_roots: Vec<[u8; 32]> = Vec::new();
    let mut node_witnesses: Vec<MhotNodeFullWitness> = Vec::new();
    for i in 0..nodes.len()
        invariant
            path_provable(nodes@),
            are_plans(plans@, nodes@),
            parts@.len() == nodes@.len(),
            node_proofs@.len() == i,
            content_hashes@.len() == i,
            native_merkle_roots@.len() == i,
            node_witnesses@.len() == i,
            forall|k: int|
                0 <= k < i ==> states_node(#[trigger] node_proofs@[k], nodes@[k].node())
                    && node_proofs@[k].proof@ == parts@[k].proof@ && node_proofs@[k].commitment
                    == parts@[k].commitment,
            forall|k: int|
                0 <= k < i ==> (#[trigger] content_hashes@[k])@ == nodes@[k].own_hash(),
            forall|k: int|
                0 <= k < i ==> (#[trigger] native_merkle_roots@[k])@ == words_be(
                    tree_root(nodes@[k].children@),
                ),
            forall|k: int| 0 <= k < i ==> (#[trigger] node_witnesses@[k]).same_as(nodes@[k]),
    {
        let full: &MhotNodeFullWitness = &nodes[i];
        assert(nodes@[i as int].valid());
        let node = full.merkle_node();
        let np = prove_node_merkle(
            &node,
            &plans[i],
            vstd::slice::slice_to_vec(parts[i].proof.as_slice()),
            parts[i].commitment,
        );
        let root = words_digest(&np.native_root);
        let (_, hash) = content_hash_to_sha256_chain(
            &full.extraction_masks,
            full.sparse_keys.as_slice(),
            &root,
            full.counts.as_slice(),
        );
        assert(states_node(np, nodes@[i as int].node()));
        node_proofs.push(np);
        content_hashes.push(hash);
        native_merkle_roots.push(root);
        node_witnesses.push(full.copied());
    }
    MhotPathProof { node_proofs, content_hashes, native_merkle_roots, node_witnesses }
}

/// Whether a proof states content, a tree root and a hash for node `i`, and
/// the content can be hashed.
pub open spec fn states_content(proof: MhotPathProof, i: int) -> bool {
    &&& 0 <= i < proof.content_hashes@.len()
    &&& i < proof.native_merkle_roots@.len()
    &&& i < proof.node_witnesses@.len()
    &&& proof.node_witnesses@[i].hashable()
}

/// What node `i` of a path comes to, where the proof system accepts its hash
/// path.
pub open spec fn node_verdict(proof: MhotPathProof, path_idx: usize, i: int) -> Result<
    (),
    MembershipVerifyError,
> {
    if proof.node_witnesses@[i].content_hash(proof.native_merkle_roots@[i]@)
        != proof.content_hashes@[i]@ {
        Err(MembershipVerifyError::ContentHashMismatch { path_idx, node_idx: i as usize })
    } else if i > 0 && proof.content_hashes@[i]@ != proof.node_proofs@[i - 1].leaf@ {
        Err(
            MembershipVerifyError::CrossNodeMismatch {
                path_idx,
                parent_node_idx: (i - 1) as usize,
            },
        )
    } else {
        Ok(())
    }
}

/// What verifying a path from node `i` on comes to.
pub open spec fn path_verdict(
    proof: MhotPathProof,
    path_idx: usize,
    replies: Seq<Result<(), MerklePathVerifyError>>,
    i: int,
) -> Result<(), MembershipVerifyError>
    decreases replies.len() - i,
{
    if i >= replies.len() {
        Ok(())
    } else if replies[i] is Err {
        Err(
            MembershipVerifyError::MerklePath {
                path_idx,
                node_idx: i as usize,
                inner: replies[i]->Err_0,
            },
        )
    } else if node_verdict(proof, path_idx, i) is Err {
        node_verdict(proof, path_idx, i)
    } else {
        path_verdict(proof, path_idx, replies, i + 1)
    }
}

/// Whether a proof states the content of every node, from node `i` on, that is
/// looked at: those before the first that is rejected, and that one where the
/// proof system accepts it.
pub open spec fn path_readable(
    proof: MhotPathProof,
    path_idx: usize,
    replies: Seq<Result<(), MerklePathVerifyError>>,
    i: int,
) -> bool
    decreases replies.len() - i,
{
    if i >= replies.len() || replies[i] is Err {
        true
    } else {
        &&& states_content(proof, i)
        &&& node_verdict(proof, path_idx, i) is Err || path_readable(
            proof,
            path_idx,
            replies,
            i + 1,
        )
    }
}

/// Whether replies to the nodes of a path, asked in order, go as far as they
/// have to: to the last node, or to one that is rejected.
pub open spec fn replies_suffice(
    proof: MhotPathProof,
    path_idx: usize,
    replies: Seq<Result<(), MerklePathVerifyError>>,
) -> bool {
    &&& replies.len() <= proof.node_proofs@.len()
    &&& replies.len() == proof.node_proofs@.len() || path_verdict(proof, path_idx, replies, 0) is Err
}

/// Decides on the content of node `i`, whose hash path is accepted.
pub fn check_node(proof: &MhotPathProof, path_idx: usize, i: usize) -> (r: Result<
    (),
    MembershipVerifyError,
>)
    requires
        states_content(*proof, i as int),
        i <= proof.node_proofs@.len(),
    ensures
        r == node_verdict(*proof, path_idx, i as int),
{
    let w: &MhotNodeFullWitness = &proof.node_witnesses[i];
    let (_, recomputed) = content_hash_to_sha256_chain(
        &w.extraction_masks,
        w.sparse_keys.as_slice(),
        &proof.native_merkle_roots[i],
        w.counts.as_slice(),
    );
    if !same_words(&recomputed, &proof.content_hashes[i]) {
        return Err(MembershipVerifyError::ContentHashMismatch { path_idx, node_idx: i });
    }
    if i > 0 && !same_words(&proof.content_hashes[i], &proof.node_proofs[i - 1].leaf) {
        return Err(MembershipVerifyError::CrossNodeMismatch { path_idx, parent_node_idx: i - 1 });
    }
    Ok(())
}

fn verify_path_inner(
    proof: &MhotPathProof,
    path_idx: usize,
    replies: &[Result<(), MerklePathVerifyError>],
) -> (r: Result<(), MembershipVerifyError>)
    requires
        path_readable(*proof, path_idx, replies@, 0),
        replies@.len() <= proof.node_proofs@.len(),
    ensures
        r == path_verdict(*proof, path_idx, replies@, 0),
{
    for i in 0..replies.len()
        invariant
            path_readable(*proof, path_idx, replies@, i as int),
            replies@.len() <= proof.node_proofs@.len(),
            path_verdict(*proof, path_idx, replies@, 0) == path_verdict(
                *proof,
                path_idx,
                replies@,
                i as int,
            ),
    {
        match replies[i] {
            Err(inner) => {
                return Err(MembershipVerifyError::MerklePath { path_idx, node_idx: i, inner });
            },
            Ok(()) => {},
        }
        match check_node(proof, path_idx, i) {
            Err(e) => {
                return Err(e);
            },
            Ok(()) => {},
        }
    }
    Ok(())
}

/// Decides on the proof of a path, given what the proof system says of each
/// node, asked in order until one is rejected.
pub fn verify_path(
    proof: &MhotPathProof,
    replies: &[Result<(), MerklePathVerifyError>],
) -> (r: Result<(), MembershipVerifyError>)
    requires
        path_readable(*proof, 0, replies@, 0),
        replies_suffice(*proof, 0, replies@),
    ensures
        r == path_verdict(*proof, 0, replies@, 0),
{
    verify_path_inner(proof, 0, replies)
}

/// The plans of many paths.
pub fn plan_multipoint(paths: &[Vec<MhotNodeFullWitness>]) -> (plans: Vec<Vec<PaddedPath>>)
    requires
        paths@.len() > 0,
        forall|p: int| 0 <= p < paths@.len() ==> path_provable((#[trigger] paths@[p])@),
    ensures
        plans@.len() == paths@.len(),
        forall|p: int|
            0 <= p < paths@.len() ==> are_plans((#[trigger] plans@[p])@, paths@[p]@),
{
    let mut plans: Vec<Vec<PaddedPath>> = Vec::new();
    for p in 0..paths.len()
        invariant
            forall|q: int| 0 <= q < paths@.len() ==> path_provable((#[trigger] paths@[q])@),
            plans@.len() == p,
            forall|q: int| 0 <= q < p ==> are_plans((#[trigger] plans@[q])@, paths@[q]@),
    {
        plans.push(plan_path(paths[p].as_slice()));
    }
    plans
}

/// The proofs of many paths, given what the proof system makes of their plans.
pub fn prove_multipoint(
    paths: &[Vec<MhotNodeFullWitness>],
    plans: &[Vec<PaddedPath>],
    parts: &[Vec<ProvedPart>],
) -> (proof: MhotMultipointProof)
    requires
        paths@.len() > 0,
        forall|p: int| 0 <= p < paths@.len() ==> path_provable((#[trigger] paths@[p])@),
        plans@.len() == paths@.len(),
        parts@.len() == paths@.len(),
        forall|p: int|
            0 <= p < paths@.len() ==> are_plans((#[trigger] plans@[p])@, paths@[p]@),
        forall|p: int|
            0 <= p < paths@.len() ==> (#[trigger] parts@[p])@.len() == paths@[p]@.len(),
    ensures
        proof.path_proofs@.len() == paths@.len(),
        forall|p: int|
            0 <= p < paths@.len() ==> states_path(#[trigger] proof.path_proofs@[p], paths@[p]@),
        forall|p: int, i: int|
            0 <= p < paths@.len() && 0 <= i < paths@[p]@.len() ==> (
            #[trigger] proof.path_proofs@[p].node_proofs@[i]).proof@ == parts@[p]@[i].proof@
                && proof.path_proofs@[p].node_proofs@[i].commitment == parts@[p]@[i].commitment,
{
    let mut path_proofs: Vec<MhotPathProof> = Vec::new();
    for p in 0..paths.len()
        invariant
            forall|q: int| 0 <= q < paths@.len() ==> path_provable((#[trigger] paths@[q])@),
            plans@.len() == paths@.len(),
            parts@.len() == paths@.len(),
            forall|q: int|
                0 <= q < paths@.len() ==> are_plans((#[trigger] plans@[q])@, paths@[q]@),
            forall|q: int|
                0 <= q < paths@.len() ==> (#[trigger] parts@[q])@.len() == paths@[q]@.len(),
            path_proofs@.len() == p,
            forall|q: int| 0 <= q < p ==> states_path(#[trigger] path_proofs@[q], paths@[q]@),
            forall|q: int, i: int|
                0 <= q < p && 0 <= i < paths@[q]@.len() ==> (
                #[trigger] path_proofs@[q].node_proofs@[i]).proof@ == parts@[q]@[i].proof@
                    && path_proofs@[q].node_proofs@[i].commitment == parts@[q]@[i].commitment,
    {
        assert(are_plans(plans@[p as int]@, paths@[p as int]@));
        assert(parts@[p as int]@.len() == paths@[p as int]@.len());
        path_proofs.push(prove_path(paths[p].as_slice(), plans[p].as_slice(), parts[p].as_slice()));
    }
    MhotMultipointProof { path_proofs }
}

/// What verifying many paths from path `p` on comes to.
pub open spec fn multipoint_verdict(
    proof: MhotMultipointProof,
    replies: Seq<Vec<Result<(), MerklePathVerifyError>>>,
    p: int,
) -> Result<(), MembershipVerifyError>
    decreases replies.len() - p,
{
    if p >= replies.len() {
        Ok(())
    } else {
        let v = path_verdict(proof.path_proofs@[p], p as usize, replies[p]@, 0);
        if v is Err {
            v
        } else {
            multipoint_verdict(proof, replies, p + 1)
        }
    }
}

/// Whether the proofs from path `p` on state the content of every node that is
/// looked at.
pub open spec fn multipoint_readable(
    proof: MhotMultipointProof,
    replies: Seq<Vec<Result<(), MerklePathVerifyError>>>,
    p: int,
) -> bool
    decreases replies.len() - p,
{
    if p >= replies.len() {
        true
    } else {
        &&& path_readable(proof.path_proofs@[p], p as usize, replies[p]@, 0)
        &&& path_verdict(proof.path_proofs@[p], p as usize, replies[p]@, 0) is Err
            || multipoint_readable(proof, replies, p + 1)
    }
}

/// Decides on the proofs of many paths, given what the proof system says of
/// each node, asked path by path and in order until one is rejected.
pub fn verify_multipoint(
    proof: &MhotMultipointProof,
    replies: &[Vec<Result<(), MerklePathVerifyError>>],
) -> (r: Result<(), MembershipVerifyError>)
    requires
        multipoint_readable(*proof, replies@, 0),
        replies@.len() <= proof.path_proofs@.len(),
        replies@.len() == proof.path_proofs@.len() || multipoint_verdict(*proof, replies@, 0) is Err,
        forall|p: int|
            0 <= p < replies@.len() ==> replies_suffice(
                proof.path_proofs@[p],
                p as usize,
                (#[trigger] replies@[p])@,
            ),
    ensures
        r == multipoint_verdict(*proof, replies@, 0),
{
    for p in 0..replies.len()
        invariant
            multipoint_readable(*proof, replies@, p as int),
            replies@.len() <= proof.path_proofs@.len(),
            forall|q: int|
                0 <= q < replies@.len() ==> replies_suffice(
                    proof.path_proofs@[q],
                    q as usize,
                    (#[trigger] replies@[q])@,
                ),
            multipoint_verdict(*proof, replies@, 0) == multipoint_verdict(
                *proof,
                replies@,
                p as int,
            ),
    {
        assert(replies_suffice(proof.path_proofs@[p as int], p, replies@[p as int]@));
        match verify_path_inner(&proof.path_proofs[p], p, replies[p].as_slice()) {
            Err(e) => {
                return Err(e);
            },
            Ok(()) => {},
        }
    }
    Ok(())
}

proof fn lemma_path_passes(
    proof: MhotPathProof,
    path_idx: usize,
    nodes: Seq<MhotNodeFullWitness>,
    replies: Seq<Result<(), MerklePathVerifyError>>,
    i: int,
)
    requires
        path_provable(nodes),
        states_path(proof, nodes),
        replies.len() == nodes.len(),
        forall|k: int| 0 <= k < replies.len() ==> #[trigger] replies[k] is Ok,
        0 <= i,
    ensures
        path_readable(proof, path_idx, replies, i),
        path_verdict(proof, path_idx, replies, i) is Ok,
    decreases replies.len() - i,
{
    if i < replies.len() {
        assert(replies[i] is Ok);
        assert(nodes[i].valid());
        assert(proof.node_witnesses@[i].same_as(nodes[i]));
        assert(proof.native_merkle_roots@[i]@ == words_be(tree_root(nodes[i].children@)));
        assert(proof.content_hashes@[i]@ == nodes[i].own_hash());
        if i > 0 {
            assert(states_node(proof.node_proofs@[i - 1], nodes[i - 1].node()));
            assert(nodes[i].own_hash() == tree_leaf(
                nodes[i - 1].children@,
                nodes[i - 1].selected_child as int,
            ));
        }
        lemma_path_passes(proof, path_idx, nodes, replies, i + 1);
    }
}

/// The proof of a provable path states the content of each node and verifies,
/// wherever the proof system accepts every node.
pub proof fn law_provable_path_verifies(
    proof: MhotPathProof,
    nodes: Seq<MhotNodeFullWitness>,
    replies: Seq<Result<(), MerklePathVerifyError>>,
)
    requires
        path_provable(nodes),
        states_path(proof, nodes),
        replies.len() == nodes.len(),
        forall|k: int| 0 <= k < replies.len() ==> #[trigger] replies[k] is Ok,
    ensures
        path_readable(proof, 0, replies, 0),
        path_verdict(proof, 0, replies, 0) is Ok,
{
    lemma_path_passes(proof, 0, nodes, replies, 0);
}

proof fn lemma_path_verdict(
    proof: MhotPathProof,
    path_idx: usize,
    replies: Seq<Result<(), MerklePathVerifyError>>,
    from: int,
    i: int,
)
    requires
        0 <= from <= i < replies.len(),
        path_verdict(proof, path_idx, replies, from) is Ok,
    ensures
        replies[i] is Ok,
        node_verdict(proof, path_idx, i) is Ok,
    decreases i - from,
{
    if from < i {
        lemma_path_verdict(proof, path_idx, replies, from + 1, i);
    }
}

/// A path that verifies has, in every node, the content hash that it states,
/// and every node but the first is what its parent selects.
pub proof fn law_verified_path_is_linked(
    proof: MhotPathProof,
    path_idx: usize,
    replies: Seq<Result<(), MerklePathVerifyError>>,
    i: int,
)
    requires
        replies_suffice(proof, path_idx, replies),
        path_verdict(proof, path_idx, replies, 0) is Ok,
        0 <= i < proof.node_proofs@.len(),
    ensures
        replies[i] is Ok,
        proof.node_witnesses@[i].content_hash(proof.native_merkle_roots@[i]@)
            == proof.content_hashes@[i]@,
        i > 0 ==> proof.content_hashes@[i]@ == proof.node_proofs@[i - 1].leaf@,
{
    lemma_path_verdict(proof, path_idx, replies, 0, i);
}

proof fn lemma_multipoint_verdict(
    proof: MhotMultipointProof,
    replies: Seq<Vec<Result<(), MerklePathVerifyError>>>,
    from: int,
)
    requires
        0 <= from,
    ensures
        multipoint_verdict(proof, replies, from) is Ok <==> forall|p: int|
            from <= p < replies.len() ==> path_verdict(
                proof.path_proofs@[p],
                p as usize,
                (#[trigger] replies[p])@,
                0,
            ) is Ok,
    decreases replies.len() - from,
{
    if from < replies.len() {
        lemma_multipoint_verdict(proof, replies, from + 1);
        let _ = replies[from];
    }
}

/// Many paths verify exactly when each of them does.
pub proof fn law_paths_verify_each(
    proof: MhotMultipointProof,
    replies: Seq<Vec<Result<(), MerklePathVerifyError>>>,
)
    ensures
        multipoint_verdict(proof, replies, 0) is Ok <==> forall|p: int|
            0 <= p < replies.len() ==> path_verdict(
                proof.path_proofs@[p],
                p as usize,
                (#[trigger] replies[p])@,
                0,
            ) is Ok,
{
    lemma_multipoint_verdict(proof, replies, 0);
}

proof fn lemma_paths_readable(
    proof: MhotMultipointProof,
    replies: Seq<Vec<Result<(), MerklePathVerifyError>>>,
    from: int,
)
    requires
        0 <= from,
        forall|p: int|
            0 <= p < replies.len() ==> path_readable(
                proof.path_proofs@[p],
                p as usize,
                (#[trigger] replies[p])@,
                0,
            ),
    ensures
        multipoint_readable(proof, replies, from),
    decreases replies.len() - from,
{
    if from < replies.len() {
        lemma_paths_readable(proof, replies, from + 1);
        let _ = replies[from];
    }
}

/// The proofs of provable paths state the content of each node and verify,
/// wherever the proof system accepts every node.
pub proof fn law_provable_paths_verify(
    proof: MhotMultipointProof,
    paths: Seq<Vec<MhotNodeFullWitness>>,
    replies: Seq<Vec<Result<(), MerklePathVerifyError>>>,
)
    requires
        proof.path_proofs@.len() == paths.len(),
        replies.len() == paths.len(),
        forall|p: int|
            #![trigger replies[p]]
            0 <= p < paths.len() ==> {
                &&& path_provable(paths[p]@)
                &&& states_path(proof.path_proofs@[p], paths[p]@)
                &&& replies[p]@.len() == paths[p]@.len()
            },
        forall|p: int, k: int|
            0 <= p < replies.len() && 0 <= k < replies[p]@.len() ==> #[trigger] replies[p]@[k] is Ok,
    ensures
        multipoint_readable(proof, replies, 0),
        multipoint_verdict(proof, replies, 0) is Ok,
{
    assert forall|p: int| 0 <= p < replies.len() implies path_readable(
        proof.path_proofs@[p],
        p as usize,
        (#[trigger] replies[p])@,
        0,
    ) && path_verdict(proof.path_proofs@[p], p as usize, replies[p]@, 0) is Ok by {
        lemma_path_passes(proof.path_proofs@[p], p as usize, paths[p]@, replies[p]@, 0);
    }
    lemma_paths_readable(proof, replies, 0);
    law_paths_verify_each(proof, replies);
}

/// Whether two proofs of a path are alike but for what they state of the
/// content, the tree root and the hash of node `k`.
pub open spec fn alike_but_at(a: MhotPathProof, b: MhotPathProof, k: int) -> bool {
    &&& a.node_proofs@ == b.node_proofs@
    &&& forall|i: int|
        #![trigger a.content_hashes@[i]]
        #![trigger b.content_hashes@[i]]
        0 <= i < a.node_proofs@.len() && i != k ==> a.content_hashes@[i]@
            == b.content_hashes@[i]@
    &&& forall|i: int|
        #![trigger a.native_merkle_roots@[i]]
        #![trigger b.native_merkle_roots@[i]]
        0 <= i < a.node_proofs@.len() && i != k ==> a.native_merkle_roots@[i]@
            == b.native_merkle_roots@[i]@
    &&& forall|i: int|
        #![trigger a.node_witnesses@[i]]
        #![trigger b.node_witnesses@[i]]
        0 <= i < a.node_proofs@.len() && i != k ==> a.node_witnesses@[i].meta()
            == b.node_witnesses@[i].meta()
}

/// What the content hash of node `k` of a proof is taken of.
pub open spec fn stated_message(proof: MhotPathProof, k: int) -> Seq<u8> {
    proof.node_witnesses@[k].meta().preimage(proof.native_merkle_roots@[k]@)
}

/// Whether two proofs state other content, or another tree root, of node `k`,
/// and SHA-256 tells the two apart.
pub open spec fn content_changed(a: MhotPathProof, b: MhotPathProof, k: int) -> bool {
    &&& states_content(a, k)
    &&& states_content(b, k)
    &&& a.node_witnesses@[k].meta() != b.node_witnesses@[k].meta()
        || a.native_merkle_roots@[k]@ != b.native_merkle_roots@[k]@
    &&& messages_apart(stated_message(a, k), stated_message(b, k))
}

/// Alike proofs come to the same up to the node in which they differ.
proof fn lemma_alike_until(
    proof: MhotPathProof,
    changed: MhotPathProof,
    path_idx: usize,
    replies: Seq<Result<(), MerklePathVerifyError>>,
    from: int,
    k: int,
)
    requires
        0 <= from <= k < replies.len() <= proof.node_proofs@.len(),
        path_verdict(proof, path_idx, replies, from) is Ok,
        alike_but_at(proof, changed, k),
    ensures
        replies[k] is Ok,
        path_verdict(changed, path_idx, replies, from) == path_verdict(
            changed,
            path_idx,
            replies,
            k,
        ),
    decreases k - from,
{
    if from < k {
        assert(proof.content_hashes@[from]@ == changed.content_hashes@[from]@);
        assert(proof.native_merkle_roots@[from]@ == changed.native_merkle_roots@[from]@);
        assert(proof.node_witnesses@[from].meta() == changed.node_witnesses@[from].meta());
        assert(node_verdict(proof, path_idx, from) is Ok);
        lemma_alike_until(proof, changed, path_idx, replies, from + 1, k);
    }
}

proof fn lemma_changed_hash(proof: MhotPathProof, changed: MhotPathProof, k: int)
    requires
        content_changed(proof, changed, k),
    ensures
        proof.node_witnesses@[k].content_hash(proof.native_merkle_roots@[k]@)
            != changed.node_witnesses@[k].content_hash(changed.native_merkle_roots@[k]@),
{
    let (a, b) = (proof.node_witnesses@[k], changed.node_witnesses@[k]);
    let (ra, rb) = (proof.native_merkle_roots@[k]@, changed.native_merkle_roots@[k]@);
    if a.content_hash(ra) == b.content_hash(rb) {
        lemma_preimage_binds(a.meta(), ra, b.meta(), rb);
    }
}

/// A path that verifies is refused once the content of one of its nodes, or
/// the tree root that goes with it, is changed and nothing else.
pub proof fn law_changed_content_is_refused(
    proof: MhotPathProof,
    changed: MhotPathProof,
    path_idx: usize,
    replies: Seq<Result<(), MerklePathVerifyError>>,
    k: usize,
)
    requires
        replies_suffice(proof, path_idx, replies),
        path_verdict(proof, path_idx, replies, 0) is Ok,
        k < proof.node_proofs@.len(),
        alike_but_at(proof, changed, k as int),
        content_changed(proof, changed, k as int),
        changed.content_hashes@[k as int]@ == proof.content_hashes@[k as int]@,
    ensures
        path_verdict(changed, path_idx, replies, 0) == Err::<(), MembershipVerifyError>(
            MembershipVerifyError::ContentHashMismatch { path_idx, node_idx: k },
        ),
{
    lemma_path_verdict(proof, path_idx, replies, 0, k as int);
    lemma_alike_until(proof, changed, path_idx, replies, 0, k as int);
    lemma_changed_hash(proof, changed, k as int);
}

/// A path that verifies is refused once the content of a node below the first,
/// or the tree root that goes with it, is changed and the stated hash with it:
/// the node is no longer what its parent selects.
pub proof fn law_rehashed_content_is_refused(
    proof: MhotPathProof,
    changed: MhotPathProof,
    path_idx: usize,
    replies: Seq<Result<(), MerklePathVerifyError>>,
    k: usize,
)
    requires
        replies_suffice(proof, path_idx, replies),
        path_verdict(proof, path_idx, replies, 0) is Ok,
        0 < k < proof.node_proofs@.len(),
        alike_but_at(proof, changed, k as int),
        content_changed(proof, changed, k as int),
        changed.content_hashes@[k as int]@ == changed.node_witnesses@[k as int].content_hash(
            changed.native_merkle_roots@[k as int]@,
        ),
    ensures
        path_verdict(changed, path_idx, replies, 0) == Err::<(), MembershipVerifyError>(
            MembershipVerifyError::CrossNodeMismatch { path_idx, parent_node_idx: (k - 1) as usize },
        ),
{
    lemma_path_verdict(proof, path_idx, replies, 0, k as int);
    lemma_alike_until(proof, changed, path_idx, replies, 0, k as int);
    lemma_changed_hash(proof, changed, k as int);
}

proof fn lemma_path_goes_on(
    proof: MhotPathProof,
    path_idx: usize,
    replies: Seq<Result<(), MerklePathVerifyError>>,
    from: int,
    i: int,
)
    requires
        0 <= from <= i <= replies.len(),
        forall|k: int|
            #![trigger replies[k]]
            0 <= k < i ==> ({
                &&& replies[k] is Ok
                &&& sha256_words(
                    content_preimage(
                        proof.node_witnesses@[k].extraction_masks@,
                        proof.node_witnesses@[k].sparse_keys@,
                        proof.native_merkle_roots@[k]@,
                        proof.node_witnesses@[k].counts@,
                    ),
                ) == proof.content_hashes@[k]@
                &&& k > 0 ==> proof.content_hashes@[k]@ == proof.node_proofs@[k - 1].leaf@
            }),
    ensures
        path_verdict(proof, path_idx, replies, from) == path_verdict(proof, path_idx, replies, i),
    decreases i - from,
{
    if from < i {
        let _ = replies[from];
        lemma_path_goes_on(proof, path_idx, replies, from + 1, i);
    }
}

/// A path is accepted exactly when every part is, every node states the digest
/// of its own masks, keys, tree root and counts, and every node below the first
/// states what the node above selects.
pub proof fn law_path_accepted_iff(
    proof: MhotPathProof,
    path_idx: usize,
    replies: Seq<Result<(), MerklePathVerifyError>>,
)
    requires
        replies.len() == proof.node_proofs@.len(),
    ensures
        path_verdict(proof, path_idx, replies, 0) is Ok <==> forall|k: int|
            #![trigger replies[k]]
            0 <= k < replies.len() ==> ({
                &&& replies[k] is Ok
                &&& sha256_words(
                    content_preimage(
                        proof.node_witnesses@[k].extraction_masks@,
                        proof.node_witnesses@[k].sparse_keys@,
                        proof.native_merkle_roots@[k]@,
                        proof.node_witnesses@[k].counts@,
                    ),
                ) == proof.content_hashes@[k]@
                &&& k > 0 ==> proof.content_hashes@[k]@ == proof.node_proofs@[k - 1].leaf@
            }),
{
    if path_verdict(proof, path_idx, replies, 0) is Ok {
        assert forall|k: int| #![trigger replies[k]] 0 <= k < replies.len() implies ({
                &&& replies[k] is Ok
                &&& sha256_words(
                    content_preimage(
                        proof.node_witnesses@[k].extraction_masks@,
                        proof.node_witnesses@[k].sparse_keys@,
                        proof.native_merkle_roots@[k]@,
                        proof.node_witnesses@[k].counts@,
                    ),
                ) == proof.content_hashes@[k]@
                &&& k > 0 ==> proof.content_hashes@[k]@ == proof.node_proofs@[k - 1].leaf@
            }) by {
            lemma_path_verdict(proof, path_idx, replies, 0, k);
        }
    }
    if forall|k: int|
        #![trigger replies[k]]
        0 <= k < replies.len() ==> ({
                &&& replies[k] is Ok
                &&& sha256_words(
                    content_preimage(
                        proof.node_witnesses@[k].extraction_masks@,
                        proof.node_witnesses@[k].sparse_keys@,
                        proof.native_merkle_roots@[k]@,
                        proof.node_witnesses@[k].counts@,
                    ),
                ) == proof.content_hashes@[k]@
                &&& k > 0 ==> proof.content_hashes@[k]@ == proof.node_proofs@[k - 1].leaf@
            }) {
        lemma_path_goes_on(proof, path_idx, replies, 0, replies.len() as int);
    }
}

/// Of a path that is not accepted, the first node that fails is named: by the
/// error of its part, else by a content hash that is not the digest of its
/// content, else by a content hash that its parent does not select.
pub proof fn law_path_refused_at(
    proof: MhotPathProof,
    path_idx: usize,
    replies: Seq<Result<(), MerklePathVerifyError>>,
    i: usize,
)
    requires
        i < replies.len(),
        forall|k: int|
            #![trigger replies[k]]
            0 <= k < i ==> ({
                &&& replies[k] is Ok
                &&& sha256_words(
                    content_preimage(
                        proof.node_witnesses@[k].extraction_masks@,
                        proof.node_witnesses@[k].sparse_keys@,
                        proof.native_merkle_roots@[k]@,
                        proof.node_witnesses@[k].counts@,
                    ),
                ) == proof.content_hashes@[k]@
                &&& k > 0 ==> proof.content_hashes@[k]@ == proof.node_proofs@[k - 1].leaf@
            }),
    ensures
        replies[i as int] matches Err(inner) ==> path_verdict(proof, path_idx, replies, 0) == Err::<
            (),
            MembershipVerifyError,
        >(MembershipVerifyError::MerklePath { path_idx, node_idx: i, inner }),
        replies[i as int] is Ok ==> {
            let matches_content = sha256_words(
                content_preimage(
                    proof.node_witnesses@[i as int].extraction_masks@,
                    proof.node_witnesses@[i as int].sparse_keys@,
                    proof.native_merkle_roots@[i as int]@,
                    proof.node_witnesses@[i as int].counts@,
                ),
            ) == proof.content_hashes@[i as int]@;
            &&& !matches_content ==> path_verdict(proof, path_idx, replies, 0) == Err::<
                (),
                MembershipVerifyError,
            >(MembershipVerifyError::ContentHashMismatch { path_idx, node_idx: i })
            &&& matches_content && i > 0 && proof.content_hashes@[i as int]@ != proof.node_proofs@[i
                - 1].leaf@ ==> path_verdict(proof, path_idx, replies, 0) == Err::<
                (),
                MembershipVerifyError,
            >(
                MembershipVerifyError::CrossNodeMismatch {
                    path_idx,
                    parent_node_idx: (i - 1) as usize,
                },
            )
        },
{
    lemma_path_goes_on(proof, path_idx, replies, 0, i as int);
}

/// Of many paths the first that is not accepted gives the verdict.
pub proof fn law_first_refused_path(
    proof: MhotMultipointProof,
    replies: Seq<Vec<Result<(), MerklePathVerifyError>>>,
    from: int,
    p: int,
)
    requires
        0 <= from <= p < replies.len(),
        forall|q: int|
            from <= q < p ==> path_verdict(
                proof.path_proofs@[q],
                q as usize,
                (#[trigger] replies[q])@,
                0,
            ) is Ok,
        path_verdict(proof.path_proofs@[p], p as usize, replies[p]@, 0) is Err,
    ensures
        multipoint_verdict(proof, replies, from) == path_verdict(
            proof.path_proofs@[p],
            p as usize,
            replies[p]@,
            0,
        ),
    decreases p - from,
{
    if from < p {
        let _ = replies[from];
        law_first_refused_path(proof, replies, from + 1, p);
    }
}

/// The content hash of a node covers its masks, keys, counts and the root of
/// its tree of children.
pub proof fn law_own_hash_message(w: MhotNodeFullWitness)
    ensures
        w.own_hash() == sha256_words(
            content_preimage(
                w.extraction_masks@,
                w.sparse_keys@,
                words_be(tree_root(w.children@)),
                w.counts@,
            ),
        ),
        w.node().children@ == w.children@,
        w.node().selected_child == w.selected_child,
{
}

/// The plans of a path: for each node the padded path to the child that it
/// selects, the leaf level in the order of the witness.
pub proof fn law_plans_of_nodes(plans: Seq<PaddedPath>, nodes: Seq<MhotNodeFullWitness>, i: int)
    requires
        are_plans(plans, nodes),
        0 <= i < nodes.len(),
    ensures
        plans.len() == nodes.len(),
        is_padded_path(plans[i], nodes[i].children@, nodes[i].selected_child as nat, false),
{
}

/// What the proof of a path states of node `i`: the digest of its content, the
/// root of its tree, byte by byte, and the node itself.
pub proof fn law_path_proof_states(
    proof: MhotPathProof,
    nodes: Seq<MhotNodeFullWitness>,
    i: int,
)
    requires
        states_path(proof, nodes),
        0 <= i < nodes.len(),
    ensures
        proof.node_proofs@.len() == nodes.len(),
        proof.content_hashes@.len() == nodes.len(),
        proof.native_merkle_roots@.len() == nodes.len(),
        proof.node_witnesses@.len() == nodes.len(),
        proof.native_merkle_roots@[i]@ == words_be(tree_root(nodes[i].children@)),
        proof.content_hashes@[i]@ == sha256_words(
            content_preimage(
                nodes[i].extraction_masks@,
                nodes[i].sparse_keys@,
                words_be(tree_root(nodes[i].children@)),
                nodes[i].counts@,
            ),
        ),
        states_node(proof.node_proofs@[i], nodes[i].node()),
        proof.node_witnesses@[i].children@ == nodes[i].children@,
        proof.node_witnesses@[i].selected_child == nodes[i].selected_child,
        proof.node_witnesses@[i].extraction_masks@ == nodes[i].extraction_masks@,
        proof.node_witnesses@[i].sparse_keys@ == nodes[i].sparse_keys@,
        proof.node_witnesses@[i].counts@ == nodes[i].counts@,
{
    let _ = (
        proof.node_proofs@[i],
        proof.content_hashes@[i],
        proof.native_merkle_roots@[i],
        proof.node_witnesses@[i],
    );
    law_own_hash_message(nodes[i]);
}

} // verus!
