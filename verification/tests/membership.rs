use flock_mhot::backend::{
    ChainVerifyError, Commitment, MerklePathVerifyError, OpenedCore, R1csClaim, Relation, TranscriptOp,
    VerifyError, ZClaim,
};
use flock_mhot::membership::{
    check_node, plan_multipoint, plan_path, prove_multipoint, prove_path, verify_multipoint,
    verify_path, MembershipVerifyError, MhotMultipointProof, MhotNodeFullWitness, MhotPathProof,
};
use flock_mhot::membership_proof::{
    chain_question, check_content_chain, fork_content_challenger, leaf_output_claims,
    plan_membership, prove_membership, route_output_claims, route_question, verify_membership, MembershipReplies,
    MhotMembershipInput, MhotMembershipProof,
};
use flock_mhot::merkle_membership::{
    compute_content_hash, leaf_words_to_digest_bytes, node_path_statement, node_question, plan_node_merkle, plan_path_merkle,
    prove_node_merkle, prove_path_merkle, verify_node_merkle, verify_path_merkle,
    MhotMembershipError, NodeMerkleProof, ProvedPart,
};
use flock_mhot::mhot_to_sha256::content_hash_to_sha256_chain;
use flock_mhot::native_witness::{mhot_node_to_sha256_merkle, MhotNodeWitness};
use flock_mhot::r1cs::F128;
use flock_mhot::route_f32_setup::RouteF32Setup;
use flock_mhot::sha256::{sha256_compress, Compression, SHA256_IV};
use sha2::{Digest, Sha256};
use std::collections::HashMap;

// The proof system itself is no part of the library. The tests run it in the
// clear: a proof shows its witness, the commitment is the digest of what is
// shown, and each later part is the digest of the transcript so far. Whoever
// changes a part, or the transcript, is told so; and the verifier checks the
// relation on the witness that it is shown.

#[derive(Clone)]
struct Transcript {
    seen: Sha256,
}

fn digest(bytes: &[u8]) -> [u8; 32] {
    Sha256::digest(bytes).into()
}

impl Transcript {
    fn new(label: &str) -> Self {
        let mut t = Transcript { seen: Sha256::new() };
        t.absorb(label.as_bytes());
        t
    }

    fn absorb(&mut self, bytes: &[u8]) {
        self.seen.update((bytes.len() as u64).to_le_bytes());
        self.seen.update(bytes);
    }

    fn challenge(&self) -> [u8; 32] {
        self.seen.clone().finalize().into()
    }
}

fn claim_at(point: [u8; 32]) -> R1csClaim {
    let word = |i: usize| u64::from_le_bytes(point[8 * i..8 * i + 8].try_into().unwrap());
    let z = ZClaim {
        z_skip: F128 { lo: word(0), hi: word(1) },
        x_outer: vec![F128 { lo: word(2), hi: word(3) }],
        value: F128 { lo: word(3), hi: word(0) },
    };
    R1csClaim { ab: z.clone(), c: z }
}

struct Core {
    shown: Vec<u8>,
    mark: Vec<u8>,
    commitment: Commitment,
    claim: R1csClaim,
}

fn prove_core(shown: Vec<u8>, t: &mut Transcript) -> Core {
    let commitment = Commitment { root: digest(&shown) };
    t.absorb(&commitment.root);
    let mark = t.challenge();
    Core { shown, mark: mark.to_vec(), commitment, claim: claim_at(mark) }
}

fn verify_core(
    shown: &[u8],
    mark: &[u8],
    commitment: &Commitment,
    t: &mut Transcript,
    holds: bool,
) -> Result<R1csClaim, VerifyError> {
    t.absorb(&commitment.root);
    let c = t.challenge();
    if holds && digest(shown) == commitment.root && mark == &c[..] {
        Ok(claim_at(c))
    } else {
        Err(VerifyError::Core)
    }
}

// What a proof shows: the distinct items, and for each place the item in it.
fn show(items: &[Vec<u8>]) -> Vec<u8> {
    let mut order: HashMap<&Vec<u8>, u32> = HashMap::new();
    let mut distinct: Vec<&Vec<u8>> = Vec::new();
    let mut places: Vec<u32> = Vec::new();
    for item in items {
        let next = distinct.len() as u32;
        let at = *order.entry(item).or_insert(next);
        if at == next {
            distinct.push(item);
        }
        places.push(at);
    }
    encode(&distinct, &places)
}

fn encode(distinct: &[&Vec<u8>], places: &[u32]) -> Vec<u8> {
    let mut out = (distinct.len() as u32).to_le_bytes().to_vec();
    for item in distinct {
        out.extend_from_slice(&(item.len() as u32).to_le_bytes());
        out.extend_from_slice(item);
    }
    for at in places {
        out.extend_from_slice(&at.to_le_bytes());
    }
    out
}

fn read_u32(bytes: &[u8], at: usize) -> Option<usize> {
    Some(u32::from_le_bytes(bytes.get(at..at + 4)?.try_into().ok()?) as usize)
}

fn read_shown(bytes: &[u8]) -> Option<(Vec<Vec<u8>>, Vec<usize>)> {
    let n = read_u32(bytes, 0)?;
    let mut at = 4;
    let mut distinct = Vec::new();
    for _ in 0..n {
        let len = read_u32(bytes, at)?;
        distinct.push(bytes.get(at + 4..at + 4 + len)?.to_vec());
        at += 4 + len;
    }
    let mut places = Vec::new();
    while at < bytes.len() {
        let p = read_u32(bytes, at)?;
        if p >= n {
            return None;
        }
        places.push(p);
        at += 4;
    }
    Some((distinct, places))
}

// A chain of compressions, shown block by block.
fn show_blocks(comps: &[Compression]) -> Vec<u8> {
    show(
        &comps
            .iter()
            .map(|(iv, m)| iv.iter().chain(m.iter()).flat_map(|w| w.to_le_bytes()).collect())
            .collect::<Vec<Vec<u8>>>(),
    )
}

fn read_blocks(shown: &[u8]) -> Option<Vec<Compression>> {
    let (distinct, places) = read_shown(shown)?;
    if distinct.iter().any(|b| b.len() != 96) {
        return None;
    }
    let word = |b: &[u8], i: usize| u32::from_le_bytes(b[4 * i..4 * i + 4].try_into().unwrap());
    Some(
        places
            .iter()
            .map(|&p| {
                let b = &distinct[p];
                (std::array::from_fn(|i| word(b, i)), std::array::from_fn(|i| word(b, 8 + i)))
            })
            .collect(),
    )
}

// Whether the blocks lead from a leaf to a root, each taking in what the one
// before it puts out on the side that its bit says.
fn leads_to(blocks: &[Compression], leaf: &[u32; 8], sides: &[bool], root: &[u32; 8]) -> bool {
    let mut current = *leaf;
    for (k, (iv, m)) in blocks.iter().enumerate() {
        let half = if sides[k] { &m[8..] } else { &m[..8] };
        if *iv != SHA256_IV || half != &current[..] {
            return false;
        }
        current = sha256_compress(iv, m);
    }
    current == *root
}

fn prove_blocks(comps: &[Compression], t: &mut Transcript) -> ProvedPart {
    let core = prove_core(show_blocks(comps), t);
    let mut proof = core.mark;
    proof.extend_from_slice(&core.shown);
    ProvedPart { proof, commitment: core.commitment }
}

fn ask_node(proof: &NodeMerkleProof, t: &mut Transcript) -> Result<(), MerklePathVerifyError> {
    let q = node_question(proof);
    let st = q.statement;
    let (mark, shown) = q.proof.split_at(32);
    let blocks = read_blocks(shown);
    let holds = blocks.as_ref().map_or(false, |b| b.len() == st.n_blocks);
    if verify_core(shown, mark, &q.commitment, t, holds).is_err() {
        return Err(MerklePathVerifyError::Core);
    }
    if leads_to(&blocks.unwrap(), &st.leaf, &st.b_bits, &st.root) {
        Ok(())
    } else {
        Err(MerklePathVerifyError::Shift)
    }
}

fn prove_node(node: &MhotNodeWitness, t: &mut Transcript) -> NodeMerkleProof {
    let plan = plan_node_merkle(node);
    let part = prove_blocks(&plan.compressions, t);
    prove_node_merkle(node, &plan, part.proof, part.commitment)
}

fn verify_node(proof: &NodeMerkleProof, t: &mut Transcript) -> Result<(), MerklePathVerifyError> {
    verify_node_merkle(proof, ask_node(proof, t))
}

fn prove_nodes(nodes: &[MhotNodeWitness], t: &mut Transcript) -> Vec<NodeMerkleProof> {
    let plans = plan_path_merkle(nodes);
    let parts: Vec<ProvedPart> = plans.iter().map(|p| prove_blocks(&p.compressions, t)).collect();
    prove_path_merkle(nodes, &plans, &parts)
}

fn verify_nodes(
    proofs: &[NodeMerkleProof],
    t: &mut Transcript,
) -> Result<(), MhotMembershipError> {
    let mut replies = Vec::new();
    for p in proofs {
        replies.push(ask_node(p, t));
        if replies.last().unwrap().is_err() {
            break;
        }
    }
    verify_path_merkle(proofs, &replies)
}

fn prove_full_path(nodes: &[MhotNodeFullWitness], t: &mut Transcript) -> MhotPathProof {
    let plans = plan_path(nodes);
    let parts: Vec<ProvedPart> = plans.iter().map(|p| prove_blocks(&p.compressions, t)).collect();
    prove_path(nodes, &plans, &parts)
}

fn ask_full_path(
    proof: &MhotPathProof,
    t: &mut Transcript,
) -> Vec<Result<(), MerklePathVerifyError>> {
    proof.node_proofs.iter().map(|p| ask_node(p, t)).collect()
}

fn verify_full_path(
    proof: &MhotPathProof,
    t: &mut Transcript,
) -> Result<(), MembershipVerifyError> {
    verify_path(proof, &ask_full_path(proof, t))
}

fn prove_many(paths: &[Vec<MhotNodeFullWitness>], t: &mut Transcript) -> MhotMultipointProof {
    let plans = plan_multipoint(paths);
    let parts: Vec<Vec<ProvedPart>> = plans
        .iter()
        .map(|plan| plan.iter().map(|p| prove_blocks(&p.compressions, t)).collect())
        .collect();
    prove_multipoint(paths, &plans, &parts)
}

fn verify_many(
    proof: &MhotMultipointProof,
    t: &mut Transcript,
) -> Result<(), MembershipVerifyError> {
    let replies: Vec<Vec<Result<(), MerklePathVerifyError>>> =
        proof.path_proofs.iter().map(|p| ask_full_path(p, t)).collect();
    verify_multipoint(proof, &replies)
}

fn make_random_children(n: usize, seed: u64) -> Vec<[u8; 32]> {
    let mut s = seed;
    (0..n)
        .map(|_| {
            let mut h = [0u8; 32];
            for b in h.iter_mut() {
                s ^= s << 13;
                s ^= s >> 7;
                s ^= s << 17;
                *b = s as u8;
            }
            h
        })
        .collect()
}

#[test]
fn single_node_fanout8_roundtrip() {
    let node = MhotNodeWitness {
        children: make_random_children(8, 0xABCD_1234),
        selected_child: 5,
    };
    let mut ch = Transcript::new("mhot-node-merkle-1");
    let proof = prove_node(&node, &mut ch);

    let mut chv = Transcript::new("mhot-node-merkle-1");
    verify_node(&proof, &mut chv)
        .expect("single node roundtrip must verify");
}

#[test]
fn three_node_path_independent_verify() {
    let nodes = vec![
        MhotNodeWitness {
            children: make_random_children(8, 0x1111),
            selected_child: 2,
        },
        MhotNodeWitness {
            children: make_random_children(4, 0x2222),
            selected_child: 1,
        },
        MhotNodeWitness {
            children: make_random_children(16, 0x3333),
            selected_child: 9,
        },
    ];
    let mut ch = Transcript::new("mhot-path-merkle-3");
    let proofs = prove_nodes(&nodes, &mut ch);
    assert_eq!(proofs.len(), 3);

    let mut chv = Transcript::new("mhot-path-merkle-3");
    for p in &proofs {
        verify_node(p, &mut chv)
            .expect("each node must verify independently");
    }
}

#[test]
fn rejects_wrong_leaf() {
    let node = MhotNodeWitness {
        children: make_random_children(8, 0xBAD_CAFE),
        selected_child: 0,
    };
    let mut ch = Transcript::new("mhot-wrong-leaf");
    let mut proof = prove_node(&node, &mut ch);
    proof.leaf[0] ^= 1;

    let mut chv = Transcript::new("mhot-wrong-leaf");
    let res = verify_node(&proof, &mut chv);
    assert!(res.is_err(), "verifier must reject tampered leaf");
}

#[test]
fn rejects_wrong_root() {
    let node = MhotNodeWitness {
        children: make_random_children(8, 0xDEAD_F00D),
        selected_child: 3,
    };
    let mut ch = Transcript::new("mhot-wrong-root");
    let mut proof = prove_node(&node, &mut ch);
    proof.root[7] ^= 0xFFFF_FFFF;

    let mut chv = Transcript::new("mhot-wrong-root");
    let res = verify_node(&proof, &mut chv);
    assert!(res.is_err(), "verifier must reject tampered root");
}

fn make_node(fanout: usize, selected: usize) -> MhotNodeWitness {
    let children: Vec<[u8; 32]> = (0..fanout)
        .map(|i| {
            let mut h = [0u8; 32];
            h[0] = i as u8;
            h[1] = (fanout as u8).wrapping_mul(7);
            blake3::hash(&h).as_bytes().clone()
        })
        .collect();
    MhotNodeWitness { children, selected_child: selected }
}

#[test]
fn single_node_roundtrip() {
    let node = make_node(8, 3);
    let mut ch = Transcript::new("test");
    let proof = prove_node(&node, &mut ch);
    let mut ch2 = Transcript::new("test");
    verify_node(&proof, &mut ch2).expect("single node must verify");
}

#[test]
fn various_fanouts() {
    for fanout in [2, 3, 4, 8, 16, 22, 32] {
        for selected in [0, fanout / 2, fanout - 1] {
            let node = make_node(fanout, selected);
            let mut ch = Transcript::new("test-various");
            let proof = prove_node(&node, &mut ch);
            let mut ch2 = Transcript::new("test-various");
            verify_node(&proof, &mut ch2)
                .unwrap_or_else(|e| panic!("fanout={fanout} selected={selected}: {e:?}"));
        }
    }
}

#[test]
fn multi_node_independent_proves() {
    let nodes = vec![
        make_node(8, 2),
        make_node(4, 1),
        make_node(2, 0),
    ];
    let mut ch = Transcript::new("test-path");
    let proofs = prove_nodes(&nodes, &mut ch);
    assert_eq!(proofs.len(), 3);
    let mut ch2 = Transcript::new("test-path");
    for p in &proofs {
        verify_node(p, &mut ch2).expect("each node must verify independently");
    }
}

#[test]
fn multi_node_unlinked_fails_binding() {
    let nodes = vec![make_node(8, 2), make_node(4, 1)];
    let mut ch = Transcript::new("test-unlinked");
    let proofs = prove_nodes(&nodes, &mut ch);
    let mut ch2 = Transcript::new("test-unlinked");
    match verify_nodes(&proofs, &mut ch2) {
        Err(MhotMembershipError::CrossNodeBinding { .. }) => {}
        other => panic!("unlinked nodes should fail binding, got {other:?}"),
    }
}

#[test]
fn tampered_leaf_fails() {
    let node = make_node(8, 3);
    let mut ch = Transcript::new("test-tamper");
    let mut proof = prove_node(&node, &mut ch);
    proof.leaf[0] ^= 1;
    let mut ch2 = Transcript::new("test-tamper");
    verify_node(&proof, &mut ch2)
        .expect_err("tampered leaf must fail");
}

#[test]
fn tampered_root_fails() {
    let node = make_node(8, 3);
    let mut ch = Transcript::new("test-tamper-root");
    let mut proof = prove_node(&node, &mut ch);
    proof.root[0] ^= 1;
    let mut ch2 = Transcript::new("test-tamper-root");
    verify_node(&proof, &mut ch2)
        .expect_err("tampered root must fail");
}

#[test]
fn tampered_commitment_fails() {
    let node = make_node(8, 3);
    let mut ch = Transcript::new("test-tamper-commit");
    let mut proof = prove_node(&node, &mut ch);
    proof.commitment.root[0] ^= 0xFF;
    let mut ch2 = Transcript::new("test-tamper-commit");
    verify_node(&proof, &mut ch2)
        .expect_err("tampered commitment must fail");
}

// --- cross-node binding ---

fn padded_root_bytes(node: &MhotNodeWitness) -> [u8; 32] {
    words_to_bytes_helper(&plan_node_merkle(node).root)
}

fn words_to_bytes_helper(w: &[u32; 8]) -> [u8; 32] {
    let mut h = [0u8; 32];
    for i in 0..8 {
        h[4*i..4*i+4].copy_from_slice(&w[i].to_be_bytes());
    }
    h
}

fn build_linked_path(fanouts: &[usize]) -> Vec<MhotNodeWitness> {
    let depth = fanouts.len();
    let mut nodes_rev = Vec::with_capacity(depth);

    let leaf_children: Vec<[u8; 32]> = (0..fanouts[depth - 1])
        .map(|i| {
            let mut h = [0u8; 32];
            h[0] = i as u8;
            h[1] = 0xAA;
            h
        })
        .collect();
    let leaf_node = MhotNodeWitness {
        children: leaf_children,
        selected_child: 0,
    };
    let mut child_root = padded_root_bytes(&leaf_node);
    nodes_rev.push(leaf_node);

    for level in (0..depth - 1).rev() {
        let fanout = fanouts[level];
        let selected = 1.min(fanout - 1);
        let mut children: Vec<[u8; 32]> = (0..fanout)
            .map(|i| {
                let mut h = [0u8; 32];
                h[0] = (level * 31 + i * 17) as u8;
                h[1] = level as u8;
                h
            })
            .collect();
        children[selected] = child_root;
        let node = MhotNodeWitness {
            children: children,
            selected_child: selected,
        };
        child_root = padded_root_bytes(&node);
        nodes_rev.push(node);
    }
    nodes_rev.reverse();
    nodes_rev
}

#[test]
fn cross_node_binding_valid_path() {
    let nodes = build_linked_path(&[8, 4, 2]);
    let mut ch = Transcript::new("test-binding");
    let proofs = prove_nodes(&nodes, &mut ch);
    let mut ch2 = Transcript::new("test-binding");
    verify_nodes(&proofs, &mut ch2)
        .expect("linked path with matching digests must verify");
}

#[test]
fn cross_node_binding_mismatch_fails() {
    let mut nodes = build_linked_path(&[8, 4, 2]);
    nodes[1].children[0] = [0xFF; 32];
    let mut ch = Transcript::new("test-binding-bad");
    let proofs = prove_nodes(&nodes, &mut ch);
    let mut ch2 = Transcript::new("test-binding-bad");
    match verify_nodes(&proofs, &mut ch2) {
        Err(MhotMembershipError::CrossNodeBinding { .. }) => {}
        other => panic!("expected CrossNodeBinding error, got {other:?}"),
    }
}

fn make_random_hash(seed: &mut u64) -> [u8; 32] {
    let mut h = [0u8; 32];
    for b in h.iter_mut() {
        *seed ^= *seed << 13;
        *seed ^= *seed >> 7;
        *seed ^= *seed << 17;
        *b = *seed as u8;
    }
    h
}

fn make_random_masks(seed: &mut u64) -> [u64; 4] {
    let mut masks = [0u64; 4];
    for m in masks.iter_mut() {
        *seed ^= *seed << 13;
        *seed ^= *seed >> 7;
        *seed ^= *seed << 17;
        *m = *seed;
    }
    masks
}

fn make_random_u32_vec(n: usize, seed: &mut u64) -> Vec<u32> {
    (0..n)
        .map(|_| {
            *seed ^= *seed << 13;
            *seed ^= *seed >> 7;
            *seed ^= *seed << 17;
            *seed as u32
        })
        .collect()
}

/// Build a consistent multi-node path where node i+1's content hash
/// is placed as the selected child in node i's children array.
///
/// We build bottom-up: start from the deepest node (leaf), compute its
/// content hash, then place that hash in the parent's children array.
fn make_consistent_path(
    n_nodes: usize,
    fanouts: &[usize],
    seed: u64,
) -> Vec<MhotNodeFullWitness> {
    assert_eq!(fanouts.len(), n_nodes);
    let mut rng = seed;

    // Build nodes bottom-up
    let mut nodes: Vec<MhotNodeFullWitness> = Vec::with_capacity(n_nodes);

    // Start with the deepest (leaf-level) node
    for level in (0..n_nodes).rev() {
        let fanout = fanouts[level];
        let selected = if level < n_nodes - 1 {
            // parent: selected_child points to the child node
            (rng as usize) % fanout
        } else {
            // deepest node: arbitrary selection
            0
        };

        let mut children: Vec<[u8; 32]> = (0..fanout)
            .map(|_| make_random_hash(&mut rng))
            .collect();
        let masks = make_random_masks(&mut rng);
        let sparse_keys = make_random_u32_vec(fanout, &mut rng);
        let counts = make_random_u32_vec(fanout, &mut rng);

        // If this is a parent (not the deepest), the child we just built
        // needs its content hash placed in this node's children array.
        if level < n_nodes - 1 {
            let child_node = &nodes[0]; // the last node we built (child)
            // Compute the child's content hash using its native Merkle root
            let child_merkle_node = MhotNodeWitness {
                children: child_node.children.clone(),
                selected_child: child_node.selected_child,
            };
            let child_witness =
                mhot_node_to_sha256_merkle(&child_merkle_node, false);
            let child_native_root_bytes = leaf_words_to_digest_bytes(&child_witness.native_root);
            let (_, child_content_hash) = content_hash_to_sha256_chain(
                &child_node.extraction_masks,
                &child_node.sparse_keys,
                &child_native_root_bytes,
                &child_node.counts,
            );
            let child_content_bytes = leaf_words_to_digest_bytes(&child_content_hash);
            children[selected] = child_content_bytes;
        }

        nodes.insert(
            0,
            MhotNodeFullWitness {
                children,
                selected_child: selected,
                extraction_masks: masks,
                sparse_keys,
                counts,
            },
        );
    }

    nodes
}

#[test]
fn single_node_path_roundtrip() {
    let nodes = make_consistent_path(1, &[8], 0xAAAA_BBBB);
    let mut ch = Transcript::new("membership-single-1");
    let proof = prove_full_path(&nodes, &mut ch);
    assert_eq!(proof.node_proofs.len(), 1);
    assert_eq!(proof.content_hashes.len(), 1);

    let mut chv = Transcript::new("membership-single-1");
    verify_full_path(&proof, &mut chv).expect("single-node path must verify");
}

#[test]
fn three_node_path_roundtrip() {
    let nodes = make_consistent_path(3, &[8, 4, 16], 0x1234_5678);
    let mut ch = Transcript::new("membership-3node");
    let proof = prove_full_path(&nodes, &mut ch);
    assert_eq!(proof.node_proofs.len(), 3);

    let mut chv = Transcript::new("membership-3node");
    verify_full_path(&proof, &mut chv).expect("3-node path must verify");
}

#[test]
fn cross_node_binding_rejects_mismatch() {
    let nodes = make_consistent_path(3, &[8, 4, 16], 0xDEAD_BEEF);
    let mut ch = Transcript::new("membership-cross-reject");
    let mut proof = prove_full_path(&nodes, &mut ch);

    // Tamper node 1's witness so its recomputed content hash changes
    // (Level 2 still passes with this new hash), but it no longer
    // matches node 0's leaf (Level 3 fails).
    proof.node_witnesses[1].extraction_masks[0] ^= 1;
    let w = &proof.node_witnesses[1];
    let (_, new_hash) = content_hash_to_sha256_chain(
        &w.extraction_masks,
        &w.sparse_keys,
        &proof.native_merkle_roots[1],
        &w.counts,
    );
    proof.content_hashes[1] = new_hash;

    let mut chv = Transcript::new("membership-cross-reject");
    let err = verify_full_path(&proof, &mut chv);
    match err {
        Err(MembershipVerifyError::CrossNodeMismatch {
            path_idx: 0,
            parent_node_idx: 0,
        }) => {}
        other => panic!(
            "expected CrossNodeMismatch at parent_node_idx=0, got {:?}",
            other.err()
        ),
    }
}

#[test]
fn content_hash_tamper_rejects() {
    let nodes = make_consistent_path(2, &[4, 8], 0xCAFE_BABE);
    let mut ch = Transcript::new("membership-content-tamper");
    let proof = prove_full_path(&nodes, &mut ch);

    // Tamper: flip a bit in node 0's extraction_masks
    let mut tampered = proof;
    tampered.node_witnesses[0].extraction_masks[0] ^= 1;

    let mut chv = Transcript::new("membership-content-tamper");
    let err = verify_full_path(&tampered, &mut chv);
    match err {
        Err(MembershipVerifyError::ContentHashMismatch {
            path_idx: 0,
            node_idx: 0,
        }) => {}
        other => panic!(
            "expected ContentHashMismatch at node_idx=0, got {:?}",
            other.err()
        ),
    }
}

#[test]
fn multipoint_4_paths_roundtrip() {
    let paths: Vec<Vec<MhotNodeFullWitness>> = (0..4)
        .map(|i| {
            make_consistent_path(3, &[8, 4, 16], 0x1000_0000 + i)
        })
        .collect();

    let mut ch = Transcript::new("multipoint-4paths");
    let proof = prove_many(&paths, &mut ch);
    assert_eq!(proof.path_proofs.len(), 4);

    let mut chv = Transcript::new("multipoint-4paths");
    verify_many(&proof, &mut chv)
        .expect("4-path multipoint must verify");
}

#[test]
fn multipoint_cross_node_reject() {
    let paths: Vec<Vec<MhotNodeFullWitness>> = (0..2)
        .map(|i| {
            make_consistent_path(2, &[4, 8], 0x2000_0000 + i)
        })
        .collect();

    let mut ch = Transcript::new("multipoint-cross-reject");
    let mut proof = prove_many(&paths, &mut ch);

    // Tamper path 1, node 1's witness so recomputed content hash is
    // internally consistent but mismatches node 0's leaf.
    proof.path_proofs[1].node_witnesses[1].extraction_masks[0] ^= 1;
    let w = &proof.path_proofs[1].node_witnesses[1];
    let (_, new_hash) = content_hash_to_sha256_chain(
        &w.extraction_masks,
        &w.sparse_keys,
        &proof.path_proofs[1].native_merkle_roots[1],
        &w.counts,
    );
    proof.path_proofs[1].content_hashes[1] = new_hash;

    let mut chv = Transcript::new("multipoint-cross-reject");
    let err = verify_many(&proof, &mut chv);
    match err {
        Err(MembershipVerifyError::CrossNodeMismatch {
            path_idx: 1,
            parent_node_idx: 0,
        }) => {}
        other => panic!(
            "expected CrossNodeMismatch at path_idx=1, parent_node_idx=0, got {:?}",
            other.err()
        ),
    }
}

// --- refusals of a path ---

#[test]
fn refused_node_is_named() {
    let nodes = make_consistent_path(3, &[8, 4, 16], 0x77);
    let proof = prove_full_path(&nodes, &mut Transcript::new("refused"));
    let refused = Err(MerklePathVerifyError::Opening);
    assert_eq!(
        verify_path(&proof, &[Ok(()), refused]),
        Err(MembershipVerifyError::MerklePath {
            path_idx: 0,
            node_idx: 1,
            inner: MerklePathVerifyError::Opening
        })
    );
    let proofs = prove_nodes(&[make_node(8, 2), make_node(4, 1)], &mut Transcript::new("n"));
    assert_eq!(
        verify_path_merkle(&proofs, &[Err(MerklePathVerifyError::Shift)]),
        Err(MhotMembershipError::NodeVerify(MerklePathVerifyError::Shift))
    );
}

#[test]
fn refused_path_of_many_is_named() {
    let paths: Vec<Vec<MhotNodeFullWitness>> =
        (0..2).map(|i| make_consistent_path(2, &[4, 8], 0x3000 + i)).collect();
    let proof = prove_many(&paths, &mut Transcript::new("many"));
    let replies = vec![vec![Ok(()), Ok(())], vec![Ok(()), Err(MerklePathVerifyError::Core)]];
    assert_eq!(
        verify_multipoint(&proof, &replies),
        Err(MembershipVerifyError::MerklePath {
            path_idx: 1,
            node_idx: 1,
            inner: MerklePathVerifyError::Core
        })
    );
}

#[test]
fn unlinked_nodes_are_told_apart() {
    let nodes = vec![make_node(8, 2), make_node(4, 1)];
    let proofs = prove_nodes(&nodes, &mut Transcript::new("u"));
    assert_eq!(
        verify_nodes(&proofs, &mut Transcript::new("u")),
        Err(MhotMembershipError::CrossNodeBinding {
            parent_idx: 0,
            parent_leaf: proofs[0].leaf,
            child_root: proofs[1].root
        })
    );
}

#[test]
fn node_proof_states_what_was_planned() {
    let node = make_node(22, 13);
    let plan = plan_node_merkle(&node);
    let proof = prove_node(&node, &mut Transcript::new("s"));
    let st = node_path_statement(&proof);
    assert_eq!(proof.n_real_compressions, 5);
    assert_eq!(proof.b_bits, plan.b_bits[..5].to_vec());
    assert_eq!((st.n_blocks, st.leaf, st.root), (8, plan.leaf, plan.root));
    assert_eq!(st.b_bits, plan.b_bits);
}

// --- a path with its content chains and routes ---

const MIN_BLOCKS: usize = 16;

fn linked_nodes() -> Vec<MhotMembershipInput> {
    let content = |native: &[u32; 8], input: &MhotMembershipInput| {
        compute_content_hash(&input.content, &leaf_words_to_digest_bytes(native))
    };
    let lower = MhotMembershipInput::from_node(make_node(4, 1));
    let native = mhot_node_to_sha256_merkle(&lower.node, false).native_root;
    let mut upper = make_node(8, 5);
    upper.children[5] = content(&native, &lower);
    vec![MhotMembershipInput::from_node(upper), lower]
}

fn prove_all(path: &[MhotMembershipInput], setup: &RouteF32Setup) -> MhotMembershipProof {
    let mut t = Transcript::new("all");
    let plan = plan_membership(path, setup, MIN_BLOCKS);
    let nodes: Vec<ProvedPart> =
        plan.nodes.iter().map(|p| prove_blocks(&p.compressions, &mut t)).collect();
    let chains: Vec<ProvedPart> =
        plan.chains.iter().map(|c| prove_blocks(&c.compressions, &mut t)).collect();
    let core = prove_core(plan.route_z.iter().flat_map(|e| e.lo.to_le_bytes()).collect(), &mut t);
    let route = OpenedCore {
        zc_proof: core.shown,
        lc_proof: core.mark,
        pcs_open: t.challenge().to_vec(),
        commitment: core.commitment,
        claim: core.claim,
    };
    prove_membership(path, &plan, setup, MIN_BLOCKS, &nodes, &chains, route)
}

fn well(n: usize) -> MembershipReplies {
    MembershipReplies {
        nodes: vec![Ok(()); n],
        chains: vec![Ok(()); n],
        route_core: Ok(()),
        route_opening: Ok(()),
    }
}

#[test]
fn linked_membership_is_accepted() {
    let path = linked_nodes();
    let setup = RouteF32Setup::new(path.len());
    let proof = prove_all(&path, &setup);
    let root = proof.content_proofs[0].content_hash;
    assert_eq!(proof.n_routes, 2);
    assert_eq!(verify_membership(&proof, &root, &well(2)), Ok(()));
    let native = mhot_node_to_sha256_merkle(&path[0].node, false).native_root;
    assert_eq!(
        leaf_words_to_digest_bytes(&root),
        compute_content_hash(&path[0].content, &leaf_words_to_digest_bytes(&native))
    );
    assert!(proof.content_proofs.iter().all(check_content_chain));
    assert!(proof.content_proofs.iter().all(|c| c.n_compressions == MIN_BLOCKS));
}

#[test]
fn membership_refusals() {
    let path = linked_nodes();
    let setup = RouteF32Setup::new(path.len());
    let proof = prove_all(&path, &setup);
    let root = proof.content_proofs[0].content_hash;
    let mut r = well(2);
    r.route_opening = Err(VerifyError::PcsAb);
    assert_eq!(
        verify_membership(&proof, &root, &r),
        Err(MhotMembershipError::RouteOpening(VerifyError::PcsAb))
    );
    r.route_core = Err(VerifyError::Core);
    assert_eq!(
        verify_membership(&proof, &root, &r),
        Err(MhotMembershipError::RouteVerify(VerifyError::Core))
    );
    let mut wrong = root;
    wrong[3] ^= 1;
    assert_eq!(
        verify_membership(&proof, &wrong, &well(2)),
        Err(MhotMembershipError::RootMismatch { expected: wrong, actual: root })
    );
    let mut r = well(2);
    r.chains[1] = Err(ChainVerifyError::Shift);
    assert_eq!(
        verify_membership(&proof, &root, &r),
        Err(MhotMembershipError::ContentChainVerify(1, ChainVerifyError::Shift))
    );
    r.nodes[1] = Err(MerklePathVerifyError::Core);
    assert_eq!(
        verify_membership(&proof, &root, &r),
        Err(MhotMembershipError::NodeVerify(MerklePathVerifyError::Core))
    );
    let mut unchained = prove_all(&path, &setup);
    unchained.content_proofs[0].content_hash[0] ^= 1;
    assert!(!check_content_chain(&unchained.content_proofs[0]));
    assert_eq!(
        verify_membership(&unchained, &root, &well(2)),
        Err(MhotMembershipError::ContentHashMismatch { node_idx: 0 })
    );
    let mut unlinked = prove_all(&path, &setup);
    unlinked.hash_proofs[0].leaf[0] ^= 1;
    assert!(matches!(
        verify_membership(&unlinked, &root, &well(2)),
        Err(MhotMembershipError::CrossNodeBinding { parent_idx: 0, .. })
    ));
}

// The prover's and the verifier's claims on what the routes put out are the same.
#[test]
fn both_sides_claim_the_same_outputs() {
    let path = linked_nodes();
    let setup = RouteF32Setup::new(path.len());
    let plan = plan_membership(&path, &setup, MIN_BLOCKS);
    let leaves: Vec<[u32; 8]> = plan.nodes.iter().map(|p| p.leaf).collect();
    let routes: Vec<_> = path.iter().map(|p| p.route_witness.clone()).collect();
    assert_eq!(plan.route_claims, leaf_output_claims(&setup, &leaves));
    assert_eq!(plan.route_claims, route_output_claims(&setup, &routes));
}

#[test]
fn content_chains_are_forked_by_node() {
    assert_eq!(
        fork_content_challenger(258),
        vec![
            TranscriptOp::Label("mhot-content-chain-fork-v0"),
            TranscriptOp::Bytes(vec![2, 1, 0, 0, 0, 0, 0, 0]),
        ]
    );
}

fn well_asked(n: usize) -> Vec<Result<(), MerklePathVerifyError>> {
    vec![Ok(()); n]
}

#[test]
fn statements_past_the_last_node_do_not_matter() {
    let nodes = make_consistent_path(2, &[4, 8], 0x5151_7171);
    let mut ch = Transcript::new("membership-longer");
    let mut proof = prove_full_path(&nodes, &mut ch);
    proof.content_hashes.push([7; 8]);
    proof.native_merkle_roots.push([9; 32]);
    let mut extra = nodes[0].clone();
    extra.counts.push(1);
    proof.node_witnesses.push(extra);
    assert_eq!(verify_path(&proof, &well_asked(2)), Ok(()));
}

#[test]
fn nodes_behind_a_rejected_one_are_not_looked_at() {
    let nodes = make_consistent_path(3, &[4, 8, 4], 0x6161_8181);
    let mut ch = Transcript::new("membership-early");
    let mut proof = prove_full_path(&nodes, &mut ch);
    proof.node_witnesses[1].extraction_masks[2] ^= 4;
    proof.node_witnesses[2].counts.push(1);
    proof.content_hashes.truncate(2);
    let refused = MembershipVerifyError::ContentHashMismatch { path_idx: 0, node_idx: 1 };
    assert_eq!(check_node(&proof, 0, 0), Ok(()));
    assert_eq!(check_node(&proof, 0, 1), Err(refused));
    assert_eq!(verify_path(&proof, &well_asked(2)), Err(refused));
    assert_eq!(verify_path(&proof, &well_asked(3)), Err(refused));
    let asked = [Err(MerklePathVerifyError::Shift)];
    assert_eq!(
        verify_path(&proof, &asked),
        Err(MembershipVerifyError::MerklePath {
            path_idx: 0,
            node_idx: 0,
            inner: MerklePathVerifyError::Shift,
        })
    );
    let many = MhotMultipointProof { path_proofs: vec![proof] };
    assert_eq!(verify_multipoint(&many, &[well_asked(2)]), Err(refused));
}

#[test]
fn changed_content_is_refused_at_its_node() {
    let nodes = make_consistent_path(3, &[8, 4, 16], 0x7171_9191);
    for k in 0..3 {
        for change in 0..4 {
            let mut ch = Transcript::new("membership-changed");
            let mut proof = prove_full_path(&nodes, &mut ch);
            match change {
                0 => proof.node_witnesses[k].extraction_masks[3] ^= 1,
                1 => proof.node_witnesses[k].sparse_keys[0] ^= 2,
                2 => {
                    proof.node_witnesses[k].sparse_keys.push(0);
                    proof.node_witnesses[k].counts.push(0);
                }
                _ => proof.native_merkle_roots[k][31] ^= 1,
            }
            assert_eq!(
                verify_path(&proof, &well_asked(3)),
                Err(MembershipVerifyError::ContentHashMismatch { path_idx: 0, node_idx: k })
            );
            let w = &proof.node_witnesses[k];
            let (_, hash) = content_hash_to_sha256_chain(
                &w.extraction_masks,
                &w.sparse_keys,
                &proof.native_merkle_roots[k],
                &w.counts,
            );
            proof.content_hashes[k] = hash;
            let rehashed = verify_path(&proof, &well_asked(3));
            if k == 0 {
                assert_eq!(rehashed, Ok(()));
            } else {
                assert_eq!(
                    rehashed,
                    Err(MembershipVerifyError::CrossNodeMismatch {
                        path_idx: 0,
                        parent_node_idx: k - 1,
                    })
                );
            }
        }
    }
}

#[test]
fn many_paths_carry_the_parts_of_their_nodes() {
    let paths = vec![
        make_consistent_path(2, &[4, 8], 0x8181_0101),
        make_consistent_path(1, &[4], 0x8181_0202),
    ];
    let plans = plan_multipoint(&paths);
    let part = |p: usize, i: usize| ProvedPart {
        proof: vec![p as u8, i as u8, 5],
        commitment: Commitment { root: [(10 * p + i) as u8; 32] },
    };
    let parts = vec![vec![part(0, 0), part(0, 1)], vec![part(1, 0)]];
    let proof = prove_multipoint(&paths, &plans, &parts);
    assert_eq!(proof.path_proofs[0].node_proofs[1].proof, vec![0, 1, 5]);
    assert_eq!(proof.path_proofs[0].node_proofs[1].commitment.root, [1; 32]);
    assert_eq!(proof.path_proofs[1].node_proofs[0].proof, vec![1, 0, 5]);
    assert_eq!(proof.path_proofs[1].node_proofs[0].commitment.root, [10; 32]);
}

#[test]
fn membership_is_asked_about_its_own_parts() {
    let path = linked_nodes();
    let setup = RouteF32Setup::new(path.len());
    let proof = prove_all(&path, &setup);
    for (i, cp) in proof.content_proofs.iter().enumerate() {
        let q = chain_question(cp, i);
        assert_eq!(q.n_blocks, cp.n_compressions);
        assert_eq!(q.start, SHA256_IV);
        assert_eq!(q.end, cp.cv_last);
        assert_eq!(q.proof, &cp.proof);
        assert_eq!(q.commitment, cp.commitment);
        assert_eq!(q.fork, fork_content_challenger(i));
        assert_eq!(q.seal, vec![TranscriptOp::Bytes(cp.commitment.root.to_vec())]);
    }
    let q = route_question(&proof, &setup);
    assert_eq!(q.relation, Relation::Route { n: 2 });
    assert_eq!((q.zc, q.lc), (&proof.route_zc, &proof.route_lc));
    assert_eq!((q.pcs, q.commitment), (&proof.route_pcs, proof.route_commitment));
    let leaves: Vec<[u32; 8]> = proof.hash_proofs.iter().map(|p| p.leaf).collect();
    assert_eq!(q.claims, leaf_output_claims(&setup, &leaves));
    assert!(q.fork.is_empty());
}
