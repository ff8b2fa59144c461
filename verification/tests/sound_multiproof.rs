use flock_mhot::backend::{
    Commitment, OpenedCore, PackedDirectClaim, R1csClaim, Relation, TranscriptOp, VerifyError,
    ZClaim,
};
use flock_mhot::entry_binding::{leaf_content_hash, PathEntry};
use flock_mhot::membership_proof::{leaf_output_claims, MhotMembershipInput};
use flock_mhot::merkle_membership::{
    compute_content_hash, leaf_words_to_digest_bytes, mhot_node_to_route_witness, ContentMeta,
    MhotMembershipError, BLOCK_PACKED,
};
use flock_mhot::multiproof::fork_pcs_challenger;
use flock_mhot::native_witness::{mhot_node_to_sha256_merkle, MhotNodeWitness};
use flock_mhot::r1cs::{BlockR1cs, F128};
use flock_mhot::route_f32::K;
use flock_mhot::route_f32_setup::{RouteF32Setup, SetupCache};
use flock_mhot::sha256::{sha256_compress, Compression, SHA256_IV};
use flock_mhot::sound_multiproof::{
    absorb_public_io, bytes_to_words, check_entries_form, check_form, path_questions,
    route_question, selected_index, shift_statement, verify_sound_multiproof,
    verify_sound_multiproof_with_entries, ShiftStatement, SoundMultiproof, SoundReplies,
};
use flock_mhot::sound_plan::{
    dedup_paths, pair_identity, phys_identity, plan_sound_multiproof, prove_sound_multiproof,
};
use sha2::{Digest, Sha256};
use std::collections::HashMap;

// The proof system itself is no part of the library. The tests run it in the
// clear: a proof shows its witness, the commitment is the digest of what is
// shown, and each later part is the digest of the transcript so far. Whoever
// changes a part, or the transcript, is told so; and the verifier checks the
// relation on the witness that it is shown.

#[derive(Clone)]
struct Transcript {
    seen: Sha256,
}

fn digest(bytes: &[u8]) -> [u8; 32] {
    Sha256::digest(bytes).into()
}

impl Transcript {
    fn new(label: &str) -> Self {
        let mut t = Transcript { seen: Sha256::new() };
        t.absorb(label.as_bytes());
        t
    }

    fn absorb(&mut self, bytes: &[u8]) {
        self.seen.update((bytes.len() as u64).to_le_bytes());
        self.seen.update(bytes);
    }

    fn observe(&mut self, ops: &[TranscriptOp]) {
        for op in ops {
            match op {
                TranscriptOp::Label(s) => {
                    self.seen.update([0]);
                    self.absorb(s.as_bytes());
                }
                TranscriptOp::Bytes(b) => {
                    self.seen.update([1]);
                    self.absorb(b);
                }
            }
        }
    }

    fn challenge(&self) -> [u8; 32] {
        self.seen.clone().finalize().into()
    }
}

fn claim_at(point: [u8; 32]) -> R1csClaim {
    let word = |i: usize| u64::from_le_bytes(point[8 * i..8 * i + 8].try_into().unwrap());
    let z = ZClaim {
        z_skip: F128 { lo: word(0), hi: word(1) },
        x_outer: vec![F128 { lo: word(2), hi: word(3) }],
        value: F128 { lo: word(3), hi: word(0) },
    };
    R1csClaim { ab: z.clone(), c: z }
}

struct Core {
    shown: Vec<u8>,
    mark: Vec<u8>,
    commitment: Commitment,
    claim: R1csClaim,
}

fn prove_core(shown: Vec<u8>, t: &mut Transcript) -> Core {
    let commitment = Commitment { root: digest(&shown) };
    t.absorb(&commitment.root);
    let mark = t.challenge();
    Core { shown, mark: mark.to_vec(), commitment, claim: claim_at(mark) }
}

fn open_core(core: Core, t: &Transcript) -> OpenedCore {
    OpenedCore {
        zc_proof: core.shown,
        lc_proof: core.mark,
        pcs_open: t.challenge().to_vec(),
        commitment: core.commitment,
        claim: core.claim,
    }
}

fn verify_core(
    shown: &[u8],
    mark: &[u8],
    commitment: &Commitment,
    t: &mut Transcript,
    holds: bool,
) -> Result<R1csClaim, VerifyError> {
    t.absorb(&commitment.root);
    let c = t.challenge();
    if holds && digest(shown) == commitment.root && mark == &c[..] {
        Ok(claim_at(c))
    } else {
        Err(VerifyError::Core)
    }
}

fn verify_opening(open: &[u8], t: &Transcript) -> Result<(), VerifyError> {
    if open == &t.challenge()[..] {
        Ok(())
    } else {
        Err(VerifyError::PcsAb)
    }
}

// What a proof shows: the distinct items, and for each place the item in it.
fn show(items: &[Vec<u8>]) -> Vec<u8> {
    let mut order: HashMap<&Vec<u8>, u32> = HashMap::new();
    let mut distinct: Vec<&Vec<u8>> = Vec::new();
    let mut places: Vec<u32> = Vec::new();
    for item in items {
        let next = distinct.len() as u32;
        let at = *order.entry(item).or_insert(next);
        if at == next {
            distinct.push(item);
        }
        places.push(at);
    }
    encode(&distinct, &places)
}

fn encode(distinct: &[&Vec<u8>], places: &[u32]) -> Vec<u8> {
    let mut out = (distinct.len() as u32).to_le_bytes().to_vec();
    for item in distinct {
        out.extend_from_slice(&(item.len() as u32).to_le_bytes());
        out.extend_from_slice(item);
    }
    for at in places {
        out.extend_from_slice(&at.to_le_bytes());
    }
    out
}

fn read_u32(bytes: &[u8], at: usize) -> Option<usize> {
    Some(u32::from_le_bytes(bytes.get(at..at + 4)?.try_into().ok()?) as usize)
}

fn read_shown(bytes: &[u8]) -> Option<(Vec<Vec<u8>>, Vec<usize>)> {
    let n = read_u32(bytes, 0)?;
    let mut at = 4;
    let mut distinct = Vec::new();
    for _ in 0..n {
        let len = read_u32(bytes, at)?;
        distinct.push(bytes.get(at + 4..at + 4 + len)?.to_vec());
        at += 4 + len;
    }
    let mut places = Vec::new();
    while at < bytes.len() {
        let p = read_u32(bytes, at)?;
        if p >= n {
            return None;
        }
        places.push(p);
        at += 4;
    }
    Some((distinct, places))
}

// The blocks of a packed witness.
fn blocks_of(z: &[F128], bits_per_block: usize) -> Vec<Vec<u8>> {
    z.chunks(bits_per_block / 128)
        .map(|c| c.iter().flat_map(|e| [e.lo.to_le_bytes(), e.hi.to_le_bytes()].concat()).collect())
        .collect()
}

// Whether the shown blocks are as many as the relation has, satisfy it and
// hold the constant one.
fn blocks_hold(r1cs: &BlockR1cs, shown: &[u8]) -> bool {
    let one_block = BlockR1cs { m: r1cs.k_log, ..r1cs.clone() };
    match read_shown(shown) {
        None => false,
        Some((distinct, places)) => {
            places.len() == r1cs.n_outer()
                && distinct.iter().all(|b| {
                    let z: Vec<bool> =
                        (0..8 * b.len()).map(|i| (b[i >> 3] >> (i & 7)) & 1 == 1).collect();
                    z.len() == r1cs.k()
                        && one_block.satisfies(&z)
                        && r1cs.const_pin.map_or(true, |pin| z[pin])
                })
        }
    }
}

// A chain of compressions, shown block by block.
fn show_blocks(comps: &[Compression]) -> Vec<u8> {
    show(
        &comps
            .iter()
            .map(|(iv, m)| iv.iter().chain(m.iter()).flat_map(|w| w.to_le_bytes()).collect())
            .collect::<Vec<Vec<u8>>>(),
    )
}

fn read_blocks(shown: &[u8]) -> Option<Vec<Compression>> {
    let (distinct, places) = read_shown(shown)?;
    if distinct.iter().any(|b| b.len() != 96) {
        return None;
    }
    let word = |b: &[u8], i: usize| u32::from_le_bytes(b[4 * i..4 * i + 4].try_into().unwrap());
    Some(
        places
            .iter()
            .map(|&p| {
                let b = &distinct[p];
                (std::array::from_fn(|i| word(b, i)), std::array::from_fn(|i| word(b, 8 + i)))
            })
            .collect(),
    )
}

// Whether the blocks lead from a leaf to a root, each taking in what the one
// before it puts out on the side that its bit says.
fn leads_to(blocks: &[Compression], leaf: &[u32; 8], sides: &[bool], root: &[u32; 8]) -> bool {
    let mut current = *leaf;
    for (k, (iv, m)) in blocks.iter().enumerate() {
        let half = if sides[k] { &m[8..] } else { &m[..8] };
        if *iv != SHA256_IV || half != &current[..] {
            return false;
        }
        current = sha256_compress(iv, m);
    }
    current == *root
}

// The number of hash blocks that the proof system takes at least.
const MIN_N: usize = 128;

fn claims_hold(claims: &[PackedDirectClaim], shown: &[u8]) -> bool {
    let (distinct, places) = match read_shown(shown) {
        None => return false,
        Some(r) => r,
    };
    claims.iter().all(|c| {
        let index: usize =
            c.point.iter().enumerate().map(|(j, e)| if *e == F128::one() { 1 << j } else { 0 }).sum();
        let at = 16 * (index % BLOCK_PACKED);
        match places.get(index / BLOCK_PACKED) {
            None => false,
            Some(&p) => {
                let b = &distinct[p];
                b[at..at + 8] == c.value.lo.to_le_bytes()[..]
                    && b[at + 8..at + 16] == c.value.hi.to_le_bytes()[..]
            }
        }
    })
}

fn prove_sound(paths: &[Vec<MhotMembershipInput>], t: &mut Transcript) -> SoundMultiproof {
    prove_sound_with(paths, &mut SetupCache::empty(), t)
}

fn prove_sound_with(
    paths: &[Vec<MhotMembershipInput>],
    cache: &mut SetupCache,
    t: &mut Transcript,
) -> SoundMultiproof {
    let dedup = dedup_paths(paths);
    let setup = RouteF32Setup::cached(dedup.occurrences.len(), cache);
    let plan = plan_sound_multiproof(paths, dedup, setup, MIN_N);
    let merkle = prove_core(show_blocks(&plan.merkle_comps), t);
    t.observe(&plan.public_io);
    t.absorb(b"shift");
    let shift = t.challenge().to_vec();
    let merkle = open_core(merkle, t);
    let route = prove_core(show(&blocks_of(&plan.route_z, K)), t);
    assert!(claims_hold(&plan.route_claims, &route.shown));
    let route = open_core(route, t);
    prove_sound_multiproof(plan, merkle, shift, route)
}

fn paths_hold(st: &ShiftStatement, blocks: &[Compression]) -> bool {
    blocks.len() == 8 << st.path_log
        && (0..1usize << st.path_log).all(|p| {
            leads_to(
                &blocks[8 * p..8 * p + 8],
                &st.leaves[p],
                &st.b_bits[8 * p..8 * p + 8],
                &st.roots[p],
            )
        })
}

fn ask(proof: &SoundMultiproof, t: &mut Transcript) -> SoundReplies {
    let q = path_questions(proof);
    let core = q.base.core_question();
    let blocks = read_blocks(core.zc);
    let merkle_core = verify_core(core.zc, core.lc, &core.commitment, t, blocks.is_some());
    t.observe(&q.public_io);
    t.absorb(b"shift");
    let merkle_shift = q.shift == &t.challenge()
        && paths_hold(&q.statement, &blocks.unwrap_or(Vec::new()));
    let merkle_opening = verify_opening(q.base.pcs, t);
    let setup = RouteF32Setup::new(proof.n_routes);
    let q = route_question(proof, &setup);
    let holds = blocks_hold(&setup.r1cs, q.zc);
    let route_core = verify_core(q.zc, q.lc, &q.commitment, t, holds);
    let route_opening = if claims_hold(&q.claims, q.zc) {
        verify_opening(q.pcs, t)
    } else {
        Err(VerifyError::PcsAb)
    };
    SoundReplies {
        merkle_core: merkle_core.map(|_| ()),
        merkle_shift,
        merkle_opening,
        route_core: route_core.map(|_| ()),
        route_opening,
    }
}

// A proof out of form is not put to the proof system.
fn replies_to(proof: &SoundMultiproof, root: &[u32; 8], t: &mut Transcript) -> SoundReplies {
    if check_form(proof, root, MIN_N).is_ok() {
        ask(proof, t)
    } else {
        SoundReplies {
            merkle_core: Ok(()),
            merkle_shift: true,
            merkle_opening: Ok(()),
            route_core: Ok(()),
            route_opening: Ok(()),
        }
    }
}

fn verify_sound(
    proof: &SoundMultiproof,
    root: &[u32; 8],
    t: &mut Transcript,
) -> Result<(), MhotMembershipError> {
    let replies = replies_to(proof, root, t);
    verify_sound_multiproof(proof, root, MIN_N, &replies)
}

fn verify_with_entries(
    proof: &SoundMultiproof,
    root: &[u32; 8],
    entries: &[PathEntry],
    t: &mut Transcript,
) -> Result<(), MhotMembershipError> {
    let replies = replies_to(proof, root, t);
    verify_sound_multiproof_with_entries(proof, root, entries, MIN_N, &replies)
}

/// The public root = content_hash of a node = SHA-256(content ‖ native_root).
fn node_root(input: &MhotMembershipInput) -> [u32; 8] {
    let native = mhot_node_to_sha256_merkle(&input.node, false).native_root;
    bytes_to_words(&compute_content_hash(
        &input.content,
        &leaf_words_to_digest_bytes(&native),
    ))
}

/// Two-node honest path whose ContentMetas genuinely route `entry.key`:
/// root R (selects child 0 = T) → terminal T (selects child 1 = entry leaf).
fn honest_path_with_entry() -> (Vec<MhotMembershipInput>, PathEntry) {
    let mut key = [0u8; 32];
    key[7] = 1; // BE chunk 0 = 1 → discriminative bit 0 of T's mask is set
    let entry = PathEntry { key, value: vec![7u8; 16] };
    let leaf_ch = leaf_content_hash(&entry);

    // Terminal node T: masks[0]=0b1 → dense(key)=1; sparse [0,1] → child 1.
    let t_node = MhotNodeWitness {
        children: vec![[0x11; 32], leaf_ch],
        selected_child: 1,
    };
    let t_meta = ContentMeta {
        extraction_masks: [1, 0, 0, 0],
        sparse_partial_keys: vec![0, 1],
        child_leaf_counts: vec![1, 1],
    };
    let t_root = mhot_node_to_sha256_merkle(&t_node, false).native_root;
    let t_ch = compute_content_hash(&t_meta, &leaf_words_to_digest_bytes(&t_root));

    // Root node R: masks[0]=0b10 → dense(key)=0 (key bit 1 clear); sparse
    // [0,1] → child 0 = T.
    let r_node = MhotNodeWitness {
        children: vec![t_ch, [0x22; 32]],
        selected_child: 0,
    };
    let r_meta = ContentMeta {
        extraction_masks: [2, 0, 0, 0],
        sparse_partial_keys: vec![0, 1],
        child_leaf_counts: vec![2, 1],
    };

    let mk = |node: MhotNodeWitness, content: ContentMeta| MhotMembershipInput {
        route_witness: mhot_node_to_route_witness(&node),
        node,
        content,
    };
    (vec![mk(r_node, r_meta), mk(t_node, t_meta)], entry)
}

fn prove_and_root(
    paths: &[Vec<MhotMembershipInput>],
) -> (SoundMultiproof, [u32; 8]) {
    let mut ch = Transcript::new("smp-entries");
    let proof = prove_sound(paths, &mut ch);
    // Public root = content_hash of the root node (paths[0][0]).
    let root = node_root(&paths[0][0]);
    (proof, root)
}

#[test]
fn entries_binding_honest_accepts() {
    let (path, entry) = honest_path_with_entry();
    let (proof, root) = prove_and_root(&[path]);
    let mut chv = Transcript::new("smp-entries");
    verify_with_entries(&proof, &root, &[entry], &mut chv)
        .expect("honest entry must verify");
}

/// Domain-confusion forgery: leaf preimage (key ‖ len ‖ value) and internal
/// content preimage (masks ‖ keys ‖ root ‖ counts) share SHA-256 with no
/// domain tag. A prover truncates a path at node M whose authenticated
/// selected child is an INTERNAL node J, and crafts (key, value) whose leaf
/// preimage is byte-identical to J's content preimage — so leaf_hash == J's
/// content_hash BY CONSTRUCTION (no hash break). Without a leaf-ness check,
/// the non-member (key, value) is accepted. The terminal-node
/// child_leaf_counts[selected]==1 check (leaf ⟺ subtree of exactly one leaf)
/// rejects it.
#[test]
fn entries_binding_internal_node_as_leaf_rejected() {
    // Impostor INTERNAL node J, fanout 2 → content preimage = 64 + 8·2 = 80
    // bytes; a colliding leaf needs value length 80 − 40 = 40, encoded in
    // J.sparse_partial_keys[0..2] read as the u64 little-endian length.
    let j_meta = ContentMeta {
        extraction_masks: [0u64; 4],          // ⇒ leaf key = 32 zero bytes
        sparse_partial_keys: vec![40, 0],     // len(value) = 40, LE-aligned
        child_leaf_counts: vec![1, 1],
    };
    let j_root = [7u8; 32];
    let d = compute_content_hash(&j_meta, &j_root); // J's content_hash digest

    // The colliding entry: key = J.masks (zero), value = J_root ‖ J.counts.
    let mut value = Vec::with_capacity(40);
    value.extend_from_slice(&j_root);
    value.extend_from_slice(&1u32.to_le_bytes());
    value.extend_from_slice(&1u32.to_le_bytes());
    let entry = PathEntry { key: [0u8; 32], value };
    assert_eq!(
        leaf_content_hash(&entry), d,
        "test setup: leaf preimage must byte-collide with J's content preimage"
    );

    // Terminal M selects child 1 = J (internal ⇒ child_leaf_counts[1] = 2).
    // dense_key(zero key, any mask) = 0; sparse[1]=0 matches ⇒ selects 1.
    let m_node = MhotNodeWitness { children: vec![[0x33; 32], d], selected_child: 1 };
    let m_meta = ContentMeta {
        extraction_masks: [0u64; 4],
        sparse_partial_keys: vec![0xDEAD, 0],
        child_leaf_counts: vec![1, 2],
    };
    let m_root = mhot_node_to_sha256_merkle(&m_node, false).native_root;
    let m_ch = compute_content_hash(&m_meta, &leaf_words_to_digest_bytes(&m_root));

    // Root R selects child 0 = M. dense 0; sparse[0]=0 ⇒ selects 0.
    let r_node = MhotNodeWitness { children: vec![m_ch, [0x44; 32]], selected_child: 0 };
    let r_meta = ContentMeta {
        extraction_masks: [0u64; 4],
        sparse_partial_keys: vec![0, 0xBEEF],
        child_leaf_counts: vec![3, 1],
    };

    let mk = |node: MhotNodeWitness, content: ContentMeta| MhotMembershipInput {
        route_witness: mhot_node_to_route_witness(&node),
        node,
        content,
    };
    let path = vec![mk(r_node, r_meta), mk(m_node, m_meta)];
    let (proof, root) = prove_and_root(&[path]);
    let mut chv = Transcript::new("smp-entries");
    let res = verify_with_entries(&proof, &root, &[entry], &mut chv);
    assert!(
        matches!(res, Err(MhotMembershipError::EntryLeafMismatch { path_idx: 0 })),
        "internal node claimed as member leaf must be rejected, got {res:?}"
    );
}

/// Absent-key bit-flip forgery: flip a key bit OUTSIDE every mask — the
/// routing is unchanged, so before the terminal-leaf check this non-member
/// key would be accepted. The leaf hash must catch it.
#[test]
fn entries_binding_nondiscriminative_bitflip_rejected() {
    let (path, mut entry) = honest_path_with_entry();
    let (proof, root) = prove_and_root(&[path]);
    entry.key[31] ^= 1; // chunk 3; masks[3] == 0 everywhere on the path
    let mut chv = Transcript::new("smp-entries");
    let res = verify_with_entries(&proof, &root, &[entry], &mut chv);
    assert!(
        matches!(res, Err(MhotMembershipError::EntryLeafMismatch { path_idx: 0 })),
        "non-member key differing only outside the masks must be rejected, got {res:?}"
    );
}

/// A key whose discriminative bit routes to a DIFFERENT child than the
/// proof authenticated must fail the routing re-run.
#[test]
fn entries_binding_wrong_routing_rejected() {
    let (path, mut entry) = honest_path_with_entry();
    let (proof, root) = prove_and_root(&[path]);
    entry.key[7] = 0; // T's dense key becomes 0 → routes to child 0, proof selected 1
    let mut chv = Transcript::new("smp-entries");
    let res = verify_with_entries(&proof, &root, &[entry], &mut chv);
    assert!(
        matches!(res, Err(MhotMembershipError::RoutingMismatch { path_idx: 0, level: 1, .. })),
        "key routing to a different child must be rejected, got {res:?}"
    );
}

/// Multi-path + BFS dedup: two identical paths collapse to shared unique
/// nodes but path_mapping keeps two entries. Exercises the per-path entry
/// loop and the shared-node `selected` reconstruction the single-path tests
/// and the (silently-skippable) bench don't cover deterministically.
#[test]
fn entries_binding_multipath_dedup_accepts_and_rejects() {
    let (path, entry) = honest_path_with_entry();
    let (proof, root) = prove_and_root(&[path.clone(), path]);
    assert_eq!(proof.path_mapping.node_indices.len(), 2, "two paths");

    let mut chv = Transcript::new("smp-entries");
    verify_with_entries(
        &proof, &root, &[entry.clone(), entry.clone()], &mut chv,
    ).expect("two honest entries over shared nodes must verify");

    // Corrupting one path's entry (non-discriminative bit flip) must reject
    // only via the terminal leaf check, proving per-path binding is live.
    let mut bad = entry.clone();
    bad.key[31] ^= 1;
    let mut chv2 = Transcript::new("smp-entries");
    let res = verify_with_entries(&proof, &root, &[entry, bad], &mut chv2);
    assert!(
        matches!(res, Err(MhotMembershipError::EntryLeafMismatch { path_idx: 1 })),
        "corrupted second entry must be rejected at path_idx 1, got {res:?}"
    );
}

#[test]
fn entries_binding_wrong_value_rejected() {
    let (path, mut entry) = honest_path_with_entry();
    let (proof, root) = prove_and_root(&[path]);
    entry.value = vec![8u8; 16];
    let mut chv = Transcript::new("smp-entries");
    let res = verify_with_entries(&proof, &root, &[entry], &mut chv);
    assert!(
        matches!(res, Err(MhotMembershipError::EntryLeafMismatch { path_idx: 0 })),
        "wrong value must be rejected, got {res:?}"
    );
}

#[test]
fn entries_binding_count_mismatch_rejected() {
    let (path, entry) = honest_path_with_entry();
    let (proof, root) = prove_and_root(&[path]);
    let mut chv = Transcript::new("smp-entries");
    let res = verify_with_entries(
        &proof, &root, &[entry.clone(), entry], &mut chv,
    );
    assert!(
        matches!(res, Err(MhotMembershipError::EntryCountMismatch { .. })),
        "entry count mismatch must be rejected, got {res:?}"
    );
}

/// Forgery: a malicious prover commits a FAKE in-node tree (selected child is
/// a non-member `L`) but claims the public root of the REAL tree. Since the
/// verifier COMPUTES content_hash from the committed tree (not from a
/// prover-supplied value — the chain SNARK was deleted), the fake tree's
/// content_hash ≠ the real tree's, so the root check rejects. This is the
/// binding the deleted chain base used to guard; it is now inherent because
/// nothing decouples content_hash from the committed merkle tree.
#[test]
fn forged_fake_merkle_real_root_rejected() {
    // Real node with genuine children.
    let real_children: Vec<[u8; 32]> = (0..8)
        .map(|i| {
            let mut h = [0u8; 32];
            h[0] = i as u8;
            h[1] = 0xAA;
            h
        })
        .collect();
    let selected = 3usize;
    let real_node = MhotNodeWitness {
        children: real_children.clone(),
        selected_child: selected,
    };
    let real_input = MhotMembershipInput::from_node(real_node);
    let real_root = node_root(&real_input); // the public root of the REAL tree

    // Fake node: same shape, but the selected child is a non-member L.
    let mut fake_children = real_children;
    fake_children[selected] = [0xEE; 32];
    let fake_node = MhotNodeWitness {
        children: fake_children,
        selected_child: selected,
    };
    let fake_input = MhotMembershipInput::from_node(fake_node);

    // Prove the FAKE tree, then claim the REAL tree's public root.
    let mut ch = Transcript::new("smp-forge");
    let proof = prove_sound(&[vec![fake_input]], &mut ch);
    let mut chv = Transcript::new("smp-forge");
    let res = verify_sound(&proof, &real_root, &mut chv);
    assert!(
        matches!(res, Err(MhotMembershipError::RootMismatch { .. })),
        "fake in-node tree under the real tree's root must be REJECTED (verifier \
         computes content_hash over the committed fake tree); got {res:?}"
    );
}

fn two_child_input(selected: usize) -> MhotMembershipInput {
    let node = MhotNodeWitness {
        children: vec![[0x11; 32], [0x22; 32]],
        selected_child: selected,
    };
    MhotMembershipInput::from_node(node)
}

/// Route-2 positive: b_bits[0] is now the REAL depth-0 side bit (native-order
/// chains), so a right-child-at-depth-0 selected leaf must authenticate
/// end-to-end — production never exercised real b0 before this.
#[test]
fn b0_right_child_honest_accepts() {
    for selected in [0usize, 1] {
        let input = two_child_input(selected);
        let root = node_root(&input);
        let mut ch = Transcript::new("smp-b0");
        let proof = prove_sound(&[vec![input]], &mut ch);
        assert_eq!(
            proof.merkle_b_bits[0][0],
            selected == 1,
            "depth-0 side bit must be the real side (selected={selected})"
        );
        let mut chv = Transcript::new("smp-b0");
        verify_sound(&proof, &root, &mut chv)
            .unwrap_or_else(|e| panic!("honest selected={selected} must verify: {e:?}"));
    }
}

/// Route-2 soundness delta: the public depth-0 side bit is consumed by the
/// merkle shift (tree order — the W formula routes the leaf term to X_L/X_R
/// per B(0)) and by selected_index (entry routing position). Flipping it
/// post-prove must be rejected: the shift's authenticated chain no longer
/// matches the committed compressions.
///
/// The "rebuild a consistent fake tree for the flipped bit" variant of this
/// attack is a different committed tree (the leaf sits at the other index),
/// so its native_root — and hence its verifier-computed content_hash —
/// differs from the honest one and the public-root check rejects; that is
/// exactly `forged_fake_merkle_real_root_rejected`.
#[test]
fn b0_flip_rejected() {
    for selected in [0usize, 1] {
        let input = two_child_input(selected);
        let root = node_root(&input);
        let mut ch = Transcript::new("smp-b0-flip");
        let mut proof = prove_sound(&[vec![input]], &mut ch);
        proof.merkle_b_bits[0][0] = !proof.merkle_b_bits[0][0];
        let mut chv = Transcript::new("smp-b0-flip");
        let res = verify_sound(&proof, &root, &mut chv);
        assert!(
            res.is_err(),
            "flipped depth-0 side bit must be rejected (selected={selected}), got Ok"
        );
    }
}

/// The Route-2 decoupling attack: commit a FAKE in-node tree (whose selected
/// leaf is a non-member, honestly shift-authenticated) but supply the REAL
/// tree's native_root, so the verifier-computed content_hash hits the real
/// public root and the root check passes on genuine values. The pad-forward
/// check is the ONLY thing standing between this forgery and acceptance:
/// pad-forwarding the real native_root cannot reach the fake chain's
/// shift-authenticated padded root (SHA-256 collision resistance).
#[test]
fn forged_native_root_decoupling_rejected() {
    let real_children: Vec<[u8; 32]> = (0..8)
        .map(|i| {
            let mut h = [0u8; 32];
            h[0] = i as u8;
            h[1] = 0xBB;
            h
        })
        .collect();
    let selected = 3usize;
    let real_node = MhotNodeWitness {
        children: real_children.clone(),
        selected_child: selected,
    };
    let real_input = MhotMembershipInput::from_node(real_node);
    let real_root = node_root(&real_input);
    let real_native =
        mhot_node_to_sha256_merkle(&real_input.node, false).native_root;

    let mut fake_children = real_children;
    fake_children[selected] = [0xEE; 32];
    let fake_node = MhotNodeWitness {
        children: fake_children,
        selected_child: selected,
    };
    let fake_input = MhotMembershipInput::from_node(fake_node);

    let mut ch = Transcript::new("smp-nr-decouple");
    let mut proof = prove_sound(&[vec![fake_input]], &mut ch);
    proof.merkle_native_roots[0] = real_native;
    let mut chv = Transcript::new("smp-nr-decouple");
    let res = verify_sound(&proof, &real_root, &mut chv);
    assert!(
        matches!(res, Err(MhotMembershipError::NativeRootMismatch { node_idx: 0 })),
        "fake tree + real native_root must fail the pad-forward check, got {res:?}"
    );
}

/// The pad-forward binding: merkle_native_roots[i] is prover-supplied and
/// only trustworthy because padding it forward n_pad times must reach the
/// shift-authenticated merkle_roots[i]. Tampering it must fail exactly there.
#[test]
fn tampered_native_root_rejected() {
    let input = two_child_input(1);
    let root = node_root(&input);
    let mut ch = Transcript::new("smp-nr-tamper");
    let mut proof = prove_sound(&[vec![input]], &mut ch);
    proof.merkle_native_roots[0][0] ^= 1;
    let mut chv = Transcript::new("smp-nr-tamper");
    let res = verify_sound(&proof, &root, &mut chv);
    assert!(
        matches!(res, Err(MhotMembershipError::NativeRootMismatch { node_idx: 0 })),
        "tampered native_root must fail the pad-forward check, got {res:?}"
    );
}

// ---- DoS wire-validity gates ----
//
// Latent while `SoundMultiproof` is Serialize-only, load-bearing the moment
// it gains a Deserialize path. Each gate must reject with MalformedProof
// BEFORE any cached()/allocation-driving use of the tampered value; tests
// use honest+1-style malformations so a mis-ordered gate fails the test
// quickly (wrong error variant) instead of OOMing the test runner.

fn dos_proof(domain: &str) -> (SoundMultiproof, [u32; 8]) {
    let input = two_child_input(1);
    let root = node_root(&input);
    let mut ch = Transcript::new(domain);
    let proof = prove_sound(&[vec![input]], &mut ch);
    (proof, root)
}

fn expect_malformed(
    proof: &SoundMultiproof,
    root: &[u32; 8],
    domain: &str,
    what: &str,
) {
    let mut chv = Transcript::new(domain);
    let res = verify_sound(proof, root, &mut chv);
    assert!(
        matches!(res, Err(MhotMembershipError::MalformedProof { .. })),
        "{what} must be rejected by a wire-validity gate, got {res:?}"
    );
}

/// n_log_merkle ≥ word size would make `1usize << n_log_merkle` shift-
/// overflow (panic in debug, wrap in release) before any semantic check.
/// The absolute cap must reject it first.
#[test]
fn dos_gate_n_log_overflow_rejected() {
    let (mut proof, root) = dos_proof("smp-dos-nlog-ovf");
    proof.n_log_merkle = 64;
    expect_malformed(&proof, &root, "smp-dos-nlog-ovf", "n_log_merkle=64");
}

/// Inflated n_log_merkle drives `Sha256HybridSetup::cached(1 << n_log)` — an
/// attacker-sized allocation. The canonical-recompute gate pins n_log to the
/// exact value `allocate_blocks_aligned` derives from offsets+counts.
#[test]
fn dos_gate_n_log_inflated_rejected() {
    let (mut proof, root) = dos_proof("smp-dos-nlog-inf");
    proof.n_log_merkle += 1;
    expect_malformed(&proof, &root, "smp-dos-nlog-inf", "n_log_merkle+1");
}

/// n_routes drives `RouteF32Setup::cached(n_routes)` (R1CS build sized by
/// it). Honest value is exactly the unique-node count.
#[test]
fn dos_gate_n_routes_inflated_rejected() {
    let (mut proof, root) = dos_proof("smp-dos-nroutes");
    proof.n_routes += 1;
    expect_malformed(&proof, &root, "smp-dos-nroutes", "n_routes+1");
}

/// Every pair must reference a valid physical-node entry; an out-of-range
/// pair_phys index must be gated before any indexed use.
#[test]
fn dos_gate_pair_phys_out_of_range_rejected() {
    let (mut proof, root) = dos_proof("smp-dos-pairphys");
    proof.pair_phys[0] = proof.merkle_roots.len();
    expect_malformed(&proof, &root, "smp-dos-pairphys", "pair_phys out of range");
}

/// Uniform-8 layout gate (E2 prerequisite): every honest chain is 8 blocks.
/// A tampered non-8 count must be rejected — the global sumcheck's
/// off_i = i·8 node×8×slot layout has no meaning otherwise.
#[test]
fn dos_gate_non_uniform_block_count_rejected() {
    let (mut proof, root) = dos_proof("smp-dos-uniform8");
    assert!(
        proof.merkle_block_counts.iter().all(|&c| c == 8),
        "honest counts must be uniform 8"
    );
    proof.merkle_block_counts[0] = 16;
    expect_malformed(&proof, &root, "smp-dos-uniform8", "non-uniform block count");
}

/// n_phys > u lets junk physical nodes (never referenced by any pair) each
/// cost the verifier a per-phys gate + a pad-forward loop, decoupled from
/// u. Honest n_phys ≤ u; padding the per-phys vectors past u must reject.
#[test]
fn dos_gate_n_phys_inflated_rejected() {
    let (mut proof, root) = dos_proof("smp-dos-nphys");
    // Append junk physical entries (all four per-phys vectors must stay
    // length-consistent so the earlier length gate doesn't fire first).
    let junk_meta = proof.content_metas[0].clone();
    for _ in 0..4 {
        proof.merkle_roots.push([0; 8]);
        proof.merkle_native_roots.push([0; 8]);
        proof.content_metas.push(junk_meta.clone());
        proof.merkle_block_counts.push(proof.merkle_block_counts[0]);
    }
    expect_malformed(&proof, &root, "smp-dos-nphys", "n_phys > u");
}

/// E1 mixed-root surface: pointing a pair at a DIFFERENT physical node's
/// entry swaps the padded root its shift is checked against — the shift
/// replay of its committed chain can no longer reach that root.
#[test]
fn forged_pair_phys_swap_rejected() {
    let (path, _entry) = honest_path_with_entry();
    let (mut proof, root) = prove_and_root(&[path]);
    assert_eq!(proof.merkle_roots.len(), 2, "two physical nodes");
    proof.pair_phys.swap(0, 1);
    let mut chv = Transcript::new("smp-entries");
    let res = verify_sound(&proof, &root, &mut chv);
    assert!(
        res.is_err(),
        "pair→phys table permutation must be rejected, got Ok"
    );
}

/// E1 positive: two paths traversing the SAME physical node toward
/// different children share one physical entry (n_phys < u) and verify.
#[test]
fn shared_physical_node_two_selections_accepts() {
    let node0 = MhotNodeWitness {
        children: vec![[0x11; 32], [0x22; 32]],
        selected_child: 0,
    };
    let node1 = MhotNodeWitness {
        children: vec![[0x11; 32], [0x22; 32]],
        selected_child: 1,
    };
    let i0 = MhotMembershipInput::from_node(node0);
    let i1 = MhotMembershipInput::from_node(node1);
    let root = node_root(&i0);
    let mut ch = Transcript::new("smp-shared-phys");
    let proof = prove_sound(&[vec![i0], vec![i1]], &mut ch);
    assert_eq!(proof.merkle_leaves.len(), 2, "two pairs");
    assert_eq!(proof.merkle_roots.len(), 1, "one shared physical node");
    assert_eq!(proof.pair_phys, vec![0, 0]);
    let mut chv = Transcript::new("smp-shared-phys");
    verify_sound(&proof, &root, &mut chv)
        .expect("two selections of one physical node must verify");
}

/// Entry values are hashed by the verifier; cap their length so a single
/// entry cannot make the verifier hash unbounded attacker data.
#[test]
fn dos_gate_entry_value_oversized_rejected() {
    let (path, mut entry) = honest_path_with_entry();
    let (proof, root) = prove_and_root(&[path]);
    entry.value = vec![0u8; (1 << 20) + 1];
    let mut chv = Transcript::new("smp-entries");
    let res = verify_with_entries(&proof, &root, &[entry], &mut chv);
    assert!(
        matches!(res, Err(MhotMembershipError::MalformedProof { .. })),
        "oversized entry value must be rejected by the length gate, got {res:?}"
    );
}

/// What is proved does not depend on which setups were built before.
#[test]
fn proof_bytes_independent_of_pool_state() {
    let (path, _entry) = honest_path_with_entry();
    let paths = vec![path];

    let mut cache = SetupCache::empty();
    RouteF32Setup::clear_setup_cache(&mut cache);
    let mut ch1 = Transcript::new("smp-pool-ab");
    let p1 = prove_sound_with(&paths, &mut cache, &mut ch1);
    let b1 = format!("{p1:?}");

    let other = two_child_input(0);
    let mut chx = Transcript::new("smp-pool-dirty");
    let _ = prove_sound_with(&[vec![other]], &mut cache, &mut chx);

    let mut ch2 = Transcript::new("smp-pool-ab");
    let p2 = prove_sound_with(&paths, &mut cache, &mut ch2);
    let b2 = format!("{p2:?}");
    assert_eq!(b1, b2, "proof bytes must not depend on pool/cache state");
}

fn synthetic_content(nc: usize) -> ContentMeta {
    ContentMeta {
        extraction_masks: [0x1F; 4],
        sparse_partial_keys: vec![0; nc],
        child_leaf_counts: vec![1; nc],
    }
}

fn words_to_bytes(w: &[u32; 8]) -> [u8; 32] {
    let mut h = [0u8; 32];
    for i in 0..8 {
        h[4 * i..4 * i + 4].copy_from_slice(&w[i].to_be_bytes());
    }
    h
}

fn node_content_hash_bytes(node: &MhotNodeWitness, content: &ContentMeta) -> [u8; 32] {
    let w = mhot_node_to_sha256_merkle(node, false);
    let merkle_root = words_to_bytes(&w.native_root);
    compute_content_hash(content, &merkle_root)
}

/// Public root = content_hash of the root node (chain_content_hashes was
/// deleted; the verifier recomputes content_hash natively).
fn root_of(input: &MhotMembershipInput) -> [u32; 8] {
    let b = node_content_hash_bytes(&input.node, &input.content);
    let mut w = [0u32; 8];
    for i in 0..8 {
        w[i] = u32::from_be_bytes([b[4 * i], b[4 * i + 1], b[4 * i + 2], b[4 * i + 3]]);
    }
    w
}

fn linked_inputs(fanouts: &[usize]) -> Vec<MhotMembershipInput> {
    let depth = fanouts.len();
    let mut inputs_rev = Vec::with_capacity(depth);

    let leaf_children: Vec<[u8; 32]> = (0..fanouts[depth - 1])
        .map(|i| {
            let mut h = [0u8; 32];
            h[0] = i as u8;
            h[1] = 0xAA;
            h
        })
        .collect();
    let leaf_node = MhotNodeWitness {
        children: leaf_children,
        selected_child: 0,
    };
    let leaf_content = synthetic_content(leaf_node.children.len());
    let mut child_content_hash = node_content_hash_bytes(&leaf_node, &leaf_content);
    inputs_rev.push(MhotMembershipInput::from_node(leaf_node));

    for level in (0..depth - 1).rev() {
        let fanout = fanouts[level];
        let selected = 1.min(fanout - 1);
        let mut children: Vec<[u8; 32]> = (0..fanout)
            .map(|i| {
                let mut h = [0u8; 32];
                h[0] = (level * 31 + i * 17) as u8;
                h[1] = level as u8;
                h
            })
            .collect();
        children[selected] = child_content_hash;
        let node = MhotNodeWitness { children, selected_child: selected };
        let content = synthetic_content(node.children.len());
        child_content_hash = node_content_hash_bytes(&node, &content);
        inputs_rev.push(MhotMembershipInput::from_node(node));
    }
    inputs_rev.reverse();
    inputs_rev
}

#[test]
fn sound_multiproof_1_path() {
    let path = linked_inputs(&[8, 4, 2]);
    let paths = vec![path];
    let mut ch = Transcript::new("smp-1path");
    let proof = prove_sound(&paths, &mut ch);
    assert_eq!(proof.path_mapping.node_indices.len(), 1);
    assert_eq!(proof.merkle_leaves.len(), 3);
    let root = root_of(&paths[0][0]);
    let mut chv = Transcript::new("smp-1path");
    let res = verify_sound(&proof, &root, &mut chv);
    match &res {
        Ok(()) => println!("  verify OK"),
        Err(e) => println!("  verify FAILED: {:?}", e),
    }
    res.expect("single path must verify");
}

#[test]
fn sound_multiproof_4_paths_shared() {
    let path = linked_inputs(&[8, 4, 2]);
    let paths = vec![path.clone(), path.clone(), path.clone(), path.clone()];
    let mut ch = Transcript::new("smp-4shared");
    let proof = prove_sound(&paths, &mut ch);
    assert_eq!(proof.path_mapping.node_indices.len(), 4);
    assert_eq!(
        proof.merkle_leaves.len(), 3,
        "4 identical paths should dedup to 3 unique nodes"
    );
    assert_eq!(proof.n_routes, 3);

    let root = root_of(&paths[0][0]);
    let mut chv = Transcript::new("smp-4shared");
    verify_sound(&proof, &root, &mut chv).expect("4 shared paths must verify");
}

#[test]
fn sound_multiproof_tampered_content_hash() {
    let path = linked_inputs(&[8, 4, 2]);
    let paths = vec![path];
    let mut ch = Transcript::new("smp-tamper-ch");
    let mut proof = prove_sound(&paths, &mut ch);
    let root = root_of(&paths[0][0]);
    // content_hash is now verifier-computed from content_metas; tampering a
    // non-root node's metadata changes its computed content_hash and breaks the
    // cross-node binding to the parent's authenticated selected leaf.
    proof.content_metas[1].child_leaf_counts[0] ^= 1;
    let mut chv = Transcript::new("smp-tamper-ch");
    match verify_sound(&proof, &root, &mut chv) {
        Err(MhotMembershipError::CrossNodeBinding { .. }) => {}
        Err(MhotMembershipError::RootMismatch { .. }) => {}
        other => panic!("tampered content_meta must be rejected, got {other:?}"),
    }
}

#[test]
fn sound_multiproof_wrong_root() {
    let path = linked_inputs(&[8, 4, 2]);
    let paths = vec![path];
    let mut ch = Transcript::new("smp-wrong-root");
    let proof = prove_sound(&paths, &mut ch);
    let mut root = root_of(&paths[0][0]);
    root[0] ^= 1;
    let mut chv = Transcript::new("smp-wrong-root");
    match verify_sound(&proof, &root, &mut chv) {
        Err(MhotMembershipError::RootMismatch { .. }) => {}
        other => panic!("wrong root must fail, got {other:?}"),
    }
}

// --- the order of refusals ---

fn accepted() -> SoundReplies {
    SoundReplies {
        merkle_core: Ok(()),
        merkle_shift: true,
        merkle_opening: Ok(()),
        route_core: Ok(()),
        route_opening: Ok(()),
    }
}

#[test]
fn sound_refusals_in_order() {
    let (path, _) = honest_path_with_entry();
    let (proof, root) = prove_and_root(&[path]);
    let mut r = accepted();
    assert_eq!(verify_sound_multiproof(&proof, &root, MIN_N, &r), Ok(()));
    r.route_opening = Err(VerifyError::PcsAb);
    assert_eq!(
        verify_sound_multiproof(&proof, &root, MIN_N, &r),
        Err(MhotMembershipError::RouteOpening(VerifyError::PcsAb))
    );
    r.route_core = Err(VerifyError::Core);
    assert_eq!(
        verify_sound_multiproof(&proof, &root, MIN_N, &r),
        Err(MhotMembershipError::RouteVerify(VerifyError::Core))
    );
    let mut wrong = root;
    wrong[0] ^= 1;
    assert_eq!(
        verify_sound_multiproof(&proof, &wrong, MIN_N, &r),
        Err(MhotMembershipError::RootMismatch { expected: wrong, actual: root })
    );
    r.merkle_opening = Err(VerifyError::PcsAb);
    assert_eq!(
        verify_sound_multiproof(&proof, &root, MIN_N, &r),
        Err(MhotMembershipError::NodeVerify2(VerifyError::PcsAb))
    );
    r.merkle_shift = false;
    assert_eq!(
        verify_sound_multiproof(&proof, &root, MIN_N, &r),
        Err(MhotMembershipError::NodeVerify2(VerifyError::Wiring))
    );
    r.merkle_core = Err(VerifyError::Core);
    assert_eq!(
        verify_sound_multiproof(&proof, &root, MIN_N, &r),
        Err(MhotMembershipError::NodeVerify2(VerifyError::Core))
    );
}

#[test]
fn selected_children_are_recovered() {
    let (path, _) = honest_path_with_entry();
    let (proof, _) = prove_and_root(&[path.clone()]);
    for (level, input) in path.iter().enumerate() {
        let pair = proof.path_mapping.node_indices[0][level];
        assert_eq!(selected_index(&proof, pair), input.node.selected_child);
    }
}

#[test]
fn deduplication_keeps_first_occurrences() {
    let (a, _) = honest_path_with_entry();
    let b = vec![a[0].clone(), two_child_input(1)];
    let d = dedup_paths(&[a.clone(), b, a]);
    assert_eq!(d.occurrences, vec![(0, 0), (0, 1), (1, 1)]);
    assert_eq!(d.node_indices, vec![vec![0, 1], vec![0, 2], vec![0, 1]]);
    assert_eq!(d.pair_phys, vec![0, 1, 2]);
    assert_eq!(d.first_pairs, vec![0, 1, 2]);
}

#[test]
fn node_and_pair_identities() {
    let left = two_child_input(0);
    let right = two_child_input(1);
    assert_eq!(phys_identity(&left), phys_identity(&right));
    assert_ne!(pair_identity(&left), pair_identity(&right));
    let mut other = two_child_input(0);
    other.content.child_leaf_counts[1] = 9;
    assert_ne!(phys_identity(&other), phys_identity(&left));
}

#[test]
fn public_io_binds_each_part() {
    let io = |leaf: u32, side: bool, phys: usize, root: u32, n: usize, routes: usize| {
        absorb_public_io(&[[leaf; 8]], &[vec![side; 8]], &[phys], &[[root; 8]], n, routes)
    };
    let base = io(1, false, 0, 2, 7, 1);
    assert_eq!(base[0], TranscriptOp::Label("mhot-sound-public-io-v0"));
    for other in [
        io(3, false, 0, 2, 7, 1),
        io(1, true, 0, 2, 7, 1),
        io(1, false, 1, 2, 7, 1),
        io(1, false, 0, 3, 7, 1),
        io(1, false, 0, 2, 8, 1),
        io(1, false, 0, 2, 7, 2),
    ] {
        assert_ne!(other, base);
    }
}

// --- a proof out of form ---

#[test]
fn misaligned_parts_have_no_root() {
    let (path, _) = honest_path_with_entry();
    let (proof, root) = prove_and_root(&[path]);
    let spoil: Vec<fn(&mut SoundMultiproof)> = vec![
        |p| p.merkle_leaves.clear(),
        |p| {
            p.merkle_leaves.pop();
        },
        |p| {
            p.content_metas.pop();
        },
        |p| p.content_metas[0].sparse_partial_keys.clear(),
        |p| {
            p.content_metas[0].child_leaf_counts.pop();
        },
        |p| p.content_metas[1].extraction_masks = [u64::MAX; 4],
        |p| p.merkle_block_counts[0] = 3,
        |p| p.path_mapping.node_indices[0].clear(),
        |p| p.path_mapping.node_indices[0][0] = 2,
    ];
    for (i, f) in spoil.iter().enumerate() {
        let mut bad = proof.clone();
        f(&mut bad);
        let r = verify_sound_multiproof(&bad, &root, MIN_N, &accepted());
        assert_eq!(
            r,
            Err(MhotMembershipError::RootMismatch { expected: root, actual: [0; 8] }),
            "spoiled in way {i}"
        );
    }
}

#[test]
fn malformed_parts_name_their_reason() {
    let (path, _) = honest_path_with_entry();
    let (proof, root) = prove_and_root(&[path]);
    let spoil: Vec<(fn(&mut SoundMultiproof), &str)> = vec![
        (|p| p.n_log_merkle = 21, "n_log_merkle over absolute cap"),
        (|p| p.n_routes = 1, "n_routes != unique pair count"),
        (|p| p.merkle_block_counts[1] = 16, "non-uniform merkle block count (expected 8)"),
        (|p| p.pair_phys[1] = 2, "pair_phys index out of range"),
        (
            |p| {
                p.merkle_b_bits[1].pop();
            },
            "b_bits length != 8",
        ),
        (|p| p.n_log_merkle = 6, "n_log_merkle != canonical allocation size"),
    ];
    for (f, why) in spoil {
        let mut bad = proof.clone();
        f(&mut bad);
        let r = verify_sound_multiproof(&bad, &root, MIN_N, &accepted());
        assert_eq!(r, Err(MhotMembershipError::MalformedProof { reason: why }));
    }
}

#[test]
fn entries_are_counted_and_measured_first() {
    let (path, entry) = honest_path_with_entry();
    let (proof, _) = prove_and_root(&[path]);
    assert!(matches!(check_entries_form(&proof, &[entry.clone()]), Ok(())));
    assert!(matches!(
        check_entries_form(&proof, &[]),
        Err(MhotMembershipError::EntryCountMismatch { n_entries: 0, n_paths: 1 })
    ));
    let mut long = entry;
    long.value = vec![0; 0x10_0000];
    assert!(matches!(check_entries_form(&proof, &[long.clone()]), Ok(())));
    long.value.push(0);
    assert!(matches!(
        check_entries_form(&proof, &[long]),
        Err(MhotMembershipError::MalformedProof { reason: "entry value over length cap" })
    ));
}

#[test]
fn paths_and_routes_are_asked_about_their_own_parts() {
    let (path, _) = honest_path_with_entry();
    let (proof, _) = prove_and_root(&[path]);
    let q = path_questions(&proof);
    assert_eq!(q.base.relation, Relation::Sha256 { n_blocks: 1 << proof.n_log_merkle });
    assert_eq!((q.base.zc, q.base.lc), (&proof.merkle_zc, &proof.merkle_lc));
    assert_eq!((q.base.pcs, q.base.commitment), (&proof.merkle_pcs, proof.merkle_commitment));
    assert_eq!(q.base.fork, fork_pcs_challenger("merkle"));
    assert!(q.base.claims.is_empty());
    assert_eq!(q.shift, &proof.merkle_shift);
    let st = shift_statement(&proof);
    assert_eq!(q.statement.leaves, st.leaves);
    assert_eq!(q.statement.roots, st.roots);
    let setup = RouteF32Setup::new(proof.n_routes);
    let q = route_question(&proof, &setup);
    assert_eq!(q.relation, Relation::Route { n: proof.n_routes });
    assert_eq!((q.zc, q.lc), (&proof.route_zc, &proof.route_lc));
    assert_eq!((q.pcs, q.commitment), (&proof.route_pcs, proof.route_commitment));
    assert_eq!(q.claims, leaf_output_claims(&setup, &proof.merkle_leaves));
    assert_eq!(q.fork, fork_pcs_challenger("route"));
}

#[test]
fn no_allocation_is_canonical_below_the_least() {
    let (path, _) = honest_path_with_entry();
    let (proof, root) = prove_and_root(&[path]);
    for min_n in [0x10_0001, 0x40_0001, usize::MAX] {
        assert!(matches!(
            check_form(&proof, &root, min_n),
            Err(MhotMembershipError::MalformedProof {
                reason: "n_log_merkle != canonical allocation size"
            })
        ));
    }
}
