use flock_mhot::backend::{
    Commitment, OpenedCore, R1csClaim, Relation, TranscriptOp, VerifyError, ZClaim,
};
use flock_mhot::content::{check_absence, check_compact_content};
use flock_mhot::hash_only::{
    hash_question, plan_mhot_hash_only, prove_mhot_hash_only, verify_mhot_hash_only,
    MhotHashProof,
};
use flock_mhot::keccak::State;
use flock_mhot::multi_base::{
    self, plan_multi, prove_multi, verify_multi, BaseQuestions, BaseReplies, MhotMultiProof,
};
use flock_mhot::multiproof::{
    self, plan_mhot_multiproof, plan_mhot_multiproof_shared, prove_mhot_multiproof,
    prove_mhot_multiproof_shared, route_witness_identity, transcript_prelude,
    verify_mhot_multiproof, MhotMultiproof, MhotPathInput, MultiproofPlan,
};
use flock_mhot::r1cs::{BlockR1cs, F128};
use flock_mhot::ref_witness::{build_ref_witness, cpu_fold_root, leaf_digest, RefWitness};
use flock_mhot::route_f32::{DIGEST_BITS, FANOUT, K, KEY_BITS};
use flock_mhot::route_f32_setup::{
    generate_witness_with_ab_packed_and_lincheck, prove_route_f32, route_question, verify_route_f32,
    RouteF32Proof,
    RouteF32Setup, RouteF32Witness,
};
use flock_mhot::schedule::MhotHashSchedule;
use flock_mhot::wide_glue::{check_wiring_cpu, compute_atom_outputs};
use sha2::{Digest, Sha256};
use std::collections::HashMap;
use std::time::{Duration, Instant};

const HASH_LABEL: &str = flock_mhot::hash_only::TRANSCRIPT_LABEL;
const ROUTE_LABEL: &str = flock_mhot::route_f32_setup::TRANSCRIPT_LABEL;
const MULTI_LABEL: &str = flock_mhot::multi_base::TRANSCRIPT_LABEL;

// The proof system itself is no part of the library. The tests run it in the
// clear: a proof shows its witness, the commitment is the digest of what is
// shown, and each later part is the digest of the transcript so far. Whoever
// changes a part, or the transcript, is told so; and the verifier checks the
// relation on the witness that it is shown.

#[derive(Clone)]
struct Transcript {
    seen: Sha256,
}

fn digest(bytes: &[u8]) -> [u8; 32] {
    Sha256::digest(bytes).into()
}

impl Transcript {
    fn new(label: &str) -> Self {
        let mut t = Transcript { seen: Sha256::new() };
        t.absorb(label.as_bytes());
        t
    }

    fn absorb(&mut self, bytes: &[u8]) {
        self.seen.update((bytes.len() as u64).to_le_bytes());
        self.seen.update(bytes);
    }

    fn observe(&mut self, ops: &[TranscriptOp]) {
        for op in ops {
            match op {
                TranscriptOp::Label(s) => {
                    self.seen.update([0]);
                    self.absorb(s.as_bytes());
                }
                TranscriptOp::Bytes(b) => {
                    self.seen.update([1]);
                    self.absorb(b);
                }
            }
        }
    }

    fn challenge(&self) -> [u8; 32] {
        self.seen.clone().finalize().into()
    }
}

fn claim_at(point: [u8; 32]) -> R1csClaim {
    let word = |i: usize| u64::from_le_bytes(point[8 * i..8 * i + 8].try_into().unwrap());
    let z = ZClaim {
        z_skip: F128 { lo: word(0), hi: word(1) },
        x_outer: vec![F128 { lo: word(2), hi: word(3) }],
        value: F128 { lo: word(3), hi: word(0) },
    };
    R1csClaim { ab: z.clone(), c: z }
}

struct Core {
    shown: Vec<u8>,
    mark: Vec<u8>,
    commitment: Commitment,
    claim: R1csClaim,
}

fn prove_core(shown: Vec<u8>, t: &mut Transcript) -> Core {
    let commitment = Commitment { root: digest(&shown) };
    t.absorb(&commitment.root);
    let mark = t.challenge();
    Core { shown, mark: mark.to_vec(), commitment, claim: claim_at(mark) }
}

fn open_core(core: Core, t: &Transcript) -> OpenedCore {
    OpenedCore {
        zc_proof: core.shown,
        lc_proof: core.mark,
        pcs_open: t.challenge().to_vec(),
        commitment: core.commitment,
        claim: core.claim,
    }
}

fn verify_core(
    shown: &[u8],
    mark: &[u8],
    commitment: &Commitment,
    t: &mut Transcript,
    holds: bool,
) -> Result<R1csClaim, VerifyError> {
    t.absorb(&commitment.root);
    let c = t.challenge();
    if holds && digest(shown) == commitment.root && mark == &c[..] {
        Ok(claim_at(c))
    } else {
        Err(VerifyError::Core)
    }
}

fn verify_opening(open: &[u8], t: &Transcript) -> Result<(), VerifyError> {
    if open == &t.challenge()[..] {
        Ok(())
    } else {
        Err(VerifyError::PcsAb)
    }
}

// What a proof shows: the distinct items, and for each place the item in it.
fn show(items: &[Vec<u8>]) -> Vec<u8> {
    let mut order: HashMap<&Vec<u8>, u32> = HashMap::new();
    let mut distinct: Vec<&Vec<u8>> = Vec::new();
    let mut places: Vec<u32> = Vec::new();
    for item in items {
        let next = distinct.len() as u32;
        let at = *order.entry(item).or_insert(next);
        if at == next {
            distinct.push(item);
        }
        places.push(at);
    }
    encode(&distinct, &places)
}

fn encode(distinct: &[&Vec<u8>], places: &[u32]) -> Vec<u8> {
    let mut out = (distinct.len() as u32).to_le_bytes().to_vec();
    for item in distinct {
        out.extend_from_slice(&(item.len() as u32).to_le_bytes());
        out.extend_from_slice(item);
    }
    for at in places {
        out.extend_from_slice(&at.to_le_bytes());
    }
    out
}

fn read_u32(bytes: &[u8], at: usize) -> Option<usize> {
    Some(u32::from_le_bytes(bytes.get(at..at + 4)?.try_into().ok()?) as usize)
}

fn read_shown(bytes: &[u8]) -> Option<(Vec<Vec<u8>>, Vec<usize>)> {
    let n = read_u32(bytes, 0)?;
    let mut at = 4;
    let mut distinct = Vec::new();
    for _ in 0..n {
        let len = read_u32(bytes, at)?;
        distinct.push(bytes.get(at + 4..at + 4 + len)?.to_vec());
        at += 4 + len;
    }
    let mut places = Vec::new();
    while at < bytes.len() {
        let p = read_u32(bytes, at)?;
        if p >= n {
            return None;
        }
        places.push(p);
        at += 4;
    }
    Some((distinct, places))
}

// The blocks of a packed witness.
fn blocks_of(z: &[F128], bits_per_block: usize) -> Vec<Vec<u8>> {
    z.chunks(bits_per_block / 128)
        .map(|c| c.iter().flat_map(|e| [e.lo.to_le_bytes(), e.hi.to_le_bytes()].concat()).collect())
        .collect()
}

// Whether the shown blocks are as many as the relation has, satisfy it and
// hold the constant one.
fn blocks_hold(r1cs: &BlockR1cs, shown: &[u8]) -> bool {
    let one_block = BlockR1cs { m: r1cs.k_log, ..r1cs.clone() };
    match read_shown(shown) {
        None => false,
        Some((distinct, places)) => {
            places.len() == r1cs.n_outer()
                && distinct.iter().all(|b| {
                    let z: Vec<bool> =
                        (0..8 * b.len()).map(|i| (b[i >> 3] >> (i & 7)) & 1 == 1).collect();
                    z.len() == r1cs.k()
                        && one_block.satisfies(&z)
                        && r1cs.const_pin.map_or(true, |pin| z[pin])
                })
        }
    }
}

fn proof_len(p: &MhotMultiproof) -> usize {
    p.hash_zc.len() + p.hash_lc.len() + p.hash_pcs.len() + p.route_zc.len() + p.route_lc.len()
        + p.route_pcs.len()
}

fn state_bytes(s: &State) -> Vec<u8> {
    s.chunks(8).map(|c| (0..8).map(|i| (c[i] as u8) << i).sum()).collect()
}

// Every state has a permutation, so the hash relation holds of any states: what
// is left to check is how many are shown.
fn states_hold(n: usize, shown: &[u8]) -> bool {
    match read_shown(shown) {
        None => false,
        Some((distinct, places)) => places.len() == n && distinct.iter().all(|s| s.len() == 200),
    }
}

fn show_states(states: &[State]) -> Vec<u8> {
    show(&states.iter().map(state_bytes).collect::<Vec<_>>())
}

// The blocks of a batch of routes; equal routes are filled once.
fn show_routes(setup: &RouteF32Setup, routes: &[RouteF32Witness]) -> Vec<u8> {
    let mut order: HashMap<Vec<u8>, u32> = HashMap::new();
    let mut blocks: Vec<Vec<u8>> = Vec::new();
    let mut places: Vec<u32> = Vec::new();
    for w in routes {
        let next = blocks.len() as u32;
        let at = *order.entry(route_witness_identity(w)).or_insert(next);
        if at == next {
            let (z, _, _) =
                generate_witness_with_ab_packed_and_lincheck(std::slice::from_ref(w), 0);
            blocks.push(blocks_of(&z, K).remove(0));
        }
        places.push(at);
    }
    let (z, _, _) = generate_witness_with_ab_packed_and_lincheck(&[], 0);
    blocks.push(blocks_of(&z, K).remove(0));
    places.resize(setup.setup_n_instances, blocks.len() as u32 - 1);
    encode(&blocks.iter().collect::<Vec<_>>(), &places)
}

fn prove_hash(sched: &MhotHashSchedule, witness: &RefWitness) -> MhotHashProof {
    let states = plan_mhot_hash_only(sched, witness);
    let mut t = Transcript::new(HASH_LABEL);
    let core = prove_core(show_states(&states), &mut t);
    let mut proof = core.mark.clone();
    proof.extend_from_slice(&core.shown);
    prove_mhot_hash_only(sched, witness, proof, core.commitment, core.claim)
}

fn calls(relation: Relation) -> usize {
    match relation {
        Relation::Keccak { n } => n,
        _ => panic!("not a relation of permutation calls"),
    }
}

fn routes(relation: Relation) -> usize {
    match relation {
        Relation::Route { n } => n,
        _ => panic!("not a relation of routes"),
    }
}

// What the proof system says to the questions about two bases.
fn ask_bases(q: &BaseQuestions<'_>, t: &mut Transcript) -> BaseReplies {
    let setup = RouteF32Setup::new(routes(q.route.relation));
    let (hash, route) = (q.hash.core_question(), q.route.core_question());
    let holds = states_hold(calls(hash.relation), hash.zc);
    let hash_core = verify_core(hash.zc, hash.lc, &hash.commitment, t, holds);
    let holds = blocks_hold(&setup.r1cs, route.zc);
    let route_core = verify_core(route.zc, route.lc, &route.commitment, t, holds);
    BaseReplies {
        hash_core: hash_core.map(|_| ()),
        route_core: route_core.map(|_| ()),
        hash_opening: verify_opening(q.hash.pcs, &forked(t, &q.hash.fork)),
        route_opening: verify_opening(q.route.pcs, &forked(t, &q.route.fork)),
    }
}

fn verify_hash(n_keccaks: usize, proof: &MhotHashProof) -> Result<R1csClaim, VerifyError> {
    let q = hash_question(n_keccaks, proof);
    let mut t = Transcript::new(q.label);
    let (mark, shown) = q.proof.split_at(32);
    let holds = states_hold(calls(q.relation), shown);
    let reply = verify_core(shown, mark, &q.commitment, &mut t, holds);
    verify_mhot_hash_only(n_keccaks, proof, reply)
}

fn prove_routes(setup: &RouteF32Setup, routes: &[RouteF32Witness]) -> RouteF32Proof {
    let mut t = Transcript::new(ROUTE_LABEL);
    let core = prove_core(show_routes(setup, routes), &mut t);
    prove_route_f32(setup, routes, open_core(core, &t))
}

fn verify_routes(setup: &RouteF32Setup, proof: &RouteF32Proof) -> Result<R1csClaim, VerifyError> {
    let q = route_question(setup, proof);
    let mut t = Transcript::new(q.label);
    let holds = blocks_hold(&setup.r1cs, q.base.zc);
    let core = verify_core(q.base.zc, q.base.lc, &q.base.commitment, &mut t, holds);
    let opened = verify_opening(q.base.pcs, &t).is_ok();
    verify_route_f32(setup, proof, core, opened)
}

fn forked(t: &Transcript, ops: &[TranscriptOp]) -> Transcript {
    let mut f = t.clone();
    f.observe(ops);
    f
}

fn prove_both(
    sched: &MhotHashSchedule,
    witness: &RefWitness,
    routes: &[RouteF32Witness],
) -> MhotMultiProof {
    let states = plan_multi(sched, witness, routes);
    let setup = RouteF32Setup::new(routes.len());
    let mut t = Transcript::new(MULTI_LABEL);
    let hash = prove_core(show_states(&states), &mut t);
    let route = prove_core(show_routes(&setup, routes), &mut t);
    let hash = open_core(hash, &forked(&t, &multi_base::fork_pcs_challenger("hash")));
    let route = open_core(route, &forked(&t, &multi_base::fork_pcs_challenger("route")));
    prove_multi(sched, witness, routes, hash, route)
}

fn verify_both(proof: &MhotMultiProof, label: &str) -> Result<(), VerifyError> {
    let q = multi_base::base_questions(proof);
    assert_eq!(q.prelude, vec![TranscriptOp::Label(MULTI_LABEL)]);
    verify_multi(proof, &ask_bases(&q, &mut Transcript::new(label)))
}

fn cores_of(plan: &MultiproofPlan) -> (OpenedCore, OpenedCore) {
    let setup = RouteF32Setup::new(plan.route_witnesses.len());
    let mut t = Transcript::new("");
    t.observe(&plan.prelude);
    let hash = prove_core(show_states(&plan.initial_states), &mut t);
    let route = prove_core(show_routes(&setup, &plan.route_witnesses), &mut t);
    (
        open_core(hash, &forked(&t, &multiproof::fork_pcs_challenger("hash"))),
        open_core(route, &forked(&t, &multiproof::fork_pcs_challenger("route"))),
    )
}

fn prove_paths(paths: &[MhotPathInput]) -> MhotMultiproof {
    let plan = plan_mhot_multiproof(paths);
    let (hash, route) = cores_of(&plan);
    prove_mhot_multiproof(plan, hash, route)
}

fn prove_paths_shared(paths: &[MhotPathInput]) -> MhotMultiproof {
    let plan = plan_mhot_multiproof_shared(paths);
    let (hash, route) = cores_of(&plan);
    prove_mhot_multiproof_shared(plan, hash, route)
}

fn verify_paths(proof: &MhotMultiproof) -> Result<(), VerifyError> {
    let q = multiproof::base_questions(proof);
    let mut t = Transcript::new("");
    t.observe(&q.prelude);
    verify_mhot_multiproof(proof, &ask_bases(&q, &mut t))
}

#[test]
fn prove_verify_roundtrip_smoke() {
    let (elapsed, _) = time_it(|| {
        let sched = MhotHashSchedule::from_fanouts(&[4, 2]);
        let witness = build_ref_witness(&sched, 42);

        let proof = prove_hash(&sched, &witness);
        let result = verify_hash(sched.hash_atoms.len(), &proof);
        assert!(
            result.is_ok(),
            "prove/verify roundtrip must succeed for valid witness"
        );
    });
    println!("prove_verify_roundtrip_smoke elapsed: {elapsed:?}");
}

#[test]
fn prove_verify_with_cpu_cross_check() {
    let (elapsed, _) = time_it(|| {
        let sched = MhotHashSchedule::from_fanouts(&[8, 4, 2]);
        let witness = build_ref_witness(&sched, 99);

        let cpu_root = cpu_fold_root(&sched, &witness.atom_states);
        assert_eq!(
            cpu_root, witness.expected_root,
            "CPU root must match witness root"
        );

        let outputs = compute_atom_outputs(&witness.atom_states);
        let leaf_digests: Vec<[u8; 32]> = {
            let total: usize = sched.fanouts.iter().sum();
            (0..total).map(|i| leaf_digest(99, i)).collect()
        };
        assert!(
            check_wiring_cpu(
                &sched,
                &outputs,
                &witness.atom_states,
                &leaf_digests,
                &witness.expected_root
            )
            .is_ok(),
            "CPU wiring must pass"
        );

        let proof = prove_hash(&sched, &witness);
        let result = verify_hash(sched.hash_atoms.len(), &proof);
        assert!(result.is_ok(), "prove/verify must succeed");
    });
    println!("prove_verify_with_cpu_cross_check elapsed: {elapsed:?}");
}

#[test]
fn different_fanouts_same_shape() {
    let cases = [vec![4, 2], vec![8, 4, 2], vec![16, 8], vec![3, 7, 2]];
    let (elapsed, per_case) = time_it(|| {
        let mut per_case = Vec::new();
        for fanouts in cases {
            let case_start = Instant::now();
            let sched = MhotHashSchedule::from_fanouts(&fanouts);
            let witness = build_ref_witness(&sched, 7);
            let proof = prove_hash(&sched, &witness);
            let result = verify_hash(sched.hash_atoms.len(), &proof);
            assert!(
                result.is_ok(),
                "fanouts {:?} must prove/verify with same keccak3 shape",
                fanouts
            );
            per_case.push((fanouts, case_start.elapsed()));
        }
        per_case
    });
    println!("different_fanouts_same_shape elapsed: {elapsed:?}");
    for (fanouts, case_elapsed) in per_case {
        println!("  fanouts {fanouts:?}: {case_elapsed:?}");
    }
}

fn time_it<T>(f: impl FnOnce() -> T) -> (Duration, T) {
    let start = Instant::now();
    let output = f();
    (start.elapsed(), output)
}

#[test]
fn multi_prove_verify_roundtrip() {
    let start = Instant::now();
    let proof = make_valid_multi_proof();
    verify_both(&proof, MULTI_LABEL).unwrap_or_else(|err| panic!("multi verifier rejected: {err:?}"));
    println!(
        "multi_prove_verify_roundtrip elapsed: {:?}, n_keccaks={}, n_routes={}",
        start.elapsed(),
        proof.n_keccaks,
        proof.n_routes
    );
}

#[test]
fn multi_verify_rejects_wrong_label() {
    let proof = make_valid_multi_proof();
    let err = verify_both(&proof, "mhot-multi-WRONG")
        .expect_err("wrong transcript label must be rejected");
    println!("multi_verify_rejects_wrong_label: {err:?}");
}

#[test]
fn multi_verify_rejects_tampered_commitment() {
    let mut proof = make_valid_multi_proof();
    proof.hash_commitment.root[0] ^= 1;
    let err = verify_both(&proof, MULTI_LABEL).expect_err("tampered hash commitment must be rejected");
    println!("multi_verify_rejects_tampered_commitment: {err:?}");
}

fn make_valid_multi_proof() -> MhotMultiProof {
    let sched = MhotHashSchedule::from_fanouts(&[4, 2]);
    let hash_witness = build_ref_witness(&sched, 42);
    let route_witnesses = route_witnesses_for_schedule(&sched);
    prove_both(&sched, &hash_witness, &route_witnesses)
}

fn route_witnesses_for_schedule(sched: &MhotHashSchedule) -> Vec<RouteF32Witness> {
    sched
        .fanouts
        .iter()
        .enumerate()
        .map(|(node, _)| full_route(node))
        .collect()
}

fn full_route(node: usize) -> RouteF32Witness {
    let mut key = [false; KEY_BITS];
    let mut mask = [false; KEY_BITS];
    key[0] = (node & 1) != 0;
    key[1] = true;
    mask[0] = true;
    mask[1] = true;

    let children: Vec<[bool; DIGEST_BITS]> = (0..FANOUT)
        .map(|child| std::array::from_fn(|bit| ((node * 31 + child * 17 + bit) & 1) != 0))
        .collect();
    RouteF32Witness::new(key, mask, children)
}

// With the two bases swapped the verifier refuses the proof.
#[test]
fn multi_verify_rejects_swapped_base_order() {
    let mut proof = make_valid_multi_proof();
    std::mem::swap(&mut proof.hash_zc, &mut proof.route_zc);
    std::mem::swap(&mut proof.hash_lc, &mut proof.route_lc);
    std::mem::swap(&mut proof.hash_pcs, &mut proof.route_pcs);
    std::mem::swap(&mut proof.hash_commitment, &mut proof.route_commitment);
    std::mem::swap(&mut proof.hash_claim, &mut proof.route_claim);
    verify_both(&proof, MULTI_LABEL).expect_err("swapped base order must be rejected");
}

fn make_path_input(fanouts: &[usize], seed: u64) -> MhotPathInput {
    let sched = MhotHashSchedule::from_fanouts(fanouts);
    let hash_witness = build_ref_witness(&sched, seed);
    let route_witnesses = make_path_routes(&sched);
    MhotPathInput {
        schedule: sched,
        hash_witness,
        route_witnesses,
    }
}

fn make_path_routes(sched: &MhotHashSchedule) -> Vec<RouteF32Witness> {
    sched
        .fanouts
        .iter()
        .enumerate()
        .map(|(node, &fanout)| {
            let mut key = [false; KEY_BITS];
            let mut mask = [false; KEY_BITS];
            key[0] = (node & 1) != 0;
            key[1] = true;
            mask[0] = true;
            mask[1] = true;
            let children: Vec<[bool; DIGEST_BITS]> = (0..fanout.min(FANOUT))
                .map(|c| std::array::from_fn(|b| ((node * 31 + c * 17 + b) & 1) != 0))
                .collect();
            RouteF32Witness::new_padded(key, mask, &children, fanout.min(FANOUT))
        })
        .collect()
}

fn make_same_root_paths(n_paths: usize, fanouts: &[usize]) -> Vec<MhotPathInput> {
    let first = make_path_input(fanouts, 42);
    let mut paths: Vec<MhotPathInput> = (1..n_paths)
        .map(|_| MhotPathInput {
            schedule: MhotHashSchedule::from_fanouts(fanouts),
            hash_witness: RefWitness {
                atom_states: first.hash_witness.atom_states.clone(),
                expected_root: first.hash_witness.expected_root,
            },
            route_witnesses: first.route_witnesses.clone(),
        })
        .collect();
    paths.push(first);
    paths
}

#[test]
fn multiproof_single_path_roundtrip() {
    let paths = make_same_root_paths(1, &[4, 2]);
    let proof = prove_paths(&paths);
    assert_eq!(proof.n_paths, 1);
    verify_paths(&proof).expect("single-path multiproof must verify");
}

#[test]
fn multi_path_roundtrip() {
    let paths = make_same_root_paths(4, &[4, 2]);
    let proof = prove_paths(&paths);
    assert_eq!(proof.n_paths, 4);
    verify_paths(&proof).expect("4-path multiproof must verify");
}

#[test]
fn rejects_tampered_commitment() {
    let paths = make_same_root_paths(2, &[4, 2]);
    let mut proof = prove_paths(&paths);
    proof.hash_commitment.root[0] ^= 1;
    verify_paths(&proof).expect_err("tampered commitment must fail");
}

#[test]
fn rejects_tampered_root() {
    let paths = make_same_root_paths(2, &[4, 2]);
    let mut proof = prove_paths(&paths);
    proof.root[0] ^= 1;
    verify_paths(&proof).expect_err("tampered root must fail");
}

// --- positive controls ---

#[test]
fn mhot_multiproof_single_path_roundtrip() {
    let paths = make_same_root_paths(1, &[4, 2]);
    let proof = prove_paths(&paths);
    verify_paths(&proof).expect("single path must verify");
}

#[test]
fn four_path_roundtrip() {
    let paths = make_same_root_paths(4, &[8, 4, 2]);
    let proof = prove_paths(&paths);
    assert_eq!(proof.n_paths, 4);
    verify_paths(&proof).expect("4-path multiproof must verify");
}

#[test]
fn various_fanout_shapes() {
    for fanouts in &[
        vec![4, 2],
        vec![8, 4, 2],
        vec![16, 8],
        vec![3, 7, 2],
    ] {
        let paths = make_same_root_paths(2, fanouts);
        let proof = prove_paths(&paths);
        verify_paths(&proof)
            .unwrap_or_else(|e| panic!("fanouts {fanouts:?} failed: {e:?}"));
    }
}

// --- negative controls ---

#[test]
fn neg_tampered_sibling_digest() {
    let paths = make_same_root_paths(2, &[4, 2]);
    let mut proof = prove_paths(&paths);
    proof.hash_commitment.root[3] ^= 0xFF;
    verify_paths(&proof)
        .expect_err("tampered sibling digest (commitment) must be rejected");
}

#[test]
fn neg_wrong_root() {
    let paths = make_same_root_paths(2, &[4, 2]);
    let mut proof = prove_paths(&paths);
    proof.root[0] ^= 1;
    verify_paths(&proof).expect_err("wrong root must be rejected");
}

#[test]
fn neg_tampered_route_commitment() {
    let paths = make_same_root_paths(2, &[4, 2]);
    let mut proof = prove_paths(&paths);
    proof.route_commitment.root[0] ^= 1;
    verify_paths(&proof)
        .expect_err("tampered route commitment must be rejected");
}

// --- scaling benchmark ---

#[test]
fn bench_multiproof_scaling() {
    let fanouts = &[8, 4, 2];
    for n_paths in [1, 4, 16, 64] {
        let paths = make_same_root_paths(n_paths, fanouts);

        let t0 = Instant::now();
        let proof = prove_paths(&paths);
        let prove_ms = t0.elapsed().as_millis();

        let t1 = Instant::now();
        verify_paths(&proof).expect("benchmark proof must verify");
        let verify_ms = t1.elapsed().as_millis();

        println!(
            "BENCH n_paths={:>3} | keccaks={:>5} routes={:>4} | prove={:>6}ms verify={:>5}ms | per_path_prove={:>5}ms",
            n_paths,
            proof.n_keccaks,
            proof.n_routes,
            prove_ms,
            verify_ms,
            prove_ms / n_paths as u128,
        );
    }
}

#[test]
fn flock_multiproof_full_scaling() {
    let fanouts = &[8, 4, 2];
    println!();
    println!("=== Flock MHOT Multiproof Scaling (keccak3, x86) ===");
    println!("{:>8} {:>10} {:>10} {:>10} {:>10} {:>10}",
        "n_paths", "prove_ms", "verify_ms", "total_ms", "per_path", "proof_KB");
    println!("{}", "-".repeat(66));

    for &n_paths in &[1, 2, 4, 8, 16, 32, 64, 128, 512, 1024, 2048, 4096, 8192, 16384, 32768] {
        let paths = make_same_root_paths(n_paths, fanouts);

        let t0 = Instant::now();
        let proof = prove_paths(&paths);
        let prove_ms = t0.elapsed().as_secs_f64() * 1e3;

        let t1 = Instant::now();
        verify_paths(&proof).expect("must verify");
        let verify_ms = t1.elapsed().as_secs_f64() * 1e3;

        let proof_kb = proof_len(&proof) as f64 / 1024.0;
        let total = prove_ms + verify_ms;
        println!("{:>8} {:>10.1} {:>10.1} {:>10.1} {:>9.3} {:>9.1}",
            n_paths, prove_ms, verify_ms, total, total / n_paths as f64, proof_kb);
    }
}

#[test]
fn profile_verify_16k() {
    let fanouts = &[8, 4, 2];
    let n_paths = 16384;
    let paths = make_same_root_paths(n_paths, fanouts);
    let proof = prove_paths(&paths);

    verify_paths(&proof).expect("must verify");

    let iterations = 100;
    let t0 = Instant::now();
    for _ in 0..iterations {
        verify_paths(&proof).expect("must verify");
    }
    let total_ms = t0.elapsed().as_secs_f64() * 1e3;
    println!("verify 16384 paths × {iterations}: {total_ms:.0}ms total, {:.1}ms/iter",
        total_ms / iterations as f64);
}

#[test]
fn profile_verify_breakdown() {
    let fanouts = &[8, 4, 2];
    for &n_paths in &[1, 16, 256, 4096, 16384] {
        let paths = make_same_root_paths(n_paths, fanouts);
        let proof = prove_paths(&paths);

        // warmup
        verify_paths(&proof).expect("warmup");

        println!("--- n_paths={n_paths} ---");
        verify_paths(&proof).expect("must verify");
    }
}

// --- wiring topology binding ---

#[test]
fn wiring_binding_rejects_tampered_fanouts() {
    let paths = make_same_root_paths(2, &[4, 2]);
    let mut proof = prove_paths(&paths);
    proof.fanouts[0][0] = 5;
    verify_paths(&proof)
        .expect_err("tampered fanouts must be rejected");
}

#[test]
fn wiring_binding_rejects_extra_path_fanouts() {
    let paths = make_same_root_paths(2, &[4, 2]);
    let mut proof = prove_paths(&paths);
    proof.fanouts.push(vec![8, 4]);
    verify_paths(&proof)
        .expect_err("extra path fanouts must be rejected");
}

#[test]
fn wiring_binding_rejects_removed_path_fanouts() {
    let paths = make_same_root_paths(2, &[4, 2]);
    let mut proof = prove_paths(&paths);
    proof.fanouts.pop();
    verify_paths(&proof)
        .expect_err("removed path fanouts must be rejected");
}

#[test]
fn wiring_binding_shared_rejects_tampered_fanouts() {
    let paths = make_same_root_paths(4, &[8, 4, 2]);
    let mut proof = prove_paths_shared(&paths);
    proof.fanouts[1][1] = 7;
    verify_paths(&proof)
        .expect_err("shared proof with tampered fanouts must be rejected");
}

// --- content soundness (in-circuit mask/key checks) ---

#[test]
fn content_non_compact_mask_verify_fails() {
    let sched = MhotHashSchedule::from_fanouts(&[4, 2]);
    let hash_witness = build_ref_witness(&sched, 42);
    let mut rws = make_path_routes(&sched);
    rws[0].mask = [false; 256];
    rws[0].mask[0] = true;
    rws[0].mask[2] = true;
    rws[0].key = [false; 256];
    let paths = vec![MhotPathInput { schedule: sched, hash_witness, route_witnesses: rws }];
    let proof = prove_paths(&paths);
    verify_paths(&proof)
        .expect_err("non-compact mask must fail R1CS verification");
}

#[test]
fn content_key_above_mask_verify_fails() {
    let sched = MhotHashSchedule::from_fanouts(&[4, 2]);
    let hash_witness = build_ref_witness(&sched, 42);
    let mut rws = make_path_routes(&sched);
    let popcount = rws[0].mask.iter().filter(|&&b| b).count();
    rws[0].key[popcount + 10] = true;
    let paths = vec![MhotPathInput { schedule: sched, hash_witness, route_witnesses: rws }];
    let proof = prove_paths(&paths);
    verify_paths(&proof)
        .expect_err("key above mask must fail R1CS verification");
}

// --- path sharing (DAG dedup) ---

#[test]
fn path_sharing_reduces_atoms() {
    let fanouts = &[8, 4, 2];
    let n = 16;
    let paths = make_same_root_paths(n, fanouts);

    let proof_dup = prove_paths(&paths);
    let proof_shared = prove_paths_shared(&paths);

    assert!(
        proof_shared.n_keccaks < proof_dup.n_keccaks,
        "shared ({}) must have fewer keccaks than duplicated ({})",
        proof_shared.n_keccaks,
        proof_dup.n_keccaks,
    );
    assert!(
        proof_shared.n_routes < proof_dup.n_routes,
        "shared ({}) must have fewer routes than duplicated ({})",
        proof_shared.n_routes,
        proof_dup.n_routes,
    );
    assert_eq!(proof_shared.n_paths, n);

    verify_paths(&proof_dup).expect("duplicated proof must verify");
    verify_paths(&proof_shared).expect("shared proof must verify");
}

#[test]
fn path_sharing_proof_is_smaller() {
    let fanouts = &[8, 4, 2];
    let n = 16;
    let paths = make_same_root_paths(n, fanouts);

    let proof_dup = prove_paths(&paths);
    let proof_shared = prove_paths_shared(&paths);

    assert!(
        proof_shared.n_keccaks < proof_dup.n_keccaks,
        "shared proof ({} keccaks) must have fewer atoms than duplicated ({} keccaks)",
        proof_shared.n_keccaks,
        proof_dup.n_keccaks,
    );
}

#[test]
fn path_sharing_neg_tampered_root() {
    let fanouts = &[8, 4, 2];
    let paths = make_same_root_paths(4, fanouts);
    let mut proof = prove_paths_shared(&paths);
    proof.root[0] ^= 1;
    verify_paths(&proof).expect_err("tampered root on shared proof must fail");
}

#[test]
fn path_sharing_single_path_identical() {
    let fanouts = &[8, 4, 2];
    let paths = make_same_root_paths(1, fanouts);

    let proof_dup = prove_paths(&paths);
    let proof_shared = prove_paths_shared(&paths);

    assert_eq!(proof_shared.n_keccaks, proof_dup.n_keccaks);
    assert_eq!(proof_shared.n_routes, proof_dup.n_routes);
    verify_paths(&proof_shared).expect("single-path shared must verify");
}

#[test]
fn path_sharing_various_fanout_shapes() {
    for fanouts in &[
        vec![4, 2],
        vec![8, 4, 2],
        vec![16, 8],
        vec![3, 7, 2],
    ] {
        let paths = make_same_root_paths(4, fanouts);
        let proof = prove_paths_shared(&paths);
        verify_paths(&proof)
            .unwrap_or_else(|e| panic!("shared fanouts {fanouts:?} failed: {e:?}"));
    }
}

#[test]
fn path_sharing_ab_benchmark() {
    let fanouts = &[8, 4, 2];
    println!();
    println!("=== Path Sharing A/B Benchmark ===");
    println!(
        "{:>8} {:>12} {:>8} {:>12} {:>8} {:>8} {:>8}",
        "n_paths", "dup_ms", "dup_k", "shared_ms", "shared_k", "speedup", "k_ratio"
    );
    println!("{}", "-".repeat(78));

    for &n in &[4, 16, 64, 256] {
        let paths = make_same_root_paths(n, fanouts);

        let t0 = Instant::now();
        let proof_dup = prove_paths(&paths);
        let dup_ms = t0.elapsed().as_secs_f64() * 1e3;

        let t1 = Instant::now();
        let proof_shared = prove_paths_shared(&paths);
        let shared_ms = t1.elapsed().as_secs_f64() * 1e3;

        verify_paths(&proof_dup).expect("dup must verify");
        verify_paths(&proof_shared).expect("shared must verify");

        println!(
            "{:>8} {:>12.1} {:>8} {:>12.1} {:>8} {:>7.2}x {:>7.2}x",
            n,
            dup_ms,
            proof_dup.n_keccaks,
            shared_ms,
            proof_shared.n_keccaks,
            dup_ms / shared_ms,
            proof_dup.n_keccaks as f64 / proof_shared.n_keccaks as f64,
        );
    }
}

// With the two bases swapped the verifier refuses the proof.
#[test]
fn rejects_swapped_bases() {
    let paths = make_same_root_paths(2, &[4, 2]);
    let mut proof = prove_paths(&paths);
    std::mem::swap(&mut proof.hash_zc, &mut proof.route_zc);
    std::mem::swap(&mut proof.hash_lc, &mut proof.route_lc);
    std::mem::swap(&mut proof.hash_pcs, &mut proof.route_pcs);
    std::mem::swap(&mut proof.hash_commitment, &mut proof.route_commitment);
    std::mem::swap(&mut proof.hash_claim, &mut proof.route_claim);
    verify_paths(&proof).expect_err("swapped bases must be rejected");
}

/// End-to-end membership: hash, wiring, content, count, and prove/verify.
#[test]
fn membership_end_to_end() {
    let sched = MhotHashSchedule::from_fanouts(&[4, 2]);
    let witness = build_ref_witness(&sched, 42);

    let cpu_root = cpu_fold_root(&sched, &witness.atom_states);
    assert_eq!(cpu_root, witness.expected_root);

    let outputs = compute_atom_outputs(&witness.atom_states);
    let leaf_digests = make_leaf_digests(&sched, 42);
    assert!(check_wiring_cpu(
        &sched,
        &outputs,
        &witness.atom_states,
        &leaf_digests,
        &witness.expected_root,
    )
    .is_ok());

    let (key, mask) = compact_key_and_mask();
    assert!(check_compact_content(&key, &mask).is_ok());

    let proof = prove_hash(&sched, &witness);
    assert!(verify_hash(sched.hash_atoms.len(), &proof).is_ok());
}

/// Negative: tamper root, CPU wiring oracle rejects.
#[test]
fn membership_tampered_root_rejected() {
    let sched = MhotHashSchedule::from_fanouts(&[4, 2]);
    let witness = build_ref_witness(&sched, 42);
    let outputs = compute_atom_outputs(&witness.atom_states);
    let leaves = make_leaf_digests(&sched, 42);

    let mut bad_root = witness.expected_root;
    bad_root[0] ^= 1;

    assert!(
        check_wiring_cpu(&sched, &outputs, &witness.atom_states, &leaves, &bad_root).is_err()
    );
}

/// Negative: non-compact mask, content oracle rejects.
#[test]
fn membership_non_compact_mask_rejected() {
    let key = [false; 256];
    let mut mask = [false; 256];
    mask[0] = true;
    mask[2] = true;

    assert!(check_compact_content(&key, &mask).is_err());
}

/// Absence: valid case.
#[test]
fn absence_valid() {
    let mut query = [false; 256];
    let leaf = [false; 256];
    query[0] = true;

    assert!(check_absence(&query, &leaf).is_ok());
}

/// Absence negative: query key equals leaf key.
#[test]
fn absence_equal_keys_rejected() {
    let key = [false; 256];

    assert!(check_absence(&key, &key).is_err());
}

/// Standalone F_route roundtrip in the acceptance suite.
#[test]
fn route_membership_roundtrip() {
    let sched = MhotHashSchedule::from_fanouts(&[4, 2]);
    let route_witnesses: Vec<RouteF32Witness> =
        (0..sched.fanouts.len()).map(four_child_route).collect();
    let setup = RouteF32Setup::new(route_witnesses.len());

    let proof = prove_routes(&setup, &route_witnesses);

    assert!(verify_routes(&setup, &proof).is_ok());
}

/// Multi-base roundtrip: F_hash and F_route in one transcript.
#[test]
fn multi_base_membership_roundtrip() {
    let sched = MhotHashSchedule::from_fanouts(&[4, 2]);
    let witness = build_ref_witness(&sched, 7);
    let route_witnesses: Vec<RouteF32Witness> = sched.fanouts.iter().enumerate()
        .map(|(node, _)| {
            let mut key = [false; KEY_BITS];
            let mut mask = [false; KEY_BITS];
            key[0] = (node & 1) != 0;
            key[1] = true;
            mask[0] = true;
            mask[1] = true;
            let children: Vec<[bool; DIGEST_BITS]> = (0..4)
                .map(|c| std::array::from_fn(|b| ((node * 31 + c * 17 + b) & 1) != 0))
                .collect();
            RouteF32Witness::new_padded(key, mask, &children, 4)
        })
        .collect();

    let proof = prove_both(&sched, &witness, &route_witnesses);

    assert!(verify_both(&proof, MULTI_LABEL).is_ok());
}

fn make_leaf_digests(sched: &MhotHashSchedule, seed: u64) -> Vec<[u8; 32]> {
    let total_leaves: usize = sched.fanouts.iter().sum();
    (0..total_leaves).map(|i| leaf_digest(seed, i)).collect()
}

fn compact_key_and_mask() -> ([bool; 256], [bool; 256]) {
    let mut key = [false; 256];
    let mut mask = [false; 256];
    mask[0] = true;
    mask[1] = true;
    key[1] = true;
    (key, mask)
}

fn four_child_route(node: usize) -> RouteF32Witness {
    let mut key = [false; KEY_BITS];
    let mut mask = [false; KEY_BITS];
    key[0] = (node & 1) != 0;
    key[1] = true;
    mask[0] = true;
    mask[1] = true;

    let children: Vec<[bool; DIGEST_BITS]> = (0..4)
        .map(|child| std::array::from_fn(|bit| ((node * 31 + child * 17 + bit) & 1) != 0))
        .collect();

    RouteF32Witness::new_padded(key, mask, &children, 4)
}

#[test]
fn profile_mhot_prove_phases() {
    let sched = MhotHashSchedule::from_fanouts(&[28, 24, 22, 16, 8]);
    let witness = build_ref_witness(&sched, 42);
    let n_keccaks = sched.hash_atoms.len();
    let setup_n = n_keccaks.max(49);
    let initial_states = plan_mhot_hash_only(&sched, &witness);
    assert_eq!(initial_states.len(), setup_n);
    // Warmup
    {
        let mut ch = Transcript::new("warmup");
        let _ = prove_core(show_states(&initial_states), &mut ch);
    }
    // 3 timed runs
    for run in 0..3 {
        let mut ch = Transcript::new("profile");
        let t0 = Instant::now();
        let _ = prove_core(show_states(&initial_states), &mut ch);
        println!("RUN {} total={:.1}ms", run, t0.elapsed().as_secs_f64() * 1e3);
    }
}

// --- the order of refusals, and what the plans hold ---

fn all_well() -> BaseReplies {
    BaseReplies { hash_core: Ok(()), route_core: Ok(()), hash_opening: Ok(()), route_opening: Ok(()) }
}

#[test]
fn first_refusal_decides() {
    let proof = make_valid_multi_proof();
    assert_eq!(verify_multi(&proof, &all_well()), Ok(()));
    let mut replies = all_well();
    replies.route_opening = Err(VerifyError::Wiring);
    assert_eq!(verify_multi(&proof, &replies), Err(VerifyError::Wiring));
    replies.hash_opening = Err(VerifyError::PcsAb);
    assert_eq!(verify_multi(&proof, &replies), Err(VerifyError::PcsAb));
    replies.route_core = Err(VerifyError::Wiring);
    assert_eq!(verify_multi(&proof, &replies), Err(VerifyError::Wiring));
    replies.hash_core = Err(VerifyError::Core);
    assert_eq!(verify_multi(&proof, &replies), Err(VerifyError::Core));
    let paths = make_same_root_paths(1, &[4, 2]);
    assert_eq!(verify_mhot_multiproof(&prove_paths(&paths), &replies), Err(VerifyError::Core));
}

#[test]
fn hash_plan_holds_the_atoms_and_zero_states() {
    let sched = MhotHashSchedule::from_fanouts(&[4, 2]);
    let witness = build_ref_witness(&sched, 42);
    let states = plan_mhot_hash_only(&sched, &witness);
    assert_eq!(states.len(), 49);
    for (i, bytes) in witness.atom_states.iter().enumerate() {
        assert_eq!(states[i], flock_mhot::ref_witness::bytes_to_logical_state(bytes));
    }
    assert!(states[2..].iter().all(|s| s.iter().all(|b| !b)));
    let proof = prove_hash(&sched, &witness);
    assert_eq!((proof.n_keccaks, proof.setup_n_keccaks), (2, 49));
    assert_eq!(proof.expected_root, witness.expected_root);
}

// Four equal paths of five atoms and three nodes.
#[test]
fn shared_plan_counts_distinct_atoms_and_routes() {
    let paths = make_same_root_paths(4, &[8, 4, 2]);
    let plain = plan_mhot_multiproof(&paths);
    assert_eq!((plain.n_keccaks, plain.route_witnesses.len(), plain.n_paths), (20, 12, 4));
    let shared = plan_mhot_multiproof_shared(&paths);
    assert_eq!((shared.n_keccaks, shared.route_witnesses.len(), shared.n_paths), (5, 3, 4));
    assert_eq!(shared.initial_states.len(), 49);
    assert_eq!(shared.root, plain.root);
    assert_eq!(shared.fanouts, vec![vec![8, 4, 2]; 4]);
    // One path more that is there already adds no atom and no route.
    let more = plan_mhot_multiproof_shared(&make_same_root_paths(5, &[8, 4, 2]));
    assert_eq!((more.n_keccaks, more.route_witnesses.len(), more.n_paths), (5, 3, 5));
}

#[test]
fn route_identity_tells_routes_apart() {
    let w = full_route(0);
    let id = route_witness_identity(&w);
    assert_eq!(route_witness_identity(&w.clone()), id);
    let mut key = w.clone();
    key.key[255] = !key.key[255];
    let mut mask = w.clone();
    mask.mask[9] = !mask.mask[9];
    let mut child = w.clone();
    child.children[31][255] = !child.children[31][255];
    for other in [key, mask, child] {
        assert_ne!(route_witness_identity(&other), id);
    }
}

#[test]
fn prelude_binds_root_and_topology() {
    let f = |v: &[&[usize]]| v.iter().map(|p| p.to_vec()).collect::<Vec<Vec<usize>>>();
    let base = transcript_prelude(&[1; 32], &f(&[&[4, 2], &[4, 2]]));
    assert_eq!(base[0], TranscriptOp::Label("mhot-multiproof-v0"));
    assert_eq!(base[1], TranscriptOp::Bytes(vec![1; 32]));
    assert_eq!(base[2..], multiproof::observe_wiring_topology(&f(&[&[4, 2], &[4, 2]]))[..]);
    for other in [
        transcript_prelude(&[2; 32], &f(&[&[4, 2], &[4, 2]])),
        transcript_prelude(&[1; 32], &f(&[&[4, 2]])),
        transcript_prelude(&[1; 32], &f(&[&[4, 2, 4, 2]])),
        transcript_prelude(&[1; 32], &f(&[&[4], &[2, 4, 2]])),
        transcript_prelude(&[1; 32], &f(&[&[4, 2], &[2, 4]])),
    ] {
        assert_ne!(other, base);
    }
}

#[test]
fn openings_are_forked_by_base() {
    assert_eq!(
        multi_base::fork_pcs_challenger("hash"),
        vec![TranscriptOp::Label("mhot-multi-pcs-fork-v0"), TranscriptOp::Label("hash")]
    );
    assert_eq!(
        multiproof::fork_pcs_challenger("route"),
        vec![TranscriptOp::Label("mhot-multiproof-pcs-fork-v0"), TranscriptOp::Label("route")]
    );
}

#[test]
fn bases_are_asked_about_their_own_parts() {
    let proof = make_valid_multi_proof();
    let q = multi_base::base_questions(&proof);
    assert_eq!(q.hash.relation, Relation::Keccak { n: proof.n_keccaks.max(49) });
    assert_eq!(q.route.relation, Relation::Route { n: proof.n_routes });
    assert_eq!(q.hash.zc, &proof.hash_zc);
    assert_eq!(q.hash.lc, &proof.hash_lc);
    assert_eq!(q.hash.pcs, &proof.hash_pcs);
    assert_eq!(q.hash.commitment, proof.hash_commitment);
    assert_eq!(q.route.zc, &proof.route_zc);
    assert_eq!(q.route.lc, &proof.route_lc);
    assert_eq!(q.route.pcs, &proof.route_pcs);
    assert_eq!(q.route.commitment, proof.route_commitment);
    assert_eq!(q.hash.fork, multi_base::fork_pcs_challenger("hash"));
    assert_eq!(q.route.fork, multi_base::fork_pcs_challenger("route"));
    let core = q.route.core_question();
    assert_eq!((core.relation, core.zc), (q.route.relation, q.route.zc));
    let opening = q.route.opening_question(&proof.route_claim);
    assert_eq!(opening.left_open, &proof.route_claim);
    assert_eq!((opening.pcs, opening.fork), (q.route.pcs, &q.route.fork));
    assert!(opening.claims.is_empty());
}

#[test]
fn many_paths_are_asked_under_their_root_and_shape() {
    let paths = make_same_root_paths(2, &[4, 2]);
    let proof = prove_paths(&paths);
    let q = multiproof::base_questions(&proof);
    assert_eq!(q.prelude, transcript_prelude(&proof.root, &proof.fanouts));
    assert_eq!(q.hash.relation, Relation::Keccak { n: 49 });
    assert_eq!(q.hash.fork, multiproof::fork_pcs_challenger("hash"));
    assert_eq!(q.route.relation, Relation::Route { n: proof.n_routes });
    assert_eq!((q.route.zc, q.route.pcs), (&proof.route_zc, &proof.route_pcs));
    assert_eq!((q.hash.zc, q.hash.pcs), (&proof.hash_zc, &proof.hash_pcs));
}

#[test]
fn calls_are_asked_as_one_proof() {
    let sched = MhotHashSchedule::from_fanouts(&[4, 2]);
    let witness = build_ref_witness(&sched, 42);
    let proof = prove_hash(&sched, &witness);
    let q = hash_question(2, &proof);
    assert_eq!(q.label, "mhot-hash-only-v0");
    assert_eq!(q.relation, Relation::Keccak { n: 49 });
    assert_eq!(q.proof, &proof.proof);
    assert_eq!(q.commitment, proof.commitment);
    assert_eq!(proof.expected_root, witness.expected_root);
}
