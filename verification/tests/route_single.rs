use flock_mhot::backend::{
    Commitment, OpenedCore, R1csClaim, Relation, TranscriptOp, VerifyError, ZClaim,
};
use flock_mhot::r1cs::{BlockR1cs, F128};
use flock_mhot::route_single::{
    build_block_r1cs, build_matrices_single, build_node_witnesses, fill_block_witness_single,
    generate_witness_with_ab_packed_and_lincheck, prove_route_single, step_question,
    verify_route_single, RouteSingleProof, RouteSingleSetup, RouteSingleWitness, CHILD_DIGEST_BASE, CHILD_INDEX_BASE,
    DIGEST_BITS, EXTRACTED_BASE, FOUND_IN_POS, FOUND_OUT_POS, K, KEY_BASE, KEY_BITS, K_LOG,
    MASK_BASE, MATCH_AUX_BASE, MATCH_RESULT_POS, MIN_LIGERITO_INSTANCES, MIN_LIGERITO_M,
    MUX_DELTA_BASE, SELECTED_IN_BASE, SELECTED_OUT_BASE, TAKE_POS, TRANSCRIPT_LABEL, U64_PER_BLOCK,
    USEFUL_BITS, W_MAX, Z_CONST_POS,
};
use sha2::{Digest, Sha256};
use std::collections::HashMap;
use std::time::{Duration, Instant};

// The proof system itself is no part of the library. The tests run it in the
// clear: a proof shows its witness, the commitment is the digest of what is
// shown, and each later part is the digest of the transcript so far. Whoever
// changes a part, or the transcript, is told so; and the verifier checks the
// relation on the witness that it is shown.

#[derive(Clone)]
struct Transcript {
    seen: Sha256,
}

fn digest(bytes: &[u8]) -> [u8; 32] {
    Sha256::digest(bytes).into()
}

impl Transcript {
    fn new(label: &str) -> Self {
        let mut t = Transcript { seen: Sha256::new() };
        t.absorb(label.as_bytes());
        t
    }

    fn absorb(&mut self, bytes: &[u8]) {
        self.seen.update((bytes.len() as u64).to_le_bytes());
        self.seen.update(bytes);
    }

    fn observe(&mut self, ops: &[TranscriptOp]) {
        for op in ops {
            match op {
                TranscriptOp::Label(s) => {
                    self.seen.update([0]);
                    self.absorb(s.as_bytes());
                }
                TranscriptOp::Bytes(b) => {
                    self.seen.update([1]);
                    self.absorb(b);
                }
            }
        }
    }

    fn challenge(&self) -> [u8; 32] {
        self.seen.clone().finalize().into()
    }
}

fn claim_at(point: [u8; 32]) -> R1csClaim {
    let word = |i: usize| u64::from_le_bytes(point[8 * i..8 * i + 8].try_into().unwrap());
    let z = ZClaim {
        z_skip: F128 { lo: word(0), hi: word(1) },
        x_outer: vec![F128 { lo: word(2), hi: word(3) }],
        value: F128 { lo: word(3), hi: word(0) },
    };
    R1csClaim { ab: z.clone(), c: z }
}

struct Core {
    shown: Vec<u8>,
    mark: Vec<u8>,
    commitment: Commitment,
    claim: R1csClaim,
}

fn prove_core(shown: Vec<u8>, t: &mut Transcript) -> Core {
    let commitment = Commitment { root: digest(&shown) };
    t.absorb(&commitment.root);
    let mark = t.challenge();
    Core { shown, mark: mark.to_vec(), commitment, claim: claim_at(mark) }
}

fn open_core(core: Core, t: &Transcript) -> OpenedCore {
    OpenedCore {
        zc_proof: core.shown,
        lc_proof: core.mark,
        pcs_open: t.challenge().to_vec(),
        commitment: core.commitment,
        claim: core.claim,
    }
}

fn verify_core(
    shown: &[u8],
    mark: &[u8],
    commitment: &Commitment,
    t: &mut Transcript,
    holds: bool,
) -> Result<R1csClaim, VerifyError> {
    t.absorb(&commitment.root);
    let c = t.challenge();
    if holds && digest(shown) == commitment.root && mark == &c[..] {
        Ok(claim_at(c))
    } else {
        Err(VerifyError::Core)
    }
}

fn verify_opening(open: &[u8], t: &Transcript) -> Result<(), VerifyError> {
    if open == &t.challenge()[..] {
        Ok(())
    } else {
        Err(VerifyError::PcsAb)
    }
}

// What a proof shows: the distinct items, and for each place the item in it.
fn show(items: &[Vec<u8>]) -> Vec<u8> {
    let mut order: HashMap<&Vec<u8>, u32> = HashMap::new();
    let mut distinct: Vec<&Vec<u8>> = Vec::new();
    let mut places: Vec<u32> = Vec::new();
    for item in items {
        let next = distinct.len() as u32;
        let at = *order.entry(item).or_insert(next);
        if at == next {
            distinct.push(item);
        }
        places.push(at);
    }
    encode(&distinct, &places)
}

fn encode(distinct: &[&Vec<u8>], places: &[u32]) -> Vec<u8> {
    let mut out = (distinct.len() as u32).to_le_bytes().to_vec();
    for item in distinct {
        out.extend_from_slice(&(item.len() as u32).to_le_bytes());
        out.extend_from_slice(item);
    }
    for at in places {
        out.extend_from_slice(&at.to_le_bytes());
    }
    out
}

fn read_u32(bytes: &[u8], at: usize) -> Option<usize> {
    Some(u32::from_le_bytes(bytes.get(at..at + 4)?.try_into().ok()?) as usize)
}

fn read_shown(bytes: &[u8]) -> Option<(Vec<Vec<u8>>, Vec<usize>)> {
    let n = read_u32(bytes, 0)?;
    let mut at = 4;
    let mut distinct = Vec::new();
    for _ in 0..n {
        let len = read_u32(bytes, at)?;
        distinct.push(bytes.get(at + 4..at + 4 + len)?.to_vec());
        at += 4 + len;
    }
    let mut places = Vec::new();
    while at < bytes.len() {
        let p = read_u32(bytes, at)?;
        if p >= n {
            return None;
        }
        places.push(p);
        at += 4;
    }
    Some((distinct, places))
}

// The blocks of a packed witness.
fn blocks_of(z: &[F128], bits_per_block: usize) -> Vec<Vec<u8>> {
    z.chunks(bits_per_block / 128)
        .map(|c| c.iter().flat_map(|e| [e.lo.to_le_bytes(), e.hi.to_le_bytes()].concat()).collect())
        .collect()
}

// Whether the shown blocks are as many as the relation has, satisfy it and
// hold the constant one.
fn blocks_hold(r1cs: &BlockR1cs, shown: &[u8]) -> bool {
    let one_block = BlockR1cs { m: r1cs.k_log, ..r1cs.clone() };
    match read_shown(shown) {
        None => false,
        Some((distinct, places)) => {
            places.len() == r1cs.n_outer()
                && distinct.iter().all(|b| {
                    let z: Vec<bool> =
                        (0..8 * b.len()).map(|i| (b[i >> 3] >> (i & 7)) & 1 == 1).collect();
                    z.len() == r1cs.k()
                        && one_block.satisfies(&z)
                        && r1cs.const_pin.map_or(true, |pin| z[pin])
                })
        }
    }
}

fn prove(setup: &RouteSingleSetup, witnesses: &[RouteSingleWitness]) -> RouteSingleProof {
    let mut t = Transcript::new(TRANSCRIPT_LABEL);
    let (z, _, _) = generate_witness_with_ab_packed_and_lincheck(witnesses, setup.n_blocks_log());
    let core = prove_core(show(&blocks_of(&z, K)), &mut t);
    prove_route_single(setup, witnesses, open_core(core, &t))
}

fn verify(setup: &RouteSingleSetup, proof: &RouteSingleProof) -> Result<R1csClaim, VerifyError> {
    let q = step_question(setup, proof);
    assert_eq!(q.base.relation, Relation::RouteStep { n: setup.n_instances });
    assert!(q.base.claims.is_empty() && q.base.fork.is_empty());
    let mut t = Transcript::new(q.label);
    let holds = blocks_hold(&setup.r1cs, q.base.zc);
    let core = verify_core(q.base.zc, q.base.lc, &q.base.commitment, &mut t, holds);
    let opened = verify_opening(q.base.pcs, &t).is_ok();
    verify_route_single(setup, proof, core, opened)
}

#[test]
fn route_single_layout_constants_consistent() {
    assert_eq!(K, 2048);
    assert_eq!(KEY_BASE, 0);
    assert_eq!(MASK_BASE, 256);
    assert_eq!(Z_CONST_POS, 512);
    assert_eq!(CHILD_DIGEST_BASE, 513);
    assert_eq!(CHILD_INDEX_BASE, 769);
    assert_eq!(EXTRACTED_BASE, 774);
    assert_eq!(MATCH_AUX_BASE, 779);
    assert_eq!(MATCH_RESULT_POS, 782);
    assert_eq!(TAKE_POS, 783);
    assert_eq!(FOUND_IN_POS, 784);
    assert_eq!(FOUND_OUT_POS, 785);
    assert_eq!(SELECTED_IN_BASE, 786);
    assert_eq!(MUX_DELTA_BASE, 1042);
    assert_eq!(SELECTED_OUT_BASE, 1298);
    assert_eq!(USEFUL_BITS, 1554);
    assert!(USEFUL_BITS <= K);

    let (a_0, b_0) = build_matrices_single();
    let a_nnz: usize = a_0.rows.iter().map(Vec::len).sum();
    let b_nnz: usize = b_0.rows.iter().map(Vec::len).sum();
    let nonempty_rows = a_0
        .rows
        .iter()
        .zip(b_0.rows.iter())
        .filter(|(a, b)| !a.is_empty() || !b.is_empty())
        .count();
    println!(
        "route_single layout: useful_bits={USEFUL_BITS}, K={K}, \
         nonempty_rows={nonempty_rows}, a_nnz={a_nnz}, b_nnz={b_nnz}, \
         total_nnz={}",
        a_nnz + b_nnz
    );
}

#[test]
fn route_single_witness_satisfies_r1cs() {
    let r1cs = build_block_r1cs(3);
    let witness = sample_single_witness();
    let z = one_block_witness_bool(&witness);
    assert_eq!(z.len(), r1cs.n());

    let a = r1cs.apply_a(&z);
    let b = r1cs.apply_b(&z);
    let c = r1cs.apply_c(&z);
    let mut fail_count = 0;
    for row in 0..K {
        if (a[row] & b[row]) != c[row] {
            if fail_count < 20 {
                println!(
                    "row {row}: a={}, b={}, c={}, a*b={}, z={}",
                    a[row] as u8,
                    b[row] as u8,
                    c[row] as u8,
                    (a[row] & b[row]) as u8,
                    z[row] as u8
                );
            }
            fail_count += 1;
        }
    }
    if fail_count > 0 {
        println!("total failing rows: {fail_count} (only first block shown)");
    }
    assert!(r1cs.satisfies(&z), "R1CS not satisfied for matching witness");
}

#[test]
fn witness_non_matching_child() {
    let r1cs = build_block_r1cs(3);
    let witness = RouteSingleWitness {
        key: {
            let mut k = [false; KEY_BITS];
            k[0] = true;
            k[1] = true;
            k
        },
        mask: {
            let mut m = [false; KEY_BITS];
            for j in 0..W_MAX {
                m[j] = true;
            }
            m
        },
        child_digest: std::array::from_fn(|bit| (bit & 1) != 0),
        child_index: 7,
        found_in: false,
        selected_in: [false; DIGEST_BITS],
    };
    let z = one_block_witness_bool(&witness);
    assert!(r1cs.satisfies(&z), "R1CS not satisfied for non-matching witness");
}

#[test]
fn build_node_witnesses_roundtrip() {
    let mut key = [false; KEY_BITS];
    key[0] = false;
    key[1] = true;
    key[2] = true;
    let mut mask = [false; KEY_BITS];
    for j in 0..W_MAX {
        mask[j] = true;
    }
    let children: Vec<[bool; DIGEST_BITS]> = (0..4)
        .map(|c| std::array::from_fn(|b| ((c * 17 + b) & 1) != 0))
        .collect();

    let witnesses = build_node_witnesses(key, mask, &children);
    assert_eq!(witnesses.len(), 4);

    let r1cs = build_block_r1cs(3);
    for (i, w) in witnesses.iter().enumerate() {
        let z = one_block_witness_bool(w);
        assert!(
            r1cs.satisfies(&z),
            "R1CS not satisfied for child {i}"
        );
    }

    let last = &witnesses[witnesses.len() - 1];
    let mut z_u64 = vec![0u64; U64_PER_BLOCK];
    let mut a_u64 = vec![0u64; U64_PER_BLOCK];
    let mut b_u64 = vec![0u64; U64_PER_BLOCK];
    fill_block_witness_single(last, &mut z_u64, &mut a_u64, &mut b_u64);
    let found_out = ((z_u64[FOUND_OUT_POS >> 6] >> (FOUND_OUT_POS & 63)) & 1) != 0;
    println!("found_out after last child: {found_out}");
}

#[test]
fn prove_verify_single_roundtrip_smoke() {
    let (elapsed, _) = time_it(|| {
        let setup = RouteSingleSetup::new(1);
        println!(
            "setup: n_instances=1, setup_n_instances={}, m={}, K_LOG={K_LOG}",
            setup.setup_n_instances,
            setup.r1cs.m
        );
        let witness = sample_single_witness();
        let proof = prove(&setup, &[witness]);
        let claim = verify(&setup, &proof)
            .unwrap_or_else(|err| panic!("route_single verifier rejected: {err:?}"));
        assert_eq!(claim, proof.claim);
    });
    println!("prove_verify_single_roundtrip_smoke elapsed: {elapsed:?}");
}

#[test]
fn prove_verify_fanout_22_node() {
    let (elapsed, _) = time_it(|| {
        let fanout = 22;
        let mut key = [false; KEY_BITS];
        key[0] = false;
        key[1] = true;
        key[2] = true;
        let mut mask = [false; KEY_BITS];
        for j in 0..W_MAX {
            mask[j] = true;
        }
        let children: Vec<[bool; DIGEST_BITS]> = (0..fanout)
            .map(|c| std::array::from_fn(|b| ((c * 17 + b) & 1) != 0))
            .collect();
        let witnesses = build_node_witnesses(key, mask, &children);
        assert_eq!(witnesses.len(), fanout);

        let setup = RouteSingleSetup::new(fanout);
        println!(
            "fanout={fanout}: setup_n_instances={}, m={}",
            setup.setup_n_instances,
            setup.r1cs.m
        );
        let proof = prove(&setup, &witnesses);
        let claim = verify(&setup, &proof)
            .unwrap_or_else(|err| panic!("fanout-{fanout} verifier rejected: {err:?}"));
        assert_eq!(claim, proof.claim);
    });
    println!("prove_verify_fanout_22_node elapsed: {elapsed:?}");
}

#[test]
fn benchmark_fanouts() {
    let fanouts = [4, 8, 16, 22, 32];
    println!("\n=== Route 3a (single-child-step) benchmark ===");
    println!("K_LOG={K_LOG}, K={K}, USEFUL_BITS={USEFUL_BITS}, W_MAX={W_MAX}");
    println!("MIN_LIGERITO_M={MIN_LIGERITO_M}, MIN_LIGERITO_INSTANCES={MIN_LIGERITO_INSTANCES}");
    println!(
        "{:>7} {:>10} {:>10} {:>12} {:>12} {:>8}",
        "fanout", "n_inst", "setup_n", "prove_ms", "verify_ms", "m"
    );

    for &fanout in &fanouts {
        let mut key = [false; KEY_BITS];
        key[0] = false;
        key[1] = true;
        key[2] = true;
        let mut mask = [false; KEY_BITS];
        for j in 0..W_MAX {
            mask[j] = true;
        }
        let children: Vec<[bool; DIGEST_BITS]> = (0..fanout)
            .map(|c| std::array::from_fn(|b| ((c * 17 + b) & 1) != 0))
            .collect();
        let witnesses = build_node_witnesses(key, mask, &children);

        let setup = RouteSingleSetup::new(fanout);

        let prove_start = Instant::now();
        let proof = prove(&setup, &witnesses);
        let prove_ms = prove_start.elapsed().as_millis();

        let verify_start = Instant::now();
        let claim = verify(&setup, &proof)
            .unwrap_or_else(|err| panic!("fanout-{fanout} verifier rejected: {err:?}"));
        let verify_ms = verify_start.elapsed().as_millis();

        assert_eq!(claim, proof.claim);
        println!(
            "{:>7} {:>10} {:>10} {:>12} {:>12} {:>8}",
            fanout,
            fanout,
            setup.setup_n_instances,
            prove_ms,
            verify_ms,
            setup.r1cs.m
        );
    }
    println!("=== end benchmark ===\n");
}

fn sample_single_witness() -> RouteSingleWitness {
    let mut key = [false; KEY_BITS];
    key[0] = false;
    key[1] = true;
    let mut mask = [false; KEY_BITS];
    for j in 0..W_MAX {
        mask[j] = true;
    }
    RouteSingleWitness {
        key,
        mask,
        child_digest: std::array::from_fn(|bit| ((2 * 17 + bit) & 1) != 0),
        child_index: 2,
        found_in: false,
        selected_in: [false; DIGEST_BITS],
    }
}

fn one_block_witness_bool(witness: &RouteSingleWitness) -> Vec<bool> {
    let mut z_u64 = vec![0u64; U64_PER_BLOCK];
    let mut a_u64 = vec![0u64; U64_PER_BLOCK];
    let mut b_u64 = vec![0u64; U64_PER_BLOCK];
    fill_block_witness_single(witness, &mut z_u64, &mut a_u64, &mut b_u64);

    let mut z = vec![false; K * (1 << 3)];
    for bit in 0..K {
        z[bit] = ((z_u64[bit >> 6] >> (bit & 63)) & 1) != 0;
    }
    z
}

fn time_it<T>(f: impl FnOnce() -> T) -> (Duration, T) {
    let start = Instant::now();
    let output = f();
    (start.elapsed(), output)
}

fn bit(words: &[u64], pos: usize) -> bool {
    (words[pos >> 6] >> (pos & 63)) & 1 == 1
}

// Each step hands its state on to the next, and the last one holds the child
// that the masked key spells.
#[test]
fn steps_hand_on_and_select_the_spelled_child() {
    for index in [0usize, 3, 6] {
        let mut key = [false; KEY_BITS];
        let mut mask = [false; KEY_BITS];
        for j in 0..W_MAX {
            key[j] = (index >> j) & 1 == 1;
            mask[j] = true;
        }
        let children: Vec<[bool; DIGEST_BITS]> =
            (0..7).map(|c| std::array::from_fn(|b| (c + 1) * b % 5 < 2)).collect();
        let steps = build_node_witnesses(key, mask, &children);
        let mut found = false;
        let mut selected = [false; DIGEST_BITS];
        for (i, w) in steps.iter().enumerate() {
            assert_eq!(w.child_index, i);
            assert_eq!(w.found_in, found);
            assert_eq!(w.selected_in, selected);
            let mut z = vec![0u64; U64_PER_BLOCK];
            let mut a = vec![0u64; U64_PER_BLOCK];
            let mut b = vec![0u64; U64_PER_BLOCK];
            fill_block_witness_single(w, &mut z, &mut a, &mut b);
            found = bit(&z, FOUND_OUT_POS);
            selected = std::array::from_fn(|j| bit(&z, SELECTED_OUT_BASE + j));
            assert_eq!(bit(&z, TAKE_POS), i == index);
            assert_eq!(found, i >= index);
        }
        assert_eq!(selected, children[index]);
    }
}

#[test]
fn changed_step_bits_are_rejected() {
    let r1cs = build_block_r1cs(3);
    let z = one_block_witness_bool(&sample_single_witness());
    for pos in [EXTRACTED_BASE, MATCH_RESULT_POS, TAKE_POS, FOUND_OUT_POS, SELECTED_OUT_BASE + 9] {
        let mut bad = z.clone();
        bad[pos] = !bad[pos];
        assert!(!r1cs.satisfies(&bad), "position {pos}");
    }
}

#[test]
fn single_setups_cover_their_instances() {
    for (n, covered, m) in [(1usize, 2048usize, 22usize), (2048, 2048, 22), (2049, 4096, 23)] {
        let s = RouteSingleSetup::new(n);
        assert_eq!((s.n_instances, s.setup_n_instances, s.r1cs.m), (n, covered, m));
    }
}
