use flock_mhot::backend::{
    Commitment, OpenedCore, R1csClaim, Relation, TranscriptOp, VerifyError, ZClaim,
};
use flock_mhot::r1cs::{BlockR1cs, F128};
use flock_mhot::route_f32::{
    build_block_r1cs_f32, build_matrices_f32, fill_block_witness_f32, CHILDREN_BASE, CHILD_STRIDE,
    DIGEST_BITS, FANOUT, FOUND_OUT_FINAL_POS, K, KEY_BASE, KEY_BITS, K_SKIP, MASK_BASE,
    SELECTED_IN_BASE, SELECTED_OUT_FINAL_BASE, U64_PER_BLOCK, USEFUL_BITS, W_MAX, Z_CONST_POS,
};
use flock_mhot::route_f32_setup::{
    generate_witness_with_ab_packed_and_lincheck, prove_route_f32, route_question, verify_route_f32,
    RouteF32Proof, RouteF32Setup, RouteF32Witness, MIN_LIGERITO_INSTANCES, MIN_LIGERITO_M, TRANSCRIPT_LABEL,
};
use sha2::{Digest, Sha256};
use std::collections::HashMap;
use std::time::{Duration, Instant};

// The proof system itself is no part of the library. The tests run it in the
// clear: a proof shows its witness, the commitment is the digest of what is
// shown, and each later part is the digest of the transcript so far. Whoever
// changes a part, or the transcript, is told so; and the verifier checks the
// relation on the witness that it is shown.

#[derive(Clone)]
struct Transcript {
    seen: Sha256,
}

fn digest(bytes: &[u8]) -> [u8; 32] {
    Sha256::digest(bytes).into()
}

impl Transcript {
    fn new(label: &str) -> Self {
        let mut t = Transcript { seen: Sha256::new() };
        t.absorb(label.as_bytes());
        t
    }

    fn absorb(&mut self, bytes: &[u8]) {
        self.seen.update((bytes.len() as u64).to_le_bytes());
        self.seen.update(bytes);
    }

    fn observe(&mut self, ops: &[TranscriptOp]) {
        for op in ops {
            match op {
                TranscriptOp::Label(s) => {
                    self.seen.update([0]);
                    self.absorb(s.as_bytes());
                }
                TranscriptOp::Bytes(b) => {
                    self.seen.update([1]);
                    self.absorb(b);
                }
            }
        }
    }

    fn challenge(&self) -> [u8; 32] {
        self.seen.clone().finalize().into()
    }
}

fn claim_at(point: [u8; 32]) -> R1csClaim {
    let word = |i: usize| u64::from_le_bytes(point[8 * i..8 * i + 8].try_into().unwrap());
    let z = ZClaim {
        z_skip: F128 { lo: word(0), hi: word(1) },
        x_outer: vec![F128 { lo: word(2), hi: word(3) }],
        value: F128 { lo: word(3), hi: word(0) },
    };
    R1csClaim { ab: z.clone(), c: z }
}

struct Core {
    shown: Vec<u8>,
    mark: Vec<u8>,
    commitment: Commitment,
    claim: R1csClaim,
}

fn prove_core(shown: Vec<u8>, t: &mut Transcript) -> Core {
    let commitment = Commitment { root: digest(&shown) };
    t.absorb(&commitment.root);
    let mark = t.challenge();
    Core { shown, mark: mark.to_vec(), commitment, claim: claim_at(mark) }
}

fn open_core(core: Core, t: &Transcript) -> OpenedCore {
    OpenedCore {
        zc_proof: core.shown,
        lc_proof: core.mark,
        pcs_open: t.challenge().to_vec(),
        commitment: core.commitment,
        claim: core.claim,
    }
}

fn verify_core(
    shown: &[u8],
    mark: &[u8],
    commitment: &Commitment,
    t: &mut Transcript,
    holds: bool,
) -> Result<R1csClaim, VerifyError> {
    t.absorb(&commitment.root);
    let c = t.challenge();
    if holds && digest(shown) == commitment.root && mark == &c[..] {
        Ok(claim_at(c))
    } else {
        Err(VerifyError::Core)
    }
}

fn verify_opening(open: &[u8], t: &Transcript) -> Result<(), VerifyError> {
    if open == &t.challenge()[..] {
        Ok(())
    } else {
        Err(VerifyError::PcsAb)
    }
}

// What a proof shows: the distinct items, and for each place the item in it.
fn show(items: &[Vec<u8>]) -> Vec<u8> {
    let mut order: HashMap<&Vec<u8>, u32> = HashMap::new();
    let mut distinct: Vec<&Vec<u8>> = Vec::new();
    let mut places: Vec<u32> = Vec::new();
    for item in items {
        let next = distinct.len() as u32;
        let at = *order.entry(item).or_insert(next);
        if at == next {
            distinct.push(item);
        }
        places.push(at);
    }
    encode(&distinct, &places)
}

fn encode(distinct: &[&Vec<u8>], places: &[u32]) -> Vec<u8> {
    let mut out = (distinct.len() as u32).to_le_bytes().to_vec();
    for item in distinct {
        out.extend_from_slice(&(item.len() as u32).to_le_bytes());
        out.extend_from_slice(item);
    }
    for at in places {
        out.extend_from_slice(&at.to_le_bytes());
    }
    out
}

fn read_u32(bytes: &[u8], at: usize) -> Option<usize> {
    Some(u32::from_le_bytes(bytes.get(at..at + 4)?.try_into().ok()?) as usize)
}

fn read_shown(bytes: &[u8]) -> Option<(Vec<Vec<u8>>, Vec<usize>)> {
    let n = read_u32(bytes, 0)?;
    let mut at = 4;
    let mut distinct = Vec::new();
    for _ in 0..n {
        let len = read_u32(bytes, at)?;
        distinct.push(bytes.get(at + 4..at + 4 + len)?.to_vec());
        at += 4 + len;
    }
    let mut places = Vec::new();
    while at < bytes.len() {
        let p = read_u32(bytes, at)?;
        if p >= n {
            return None;
        }
        places.push(p);
        at += 4;
    }
    Some((distinct, places))
}

// The blocks of a packed witness.
fn blocks_of(z: &[F128], bits_per_block: usize) -> Vec<Vec<u8>> {
    z.chunks(bits_per_block / 128)
        .map(|c| c.iter().flat_map(|e| [e.lo.to_le_bytes(), e.hi.to_le_bytes()].concat()).collect())
        .collect()
}

// Whether the shown blocks are as many as the relation has, satisfy it and
// hold the constant one.
fn blocks_hold(r1cs: &BlockR1cs, shown: &[u8]) -> bool {
    let one_block = BlockR1cs { m: r1cs.k_log, ..r1cs.clone() };
    match read_shown(shown) {
        None => false,
        Some((distinct, places)) => {
            places.len() == r1cs.n_outer()
                && distinct.iter().all(|b| {
                    let z: Vec<bool> =
                        (0..8 * b.len()).map(|i| (b[i >> 3] >> (i & 7)) & 1 == 1).collect();
                    z.len() == r1cs.k()
                        && one_block.satisfies(&z)
                        && r1cs.const_pin.map_or(true, |pin| z[pin])
                })
        }
    }
}

fn prove(setup: &RouteF32Setup, witnesses: &[RouteF32Witness]) -> RouteF32Proof {
    let mut t = Transcript::new(TRANSCRIPT_LABEL);
    let (z, _, _) = generate_witness_with_ab_packed_and_lincheck(witnesses, setup.n_blocks_log());
    let core = prove_core(show(&blocks_of(&z, K)), &mut t);
    prove_route_f32(setup, witnesses, open_core(core, &t))
}

fn verify(setup: &RouteF32Setup, proof: &RouteF32Proof) -> Result<R1csClaim, VerifyError> {
    let q = route_question(setup, proof);
    assert_eq!(q.base.relation, Relation::Route { n: setup.n_instances });
    assert!(q.base.claims.is_empty() && q.base.fork.is_empty());
    let mut t = Transcript::new(q.label);
    let holds = blocks_hold(&setup.r1cs, q.base.zc);
    let core = verify_core(q.base.zc, q.base.lc, &q.base.commitment, &mut t, holds);
    let opened = verify_opening(q.base.pcs, &t).is_ok();
    verify_route_f32(setup, proof, core, opened)
}

#[test]
fn layout_constants_consistent_f32() {
    assert_eq!(K, 32768);
    assert_eq!(K_SKIP, 6);
    assert_eq!(KEY_BASE, 0);
    assert_eq!(Z_CONST_POS, 256);
    assert_eq!(SELECTED_IN_BASE, 257);
    assert_eq!(MASK_BASE, 513);
    assert_eq!(CHILDREN_BASE, 769);
    assert_eq!(CHILD_STRIDE, 523);
    assert_eq!(FOUND_OUT_FINAL_POS, 769 + 32 * 523);
    assert_eq!(FOUND_OUT_FINAL_POS, 17505);
    assert_eq!(SELECTED_OUT_FINAL_BASE, 18688);
    assert_eq!(
        SELECTED_OUT_FINAL_BASE % DIGEST_BITS,
        0,
        "SELECTED_OUT_FINAL must be 256-bit aligned for PD-claim binding"
    );
    assert_eq!(USEFUL_BITS, 18944);
    assert!(USEFUL_BITS <= K, "USEFUL_BITS {USEFUL_BITS} > K {K}");

    let (a_0, b_0) = build_matrices_f32();
    let a_nnz: usize = a_0.rows.iter().map(Vec::len).sum();
    let b_nnz: usize = b_0.rows.iter().map(Vec::len).sum();
    let nonempty_rows = a_0
        .rows
        .iter()
        .zip(b_0.rows.iter())
        .filter(|(a, b)| !a.is_empty() || !b.is_empty())
        .count();
    println!(
        "F_route_f32 layout: useful_bits={USEFUL_BITS}, nonempty_rows={nonempty_rows}, a_nnz={a_nnz}, b_nnz={b_nnz}, total_nnz={}",
        a_nnz + b_nnz
    );
}

#[test]
fn witness_satisfies_r1cs_f32_full() {
    let r1cs = build_block_r1cs_f32(3);
    let z = one_block_witness_bool_full();
    assert_eq!(z.len(), r1cs.n());
    assert!(r1cs.satisfies(&z), "R1CS not satisfied for fanout-32 witness");
}

#[test]
fn witness_satisfies_r1cs_f32_padded_8() {
    let r1cs = build_block_r1cs_f32(3);
    let z = one_block_witness_bool_padded(8);
    assert_eq!(z.len(), r1cs.n());
    assert!(
        r1cs.satisfies(&z),
        "R1CS not satisfied for fanout-8 padded to 32"
    );
}

#[test]
fn prove_verify_route_f32_roundtrip() {
    let (elapsed, _) = time_it(|| {
        let setup = RouteF32Setup::new(1);
        assert_eq!(setup.setup_n_instances, MIN_LIGERITO_INSTANCES);
        assert_eq!(setup.r1cs.m, MIN_LIGERITO_M);
        let witness = sample_route_witness_full();
        let proof = prove(&setup, &[witness]);
        let claim = verify(&setup, &proof)
            .unwrap_or_else(|err| panic!("route_f32 verifier rejected: {err:?}"));
        assert_eq!(claim, proof.claim);
    });
    println!(
        "prove_verify_route_f32_roundtrip elapsed: {elapsed:?}, setup_n_instances={MIN_LIGERITO_INSTANCES}, m={MIN_LIGERITO_M}"
    );
}

#[test]
fn bench_route_f32_effective_fanouts() {
    let effective_fanouts = [4, 8, 16, 22, 32];
    println!("\n=== Route F32 Benchmark (FANOUT=32, W_MAX=5) ===");
    println!("USEFUL_BITS = {USEFUL_BITS}");

    let (a_0, b_0) = build_matrices_f32();
    let a_nnz: usize = a_0.rows.iter().map(Vec::len).sum();
    let b_nnz: usize = b_0.rows.iter().map(Vec::len).sum();
    println!("A_nnz = {a_nnz}, B_nnz = {b_nnz}, total_nnz = {}", a_nnz + b_nnz);
    println!();

    let setup = RouteF32Setup::new(1);

    for &eff in &effective_fanouts {
        let witness = sample_route_witness_padded(eff);
        let t_prove = Instant::now();
        let proof = prove(&setup, &[witness]);
        let prove_ms = t_prove.elapsed().as_secs_f64() * 1000.0;

        let t_verify = Instant::now();
        let claim = verify(&setup, &proof)
            .unwrap_or_else(|err| panic!("route_f32 verifier rejected (eff={eff}): {err:?}"));
        let verify_ms = t_verify.elapsed().as_secs_f64() * 1000.0;
        assert_eq!(claim, proof.claim);

        println!(
            "effective_fanout={eff:>2}: prove={prove_ms:>8.1}ms  verify={verify_ms:>6.1}ms"
        );
    }
    println!("=== End Benchmark ===\n");
}

fn one_block_witness_bool_full() -> Vec<bool> {
    let witness = sample_route_witness_full();
    witness_to_bool_vec(&witness)
}

fn one_block_witness_bool_padded(effective_fanout: usize) -> Vec<bool> {
    let witness = sample_route_witness_padded(effective_fanout);
    witness_to_bool_vec(&witness)
}

fn witness_to_bool_vec(witness: &RouteF32Witness) -> Vec<bool> {
    let mut z_u64 = vec![0u64; U64_PER_BLOCK];
    let mut a_u64 = vec![0u64; U64_PER_BLOCK];
    let mut b_u64 = vec![0u64; U64_PER_BLOCK];
    fill_block_witness_f32(
        &witness.key,
        &witness.mask,
        &witness.children,
        &mut z_u64,
        &mut a_u64,
        &mut b_u64,
    );

    let mut z = vec![false; K * (1 << 3)];
    for bit in 0..K {
        z[bit] = ((z_u64[bit >> 6] >> (bit & 63)) & 1) != 0;
    }
    z
}

fn sample_route_witness_full() -> RouteF32Witness {
    let mut key = [false; KEY_BITS];
    let mut mask = [false; KEY_BITS];
    // child index = 0b10110 = 22, so key bits [0..5] = [0,1,1,0,1]
    key[0] = false;
    key[1] = true;
    key[2] = true;
    key[3] = false;
    key[4] = true;
    for j in 0..W_MAX {
        mask[j] = true;
    }

    let children: Vec<[bool; DIGEST_BITS]> = (0..FANOUT)
        .map(|child| std::array::from_fn(|bit| ((child * 17 + bit) & 1) != 0))
        .collect();
    RouteF32Witness::new(key, mask, children)
}

fn sample_route_witness_padded(effective_fanout: usize) -> RouteF32Witness {
    let mut key = [false; KEY_BITS];
    let mut mask = [false; KEY_BITS];
    let w = (effective_fanout as f64).log2().ceil() as usize;
    let target_child = effective_fanout / 2;
    for j in 0..w.min(W_MAX) {
        let bit_val = ((target_child >> j) & 1) != 0;
        key[j] = bit_val;
        mask[j] = true;
    }
    for j in w..W_MAX {
        mask[j] = true;
    }

    let effective_children: Vec<[bool; DIGEST_BITS]> = (0..effective_fanout)
        .map(|child| std::array::from_fn(|bit| ((child * 17 + bit) & 1) != 0))
        .collect();
    RouteF32Witness::new_padded(key, mask, &effective_children, effective_fanout)
}

fn time_it<T>(f: impl FnOnce() -> T) -> (Duration, T) {
    let start = Instant::now();
    let output = f();
    (start.elapsed(), output)
}

fn bit(words: &[u64], pos: usize) -> bool {
    (words[pos >> 6] >> (pos & 63)) & 1 == 1
}

// What a block puts out is the child that the masked key spells.
#[test]
fn block_f32_puts_out_the_spelled_child() {
    for eff in [2usize, 4, 8, 22, 32] {
        let witness = sample_route_witness_padded(eff);
        let mut z = vec![0u64; U64_PER_BLOCK];
        let mut a = vec![0u64; U64_PER_BLOCK];
        let mut b = vec![0u64; U64_PER_BLOCK];
        fill_block_witness_f32(&witness.key, &witness.mask, &witness.children, &mut z, &mut a, &mut b);
        assert!(bit(&z, Z_CONST_POS));
        assert!(bit(&z, FOUND_OUT_FINAL_POS));
        for j in 0..DIGEST_BITS {
            assert_eq!(bit(&z, SELECTED_OUT_FINAL_BASE + j), witness.children[eff / 2][j]);
        }
    }
}

// A mask with a gap, or a key above its mask, satisfies no block.
#[test]
fn content_out_of_form_satisfies_no_block() {
    let r1cs = build_block_r1cs_f32(3);
    let mut gap = sample_route_witness_full();
    gap.mask[3] = false;
    assert!(!r1cs.satisfies(&witness_to_bool_vec(&gap)));
    let mut above = sample_route_witness_full();
    above.key[200] = true;
    assert!(!r1cs.satisfies(&witness_to_bool_vec(&above)));
}

#[test]
fn tampered_parts_are_rejected() {
    let setup = RouteF32Setup::new(1);
    let proof = prove(&setup, &[sample_route_witness_full()]);
    let mut core = prove(&setup, &[sample_route_witness_full()]);
    core.commitment.root[0] ^= 1;
    assert_eq!(verify(&setup, &core), Err(VerifyError::Core));
    let mut open = prove(&setup, &[sample_route_witness_full()]);
    open.pcs_open[0] ^= 1;
    assert_eq!(verify(&setup, &open), Err(VerifyError::PcsAb));
    assert_eq!(verify(&setup, &proof), Ok(proof.claim.clone()));
    assert_eq!((proof.n_instances, proof.setup_n_instances), (1, 128));
}

// Every block of a batch satisfies the relation, those that fill it up too.
#[test]
fn batch_satisfies_the_relation() {
    let setup = RouteF32Setup::new(3);
    let ws = [sample_route_witness_full(), sample_route_witness_padded(8), sample_route_witness_padded(5)];
    let (z, a, b) = generate_witness_with_ab_packed_and_lincheck(&ws, setup.n_blocks_log());
    let unpack = |v: &[F128]| -> Vec<bool> {
        v.iter()
            .flat_map(|e| (0..128).map(move |i| (if i < 64 { e.lo >> i } else { e.hi >> (i - 64) }) & 1 == 1))
            .collect()
    };
    let z = unpack(&z);
    assert_eq!(z.len(), setup.r1cs.n());
    assert!(setup.r1cs.satisfies(&z));
    assert_eq!(unpack(&a), setup.r1cs.apply_a(&z));
    assert_eq!(unpack(&b), setup.r1cs.apply_b(&z));
}
