//! Proofs of the permutation calls of a path alone: that each call was
//! computed, not how they are wired.

use vstd::prelude::*;

use crate::backend::{Commitment, R1csClaim, Relation, VerifyError, WholeQuestion};
use crate::keccak::State;
use crate::ref_witness::{
    bytes_to_logical_state, is_ref_witness, state_bits, Digest, RefWitness,
};
use crate::schedule::{
    atom_count, is_schedule, law_atoms_well_formed, lemma_atoms_before_bound, KeccakAtom,
    MhotHashSchedule,
};
use crate::wide_glue::lemma_node_order;

verus! {

/// The label that a proof's transcript starts with.
pub const TRANSCRIPT_LABEL: &'static str = "mhot-hash-only-v0";

/// The least number of permutation calls that a proof covers.
pub const MIN_LIGERITO_KECCAKS: usize = 49;

/// How many permutation calls a proof of `n` covers.
pub open spec fn covered_keccaks(n: nat) -> nat {
    if n < 49 {
        49
    } else {
        n
    }
}

/// How many permutation calls a proof of `n` covers.
pub fn ligerito_setup_n_keccaks(n_keccaks: usize) -> (n: usize)
    ensures
        n == covered_keccaks(n_keccaks as nat),
{
    if n_keccaks < MIN_LIGERITO_KECCAKS {
        MIN_LIGERITO_KECCAKS
    } else {
        n_keccaks
    }
}

/// Whether a witness has a state for each atom of a schedule.
pub open spec fn covers_atoms(sched: MhotHashSchedule, witness: RefWitness) -> bool {
    &&& witness.atom_states@.len() == sched.hash_atoms@.len()
    &&& forall|i: int|
        0 <= i < sched.hash_atoms@.len() ==> (#[trigger] sched.hash_atoms@[i]).atom_id
            < witness.atom_states@.len()
}

/// The bytes of the state that atom `i` starts from.
pub open spec fn atom_state(sched: MhotHashSchedule, witness: RefWitness, i: int) -> Seq<u8> {
    witness.atom_states@[sched.hash_atoms@[i].atom_id as int]@
}

/// The bytes of the states that all atoms start from, in the schedule's order.
pub open spec fn atom_states_of(sched: MhotHashSchedule, witness: RefWitness) -> Seq<Seq<u8>> {
    Seq::new(sched.hash_atoms@.len(), |i: int| atom_state(sched, witness, i))
}

/// The bits of states.
pub open spec fn states_bits(states: Seq<Seq<u8>>) -> Seq<Seq<bool>> {
    states.map_values(|s: Seq<u8>| state_bits(s))
}

/// The views of states.
pub open spec fn state_seqs(states: Seq<State>) -> Seq<Seq<bool>> {
    states.map_values(|s: State| s@)
}

/// States, filled up with zero states to as many as a proof covers.
pub open spec fn covered_states(states: Seq<Seq<bool>>) -> Seq<Seq<bool>> {
    states + Seq::new(
        (covered_keccaks(states.len()) - states.len()) as nat,
        |i: int| Seq::new(1600, |j: int| false),
    )
}

/// Appends the states that the atoms of a schedule start from.
pub(crate) fn append_initial_states(
    out: &mut Vec<State>,
    sched: &MhotHashSchedule,
    witness: &RefWitness,
)
    requires
        covers_atoms(*sched, *witness),
    ensures
        state_seqs(final(out)@) == state_seqs(old(out)@) + states_bits(
            atom_states_of(*sched, *witness),
        ),
{
    let ghost all = states_bits(atom_states_of(*sched, *witness));
    assert(state_seqs(out@) =~= state_seqs(old(out)@) + all.take(0));
    for i in 0..sched.hash_atoms.len()
        invariant
            covers_atoms(*sched, *witness),
            all == states_bits(atom_states_of(*sched, *witness)),
            state_seqs(out@) == state_seqs(old(out)@) + all.take(i as int),
    {
        let atom: KeccakAtom = sched.hash_atoms[i];
        assert(sched.hash_atoms@[i as int].atom_id < witness.atom_states@.len());
        let ghost before = out@;
        out.push(bytes_to_logical_state(&witness.atom_states[atom.atom_id]));
        proof {
            assert(out@.last()@ == all[i as int]);
            assert(state_seqs(out@) =~= state_seqs(before).push(all[i as int]));
            assert(all.take(i + 1) =~= all.take(i as int).push(all[i as int]));
            assert(state_seqs(out@) =~= state_seqs(old(out)@) + all.take(i + 1));
        }
    }
    assert(all.take(all.len() as int) =~= all);
}

/// Fills up with zero states.
pub(crate) fn cover_states(states: &mut Vec<State>)
    ensures
        state_seqs(final(states)@) == covered_states(state_seqs(old(states)@)),
{
    let n: usize = states.len();
    let target: usize = ligerito_setup_n_keccaks(n);
    let ghost zero = Seq::new(1600, |j: int| false);
    assert(state_seqs(states@) =~= state_seqs(old(states)@) + Seq::new(0, |k: int| zero));
    for i in n..target
        invariant
            n == old(states)@.len(),
            zero == Seq::new(1600, |j: int| false),
            state_seqs(states@) == state_seqs(old(states)@) + Seq::new(
                (i - n) as nat,
                |k: int| zero,
            ),
    {
        let ghost before = states@;
        let blank: State = [false; 1600];
        assert(blank@ =~= zero);
        states.push(blank);
        proof {
            assert(state_seqs(states@) =~= state_seqs(before).push(zero));
            assert(state_seqs(states@) =~= state_seqs(old(states)@) + Seq::new(
                (i + 1 - n) as nat,
                |k: int| zero,
            ));
        }
    }
    assert(state_seqs(states@) =~= covered_states(state_seqs(old(states)@)));
}

/// A proof of the permutation calls of a path.
pub struct MhotHashProof {
    /// The proof system's encoding.
    pub proof: Vec<u8>,
    pub commitment: Commitment,
    pub claim: R1csClaim,
    pub expected_root: Digest,
    pub n_keccaks: usize,
    pub setup_n_keccaks: usize,
}

/// The states that a proof of a path's permutation calls is about.
pub fn plan_mhot_hash_only(sched: &MhotHashSchedule, witness: &RefWitness) -> (states: Vec<State>)
    requires
        sched.hash_atoms@.len() > 0,
        covers_atoms(*sched, *witness),
    ensures
        state_seqs(states@) == covered_states(states_bits(atom_states_of(*sched, *witness))),
        states@.len() == covered_keccaks(sched.hash_atoms@.len()),
{
    let mut states: Vec<State> = Vec::new();
    append_initial_states(&mut states, sched, witness);
    assert(state_seqs(states@) =~= states_bits(atom_states_of(*sched, *witness)));
    cover_states(&mut states);
    assert(states@.len() == state_seqs(states@).len());
    states
}

/// Whether a proof states the root and the number of a path's permutation
/// calls.
pub open spec fn states_calls(
    p: MhotHashProof,
    sched: MhotHashSchedule,
    witness: RefWitness,
) -> bool {
    &&& p.expected_root == witness.expected_root
    &&& p.n_keccaks == sched.hash_atoms@.len()
    &&& p.setup_n_keccaks == covered_keccaks(sched.hash_atoms@.len())
}

/// The proof of a path's permutation calls, given what the proof system makes
/// of their states.
pub fn prove_mhot_hash_only(
    sched: &MhotHashSchedule,
    witness: &RefWitness,
    proof: Vec<u8>,
    commitment: Commitment,
    claim: R1csClaim,
) -> (p: MhotHashProof)
    requires
        sched.hash_atoms@.len() > 0,
        covers_atoms(*sched, *witness),
    ensures
        p.proof == proof,
        p.commitment == commitment,
        p.claim == claim,
        states_calls(p, *sched, *witness),
{
    let n_keccaks: usize = sched.hash_atoms.len();
    MhotHashProof {
        proof,
        commitment,
        claim,
        expected_root: witness.expected_root,
        n_keccaks,
        setup_n_keccaks: ligerito_setup_n_keccaks(n_keccaks),
    }
}

/// Whether this is the question about a proof of permutation calls.
pub open spec fn is_hash_question(q: WholeQuestion, proof: MhotHashProof) -> bool {
    &&& q.label@ == "mhot-hash-only-v0"@
    &&& q.relation == (Relation::Keccak { n: covered_keccaks(proof.n_keccaks as nat) as usize })
    &&& *q.proof == proof.proof
    &&& q.commitment == proof.commitment
}

/// What the proof system is asked about a proof of `n_keccaks` permutation
/// calls: whether it shows as many as it covers.
pub fn hash_question(n_keccaks: usize, proof: &MhotHashProof) -> (q: WholeQuestion<'_>)
    requires
        n_keccaks == proof.n_keccaks,
        proof.setup_n_keccaks == covered_keccaks(n_keccaks as nat),
    ensures
        is_hash_question(q, *proof),
{
    WholeQuestion {
        label: "mhot-hash-only-v0",
        relation: Relation::Keccak { n: ligerito_setup_n_keccaks(n_keccaks) },
        proof: &proof.proof,
        commitment: proof.commitment,
    }
}

/// Decides on a proof of `n_keccaks` permutation calls, given what the proof
/// system says to `hash_question`.
pub fn verify_mhot_hash_only(
    n_keccaks: usize,
    proof: &MhotHashProof,
    reply: Result<R1csClaim, VerifyError>,
) -> (r: Result<R1csClaim, VerifyError>)
    requires
        n_keccaks == proof.n_keccaks,
        proof.setup_n_keccaks == covered_keccaks(n_keccaks as nat),
    ensures
        r == reply,
{
    reply
}

/// The reference run of every path that has an atom can be proved: there is a
/// permutation call, and a state for each.
pub proof fn law_ref_witness_is_provable(s: MhotHashSchedule, w: RefWitness, seed: u64)
    requires
        is_schedule(s),
        is_ref_witness(w, s, seed),
        exists|i: int| 0 <= i < s.fanouts@.len() && #[trigger] s.fanouts@[i] >= 2,
    ensures
        s.hash_atoms@.len() > 0,
        covers_atoms(s, w),
{
    let fs = s.fanouts@;
    let i = choose|i: int| 0 <= i < fs.len() && #[trigger] fs[i] >= 2;
    lemma_atoms_before_bound(fs, fs.len());
    lemma_node_order(fs, i as nat, fs.len());
    assert(atom_count(fs[i] as nat) > 0);
    assert forall|a: int| 0 <= a < s.hash_atoms@.len() implies (#[trigger] s.hash_atoms@[a]).atom_id
        < w.atom_states@.len() by {
        law_atoms_well_formed(s, a);
    }
}

/// The proof of a reference run is of its calls and its root, and can be
/// verified as one of as many calls; what is asked about it is whether it shows
/// as many calls as it covers.
pub proof fn law_hash_proof_is_asked_whole(
    s: MhotHashSchedule,
    w: RefWitness,
    seed: u64,
    p: MhotHashProof,
    q: WholeQuestion,
)
    requires
        is_schedule(s),
        is_ref_witness(w, s, seed),
        states_calls(p, s, w),
        is_hash_question(q, p),
    ensures
        p.n_keccaks == s.hash_atoms@.len(),
        p.setup_n_keccaks == covered_keccaks(p.n_keccaks as nat),
        p.expected_root == w.expected_root,
        q.relation == (Relation::Keccak {
            n: covered_states(states_bits(atom_states_of(s, w))).len() as usize,
        }),
{
}

/// The states that are proved: bit by bit those of the atoms, in the order of
/// the schedule, and blank ones up to 49.
pub proof fn law_planned_states(
    states: Seq<State>,
    sched: MhotHashSchedule,
    witness: RefWitness,
    i: int,
    k: int,
    t: int,
)
    requires
        state_seqs(states) == covered_states(states_bits(atom_states_of(sched, witness))),
        0 <= i < states.len(),
        0 <= k < 200,
        0 <= t < 8,
    ensures
        states.len() == if sched.hash_atoms@.len() < 49 {
            49
        } else {
            sched.hash_atoms@.len()
        },
        states[i]@[k / 8 + 25 * (k % 8 * 8 + t)] <==> i < sched.hash_atoms@.len() && (
        witness.atom_states@[sched.hash_atoms@[i].atom_id as int]@[k] >> (t as u8)) & 1 == 1,
{
    let n = sched.hash_atoms@.len();
    let p = k / 8 + 25 * (k % 8 * 8 + t);
    assert(state_seqs(states).len() == states.len());
    assert(state_seqs(states)[i] == states[i]@);
    assert(p % 25 == k / 8 && p / 25 == k % 8 * 8 + t);
    assert((k % 8 * 8 + t) / 8 == k % 8 && (k % 8 * 8 + t) % 8 == t);
    assert(p % 25 * 8 + p / 25 / 8 == k);
    if i < n {
        assert(states_bits(atom_states_of(sched, witness))[i] == state_bits(
            atom_state(sched, witness, i),
        ));
    }
}

/// What is asked about a proof: whether it proves as many permutation calls as
/// it states, and 49 at the least.
pub proof fn law_question_asks_proof(q: WholeQuestion, p: MhotHashProof)
    requires
        is_hash_question(q, p),
    ensures
        q.label@ == "mhot-hash-only-v0"@,
        q.relation matches Relation::Keccak { n } && n == if p.n_keccaks < 49 {
            49usize
        } else {
            p.n_keccaks
        },
        *q.proof == p.proof,
        q.commitment == p.commitment,
{
}

/// No fewer than 49 permutation calls are proved at once.
pub proof fn law_covered_keccaks(n: nat)
    ensures
        n <= 49 ==> covered_keccaks(n) == 49,
        n >= 49 ==> covered_keccaks(n) == n,
{
}

/// A proof of permutation calls states their number, the number that is proved
/// at once, and the root that they come to.
pub proof fn law_proof_states_calls(p: MhotHashProof, sched: MhotHashSchedule, witness: RefWitness)
    requires
        states_calls(p, sched, witness),
    ensures
        p.expected_root == witness.expected_root,
        p.n_keccaks == sched.hash_atoms@.len(),
        p.setup_n_keccaks == if sched.hash_atoms@.len() < 49 {
            49
        } else {
            sched.hash_atoms@.len()
        },
{
}

} // verus!
