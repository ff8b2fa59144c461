//! Two bases under one transcript: the permutation calls of a path, and the
//! routes through its nodes.

use vstd::prelude::*;

use crate::backend::{
    asks_base, transcript, BaseQuestion, Commitment, Observed, OpenedCore, R1csClaim, Relation,
    TranscriptOp, VerifyError,
};
use crate::hash_only::{
    append_initial_states, atom_states_of, cover_states, covered_keccaks, covered_states,
    covers_atoms, ligerito_setup_n_keccaks, state_seqs, states_bits,
};
use crate::keccak::State;
use crate::ref_witness::{Digest, RefWitness};
use crate::route_f32_setup::RouteF32Witness;
use crate::schedule::MhotHashSchedule;

verus! {

/// The label that a proof's transcript starts with.
pub const TRANSCRIPT_LABEL: &'static str = "mhot-multi-v0";

/// A proof of both bases.
pub struct MhotMultiProof {
    pub hash_zc: Vec<u8>,
    pub hash_lc: Vec<u8>,
    pub hash_pcs: Vec<u8>,
    pub hash_commitment: Commitment,
    pub hash_claim: R1csClaim,
    pub route_zc: Vec<u8>,
    pub route_lc: Vec<u8>,
    pub route_pcs: Vec<u8>,
    pub route_commitment: Commitment,
    pub route_claim: R1csClaim,
    pub expected_root: Digest,
    pub n_keccaks: usize,
    pub n_routes: usize,
}

/// The states that the hash base is about.
pub fn plan_multi(
    sched: &MhotHashSchedule,
    hash_witness: &RefWitness,
    route_witnesses: &[RouteF32Witness],
) -> (states: Vec<State>)
    requires
        sched.hash_atoms@.len() > 0,
        route_witnesses@.len() > 0,
        covers_atoms(*sched, *hash_witness),
    ensures
        state_seqs(states@) == covered_states(states_bits(atom_states_of(*sched, *hash_witness))),
{
    let mut states: Vec<State> = Vec::new();
    append_initial_states(&mut states, sched, hash_witness);
    assert(state_seqs(states@) =~= states_bits(atom_states_of(*sched, *hash_witness)));
    cover_states(&mut states);
    states
}

/// Whether a proof states what the proof system made of both bases.
pub open spec fn states_bases(p: MhotMultiProof, hash: OpenedCore, route: OpenedCore) -> bool {
    &&& p.hash_zc == hash.zc_proof
    &&& p.hash_lc == hash.lc_proof
    &&& p.hash_pcs == hash.pcs_open
    &&& p.hash_commitment == hash.commitment
    &&& p.hash_claim == hash.claim
    &&& p.route_zc == route.zc_proof
    &&& p.route_lc == route.lc_proof
    &&& p.route_pcs == route.pcs_open
    &&& p.route_commitment == route.commitment
    &&& p.route_claim == route.claim
}

/// The proof of both bases, given what the proof system makes of them.
pub fn prove_multi(
    sched: &MhotHashSchedule,
    hash_witness: &RefWitness,
    route_witnesses: &[RouteF32Witness],
    hash: OpenedCore,
    route: OpenedCore,
) -> (p: MhotMultiProof)
    requires
        sched.hash_atoms@.len() > 0,
        route_witnesses@.len() > 0,
        covers_atoms(*sched, *hash_witness),
    ensures
        states_bases(p, hash, route),
        p.expected_root == hash_witness.expected_root,
        p.n_keccaks == sched.hash_atoms@.len(),
        p.n_routes == route_witnesses@.len(),
{
    MhotMultiProof {
        hash_zc: hash.zc_proof,
        hash_lc: hash.lc_proof,
        hash_pcs: hash.pcs_open,
        hash_commitment: hash.commitment,
        hash_claim: hash.claim,
        route_zc: route.zc_proof,
        route_lc: route.lc_proof,
        route_pcs: route.pcs_open,
        route_commitment: route.commitment,
        route_claim: route.claim,
        expected_root: hash_witness.expected_root,
        n_keccaks: sched.hash_atoms.len(),
        n_routes: route_witnesses.len(),
    }
}

/// What the proof system is asked of two bases. The transcript starts with
/// `prelude`; the core of the hash base comes first in it, then that of the
/// route base; and each opening is made in a copy of it as it is after both.
#[derive(Clone, Debug)]
pub struct BaseQuestions<'a> {
    pub prelude: Vec<TranscriptOp>,
    pub hash: BaseQuestion<'a>,
    pub route: BaseQuestion<'a>,
}

/// What the transcript of a base's opening adds to that of the cores.
pub open spec fn fork_observed(base_label: Seq<char>) -> Seq<Observed> {
    seq![Observed::Label("mhot-multi-pcs-fork-v0"@), Observed::Label(base_label)]
}

/// Whether these are the questions about a proof of both bases.
pub open spec fn are_questions(q: BaseQuestions, p: MhotMultiProof) -> bool {
    &&& transcript(q.prelude@) == seq![Observed::Label("mhot-multi-v0"@)]
    &&& asks_base(
        q.hash,
        Relation::Keccak { n: covered_keccaks(p.n_keccaks as nat) as usize },
        p.hash_zc,
        p.hash_lc,
        p.hash_pcs,
        p.hash_commitment,
    )
    &&& q.hash.claims@.len() == 0
    &&& transcript(q.hash.fork@) == fork_observed("hash"@)
    &&& asks_base(
        q.route,
        Relation::Route { n: p.n_routes },
        p.route_zc,
        p.route_lc,
        p.route_pcs,
        p.route_commitment,
    )
    &&& q.route.claims@.len() == 0
    &&& transcript(q.route.fork@) == fork_observed("route"@)
}

/// What the proof system is asked about a proof of both bases.
pub fn base_questions(proof: &MhotMultiProof) -> (q: BaseQuestions<'_>)
    ensures
        are_questions(q, *proof),
{
    let mut prelude: Vec<TranscriptOp> = Vec::new();
    prelude.push(TranscriptOp::Label("mhot-multi-v0"));
    let q = BaseQuestions {
        prelude,
        hash: BaseQuestion {
            relation: Relation::Keccak { n: ligerito_setup_n_keccaks(proof.n_keccaks) },
            zc: &proof.hash_zc,
            lc: &proof.hash_lc,
            pcs: &proof.hash_pcs,
            commitment: proof.hash_commitment,
            claims: Vec::new(),
            fork: fork_pcs_challenger("hash"),
        },
        route: BaseQuestion {
            relation: Relation::Route { n: proof.n_routes },
            zc: &proof.route_zc,
            lc: &proof.route_lc,
            pcs: &proof.route_pcs,
            commitment: proof.route_commitment,
            claims: Vec::new(),
            fork: fork_pcs_challenger("route"),
        },
    };
    assert(transcript(q.prelude@) =~= seq![Observed::Label("mhot-multi-v0"@)]);
    q
}

/// What the proof system says of two bases.
#[derive(Clone, Copy, Debug)]
pub struct BaseReplies {
    pub hash_core: Result<(), VerifyError>,
    pub route_core: Result<(), VerifyError>,
    pub hash_opening: Result<(), VerifyError>,
    pub route_opening: Result<(), VerifyError>,
}

/// What verifying two bases comes to: both cores come before both openings,
/// and the hash base before the route base.
pub open spec fn bases_verdict(replies: BaseReplies) -> Result<(), VerifyError> {
    if replies.hash_core is Err {
        replies.hash_core
    } else if replies.route_core is Err {
        replies.route_core
    } else if replies.hash_opening is Err {
        replies.hash_opening
    } else {
        replies.route_opening
    }
}

/// Decides on two bases, given what the proof system says of them.
pub(crate) fn decide_bases(replies: &BaseReplies) -> (r: Result<(), VerifyError>)
    ensures
        r == bases_verdict(*replies),
{
    match replies.hash_core {
        Err(e) => {
            return Err(e);
        },
        Ok(()) => {},
    }
    match replies.route_core {
        Err(e) => {
            return Err(e);
        },
        Ok(()) => {},
    }
    match replies.hash_opening {
        Err(e) => {
            return Err(e);
        },
        Ok(()) => {},
    }
    replies.route_opening
}

/// Decides on the proof of both bases, given what the proof system says to
/// `base_questions`.
pub fn verify_multi(proof: &MhotMultiProof, replies: &BaseReplies) -> (r: Result<(), VerifyError>)
    ensures
        r == bases_verdict(*replies),
        r is Ok <==> replies.hash_core is Ok && replies.route_core is Ok && replies.hash_opening is Ok
            && replies.route_opening is Ok,
{
    decide_bases(replies)
}

/// What the transcript of a base's opening adds to that of the cores.
pub fn fork_pcs_challenger(base_label: &'static str) -> (ops: Vec<TranscriptOp>)
    ensures
        transcript(ops@) == fork_observed(base_label@),
{
    let mut ops: Vec<TranscriptOp> = Vec::new();
    ops.push(TranscriptOp::Label("mhot-multi-pcs-fork-v0"));
    ops.push(TranscriptOp::Label(base_label));
    assert(transcript(ops@) =~= fork_observed(base_label@));
    ops
}

/// What is asked about a proof is what the proof system made of its bases, and
/// the hash base is asked about as many permutation calls as its plan has
/// states.
pub proof fn law_questions_match_bases(
    q: BaseQuestions,
    p: MhotMultiProof,
    sched: MhotHashSchedule,
    witness: RefWitness,
    hash: OpenedCore,
    route: OpenedCore,
)
    requires
        states_bases(p, hash, route),
        p.n_keccaks == sched.hash_atoms@.len(),
        are_questions(q, p),
    ensures
        q.hash.relation == (Relation::Keccak {
            n: covered_states(states_bits(atom_states_of(sched, witness))).len() as usize,
        }),
        q.route.relation == (Relation::Route { n: p.n_routes }),
        *q.hash.zc == hash.zc_proof && *q.hash.lc == hash.lc_proof && *q.hash.pcs == hash.pcs_open
            && q.hash.commitment == hash.commitment,
        *q.route.zc == route.zc_proof && *q.route.lc == route.lc_proof && *q.route.pcs
            == route.pcs_open && q.route.commitment == route.commitment,
{
}

/// Two bases are accepted exactly when the proof system accepts both cores and
/// both openings; and an error is that of the first part that is refused, the
/// cores before the openings and the hash base before the route base.
pub proof fn law_bases_accepted_iff_all_parts(replies: BaseReplies)
    ensures
        bases_verdict(replies) is Ok <==> replies.hash_core is Ok && replies.route_core is Ok
            && replies.hash_opening is Ok && replies.route_opening is Ok,
        replies.hash_core matches Err(e) ==> bases_verdict(replies) == Err::<(), VerifyError>(e),
        replies.hash_core is Ok ==> (replies.route_core matches Err(e) ==> bases_verdict(replies)
            == Err::<(), VerifyError>(e)),
        replies.hash_core is Ok && replies.route_core is Ok ==> (replies.hash_opening matches Err(e)
            ==> bases_verdict(replies) == Err::<(), VerifyError>(e)),
        replies.hash_core is Ok && replies.route_core is Ok && replies.hash_opening is Ok ==> (
        replies.route_opening matches Err(e) ==> bases_verdict(replies) == Err::<(), VerifyError>(
            e,
        )),
{
}

/// What is asked about a proof: of the permutation calls and of the routes,
/// each with the numbers and parts that the proof states, and no claim beside.
pub proof fn law_questions_ask_proof(q: BaseQuestions, p: MhotMultiProof)
    requires
        are_questions(q, p),
    ensures
        transcript(q.prelude@) == seq![Observed::Label("mhot-multi-v0"@)],
        q.hash.relation matches Relation::Keccak { n } && n == if p.n_keccaks < 49 {
            49usize
        } else {
            p.n_keccaks
        },
        q.route.relation == (Relation::Route { n: p.n_routes }),
        *q.hash.zc == p.hash_zc && *q.hash.lc == p.hash_lc && *q.hash.pcs == p.hash_pcs,
        q.hash.commitment == p.hash_commitment,
        *q.route.zc == p.route_zc && *q.route.lc == p.route_lc && *q.route.pcs == p.route_pcs,
        q.route.commitment == p.route_commitment,
        q.hash.claims@.len() == 0 && q.route.claims@.len() == 0,
        transcript(q.hash.fork@) == seq![
            Observed::Label("mhot-multi-pcs-fork-v0"@),
            Observed::Label("hash"@),
        ],
        transcript(q.route.fork@) == seq![
            Observed::Label("mhot-multi-pcs-fork-v0"@),
            Observed::Label("route"@),
        ],
{
}

/// The opening of a base forks the transcript by a label of its own and the
/// base's name.
pub proof fn law_fork_labels(base_label: Seq<char>)
    ensures
        fork_observed(base_label) == seq![
            Observed::Label("mhot-multi-pcs-fork-v0"@),
            Observed::Label(base_label),
        ],
{
}

/// A proof on two bases holds the parts that were proved on each.
pub proof fn law_proof_states_bases(p: MhotMultiProof, hash: OpenedCore, route: OpenedCore)
    requires
        states_bases(p, hash, route),
    ensures
        p.hash_zc == hash.zc_proof && p.hash_lc == hash.lc_proof && p.hash_pcs == hash.pcs_open,
        p.hash_commitment == hash.commitment && p.hash_claim == hash.claim,
        p.route_zc == route.zc_proof && p.route_lc == route.lc_proof && p.route_pcs
            == route.pcs_open,
        p.route_commitment == route.commitment && p.route_claim == route.claim,
{
}

} // verus!
