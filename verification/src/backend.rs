//! What passes between the library and the proof system that commits to
//! assignments, proves that they satisfy a constraint system, and opens them.

use vstd::arithmetic::power2::pow2;
use vstd::prelude::*;

use crate::native_witness::{ancestor, law_ancestor};
use crate::r1cs::F128;

verus! {

/// Why the proof system rejects a base.
#[derive(Clone, Copy, Debug, PartialEq, Eq, Structural)]
pub enum VerifyError {
    /// The constraint system's own check fails.
    Core,
    /// The opening of the commitment fails.
    PcsAb,
    /// A claim on how committed values are connected fails.
    Wiring,
}

/// Why the proof system rejects a hash path.
#[derive(Clone, Copy, Debug, PartialEq, Eq, Structural)]
pub enum MerklePathVerifyError {
    Core,
    Shift,
    Opening,
}

/// Why the proof system rejects a hash chain.
#[derive(Clone, Copy, Debug, PartialEq, Eq, Structural)]
pub enum ChainVerifyError {
    Core,
    Shift,
    Opening,
}

/// A setting of the commitment scheme.
#[derive(Clone, Copy, Debug, PartialEq, Eq, Structural)]
pub enum LigeritoProfile {
    Fast,
}

/// The parameters of the commitment to `2^m` bits.
#[derive(Clone, Copy, Debug, PartialEq, Eq, Structural)]
pub struct PcsParams {
    pub m: usize,
    pub log_inv_rate: usize,
    pub log_batch_size: usize,
    pub profile: LigeritoProfile,
}

/// The parameters that every base commits with.
pub open spec fn default_params(m: usize) -> PcsParams {
    PcsParams { m, log_inv_rate: 1, log_batch_size: 6, profile: LigeritoProfile::Fast }
}

/// The parameters that every base commits with.
pub fn make_params(m: usize) -> (p: PcsParams)
    ensures
        p == default_params(m),
{
    PcsParams { m, log_inv_rate: 1, log_batch_size: 6, profile: LigeritoProfile::Fast }
}

/// A commitment to an assignment.
#[derive(Clone, Copy, Debug, PartialEq, Eq)]
pub struct Commitment {
    pub root: [u8; 32],
}

/// A claimed value of a committed polynomial.
#[derive(Clone, Debug, PartialEq, Eq)]
pub struct ZClaim {
    pub z_skip: F128,
    pub x_outer: Vec<F128>,
    pub value: F128,
}

/// The two claims that checking a constraint system leaves open.
#[derive(Clone, Debug, PartialEq, Eq)]
pub struct R1csClaim {
    pub ab: ZClaim,
    pub c: ZClaim,
}

/// A claim that a packed assignment has `value` at `point`.
#[derive(Clone, Debug, PartialEq, Eq)]
pub struct PackedDirectClaim {
    pub point: Vec<F128>,
    pub value: F128,
}

/// What the proof system hands back for one base: the encodings of its proofs,
/// the commitment and the claim.
#[derive(Clone, Debug, PartialEq, Eq)]
pub struct OpenedCore {
    pub zc_proof: Vec<u8>,
    pub lc_proof: Vec<u8>,
    pub pcs_open: Vec<u8>,
    pub commitment: Commitment,
    pub claim: R1csClaim,
}

/// One thing that prover and verifier put into the transcript.
#[derive(Clone, Debug, PartialEq, Eq)]
pub enum TranscriptOp {
    Label(&'static str),
    Bytes(Vec<u8>),
}

/// One thing in the transcript.
pub enum Observed {
    Label(Seq<char>),
    Bytes(Seq<u8>),
}

/// What an operation puts into the transcript.
pub open spec fn observed(op: TranscriptOp) -> Observed {
    match op {
        TranscriptOp::Label(s) => Observed::Label(s@),
        TranscriptOp::Bytes(b) => Observed::Bytes(b@),
    }
}

/// What a list of operations puts into the transcript.
pub open spec fn transcript(ops: Seq<TranscriptOp>) -> Seq<Observed> {
    ops.map_values(|op: TranscriptOp| observed(op))
}

/// The constraint system that a base is checked against.
#[derive(Clone, Copy, Debug, PartialEq, Eq, Structural)]
pub enum Relation {
    /// That of `n` permutation calls.
    Keccak { n: usize },
    /// That of `n_blocks` compressions.
    Sha256 { n_blocks: usize },
    /// That of a batch of `n` routes.
    Route { n: usize },
    /// That of a batch of `n` single steps of routes.
    RouteStep { n: usize },
}

/// What the proof system is asked of a base, in two parts. The core: whether
/// `zc` and `lc` show that what is committed satisfies the relation. The
/// opening: whether `pcs` shows that the commitment bears out the claim that
/// the core leaves open, and `claims`. The transcript of the opening is that of
/// the cores with `fork` added.
#[derive(Clone, Debug)]
pub struct BaseQuestion<'a> {
    pub relation: Relation,
    pub zc: &'a Vec<u8>,
    pub lc: &'a Vec<u8>,
    pub pcs: &'a Vec<u8>,
    pub commitment: Commitment,
    pub claims: Vec<PackedDirectClaim>,
    pub fork: Vec<TranscriptOp>,
}

/// Whether `zc` and `lc` show that what is committed satisfies a relation.
#[derive(Clone, Debug)]
pub struct CoreQuestion<'a> {
    pub relation: Relation,
    pub zc: &'a Vec<u8>,
    pub lc: &'a Vec<u8>,
    pub commitment: Commitment,
}

/// Whether `pcs` shows that a commitment bears out what a core leaves open, and
/// the other claims.
#[derive(Clone, Debug)]
pub struct OpeningQuestion<'a> {
    pub relation: Relation,
    pub commitment: Commitment,
    pub left_open: &'a R1csClaim,
    pub claims: &'a Vec<PackedDirectClaim>,
    pub pcs: &'a Vec<u8>,
    pub fork: &'a Vec<TranscriptOp>,
}

impl<'a> BaseQuestion<'a> {
    /// The first part of a base's question.
    pub fn core_question(&self) -> (q: CoreQuestion<'a>)
        ensures
            q.relation == self.relation,
            *q.zc == *self.zc,
            *q.lc == *self.lc,
            q.commitment == self.commitment,
    {
        CoreQuestion {
            relation: self.relation,
            zc: self.zc,
            lc: self.lc,
            commitment: self.commitment,
        }
    }

    /// The second part of a base's question, once its core is accepted and has
    /// left a claim open.
    pub fn opening_question<'b>(&'b self, left_open: &'b R1csClaim) -> (q: OpeningQuestion<'b>)
        ensures
            q.relation == self.relation,
            q.commitment == self.commitment,
            *q.left_open == *left_open,
            *q.claims == self.claims,
            *q.pcs == *self.pcs,
            *q.fork == self.fork,
    {
        OpeningQuestion {
            relation: self.relation,
            commitment: self.commitment,
            left_open,
            claims: &self.claims,
            pcs: self.pcs,
            fork: &self.fork,
        }
    }
}

/// Whether a base's question is about these parts of a proof.
pub open spec fn asks_base(
    q: BaseQuestion,
    relation: Relation,
    zc: Vec<u8>,
    lc: Vec<u8>,
    pcs: Vec<u8>,
    commitment: Commitment,
) -> bool {
    &&& q.relation == relation
    &&& *q.zc == zc
    &&& *q.lc == lc
    &&& *q.pcs == pcs
    &&& q.commitment == commitment
}

/// The question about a base alone, under a transcript of its own that starts
/// with `label`.
#[derive(Clone, Debug)]
pub struct LoneQuestion<'a> {
    pub label: &'static str,
    pub base: BaseQuestion<'a>,
}

/// The question about a base whose core and opening are one proof, under a
/// transcript that starts with `label`.
#[derive(Clone, Debug)]
pub struct WholeQuestion<'a> {
    pub label: &'static str,
    pub relation: Relation,
    pub proof: &'a Vec<u8>,
    pub commitment: Commitment,
}

/// What verifying a base alone comes to: the claim that the core leaves open,
/// where core and opening are accepted. The opening does not matter where the
/// core is rejected.
pub open spec fn lone_verdict(core: Result<R1csClaim, VerifyError>, opening_ok: bool) -> Result<
    R1csClaim,
    VerifyError,
> {
    if core is Ok && !opening_ok {
        Err(VerifyError::PcsAb)
    } else {
        core
    }
}

/// The field element of a bit.
pub open spec fn bit_element(b: bool) -> F128 {
    if b {
        F128 { lo: 1, hi: 0 }
    } else {
        F128 { lo: 0, hi: 0 }
    }
}

/// Bit `k` of `n`.
pub open spec fn nat_bit(n: nat, k: nat) -> bool {
    ancestor(n, k) % 2 == 1
}

/// The point that selects packed index `index` among `2^len`: its bits, the
/// lowest first.
pub open spec fn index_point(index: nat, len: nat) -> Seq<F128> {
    Seq::new(len, |k: int| bit_element(nat_bit(index, k as nat)))
}

/// Builds the point that selects packed index `index`.
pub fn make_index_point(index: usize, len: usize) -> (p: Vec<F128>)
    ensures
        p@ == index_point(index as nat, len as nat),
{
    let mut p: Vec<F128> = Vec::new();
    let mut rest: usize = index;
    for k in 0..len
        invariant
            p@.len() == k,
            forall|i: int| 0 <= i < k ==> #[trigger] p@[i] == index_point(
                index as nat,
                len as nat,
            )[i],
            rest == ancestor(index as nat, k as nat),
    {
        p.push(
            if rest % 2 == 1 {
                F128::one()
            } else {
                F128::zero()
            },
        );
        rest = rest / 2;
    }
    assert(p@ =~= index_point(index as nat, len as nat));
    p
}

/// Word `i` of packed elements, the low half of each first.
pub open spec fn packed_word(v: Seq<F128>, i: int) -> u64 {
    if i % 2 == 0 {
        v[i / 2].lo
    } else {
        v[i / 2].hi
    }
}

/// The words of packed elements.
pub open spec fn packed_words(v: Seq<F128>) -> Seq<u64> {
    Seq::new(2 * v.len(), |i: int| packed_word(v, i))
}

/// Packs `words` behind what `out` holds.
pub fn append_packed(out: &mut Vec<F128>, words: &Vec<u64>)
    requires
        words@.len() % 2 == 0,
    ensures
        packed_words(final(out)@) == packed_words(old(out)@) + words@,
        final(out)@.len() == old(out)@.len() + words@.len() / 2,
{
    let n: usize = words.len() / 2;
    let total: usize = words.len();
    assert(packed_words(out@) =~= packed_words(old(out)@) + words@.take(0));
    for e in 0..n
        invariant
            total == words@.len() == 2 * n,
            out@.len() == old(out)@.len() + e,
            packed_words(out@) == packed_words(old(out)@) + words@.take(2 * e as int),
    {
        let ghost before = out@;
        out.push(F128 { lo: words[2 * e], hi: words[2 * e + 1] });
        proof {
            let w = seq![words@[2 * e as int], words@[2 * e + 1]];
            assert(packed_words(out@) =~= packed_words(before) + w);
            assert(words@.take(2 * (e + 1)) =~= words@.take(2 * e as int) + w);
        }
    }
    assert(words@.take(total as int) =~= words@);
}

/// A base alone is accepted exactly when its core and its opening are, with the
/// claim that the core leaves open.
pub proof fn law_lone_accepted_iff_both_parts(
    core: Result<R1csClaim, VerifyError>,
    opening_ok: bool,
)
    ensures
        lone_verdict(core, opening_ok) is Ok <==> core is Ok && opening_ok,
        core matches Ok(claim) ==> opening_ok ==> lone_verdict(core, opening_ok) == Ok::<
            R1csClaim,
            VerifyError,
        >(claim),
        core matches Err(e) ==> lone_verdict(core, opening_ok) == Err::<R1csClaim, VerifyError>(e),
        core is Ok && !opening_ok ==> lone_verdict(core, opening_ok) == Err::<
            R1csClaim,
            VerifyError,
        >(VerifyError::PcsAb),
{
}

/// Coordinate `k` of the point of an index is the bit of the index with value
/// two to the `k`, as a field element.
pub proof fn law_index_point_bit(index: nat, len: nat, k: int)
    requires
        0 <= k < len,
    ensures
        index_point(index, len).len() == len,
        index_point(index, len)[k].hi == 0,
        index_point(index, len)[k].lo == index / pow2(k as nat) % 2,
{
    law_ancestor(index, k as nat);
}

/// A packed element stands for two words, its low half first.
pub proof fn law_packed_words_halves(v: Seq<F128>, i: int)
    requires
        0 <= i < v.len(),
    ensures
        packed_words(v).len() == 2 * v.len(),
        packed_words(v)[2 * i] == v[i].lo,
        packed_words(v)[2 * i + 1] == v[i].hi,
{
}

/// The parameters of a commitment to `2^m` bits: a rate of one half, batches of
/// `2^6`, the fast profile.
pub proof fn law_default_params(m: usize)
    ensures
        default_params(m).m == m,
        default_params(m).log_inv_rate == 1,
        default_params(m).log_batch_size == 6,
        default_params(m).profile == LigeritoProfile::Fast,
{
}

/// A transcript observes, in order, each label and each string of bytes.
pub proof fn law_transcript_order(ops: Seq<TranscriptOp>, i: int)
    requires
        0 <= i < ops.len(),
    ensures
        transcript(ops).len() == ops.len(),
        ops[i] matches TranscriptOp::Label(s) ==> transcript(ops)[i] == Observed::Label(s@),
        ops[i] matches TranscriptOp::Bytes(b) ==> transcript(ops)[i] == Observed::Bytes(b@),
{
}

/// What it means to ask about a base: its relation, the three parts of its
/// proof and its commitment.
pub proof fn law_base_asked(
    q: BaseQuestion,
    relation: Relation,
    zc: Vec<u8>,
    lc: Vec<u8>,
    pcs: Vec<u8>,
    commitment: Commitment,
)
    ensures
        asks_base(q, relation, zc, lc, pcs, commitment) <==> q.relation == relation && *q.zc == zc
            && *q.lc == lc && *q.pcs == pcs && q.commitment == commitment,
{
}

} // verus!
