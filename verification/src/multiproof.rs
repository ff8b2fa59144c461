//! One proof for many paths under the same root: the permutation calls of all
//! paths, and the routes through all their nodes.

use vstd::prelude::*;

use crate::backend::{
    asks_base, observed, transcript, BaseQuestion, Commitment, Observed, OpenedCore, R1csClaim,
    Relation, TranscriptOp, VerifyError,
};
use crate::bytes::{append_u64_le, le64, lemma_le64_injective, lemma_split, same_bytes};
use crate::hash_only::{
    append_initial_states, atom_states_of, cover_states, covered_keccaks, covered_states,
    covers_atoms, ligerito_setup_n_keccaks, state_seqs, states_bits,
};
use crate::keccak::State;
use crate::multi_base::{bases_verdict, decide_bases, BaseQuestions, BaseReplies};
use crate::ref_witness::{bytes_to_logical_state, state_bits, Digest, RefWitness};
use crate::route_f32::Route;
use crate::route_f32_setup::{routes_of, RouteF32Witness};
use crate::schedule::MhotHashSchedule;
use crate::sound_multiproof::{bits_bytes, lemma_bits_bytes_injective};

verus! {

/// The label that a proof's transcript starts with.
pub const TRANSCRIPT_LABEL: &'static str = "mhot-multiproof-v0";

/// What is put into the transcript for one list of fanouts.
pub open spec fn fanouts_observed(fanouts: Seq<usize>) -> Seq<Observed> {
    seq![Observed::Bytes(le64(fanouts.len() as u64))] + fanouts.map_values(
        |f: usize| Observed::Bytes(le64(f as u64)),
    )
}

/// What is put into the transcript for many lists of fanouts.
pub open spec fn all_fanouts_observed(all: Seq<Seq<usize>>) -> Seq<Observed>
    decreases all.len(),
{
    if all.len() == 0 {
        Seq::empty()
    } else {
        fanouts_observed(all[0]) + all_fanouts_observed(all.drop_first())
    }
}

/// What is put into the transcript for the shape of all paths.
pub open spec fn topology_observed(all: Seq<Seq<usize>>) -> Seq<Observed> {
    seq![
        Observed::Label("mhot-wiring-topology-v0"@),
        Observed::Bytes(le64(all.len() as u64)),
    ] + all_fanouts_observed(all)
}

/// The views of lists of fanouts.
pub open spec fn fanout_views(all: Seq<Vec<usize>>) -> Seq<Seq<usize>> {
    all.map_values(|f: Vec<usize>| f@)
}

fn number_op(n: u64) -> (op: TranscriptOp)
    ensures
        observed(op) == Observed::Bytes(le64(n)),
{
    let mut bytes: Vec<u8> = Vec::new();
    append_u64_le(&mut bytes, n);
    assert(bytes@ =~= le64(n));
    TranscriptOp::Bytes(bytes)
}

proof fn lemma_transcript_push(ops: Seq<TranscriptOp>, op: TranscriptOp)
    ensures
        transcript(ops.push(op)) == transcript(ops).push(observed(op)),
{
    assert(transcript(ops.push(op)) =~= transcript(ops).push(observed(op)));
}

/// Appends what is put into the transcript for one list of fanouts.
fn observe_fanouts(ops: &mut Vec<TranscriptOp>, fanouts: &Vec<usize>)
    ensures
        transcript(final(ops)@) == transcript(old(ops)@) + fanouts_observed(fanouts@),
{
    let op = number_op(fanouts.len() as u64);
    proof {
        lemma_transcript_push(ops@, op);
    }
    ops.push(op);
    let ghost start = transcript(ops@);
    let ghost all = fanouts@.map_values(|f: usize| Observed::Bytes(le64(f as u64)));
    assert(start =~= start + all.take(0));
    for i in 0..fanouts.len()
        invariant
            all == fanouts@.map_values(|f: usize| Observed::Bytes(le64(f as u64))),
            transcript(ops@) == start + all.take(i as int),
    {
        let op = number_op(fanouts[i] as u64);
        proof {
            lemma_transcript_push(ops@, op);
            assert(all.take(i + 1) =~= all.take(i as int).push(all[i as int]));
            assert(start + all.take(i + 1) =~= (start + all.take(i as int)).push(all[i as int]));
        }
        ops.push(op);
    }
    assert(all.take(all.len() as int) =~= all);
    assert(transcript(ops@) =~= transcript(old(ops)@) + fanouts_observed(fanouts@));
}

proof fn lemma_all_fanouts_push(all: Seq<Seq<usize>>, f: Seq<usize>)
    ensures
        all_fanouts_observed(all.push(f)) == all_fanouts_observed(all) + fanouts_observed(f),
    decreases all.len(),
{
    if all.len() == 0 {
        reveal_with_fuel(all_fanouts_observed, 2);
        assert(all.push(f).drop_first() =~= Seq::empty());
        assert(all.push(f)[0] == f);
        assert(all_fanouts_observed(all.push(f)) =~= all_fanouts_observed(all) + fanouts_observed(
            f,
        ));
    } else {
        lemma_all_fanouts_push(all.drop_first(), f);
        assert(all.push(f).drop_first() =~= all.drop_first().push(f));
        assert(all_fanouts_observed(all.push(f)) =~= all_fanouts_observed(all) + fanouts_observed(
            f,
        ));
    }
}

/// What is put into the transcript for the shape of all paths: how many there
/// are, and the fanouts of each.
pub fn observe_wiring_topology(all_fanouts: &[Vec<usize>]) -> (ops: Vec<TranscriptOp>)
    ensures
        transcript(ops@) == topology_observed(fanout_views(all_fanouts@)),
{
    let mut ops: Vec<TranscriptOp> = Vec::new();
    ops.push(TranscriptOp::Label("mhot-wiring-topology-v0"));
    let op = number_op(all_fanouts.len() as u64);
    proof {
        lemma_transcript_push(ops@, op);
    }
    ops.push(op);
    let ghost start = transcript(ops@);
    let ghost all = fanout_views(all_fanouts@);
    assert(start =~= seq![
        Observed::Label("mhot-wiring-topology-v0"@),
        Observed::Bytes(le64(all.len() as u64)),
    ]);
    assert(start =~= start + all_fanouts_observed(all.take(0)));
    for i in 0..all_fanouts.len()
        invariant
            all == fanout_views(all_fanouts@),
            transcript(ops@) == start + all_fanouts_observed(all.take(i as int)),
    {
        observe_fanouts(&mut ops, &all_fanouts[i]);
        proof {
            lemma_all_fanouts_push(all.take(i as int), all[i as int]);
            assert(all.take(i + 1) =~= all.take(i as int).push(all[i as int]));
            assert(transcript(ops@) =~= start + all_fanouts_observed(all.take(i + 1)));
        }
    }
    assert(all.take(all.len() as int) =~= all);
    ops
}

/// What the transcript of a proof starts with: the root, and the shape of all
/// paths.
pub open spec fn prelude_observed(root: Seq<u8>, all: Seq<Seq<usize>>) -> Seq<Observed> {
    seq![Observed::Label("mhot-multiproof-v0"@), Observed::Bytes(root)] + topology_observed(all)
}

/// What the transcript of a proof starts with: the root, and the shape of all
/// paths.
pub fn transcript_prelude(root: &Digest, all_fanouts: &[Vec<usize>]) -> (ops: Vec<TranscriptOp>)
    ensures
        transcript(ops@) == prelude_observed(root@, fanout_views(all_fanouts@)),
{
    let mut ops: Vec<TranscriptOp> = Vec::new();
    ops.push(TranscriptOp::Label("mhot-multiproof-v0"));
    ops.push(TranscriptOp::Bytes(vstd::slice::slice_to_vec(root.as_slice())));
    let ghost start = transcript(ops@);
    assert(start =~= seq![Observed::Label("mhot-multiproof-v0"@), Observed::Bytes(root@)]);
    let mut rest = observe_wiring_topology(all_fanouts);
    let ghost tail = rest@;
    let ghost head = ops@;
    ops.append(&mut rest);
    assert(transcript(ops@) =~= start + transcript(tail));
    ops
}

/// One path: its schedule, the states of its atoms and the routes through its
/// nodes.
pub struct MhotPathInput {
    pub schedule: MhotHashSchedule,
    pub hash_witness: RefWitness,
    pub route_witnesses: Vec<RouteF32Witness>,
}

/// A proof for many paths.
pub struct MhotMultiproof {
    pub hash_zc: Vec<u8>,
    pub hash_lc: Vec<u8>,
    pub hash_pcs: Vec<u8>,
    pub hash_commitment: Commitment,
    pub hash_claim: R1csClaim,
    pub route_zc: Vec<u8>,
    pub route_lc: Vec<u8>,
    pub route_pcs: Vec<u8>,
    pub route_commitment: Commitment,
    pub route_claim: R1csClaim,
    pub root: Digest,
    pub n_keccaks: usize,
    pub n_routes: usize,
    pub n_paths: usize,
    pub fanouts: Vec<Vec<usize>>,
}

/// Whether many paths can be proved: there is one, all have the same root,
/// and each has a state for each of its atoms.
pub open spec fn paths_agree(paths: Seq<MhotPathInput>) -> bool {
    &&& paths.len() > 0
    &&& forall|i: int|
        0 <= i < paths.len() ==> (#[trigger] paths[i]).hash_witness.expected_root@
            == paths[0].hash_witness.expected_root@
    &&& forall|i: int|
        0 <= i < paths.len() ==> covers_atoms(
            (#[trigger] paths[i]).schedule,
            paths[i].hash_witness,
        )
}

/// The states of the atoms of all paths, one path after another.
pub open spec fn all_states(paths: Seq<MhotPathInput>) -> Seq<Seq<u8>>
    decreases paths.len(),
{
    if paths.len() == 0 {
        Seq::empty()
    } else {
        all_states(paths.drop_last()) + atom_states_of(
            paths.last().schedule,
            paths.last().hash_witness,
        )
    }
}

/// The routes of all paths, one path after another.
pub open spec fn all_routes(paths: Seq<MhotPathInput>) -> Seq<Route>
    decreases paths.len(),
{
    if paths.len() == 0 {
        Seq::empty()
    } else {
        all_routes(paths.drop_last()) + routes_of(paths.last().route_witnesses@)
    }
}

/// The fanouts of all paths.
pub open spec fn path_fanouts(paths: Seq<MhotPathInput>) -> Seq<Seq<usize>> {
    paths.map_values(|p: MhotPathInput| p.schedule.fanouts@)
}

/// What is committed for many paths, and what the proof states.
pub struct MultiproofPlan {
    pub root: Digest,
    pub fanouts: Vec<Vec<usize>>,
    pub n_paths: usize,
    /// How many of the states are not filled up.
    pub n_keccaks: usize,
    /// How many blocks of three permutation calls hold them.
    pub n_real_blocks: usize,
    pub initial_states: Vec<State>,
    pub route_witnesses: Vec<RouteF32Witness>,
    /// What the transcript starts with.
    pub prelude: Vec<TranscriptOp>,
}

/// Whether `plan` covers these states and these routes of many paths.
pub open spec fn is_plan(
    plan: MultiproofPlan,
    paths: Seq<MhotPathInput>,
    states: Seq<Seq<u8>>,
    routes: Seq<Route>,
) -> bool {
    &&& plan.root@ == paths[0].hash_witness.expected_root@
    &&& fanout_views(plan.fanouts@) == path_fanouts(paths)
    &&& plan.n_paths == paths.len()
    &&& plan.n_keccaks == states.len()
    &&& plan.n_real_blocks == (states.len() + 2) / 3
    &&& state_seqs(plan.initial_states@) == covered_states(states_bits(states))
    &&& routes_of(plan.route_witnesses@) == routes
    &&& transcript(plan.prelude@) == prelude_observed(plan.root@, path_fanouts(paths))
}

/// Copies the fanouts of all paths.
fn copy_fanouts(paths: &[MhotPathInput]) -> (all: Vec<Vec<usize>>)
    ensures
        fanout_views(all@) == path_fanouts(paths@),
{
    let mut all: Vec<Vec<usize>> = Vec::new();
    for i in 0..paths.len()
        invariant
            all@.len() == i,
            forall|k: int|
                0 <= k < i ==> (#[trigger] all@[k])@ == paths@[k].schedule.fanouts@,
    {
        all.push(vstd::slice::slice_to_vec(paths[i].schedule.fanouts.as_slice()));
    }
    assert(fanout_views(all@) =~= path_fanouts(paths@));
    all
}

/// Puts a plan together.
fn assemble_plan(
    paths: &[MhotPathInput],
    states: Vec<State>,
    route_witnesses: Vec<RouteF32Witness>,
    Ghost(raw): Ghost<Seq<Seq<u8>>>,
    Ghost(routes): Ghost<Seq<Route>>,
) -> (plan: MultiproofPlan)
    requires
        paths@.len() > 0,
        state_seqs(states@) == states_bits(raw),
        routes_of(route_witnesses@) == routes,
    ensures
        is_plan(plan, paths@, raw, routes),
        plan.route_witnesses == route_witnesses,
{
    let root: Digest = paths[0].hash_witness.expected_root;
    let fanouts = copy_fanouts(paths);
    let prelude = transcript_prelude(&root, fanouts.as_slice());
    let n_keccaks: usize = states.len();
    assert(states@.len() == state_seqs(states@).len());
    let mut initial_states = states;
    cover_states(&mut initial_states);
    let n_real_blocks: usize = n_keccaks / 3 + if n_keccaks % 3 == 0 {
        0
    } else {
        1
    };
    MultiproofPlan {
        root,
        fanouts,
        n_paths: paths.len(),
        n_keccaks,
        n_real_blocks,
        initial_states,
        route_witnesses,
        prelude,
    }
}

/// Appends copies of routes.
fn append_routes(out: &mut Vec<RouteF32Witness>, ws: &Vec<RouteF32Witness>)
    ensures
        routes_of(final(out)@) == routes_of(old(out)@) + routes_of(ws@),
{
    let ghost all = routes_of(ws@);
    assert(routes_of(out@) =~= routes_of(old(out)@) + all.take(0));
    for i in 0..ws.len()
        invariant
            all == routes_of(ws@),
            routes_of(out@) == routes_of(old(out)@) + all.take(i as int),
    {
        let ghost before = out@;
        out.push(ws[i].copied());
        proof {
            assert(routes_of(out@) =~= routes_of(before).push(all[i as int]));
            assert(all.take(i + 1) =~= all.take(i as int).push(all[i as int]));
            assert(routes_of(out@) =~= routes_of(old(out)@) + all.take(i + 1));
        }
    }
    assert(all.take(all.len() as int) =~= all);
}

/// What is committed for many paths: every permutation call and every route of
/// each.
pub fn plan_mhot_multiproof(paths: &[MhotPathInput]) -> (plan: MultiproofPlan)
    requires
        paths_agree(paths@),
    ensures
        is_plan(plan, paths@, all_states(paths@), all_routes(paths@)),
{
    let mut states: Vec<State> = Vec::new();
    let mut routes: Vec<RouteF32Witness> = Vec::new();
    assert(state_seqs(states@) =~= states_bits(all_states(paths@.take(0))));
    assert(routes_of(routes@) =~= all_routes(paths@.take(0)));
    for i in 0..paths.len()
        invariant
            paths_agree(paths@),
            state_seqs(states@) == states_bits(all_states(paths@.take(i as int))),
            routes_of(routes@) == all_routes(paths@.take(i as int)),
    {
        let path: &MhotPathInput = &paths[i];
        assert(covers_atoms(paths@[i as int].schedule, paths@[i as int].hash_witness));
        append_initial_states(&mut states, &path.schedule, &path.hash_witness);
        append_routes(&mut routes, &path.route_witnesses);
        proof {
            assert(paths@.take(i + 1).drop_last() =~= paths@.take(i as int));
            assert(states_bits(all_states(paths@.take(i + 1))) =~= states_bits(
                all_states(paths@.take(i as int)),
            ) + states_bits(atom_states_of(path.schedule, path.hash_witness)));
        }
    }
    assert(paths@.take(paths@.len() as int) =~= paths@);
    assemble_plan(
        paths,
        states,
        routes,
        Ghost(all_states(paths@)),
        Ghost(all_routes(paths@)),
    )
}

/// The distinct elements of a list, in the order in which they first appear.
pub open spec fn distinct<A>(s: Seq<A>) -> Seq<A>
    decreases s.len(),
{
    if s.len() == 0 {
        Seq::empty()
    } else {
        let rest = distinct(s.drop_last());
        if rest.contains(s.last()) {
            rest
        } else {
            rest.push(s.last())
        }
    }
}

/// What makes a route: its key, its mask and the digests of its children, one
/// byte for each bit.
pub open spec fn route_bytes(r: Route) -> Seq<u8> {
    bits_bytes(r.key) + bits_bytes(r.mask) + join_bits(r.children)
}

/// Bits of digests as bytes, one digest after another.
pub open spec fn join_bits(ds: Seq<Seq<bool>>) -> Seq<u8>
    decreases ds.len(),
{
    if ds.len() == 0 {
        Seq::empty()
    } else {
        join_bits(ds.drop_last()) + bits_bytes(ds.last())
    }
}

fn append_bits(out: &mut Vec<u8>, bits: &[bool; 256])
    ensures
        final(out)@ == old(out)@ + bits_bytes(bits@),
{
    assert(out@ =~= old(out)@ + bits_bytes(bits@.take(0)));
    for i in 0..256usize
        invariant
            out@ == old(out)@ + bits_bytes(bits@.take(i as int)),
    {
        out.push(
            if bits[i] {
                1
            } else {
                0
            },
        );
        assert(out@ =~= old(out)@ + bits_bytes(bits@.take(i + 1)));
    }
    assert(bits@.take(256) =~= bits@);
}

/// What tells a route from others.
pub fn route_witness_identity(rw: &RouteF32Witness) -> (id: Vec<u8>)
    ensures
        id@ == route_bytes(rw.route()),
{
    let mut bytes: Vec<u8> = Vec::new();
    append_bits(&mut bytes, &rw.key);
    append_bits(&mut bytes, &rw.mask);
    let ghost head = bytes@;
    let ghost ds = rw.route().children;
    assert(bytes@ =~= head + join_bits(ds.take(0)));
    for c in 0..rw.children.len()
        invariant
            ds == rw.route().children,
            bytes@ == head + join_bits(ds.take(c as int)),
    {
        append_bits(&mut bytes, &rw.children[c]);
        proof {
            assert(ds.take(c + 1).drop_last() =~= ds.take(c as int));
            assert(ds[c as int] == rw.children@[c as int]@);
            assert(bytes@ =~= head + join_bits(ds.take(c + 1)));
        }
    }
    assert(ds.take(ds.len() as int) =~= ds);
    assert(bytes@ =~= route_bytes(rw.route()));
    bytes
}

proof fn lemma_join_bits_len(ds: Seq<Seq<bool>>)
    requires
        forall|c: int| 0 <= c < ds.len() ==> (#[trigger] ds[c]).len() == 256,
    ensures
        join_bits(ds).len() == 256 * ds.len(),
    decreases ds.len(),
{
    if ds.len() > 0 {
        lemma_join_bits_len(ds.drop_last());
    }
}

proof fn lemma_join_bits_injective(a: Seq<Seq<bool>>, b: Seq<Seq<bool>>)
    requires
        forall|c: int| 0 <= c < a.len() ==> (#[trigger] a[c]).len() == 256,
        forall|c: int| 0 <= c < b.len() ==> (#[trigger] b[c]).len() == 256,
        join_bits(a) == join_bits(b),
    ensures
        a == b,
    decreases a.len(),
{
    lemma_join_bits_len(a);
    lemma_join_bits_len(b);
    if a.len() > 0 {
        lemma_join_bits_len(a.drop_last());
        lemma_join_bits_len(b.drop_last());
        lemma_split(
            join_bits(a.drop_last()),
            bits_bytes(a.last()),
            join_bits(b.drop_last()),
            bits_bytes(b.last()),
        );
        lemma_join_bits_injective(a.drop_last(), b.drop_last());
        lemma_bits_bytes_injective(a.last(), b.last());
        assert(a =~= a.drop_last().push(a.last()));
        assert(b =~= b.drop_last().push(b.last()));
    } else {
        assert(a =~= b);
    }
}

/// Whether key, mask and digests of a route have 256 bits each.
pub open spec fn full_width(r: Route) -> bool {
    &&& r.key.len() == 256
    &&& r.mask.len() == 256
    &&& forall|c: int| 0 <= c < r.children.len() ==> (#[trigger] r.children[c]).len() == 256
}

/// Routes with the same identity are the same.
pub proof fn law_route_identity(a: Route, b: Route)
    requires
        full_width(a),
        full_width(b),
        route_bytes(a) == route_bytes(b),
    ensures
        a == b,
{
    let (ka, kb) = (bits_bytes(a.key), bits_bytes(b.key));
    let (ma, mb) = (bits_bytes(a.mask), bits_bytes(b.mask));
    let (ca, cb) = (join_bits(a.children), join_bits(b.children));
    assert(route_bytes(a) =~= ka + (ma + ca));
    assert(route_bytes(b) =~= kb + (mb + cb));
    lemma_split(ka, ma + ca, kb, mb + cb);
    lemma_split(ma, ca, mb, cb);
    lemma_bits_bytes_injective(a.key, b.key);
    lemma_bits_bytes_injective(a.mask, b.mask);
    lemma_join_bits_injective(a.children, b.children);
}

/// The route of a witness has full width.
proof fn lemma_witness_width(w: RouteF32Witness)
    ensures
        full_width(w.route()),
{
}

fn same_state(a: &[u8; 200], b: &[u8; 200]) -> (r: bool)
    ensures
        r == (a@ == b@),
{
    for i in 0..200usize
        invariant
            forall|j: int| 0 <= j < i ==> a@[j] == b@[j],
    {
        if a[i] != b[i] {
            return false;
        }
    }
    assert(a@ =~= b@);
    true
}

/// The views of states of 200 bytes.
pub open spec fn byte_views(states: Seq<[u8; 200]>) -> Seq<Seq<u8>> {
    states.map_values(|s: [u8; 200]| s@)
}

/// Takes in a state, unless it was taken in before.
fn take_in_state(seen: &mut Vec<[u8; 200]>, states: &mut Vec<State>, state: &[u8; 200], Ghost(
    all,
): Ghost<Seq<Seq<u8>>>)
    requires
        byte_views(old(seen)@) == distinct(all),
        state_seqs(old(states)@) == states_bits(distinct(all)),
    ensures
        byte_views(final(seen)@) == distinct(all.push(state@)),
        state_seqs(final(states)@) == states_bits(distinct(all.push(state@))),
{
    let ghost d = distinct(all);
    assert(all.push(state@).drop_last() =~= all);
    for i in 0..seen.len()
        invariant
            byte_views(seen@) == d,
            d == distinct(all),
            all.push(state@).drop_last() == all,
            seen@ == old(seen)@,
            states@ == old(states)@,
            state_seqs(states@) == states_bits(d),
            forall|j: int| 0 <= j < i ==> d[j] != state@,
    {
        if same_state(&seen[i], state) {
            assert(d[i as int] == state@);
            assert(d.contains(state@));
            return;
        }
        assert(d[i as int] == seen@[i as int]@);
    }
    assert(!d.contains(state@));
    let ghost (s0, t0) = (seen@, states@);
    seen.push(*state);
    states.push(bytes_to_logical_state(state));
    proof {
        assert(byte_views(seen@) =~= byte_views(s0).push(state@));
        assert(state_seqs(states@) =~= state_seqs(t0).push(state_bits(state@)));
        assert(states_bits(d.push(state@)) =~= states_bits(d).push(state_bits(state@)));
    }
}

/// Whether `ids` are the identities of `ws`.
spec fn identities(ids: Seq<Vec<u8>>, ws: Seq<RouteF32Witness>) -> bool {
    &&& ids.len() == ws.len()
    &&& forall|i: int| 0 <= i < ids.len() ==> (#[trigger] ids[i])@ == route_bytes(ws[i].route())
}

/// Takes in a route, unless it was taken in before.
fn take_in_route(
    ids: &mut Vec<Vec<u8>>,
    ws: &mut Vec<RouteF32Witness>,
    w: &RouteF32Witness,
    Ghost(all): Ghost<Seq<Route>>,
)
    requires
        identities(old(ids)@, old(ws)@),
        routes_of(old(ws)@) == distinct(all),
    ensures
        identities(final(ids)@, final(ws)@),
        routes_of(final(ws)@) == distinct(all.push(w.route())),
{
    let ghost d = distinct(all);
    assert(all.push(w.route()).drop_last() =~= all);
    let id = route_witness_identity(w);
    for i in 0..ids.len()
        invariant
            ids@ == old(ids)@,
            ws@ == old(ws)@,
            identities(ids@, ws@),
            routes_of(ws@) == d,
            d == distinct(all),
            all.push(w.route()).drop_last() == all,
            id@ == route_bytes(w.route()),
            forall|j: int| 0 <= j < i ==> d[j] != w.route(),
    {
        assert(d[i as int] == ws@[i as int].route());
        if same_bytes(&ids[i], &id) {
            proof {
                lemma_witness_width(ws@[i as int]);
                lemma_witness_width(*w);
                law_route_identity(ws@[i as int].route(), w.route());
                assert(d[i as int] == w.route());
                assert(d.contains(w.route()));
            }
            return;
        }
    }
    assert(!d.contains(w.route()));
    let ghost (i0, w0) = (ids@, ws@);
    ids.push(id);
    ws.push(w.copied());
    proof {
        assert(routes_of(ws@) =~= routes_of(w0).push(w.route()));
        assert forall|i: int| 0 <= i < ids@.len() implies (#[trigger] ids@[i])@ == route_bytes(
            ws@[i].route(),
        ) by {
            if i < i0.len() {
                assert(ids@[i] == i0[i]);
                assert(ws@[i] == w0[i]);
            }
        }
    }
}

/// What is committed for many paths that share permutation calls and routes:
/// each distinct one once.
pub fn plan_mhot_multiproof_shared(paths: &[MhotPathInput]) -> (plan: MultiproofPlan)
    requires
        paths_agree(paths@),
    ensures
        is_plan(plan, paths@, distinct(all_states(paths@)), distinct(all_routes(paths@))),
{
    let mut seen: Vec<[u8; 200]> = Vec::new();
    let mut states: Vec<State> = Vec::new();
    let mut ids: Vec<Vec<u8>> = Vec::new();
    let mut routes: Vec<RouteF32Witness> = Vec::new();
    proof {
        assert(byte_views(seen@) =~= distinct(all_states(paths@.take(0))));
        assert(state_seqs(states@) =~= states_bits(distinct(all_states(paths@.take(0)))));
        assert(routes_of(routes@) =~= distinct(all_routes(paths@.take(0))));
    }
    for i in 0..paths.len()
        invariant
            paths_agree(paths@),
            byte_views(seen@) == distinct(all_states(paths@.take(i as int))),
            state_seqs(states@) == states_bits(distinct(all_states(paths@.take(i as int)))),
            identities(ids@, routes@),
            routes_of(routes@) == distinct(all_routes(paths@.take(i as int))),
    {
        let path: &MhotPathInput = &paths[i];
        assert(covers_atoms(paths@[i as int].schedule, paths@[i as int].hash_witness));
        take_in_path_states(&mut seen, &mut states, path, Ghost(all_states(paths@.take(i as int))));
        take_in_path_routes(&mut ids, &mut routes, path, Ghost(all_routes(paths@.take(i as int))));
        assert(paths@.take(i + 1).drop_last() =~= paths@.take(i as int));
    }
    assert(paths@.take(paths@.len() as int) =~= paths@);
    assemble_plan(
        paths,
        states,
        routes,
        Ghost(distinct(all_states(paths@))),
        Ghost(distinct(all_routes(paths@))),
    )
}

fn take_in_path_states(
    seen: &mut Vec<[u8; 200]>,
    states: &mut Vec<State>,
    path: &MhotPathInput,
    Ghost(all): Ghost<Seq<Seq<u8>>>,
)
    requires
        covers_atoms(path.schedule, path.hash_witness),
        byte_views(old(seen)@) == distinct(all),
        state_seqs(old(states)@) == states_bits(distinct(all)),
    ensures
        byte_views(final(seen)@) == distinct(
            all + atom_states_of(path.schedule, path.hash_witness),
        ),
        state_seqs(final(states)@) == states_bits(
            distinct(all + atom_states_of(path.schedule, path.hash_witness)),
        ),
{
    let ghost own = atom_states_of(path.schedule, path.hash_witness);
    assert(all + own.take(0) =~= all);
    for a in 0..path.schedule.hash_atoms.len()
        invariant
            covers_atoms(path.schedule, path.hash_witness),
            own == atom_states_of(path.schedule, path.hash_witness),
            byte_views(seen@) == distinct(all + own.take(a as int)),
            state_seqs(states@) == states_bits(distinct(all + own.take(a as int))),
    {
        let atom_id: usize = path.schedule.hash_atoms[a].atom_id;
        assert(path.schedule.hash_atoms@[a as int].atom_id < path.hash_witness.atom_states@.len());
        take_in_state(
            seen,
            states,
            &path.hash_witness.atom_states[atom_id],
            Ghost(all + own.take(a as int)),
        );
        assert(all + own.take(a + 1) =~= (all + own.take(a as int)).push(own[a as int]));
    }
    assert(own.take(own.len() as int) =~= own);
}

fn take_in_path_routes(
    ids: &mut Vec<Vec<u8>>,
    routes: &mut Vec<RouteF32Witness>,
    path: &MhotPathInput,
    Ghost(all): Ghost<Seq<Route>>,
)
    requires
        identities(old(ids)@, old(routes)@),
        routes_of(old(routes)@) == distinct(all),
    ensures
        identities(final(ids)@, final(routes)@),
        routes_of(final(routes)@) == distinct(all + routes_of(path.route_witnesses@)),
{
    let ghost own = routes_of(path.route_witnesses@);
    assert(all + own.take(0) =~= all);
    for r in 0..path.route_witnesses.len()
        invariant
            own == routes_of(path.route_witnesses@),
            identities(ids@, routes@),
            routes_of(routes@) == distinct(all + own.take(r as int)),
    {
        take_in_route(
            ids,
            routes,
            &path.route_witnesses[r],
            Ghost(all + own.take(r as int)),
        );
        assert(own[r as int] == path.route_witnesses@[r as int].route());
        assert(all + own.take(r + 1) =~= (all + own.take(r as int)).push(own[r as int]));
    }
    assert(own.take(own.len() as int) =~= own);
}

/// Whether a proof states what a plan does, with what the proof system made of
/// both bases.
pub open spec fn states_plan(
    p: MhotMultiproof,
    plan: MultiproofPlan,
    hash: OpenedCore,
    route: OpenedCore,
) -> bool {
    &&& p.hash_zc == hash.zc_proof
    &&& p.hash_lc == hash.lc_proof
    &&& p.hash_pcs == hash.pcs_open
    &&& p.hash_commitment == hash.commitment
    &&& p.hash_claim == hash.claim
    &&& p.route_zc == route.zc_proof
    &&& p.route_lc == route.lc_proof
    &&& p.route_pcs == route.pcs_open
    &&& p.route_commitment == route.commitment
    &&& p.route_claim == route.claim
    &&& p.root == plan.root
    &&& p.n_keccaks == plan.n_keccaks
    &&& p.n_routes == plan.route_witnesses@.len()
    &&& p.n_paths == plan.n_paths
    &&& p.fanouts == plan.fanouts
}

fn assemble_proof(plan: MultiproofPlan, hash: OpenedCore, route: OpenedCore) -> (p: MhotMultiproof)
    ensures
        states_plan(p, plan, hash, route),
{
    MhotMultiproof {
        hash_zc: hash.zc_proof,
        hash_lc: hash.lc_proof,
        hash_pcs: hash.pcs_open,
        hash_commitment: hash.commitment,
        hash_claim: hash.claim,
        route_zc: route.zc_proof,
        route_lc: route.lc_proof,
        route_pcs: route.pcs_open,
        route_commitment: route.commitment,
        route_claim: route.claim,
        root: plan.root,
        n_keccaks: plan.n_keccaks,
        n_routes: plan.route_witnesses.len(),
        n_paths: plan.n_paths,
        fanouts: plan.fanouts,
    }
}

/// The proof for many paths, given what the proof system makes of their plan.
pub fn prove_mhot_multiproof(
    plan: MultiproofPlan,
    hash: OpenedCore,
    route: OpenedCore,
) -> (p: MhotMultiproof)
    ensures
        states_plan(p, plan, hash, route),
{
    assemble_proof(plan, hash, route)
}

/// The proof for many paths that share permutation calls and routes, given
/// what the proof system makes of their plan.
pub fn prove_mhot_multiproof_shared(
    plan: MultiproofPlan,
    hash: OpenedCore,
    route: OpenedCore,
) -> (p: MhotMultiproof)
    ensures
        states_plan(p, plan, hash, route),
{
    assemble_proof(plan, hash, route)
}

/// What the transcript of a base's opening adds to that of the cores.
pub open spec fn fork_observed(base_label: Seq<char>) -> Seq<Observed> {
    seq![Observed::Label("mhot-multiproof-pcs-fork-v0"@), Observed::Label(base_label)]
}

/// Whether these are the questions about a proof for many paths.
pub open spec fn are_questions(q: BaseQuestions, p: MhotMultiproof) -> bool {
    &&& transcript(q.prelude@) == prelude_observed(p.root@, fanout_views(p.fanouts@))
    &&& asks_base(
        q.hash,
        Relation::Keccak { n: covered_keccaks(p.n_keccaks as nat) as usize },
        p.hash_zc,
        p.hash_lc,
        p.hash_pcs,
        p.hash_commitment,
    )
    &&& q.hash.claims@.len() == 0
    &&& transcript(q.hash.fork@) == fork_observed("hash"@)
    &&& asks_base(
        q.route,
        Relation::Route { n: p.n_routes },
        p.route_zc,
        p.route_lc,
        p.route_pcs,
        p.route_commitment,
    )
    &&& q.route.claims@.len() == 0
    &&& transcript(q.route.fork@) == fork_observed("route"@)
}

/// What the proof system is asked about a proof for many paths.
pub fn base_questions(proof: &MhotMultiproof) -> (q: BaseQuestions<'_>)
    ensures
        are_questions(q, *proof),
{
    BaseQuestions {
        prelude: transcript_prelude(&proof.root, proof.fanouts.as_slice()),
        hash: BaseQuestion {
            relation: Relation::Keccak { n: ligerito_setup_n_keccaks(proof.n_keccaks) },
            zc: &proof.hash_zc,
            lc: &proof.hash_lc,
            pcs: &proof.hash_pcs,
            commitment: proof.hash_commitment,
            claims: Vec::new(),
            fork: fork_pcs_challenger("hash"),
        },
        route: BaseQuestion {
            relation: Relation::Route { n: proof.n_routes },
            zc: &proof.route_zc,
            lc: &proof.route_lc,
            pcs: &proof.route_pcs,
            commitment: proof.route_commitment,
            claims: Vec::new(),
            fork: fork_pcs_challenger("route"),
        },
    }
}

/// Verifier and prover start the same transcript, and the verifier asks about
/// as many permutation calls and routes as the plan commits to.
pub proof fn law_questions_match_plan(
    q: BaseQuestions,
    p: MhotMultiproof,
    plan: MultiproofPlan,
    paths: Seq<MhotPathInput>,
    states: Seq<Seq<u8>>,
    routes: Seq<Route>,
    hash: OpenedCore,
    route: OpenedCore,
)
    requires
        is_plan(plan, paths, states, routes),
        states_plan(p, plan, hash, route),
        are_questions(q, p),
    ensures
        transcript(q.prelude@) == transcript(plan.prelude@),
        q.hash.relation == (Relation::Keccak { n: plan.initial_states@.len() as usize }),
        q.route.relation == (Relation::Route { n: plan.route_witnesses@.len() as usize }),
        *q.hash.zc == hash.zc_proof && *q.hash.lc == hash.lc_proof && *q.hash.pcs == hash.pcs_open
            && q.hash.commitment == hash.commitment,
        *q.route.zc == route.zc_proof && *q.route.lc == route.lc_proof && *q.route.pcs
            == route.pcs_open && q.route.commitment == route.commitment,
{
    assert(plan.initial_states@.len() == state_seqs(plan.initial_states@).len());
}

/// Decides on the proof for many paths, given what the proof system says to
/// `base_questions`.
pub fn verify_mhot_multiproof(proof: &MhotMultiproof, replies: &BaseReplies) -> (r: Result<
    (),
    VerifyError,
>)
    ensures
        r == bases_verdict(*replies),
        r is Ok <==> replies.hash_core is Ok && replies.route_core is Ok && replies.hash_opening is Ok
            && replies.route_opening is Ok,
{
    decide_bases(replies)
}

/// What the transcript of a base's opening adds to that of the cores.
pub fn fork_pcs_challenger(base_label: &'static str) -> (ops: Vec<TranscriptOp>)
    ensures
        transcript(ops@) == fork_observed(base_label@),
{
    let mut ops: Vec<TranscriptOp> = Vec::new();
    ops.push(TranscriptOp::Label("mhot-multiproof-pcs-fork-v0"));
    ops.push(TranscriptOp::Label(base_label));
    assert(transcript(ops@) =~= fork_observed(base_label@));
    ops
}

/// The distinct elements of a list are its elements, each once.
pub proof fn law_distinct<A>(s: Seq<A>)
    ensures
        distinct(s).len() <= s.len(),
        distinct(s).no_duplicates(),
        forall|x: A| distinct(s).contains(x) <==> s.contains(x),
    decreases s.len(),
{
    if s.len() > 0 {
        let rest = s.drop_last();
        law_distinct(rest);
        let d = distinct(rest);
        let last = s.last();
        assert(s =~= rest.push(last));
        assert forall|x: A| distinct(s).contains(x) <==> s.contains(x) by {
            if d.contains(last) {
                if s.contains(x) {
                    let i = choose|i: int| 0 <= i < s.len() && s[i] == x;
                    if i < rest.len() {
                        assert(rest[i] == x);
                        assert(rest.contains(x));
                    }
                }
                if d.contains(x) {
                    assert(rest.contains(x));
                    let i = choose|i: int| 0 <= i < rest.len() && rest[i] == x;
                    assert(s[i] == x);
                }
            } else {
                if s.contains(x) {
                    let i = choose|i: int| 0 <= i < s.len() && s[i] == x;
                    if i < rest.len() {
                        assert(rest[i] == x);
                        assert(rest.contains(x));
                        assert(d.contains(x));
                        let j = choose|j: int| 0 <= j < d.len() && d[j] == x;
                        assert(d.push(last)[j] == x);
                    } else {
                        assert(d.push(last)[d.len() as int] == x);
                    }
                }
                if d.push(last).contains(x) {
                    let j = choose|j: int| 0 <= j < d.push(last).len() && d.push(last)[j] == x;
                    if j < d.len() {
                        assert(d[j] == x);
                        assert(d.contains(x));
                        assert(rest.contains(x));
                        let i = choose|i: int| 0 <= i < rest.len() && rest[i] == x;
                        assert(s[i] == x);
                    } else {
                        assert(s[s.len() - 1] == x);
                    }
                }
            }
        }
        if !d.contains(last) {
            assert forall|i: int, j: int|
                0 <= i < d.push(last).len() && 0 <= j < d.push(last).len() && i != j implies d.push(
                last,
            )[i] != d.push(last)[j] by {
                if i < d.len() && j < d.len() {
                } else if i < d.len() {
                    assert(d.contains(d[i]));
                } else {
                    assert(d.contains(d[j]));
                }
            }
        }
    } else {
        assert forall|x: A| distinct(s).contains(x) <==> s.contains(x) by {}
    }
}

/// What was seen before adds nothing.
pub proof fn law_repeats_add_nothing<A>(s: Seq<A>, t: Seq<A>)
    requires
        forall|i: int| 0 <= i < t.len() ==> s.contains(#[trigger] t[i]),
    ensures
        distinct(s + t) == distinct(s),
    decreases t.len(),
{
    if t.len() == 0 {
        assert(s + t =~= s);
    } else {
        let rest = t.drop_last();
        assert forall|i: int| 0 <= i < rest.len() implies s.contains(#[trigger] rest[i]) by {
            assert(rest[i] == t[i]);
        }
        law_repeats_add_nothing(s, rest);
        assert((s + t).drop_last() =~= s + rest);
        assert(s.contains(t[t.len() - 1]));
        law_distinct(s);
    }
}

/// Numbers put into the transcript determine the fanouts that they are taken
/// of, and what follows them.
proof fn lemma_fanouts_observed_injective(
    a: Seq<usize>,
    x: Seq<Observed>,
    b: Seq<usize>,
    y: Seq<Observed>,
)
    requires
        a.len() <= u64::MAX && b.len() <= u64::MAX,
        fanouts_observed(a) + x == fanouts_observed(b) + y,
    ensures
        a == b,
        x == y,
{
    let s = fanouts_observed(a) + x;
    let t = fanouts_observed(b) + y;
    assert(s[0] == Observed::Bytes(le64(a.len() as u64)));
    assert(t[0] == Observed::Bytes(le64(b.len() as u64)));
    lemma_le64_injective(a.len() as u64, b.len() as u64);
    assert forall|i: int| 0 <= i < a.len() implies a[i] == b[i] by {
        assert(s[i + 1] == Observed::Bytes(le64(a[i] as u64)));
        assert(t[i + 1] == Observed::Bytes(le64(b[i] as u64)));
        lemma_le64_injective(a[i] as u64, b[i] as u64);
    }
    assert(a =~= b);
    assert(x =~= s.skip(1 + a.len() as int));
    assert(y =~= t.skip(1 + a.len() as int));
}

proof fn lemma_all_fanouts_injective(a: Seq<Seq<usize>>, b: Seq<Seq<usize>>)
    requires
        a.len() == b.len(),
        forall|i: int| 0 <= i < a.len() ==> (#[trigger] a[i]).len() <= u64::MAX,
        forall|i: int| 0 <= i < b.len() ==> (#[trigger] b[i]).len() <= u64::MAX,
        all_fanouts_observed(a) == all_fanouts_observed(b),
    ensures
        a == b,
    decreases a.len(),
{
    if a.len() > 0 {
        lemma_fanouts_observed_injective(
            a[0],
            all_fanouts_observed(a.drop_first()),
            b[0],
            all_fanouts_observed(b.drop_first()),
        );
        assert forall|i: int| 0 <= i < a.drop_first().len() implies (#[trigger] a.drop_first()[i]).len()
            <= u64::MAX by {
            assert(a.drop_first()[i] == a[i + 1]);
        }
        assert forall|i: int| 0 <= i < b.drop_first().len() implies (#[trigger] b.drop_first()[i]).len()
            <= u64::MAX by {
            assert(b.drop_first()[i] == b[i + 1]);
        }
        lemma_all_fanouts_injective(a.drop_first(), b.drop_first());
        assert(a =~= seq![a[0]] + a.drop_first());
        assert(b =~= seq![b[0]] + b.drop_first());
    } else {
        assert(a =~= b);
    }
}

/// The start of the transcript determines the root and the shape of all paths.
pub proof fn law_prelude_binds(
    root1: Seq<u8>,
    fanouts1: Seq<Seq<usize>>,
    root2: Seq<u8>,
    fanouts2: Seq<Seq<usize>>,
)
    requires
        fanouts1.len() <= u64::MAX && fanouts2.len() <= u64::MAX,
        forall|i: int| 0 <= i < fanouts1.len() ==> (#[trigger] fanouts1[i]).len() <= u64::MAX,
        forall|i: int| 0 <= i < fanouts2.len() ==> (#[trigger] fanouts2[i]).len() <= u64::MAX,
        prelude_observed(root1, fanouts1) == prelude_observed(root2, fanouts2),
    ensures
        root1 == root2,
        fanouts1 == fanouts2,
{
    let s = prelude_observed(root1, fanouts1);
    let t = prelude_observed(root2, fanouts2);
    assert(s[1] == Observed::Bytes(root1));
    assert(t[1] == Observed::Bytes(root2));
    assert(s[3] == Observed::Bytes(le64(fanouts1.len() as u64)));
    assert(t[3] == Observed::Bytes(le64(fanouts2.len() as u64)));
    lemma_le64_injective(fanouts1.len() as u64, fanouts2.len() as u64);
    assert(all_fanouts_observed(fanouts1) =~= s.skip(4));
    assert(all_fanouts_observed(fanouts2) =~= t.skip(4));
    lemma_all_fanouts_injective(fanouts1, fanouts2);
}

/// The states of many paths are those of each, path after path; those of one
/// path are the states of its atoms, in the order of its schedule.
pub proof fn law_all_states(a: Seq<MhotPathInput>, b: Seq<MhotPathInput>, p: MhotPathInput)
    ensures
        all_states(a + b) == all_states(a) + all_states(b),
        all_states(seq![p]) == Seq::new(
            p.schedule.hash_atoms@.len(),
            |i: int|
                p.hash_witness.atom_states@[p.schedule.hash_atoms@[i].atom_id as int]@,
        ),
    decreases b.len(),
{
    reveal_with_fuel(all_states, 2);
    assert(seq![p].drop_last() =~= Seq::<MhotPathInput>::empty());
    assert(all_states(seq![p]) =~= atom_states_of(p.schedule, p.hash_witness));
    if b.len() == 0 {
        assert(a + b =~= a);
        assert(all_states(a) + all_states(b) =~= all_states(a));
    } else {
        law_all_states(a, b.drop_last(), p);
        assert((a + b).drop_last() =~= a + b.drop_last());
        assert((a + b).last() == b.last());
        assert(all_states(a + b) =~= all_states(a) + all_states(b));
    }
}

/// The routes of many paths are those of each, path after path.
pub proof fn law_all_routes(a: Seq<MhotPathInput>, b: Seq<MhotPathInput>, p: MhotPathInput)
    ensures
        all_routes(a + b) == all_routes(a) + all_routes(b),
        all_routes(seq![p]) == Seq::new(
            p.route_witnesses@.len(),
            |i: int| p.route_witnesses@[i].route(),
        ),
    decreases b.len(),
{
    reveal_with_fuel(all_routes, 2);
    assert(seq![p].drop_last() =~= Seq::<MhotPathInput>::empty());
    assert(all_routes(seq![p]) =~= routes_of(p.route_witnesses@));
    if b.len() == 0 {
        assert(a + b =~= a);
        assert(all_routes(a) + all_routes(b) =~= all_routes(a));
    } else {
        law_all_routes(a, b.drop_last(), p);
        assert((a + b).drop_last() =~= a + b.drop_last());
        assert((a + b).last() == b.last());
        assert(all_routes(a + b) =~= all_routes(a) + all_routes(b));
    }
}

/// Each value first met is kept in its place among those met before.
pub proof fn law_distinct_keeps_order<A>(s: Seq<A>, k: int)
    requires
        0 <= k < s.len(),
    ensures
        distinct(s.take(k)).len() <= distinct(s).len(),
        forall|i: int|
            0 <= i < distinct(s.take(k)).len() ==> #[trigger] distinct(s)[i] == distinct(
                s.take(k),
            )[i],
        !s.take(k).contains(s[k]) ==> distinct(s.take(k)).len() < distinct(s).len() && distinct(
            s,
        )[distinct(s.take(k)).len() as int] == s[k],
    decreases s.len() - k,
{
    let t = s.take(k + 1);
    assert(t.drop_last() =~= s.take(k));
    assert(t.last() == s[k]);
    law_distinct(s.take(k));
    assert(distinct(t) == if distinct(s.take(k)).contains(s[k]) {
        distinct(s.take(k))
    } else {
        distinct(s.take(k)).push(s[k])
    });
    if k + 1 < s.len() {
        law_distinct_keeps_order(s, k + 1);
        assert forall|i: int| 0 <= i < distinct(s.take(k)).len() implies #[trigger] distinct(s)[i]
            == distinct(s.take(k))[i] by {
            assert(distinct(s)[i] == distinct(t)[i]);
        }
        if !s.take(k).contains(s[k]) {
            let at = distinct(s.take(k)).len() as int;
            assert(distinct(s)[at] == distinct(t)[at]);
        }
    } else {
        assert(t =~= s);
    }
}

/// What the transcript starts with: the label, the root, the label of the
/// topology, how many paths there are, and then each path's fanouts.
pub proof fn law_prelude_parts(root: Seq<u8>, all: Seq<Seq<usize>>)
    ensures
        prelude_observed(root, all).len() == 4 + all_fanouts_observed(all).len(),
        prelude_observed(root, all)[0] == Observed::Label("mhot-multiproof-v0"@),
        prelude_observed(root, all)[1] == Observed::Bytes(root),
        prelude_observed(root, all)[2] == Observed::Label("mhot-wiring-topology-v0"@),
        prelude_observed(root, all)[3] == Observed::Bytes(le64(all.len() as u64)),
        prelude_observed(root, all).skip(4) == all_fanouts_observed(all),
{
    assert(prelude_observed(root, all).skip(4) =~= all_fanouts_observed(all));
}

/// The fanouts of many paths are observed path after path; of one path, first
/// how many there are and then each.
pub proof fn law_fanouts_observed(a: Seq<Seq<usize>>, b: Seq<Seq<usize>>, f: Seq<usize>, i: int)
    ensures
        all_fanouts_observed(a + b) == all_fanouts_observed(a) + all_fanouts_observed(b),
        all_fanouts_observed(seq![f]).len() == f.len() + 1,
        all_fanouts_observed(seq![f])[0] == Observed::Bytes(le64(f.len() as u64)),
        0 <= i < f.len() ==> all_fanouts_observed(seq![f])[i + 1] == Observed::Bytes(
            le64(f[i] as u64),
        ),
    decreases a.len(),
{
    reveal_with_fuel(all_fanouts_observed, 2);
    assert(seq![f].drop_first() =~= Seq::<Seq<usize>>::empty());
    assert(all_fanouts_observed(seq![f]) =~= fanouts_observed(f));
    if a.len() == 0 {
        assert(a + b =~= b);
        assert(all_fanouts_observed(a) + all_fanouts_observed(b) =~= all_fanouts_observed(b));
    } else {
        law_fanouts_observed(a.drop_first(), b, f, i);
        assert((a + b).drop_first() =~= a.drop_first() + b);
        assert(all_fanouts_observed(a + b) =~= all_fanouts_observed(a) + all_fanouts_observed(b));
    }
}

/// What identifies a route, bit by bit, one byte each: its key, its mask and
/// then each of its children.
pub proof fn law_route_bytes_layout(r: Route, c: int, j: int)
    requires
        full_width(r),
        0 <= j < 256,
    ensures
        route_bytes(r).len() == 512 + 256 * r.children.len(),
        route_bytes(r)[j] == if r.key[j] {
            1u8
        } else {
            0u8
        },
        route_bytes(r)[256 + j] == if r.mask[j] {
            1u8
        } else {
            0u8
        },
        0 <= c < r.children.len() ==> route_bytes(r)[512 + 256 * c + j] == if r.children[c][j] {
            1u8
        } else {
            0u8
        },
{
    lemma_join_bits_byte(r.children, c, j);
    if 0 <= c < r.children.len() {
        assert(route_bytes(r)[512 + 256 * c + j] == join_bits(r.children)[256 * c + j]);
    }
}

proof fn lemma_join_bits_byte(ds: Seq<Seq<bool>>, c: int, j: int)
    requires
        forall|k: int| 0 <= k < ds.len() ==> (#[trigger] ds[k]).len() == 256,
        0 <= j < 256,
    ensures
        join_bits(ds).len() == 256 * ds.len(),
        0 <= c < ds.len() ==> join_bits(ds)[256 * c + j] == if ds[c][j] {
            1u8
        } else {
            0u8
        },
    decreases ds.len(),
{
    if ds.len() > 0 {
        let front = ds.drop_last();
        assert forall|k: int| 0 <= k < front.len() implies (#[trigger] front[k]).len() == 256 by {
            assert(front[k] == ds[k]);
        }
        lemma_join_bits_byte(front, c, j);
        assert(ds.last().len() == 256);
    }
}

/// What a plan holds: the states to prove, bit by bit, blank ones up to 49, the
/// routes, and the root and fanouts of the paths.
#[verifier::rlimit(40)]
pub proof fn law_plan_parts(
    plan: MultiproofPlan,
    paths: Seq<MhotPathInput>,
    states: Seq<Seq<u8>>,
    routes: Seq<Route>,
    i: int,
    k: int,
    t: int,
)
    requires
        is_plan(plan, paths, states, routes),
        paths.len() > 0,
        0 <= i < plan.initial_states@.len(),
        0 <= k < 200,
        0 <= t < 8,
    ensures
        plan.root@ == paths[0].hash_witness.expected_root@,
        plan.n_paths == paths.len(),
        plan.n_keccaks == states.len(),
        3 * plan.n_real_blocks >= states.len() && 3 * plan.n_real_blocks < states.len() + 3,
        plan.initial_states@.len() == if states.len() < 49 {
            49
        } else {
            states.len()
        },
        plan.initial_states@[i]@[k / 8 + 25 * (k % 8 * 8 + t)] <==> i < states.len() && (
        states[i][k] >> (t as u8)) & 1 == 1,
        plan.route_witnesses@.len() == routes.len(),
        forall|j: int|
            0 <= j < routes.len() ==> (#[trigger] plan.route_witnesses@[j]).route() == routes[j],
        plan.fanouts@.len() == paths.len(),
        forall|j: int|
            0 <= j < paths.len() ==> (#[trigger] plan.fanouts@[j])@ == paths[j].schedule.fanouts@,
{
    let all = plan.initial_states@;
    let p = k / 8 + 25 * (k % 8 * 8 + t);
    assert(state_seqs(all).len() == all.len());
    assert(state_seqs(all)[i] == all[i]@);
    assert(p % 25 == k / 8 && p / 25 == k % 8 * 8 + t);
    assert((k % 8 * 8 + t) / 8 == k % 8 && (k % 8 * 8 + t) % 8 == t);
    assert(p % 25 * 8 + p / 25 / 8 == k);
    if i < states.len() {
        assert(states_bits(states)[i] == state_bits(states[i]));
    }
    let ws = plan.route_witnesses@;
    assert(routes_of(ws).len() == ws.len());
    assert forall|j: int| 0 <= j < routes.len() implies (#[trigger] ws[j]).route()
        == routes[j] by {
        assert(routes_of(ws)[j] == ws[j].route());
    }
    let fs = plan.fanouts@;
    assert(fanout_views(fs).len() == fs.len());
    assert forall|j: int| 0 <= j < paths.len() implies (#[trigger] fs[j])@
        == paths[j].schedule.fanouts@ by {
        assert(fanout_views(fs)[j] == fs[j]@);
        assert(path_fanouts(paths)[j] == paths[j].schedule.fanouts@);
    }
}

/// What is asked about a proof: of the permutation calls and of the routes,
/// each with the numbers and parts that the proof states, and no claim beside.
pub proof fn law_questions_ask_proof(q: BaseQuestions, p: MhotMultiproof)
    requires
        are_questions(q, p),
    ensures
        transcript(q.prelude@) == prelude_observed(p.root@, fanout_views(p.fanouts@)),
        q.hash.relation matches Relation::Keccak { n } && n == if p.n_keccaks < 49 {
            49usize
        } else {
            p.n_keccaks
        },
        q.route.relation == (Relation::Route { n: p.n_routes }),
        *q.hash.zc == p.hash_zc && *q.hash.lc == p.hash_lc && *q.hash.pcs == p.hash_pcs,
        q.hash.commitment == p.hash_commitment,
        *q.route.zc == p.route_zc && *q.route.lc == p.route_lc && *q.route.pcs == p.route_pcs,
        q.route.commitment == p.route_commitment,
        q.hash.claims@.len() == 0 && q.route.claims@.len() == 0,
        transcript(q.hash.fork@) == seq![
            Observed::Label("mhot-multiproof-pcs-fork-v0"@),
            Observed::Label("hash"@),
        ],
        transcript(q.route.fork@) == seq![
            Observed::Label("mhot-multiproof-pcs-fork-v0"@),
            Observed::Label("route"@),
        ],
{
}

/// The opening of a base forks the transcript by a label of its own and the
/// base's name.
pub proof fn law_fork_labels(base_label: Seq<char>)
    ensures
        fork_observed(base_label) == seq![
            Observed::Label("mhot-multiproof-pcs-fork-v0"@),
            Observed::Label(base_label),
        ],
{
}

/// A proof states the numbers, the root and the fanouts of its plan, and holds
/// the parts that were proved.
pub proof fn law_proof_states_plan(
    p: MhotMultiproof,
    plan: MultiproofPlan,
    hash: OpenedCore,
    route: OpenedCore,
)
    requires
        states_plan(p, plan, hash, route),
    ensures
        p.root == plan.root && p.fanouts == plan.fanouts,
        p.n_paths == plan.n_paths && p.n_keccaks == plan.n_keccaks,
        p.n_routes == plan.route_witnesses@.len(),
        p.hash_zc == hash.zc_proof && p.hash_lc == hash.lc_proof && p.hash_pcs == hash.pcs_open,
        p.hash_commitment == hash.commitment && p.hash_claim == hash.claim,
        p.route_zc == route.zc_proof && p.route_lc == route.lc_proof && p.route_pcs
            == route.pcs_open,
        p.route_commitment == route.commitment && p.route_claim == route.claim,
{
}

} // verus!
