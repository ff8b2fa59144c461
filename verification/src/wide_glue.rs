//! Whether the digests at the two ends of every wire agree, and that those of
//! a reference run do.

use vstd::prelude::*;

use crate::merkle::same_hash;
use crate::ref_witness::{
    atoms_of_node, deliver, deliver_all, digest_views, final_children, fire_list, fire_nodes, fold_in,
    fold_inputs, fold_out, fold_root, insert_by_step, is_ref_witness, keccak_digest,
    keccak_f_digest, lemma_digest_len, node_digest, node_list, runnable, seeded_leaf, state_views,
    wires_in_range, Digest, RefWitness, Run,
};
use crate::schedule::{
    all_atoms, atom_count, atom_wires, atoms_before, cross_wire, cross_wires, draft_wires, driven,
    fanouts_valid, first_slot, first_with_atoms, fold_wire, fresh, inner_wires, is_schedule,
    leaf_wire, leaves_before, lemma_atom_of_node, lemma_atoms_before_bound,
    lemma_leaves_before_mono, lemma_nodes_bound, lemma_unshadowed, node_atom, node_of, node_wires,
    parent_of, root_atom, root_wires, shadowed, taken, unshadowed, MhotHashSchedule, Wire,
    WireEndpoint,
};

verus! {

/// The first wire whose ends disagree, and what its ends hold.
#[derive(Debug)]
pub struct WiringError {
    pub wire_index: usize,
    pub src_digest: Digest,
    pub dst_digest: Digest,
}

/// The digest in slot `slot` of a state.
pub open spec fn slot_digest(state: Seq<u8>, slot: int) -> Seq<u8> {
    state.subrange(32 * slot, 32 * slot + 32)
}

/// The values that wires connect.
pub struct Board {
    pub outputs: Seq<Seq<u8>>,
    pub inputs: Seq<Seq<u8>>,
    pub leaves: Seq<Seq<u8>>,
    pub root: Seq<u8>,
}

/// The digest at an endpoint.
pub open spec fn digest_at(ep: WireEndpoint, b: Board) -> Seq<u8> {
    match ep {
        WireEndpoint::AtomOutput { atom_id } => b.outputs[atom_id as int],
        WireEndpoint::AtomInput { atom_id, child_slot } => slot_digest(
            b.inputs[atom_id as int],
            child_slot as int,
        ),
        WireEndpoint::PublicRoot => b.root,
        WireEndpoint::LeafDigest { leaf_index } => b.leaves[leaf_index as int],
    }
}

/// Whether there is a digest at an endpoint.
pub open spec fn on_board(ep: WireEndpoint, b: Board) -> bool {
    match ep {
        WireEndpoint::AtomOutput { atom_id } => atom_id < b.outputs.len(),
        WireEndpoint::AtomInput { atom_id, child_slot } => atom_id < b.inputs.len() && child_slot < 4,
        WireEndpoint::PublicRoot => true,
        WireEndpoint::LeafDigest { leaf_index } => leaf_index < b.leaves.len(),
    }
}

/// Whether the ends of wire `w` agree.
pub open spec fn wire_agrees(w: Wire, b: Board) -> bool {
    digest_at(w.src, b) == digest_at(w.dst, b)
}

/// Whether the first `n` wires agree.
pub open spec fn agree_below(ws: Seq<Wire>, n: int, b: Board) -> bool {
    forall|i: int| 0 <= i < n ==> wire_agrees(#[trigger] ws[i], b)
}

/// The values that `check_wiring_cpu` is given.
pub open spec fn board_of(
    outputs: Seq<Digest>,
    inputs: Seq<[u8; 200]>,
    leaves: Seq<Digest>,
    root: Digest,
) -> Board {
    Board {
        outputs: digest_views(outputs),
        inputs: state_views(inputs),
        leaves: digest_views(leaves),
        root: root@,
    }
}

/// The digest in a slot of a state.
fn atom_input_digest(state: &[u8; 200], child_slot: usize) -> (d: Digest)
    requires
        child_slot < 4,
    ensures
        d@ == slot_digest(state@, child_slot as int),
{
    let mut d = [0u8; 32];
    for i in 0..32usize
        invariant
            child_slot < 4,
            forall|j: int| 0 <= j < i ==> d@[j] == state@[32 * child_slot + j],
    {
        d[i] = state[32 * child_slot + i];
    }
    assert(d@ =~= slot_digest(state@, child_slot as int));
    d
}

fn endpoint_digest(
    endpoint: &WireEndpoint,
    atom_outputs: &[Digest],
    atom_inputs: &[[u8; 200]],
    leaf_digests: &[Digest],
    public_root: &Digest,
) -> (d: Digest)
    requires
        on_board(*endpoint, board_of(atom_outputs@, atom_inputs@, leaf_digests@, *public_root)),
    ensures
        d@ == digest_at(
            *endpoint,
            board_of(atom_outputs@, atom_inputs@, leaf_digests@, *public_root),
        ),
{
    match *endpoint {
        WireEndpoint::AtomOutput { atom_id } => atom_outputs[atom_id],
        WireEndpoint::AtomInput { atom_id, child_slot } => atom_input_digest(
            &atom_inputs[atom_id],
            child_slot,
        ),
        WireEndpoint::PublicRoot => *public_root,
        WireEndpoint::LeafDigest { leaf_index } => leaf_digests[leaf_index],
    }
}

/// Checks that the two ends of every wire hold the same digest.
pub fn check_wiring_cpu(
    sched: &MhotHashSchedule,
    atom_outputs: &[Digest],
    atom_inputs: &[[u8; 200]],
    leaf_digests: &[Digest],
    public_root: &Digest,
) -> (r: Result<(), WiringError>)
    requires
        ({
            let b = board_of(atom_outputs@, atom_inputs@, leaf_digests@, *public_root);
            forall|i: int|
                #![trigger sched.wires@[i]]
                0 <= i < sched.wires@.len() && agree_below(sched.wires@, i, b) ==> on_board(
                    sched.wires@[i].src,
                    b,
                ) && on_board(sched.wires@[i].dst, b)
        }),
    ensures
        ({
            let b = board_of(atom_outputs@, atom_inputs@, leaf_digests@, *public_root);
            match r {
                Ok(_) => agree_below(sched.wires@, sched.wires@.len() as int, b),
                Err(e) => {
                    &&& e.wire_index < sched.wires@.len()
                    &&& agree_below(sched.wires@, e.wire_index as int, b)
                    &&& !wire_agrees(sched.wires@[e.wire_index as int], b)
                    &&& e.src_digest@ == digest_at(sched.wires@[e.wire_index as int].src, b)
                    &&& e.dst_digest@ == digest_at(sched.wires@[e.wire_index as int].dst, b)
                },
            }
        }),
        r is Ok ==> forall|i: int, j: int|
            0 <= i < sched.wires@.len() && 0 <= j < 32 ==> #[trigger] end_byte(
                sched.wires@[i].src,
                atom_outputs@,
                atom_inputs@,
                leaf_digests@,
                *public_root,
                j,
            ) == end_byte(
                sched.wires@[i].dst,
                atom_outputs@,
                atom_inputs@,
                leaf_digests@,
                *public_root,
                j,
            ),
        r matches Err(e) ==> {
            &&& e.src_digest@ != e.dst_digest@
            &&& forall|j: int|
                0 <= j < 32 ==> e.src_digest@[j] == #[trigger] end_byte(
                    sched.wires@[e.wire_index as int].src,
                    atom_outputs@,
                    atom_inputs@,
                    leaf_digests@,
                    *public_root,
                    j,
                )
            &&& forall|j: int|
                0 <= j < 32 ==> e.dst_digest@[j] == #[trigger] end_byte(
                    sched.wires@[e.wire_index as int].dst,
                    atom_outputs@,
                    atom_inputs@,
                    leaf_digests@,
                    *public_root,
                    j,
                )
        },
{
    let ghost b = board_of(atom_outputs@, atom_inputs@, leaf_digests@, *public_root);
    for i in 0..sched.wires.len()
        invariant
            b == board_of(atom_outputs@, atom_inputs@, leaf_digests@, *public_root),
            forall|k: int|
                #![trigger sched.wires@[k]]
                0 <= k < sched.wires@.len() && agree_below(sched.wires@, k, b) ==> on_board(
                    sched.wires@[k].src,
                    b,
                ) && on_board(sched.wires@[k].dst, b),
            agree_below(sched.wires@, i as int, b),
    {
        let w: Wire = sched.wires[i];
        assert(w == sched.wires@[i as int]);
        let src = endpoint_digest(&w.src, atom_outputs, atom_inputs, leaf_digests, public_root);
        let dst = endpoint_digest(&w.dst, atom_outputs, atom_inputs, leaf_digests, public_root);
        if !same_hash(&src, &dst) {
            proof {
                law_wire_agrees_bytewise(
                    w,
                    atom_outputs@,
                    atom_inputs@,
                    leaf_digests@,
                    *public_root,
                );
            }
            return Err(WiringError { wire_index: i, src_digest: src, dst_digest: dst });
        }
    }
    proof {
        law_wiring_accepted_iff_bytes_agree(
            sched.wires@,
            atom_outputs@,
            atom_inputs@,
            leaf_digests@,
            *public_root,
        );
    }
    Ok(())
}

/// What each atom puts out, given its input state.
pub fn compute_atom_outputs(atom_states: &[[u8; 200]]) -> (outputs: Vec<Digest>)
    ensures
        outputs@.len() == atom_states@.len(),
        forall|i: int|
            0 <= i < outputs@.len() ==> (#[trigger] outputs@[i])@ == keccak_digest(
                atom_states@[i]@,
            ),
{
    let mut outputs: Vec<Digest> = Vec::new();
    for i in 0..atom_states.len()
        invariant
            outputs@.len() == i,
            forall|k: int|
                0 <= k < i ==> (#[trigger] outputs@[k])@ == keccak_digest(atom_states@[k]@),
    {
        outputs.push(keccak_f_digest(&atom_states[i]));
    }
    outputs
}

/// The atoms of `node` among the first `n` of a path's atoms are the first
/// ones of the node, in order.
proof fn lemma_node_list_prefix(fs: Seq<usize>, node: nat, n: nat)
    requires
        fanouts_valid(fs),
        node < fs.len(),
        n <= atoms_before(fs, fs.len()),
    ensures
        ({
            let base = atoms_before(fs, node);
            let count = atom_count(fs[node as int] as nat);
            let k = if n <= base {
                0nat
            } else if n - base <= count {
                (n - base) as nat
            } else {
                count
            };
            atoms_of_node(all_atoms(fs, fs.len()), node, n) == Seq::new(
                k,
                |i: int| (base + i) as nat,
            )
        }),
    decreases n,
{
    let atoms = all_atoms(fs, fs.len());
    let base = atoms_before(fs, node);
    let count = atom_count(fs[node as int] as nat);
    lemma_atoms_before_bound(fs, fs.len());
    lemma_leaves_before_mono(fs, node, fs.len());
    lemma_atoms_before_bound(fs, node);
    lemma_nodes_bound(fs, fs.len());
    if n > 0 {
        let m = (n - 1) as nat;
        lemma_node_list_prefix(fs, node, m);
        lemma_atom_of_node(fs, fs.len(), m);
        let owner = node_of(fs, fs.len(), m);
        lemma_node_order(fs, node, owner);
        let s = atoms_of_node(atoms, node, m);
        assert(atoms[m as int].node == owner);
        assert(owner == node <==> base <= m < base + count);
        if owner == node {
            let k = (m - base) as nat;
            if k > 0 {
                lemma_atom_of_node(fs, fs.len(), (m - 1) as nat);
                lemma_node_order(fs, node, node_of(fs, fs.len(), (m - 1) as nat));
                assert(s.last() == m - 1);
                assert(atoms[m - 1] == node_atom(fs, node, (k - 1) as nat));
                lemma_leaves_before_mono(fs, (node + 1) as nat, fs.len());
                assert(atoms[m - 1].fold_step <= atoms[m as int].fold_step);
            }
            assert(insert_by_step(atoms, s, m) =~= s.push(m));
        }
    } else {
        assert(atoms_of_node(atoms, node, 0) =~= Seq::<nat>::empty());
    }
    assert(atoms_of_node(atoms, node, n) =~= Seq::new(
        if n <= base {
            0nat
        } else if n - base <= count {
            (n - base) as nat
        } else {
            count
        },
        |i: int| (base + i) as nat,
    ));
}

/// Nodes further on have atoms further on.
pub proof fn lemma_node_order(fs: Seq<usize>, a: nat, b: nat)
    ensures
        a < b ==> atoms_before(fs, a) + atom_count(fs[a as int] as nat) <= atoms_before(fs, b),
        b < a ==> atoms_before(fs, b) + atom_count(fs[b as int] as nat) <= atoms_before(fs, a),
    decreases a + b,
{
    if a < b && a + 1 < b {
        lemma_node_order(fs, a, (b - 1) as nat);
    }
    if b < a && b + 1 < a {
        lemma_node_order(fs, (a - 1) as nat, b);
    }
}

/// In a path's schedule the atoms of a node are consecutive.
pub proof fn lemma_node_list(s: MhotHashSchedule, node: nat)
    requires
        is_schedule(s),
        node < s.fanouts@.len(),
    ensures
        node_list(s, node) == Seq::new(
            atom_count(s.fanouts@[node as int] as nat),
            |i: int| (atoms_before(s.fanouts@, node) + i) as nat,
        ),
{
    let fs = s.fanouts@;
    lemma_atoms_before_bound(fs, fs.len());
    lemma_node_list_prefix(fs, node, atoms_before(fs, fs.len()));
    lemma_node_order(fs, node, fs.len());
}

/// The schedule of a path can be run, and its wires lead to slots that exist.
pub proof fn law_schedule_runs(s: MhotHashSchedule)
    requires
        is_schedule(s),
    ensures
        runnable(s),
        wires_in_range(s),
{
    let fs = s.fanouts@;
    let n = fs.len();
    lemma_atoms_before_bound(fs, n);
    assert forall|i: int| #![trigger s.hash_atoms@[i]] 0 <= i < s.hash_atoms@.len() implies s.hash_atoms@[i].atom_id
        == i && s.hash_atoms@[i].node < n by {
        lemma_atom_of_node(fs, n, i as nat);
    }
    assert forall|node: int, j: int|
        #![trigger node_list(s, node as nat)[j]]
        0 <= node < n && 0 <= j < node_list(s, node as nat).len() implies ({
        let f = fs[node] as nat;
        f >= 1 && s.hash_atoms@[node_list(s, node as nat)[j] as int].n_children == first_slot(
            j as nat,
        ) + fresh(f, j as nat)
    }) by {
        lemma_node_list(s, node as nat);
        let a = (atoms_before(fs, node as nat) + j) as nat;
        lemma_node_order(fs, node as nat, n);
        lemma_atom_of_node(fs, n, a);
        lemma_node_order(fs, node as nat, node_of(fs, n, a));
    }
    assert forall|i: int| #![trigger s.wires@[i]] 0 <= i < s.wires@.len() implies match (
        s.wires@[i].src,
        s.wires@[i].dst,
    ) {
        (
            WireEndpoint::AtomOutput { atom_id: a },
            WireEndpoint::AtomInput { atom_id, child_slot },
        ) => a < s.hash_atoms@.len() ==> atom_id < s.hash_atoms@.len() && child_slot < 4,
        _ => true,
    } by {
        lemma_wire_kinds(s, i);
    }
}

/// What a wire of a path can be: within a node, from outside, between nodes,
/// or to the public root.
pub open spec fn wire_kind(fs: Seq<usize>, w: Wire) -> bool {
    ||| exists|node: nat, k: nat|
        node < fs.len() && 0 < k < atom_count(fs[node as int] as nat) && w == #[trigger] fold_wire(
            fs,
            node,
            k,
        )
    ||| is_leaf_wire(fs, w)
    ||| is_cross_wire(fs, w)
    ||| root_wires(fs).contains(w)
}

pub open spec fn is_leaf_wire(fs: Seq<usize>, w: Wire) -> bool {
    exists|node: nat, k: nat, j: nat|
        node < fs.len() && k < atom_count(fs[node as int] as nat) && j < fresh(
            fs[node as int] as nat,
            k,
        ) && w == #[trigger] leaf_wire(fs, node, k, j)
}

pub open spec fn is_cross_wire(fs: Seq<usize>, w: Wire) -> bool {
    exists|node: nat| node < fs.len() && #[trigger] cross_wire(fs, node).contains(w)
}

proof fn lemma_inner_wire_kind(fs: Seq<usize>, n: nat, i: int)
    requires
        n <= fs.len(),
        0 <= i < inner_wires(fs, n).len(),
    ensures
        wire_kind(fs, inner_wires(fs, n)[i]),
    decreases n,
{
    let m = (n - 1) as nat;
    let below = inner_wires(fs, m);
    if i < below.len() {
        lemma_inner_wire_kind(fs, m, i);
    } else {
        lemma_node_wire_kind(fs, m, atom_count(fs[m as int] as nat), i - below.len());
    }
}

proof fn lemma_node_wire_kind(fs: Seq<usize>, node: nat, k: nat, i: int)
    requires
        node < fs.len(),
        k <= atom_count(fs[node as int] as nat),
        0 <= i < node_wires(fs, node, k).len(),
    ensures
        wire_kind(fs, node_wires(fs, node, k)[i]),
    decreases k,
{
    let m = (k - 1) as nat;
    let below = node_wires(fs, node, m);
    if i < below.len() {
        lemma_node_wire_kind(fs, node, m, i);
    } else {
        let f = fs[node as int] as nat;
        let ws = atom_wires(fs, node, m, fresh(f, m));
        let at = i - below.len();
        assert(node_wires(fs, node, k)[i] == ws[at]);
        if m > 0 && at == 0 {
            assert(ws[at] == fold_wire(fs, node, m));
        } else {
            let j = (if m > 0 {
                at - 1
            } else {
                at
            }) as nat;
            assert(ws[at] == leaf_wire(fs, node, m, j));
        }
    }
}

pub proof fn lemma_cross_wire_kind(fs: Seq<usize>, n: nat, i: int)
    requires
        n <= fs.len(),
        0 <= i < cross_wires(fs, n).len(),
    ensures
        is_cross_wire(fs, cross_wires(fs, n)[i]),
    decreases n,
{
    let m = (n - 1) as nat;
    let below = cross_wires(fs, m);
    if i < below.len() {
        lemma_cross_wire_kind(fs, m, i);
    } else {
        assert(cross_wires(fs, n)[i] == cross_wire(fs, m)[i - below.len()]);
        assert(cross_wire(fs, m).contains(cross_wires(fs, n)[i]));
    }
}

/// Every wire of a path is of one of the kinds, and none from outside is
/// shadowed.
pub proof fn lemma_wire_source(s: MhotHashSchedule, i: int)
    requires
        is_schedule(s),
        0 <= i < s.wires@.len(),
    ensures
        wire_kind(s.fanouts@, s.wires@[i]),
        s.wires@[i].dst is AtomInput ==> !shadowed(s.wires@[i], draft_wires(s.fanouts@)),
{
    let fs = s.fanouts@;
    let draft = draft_wires(fs);
    let kept = unshadowed(draft, draft.len());
    lemma_unshadowed(draft, draft.len());
    if i < kept.len() {
        assert(kept.contains(kept[i]));
        let j = choose|j: int|
            0 <= j < draft.len() && #[trigger] draft[j] == kept[i] && !shadowed(kept[i], draft);
        let inner = inner_wires(fs, fs.len());
        if j < inner.len() {
            lemma_inner_wire_kind(fs, fs.len(), j);
        } else {
            lemma_cross_wire_kind(fs, fs.len(), j - inner.len());
        }
    } else {
        assert(s.wires@[i] == root_wires(fs)[i - kept.len()]);
    }
}

/// The nearest node with atoms lies before, and nothing between has any.
pub proof fn lemma_parent_of(fs: Seq<usize>, node: nat)
    requires
        node <= fs.len(),
    ensures
        match parent_of(fs, node) {
            Some(p) => p < node && atom_count(fs[p as int] as nat) > 0 && forall|m: int|
                p < m < node ==> atom_count(#[trigger] fs[m] as nat) == 0,
            None => forall|m: int| 0 <= m < node ==> atom_count(#[trigger] fs[m] as nat) == 0,
        },
    decreases node,
{
    if node > 0 && atom_count(fs[node - 1] as nat) == 0 {
        lemma_parent_of(fs, (node - 1) as nat);
    }
}

pub proof fn lemma_first_with_atoms(fs: Seq<usize>, node: nat)
    requires
        node <= fs.len(),
    ensures
        match first_with_atoms(fs, node) {
            Some(p) => node <= p < fs.len() && atom_count(fs[p as int] as nat) > 0 && forall|m: int|
                node <= m < p ==> atom_count(#[trigger] fs[m] as nat) == 0,
            None => forall|m: int| node <= m < fs.len() ==> atom_count(#[trigger] fs[m] as nat) == 0,
        },
    decreases fs.len() - node,
{
    if node < fs.len() && atom_count(fs[node as int] as nat) == 0 {
        lemma_first_with_atoms(fs, node + 1);
    }
}

/// The ends of a path's wires stay within its atoms.
pub proof fn lemma_wire_kinds(s: MhotHashSchedule, i: int)
    requires
        is_schedule(s),
        0 <= i < s.wires@.len(),
    ensures
        match s.wires@[i].src {
            WireEndpoint::AtomOutput { atom_id } => atom_id < s.hash_atoms@.len(),
            WireEndpoint::LeafDigest { leaf_index } => leaf_index < leaves_before(
                s.fanouts@,
                s.fanouts@.len(),
            ),
            _ => false,
        },
        match s.wires@[i].dst {
            WireEndpoint::AtomInput { atom_id, child_slot } => atom_id < s.hash_atoms@.len()
                && child_slot < 4,
            WireEndpoint::PublicRoot => true,
            _ => false,
        },
{
    let fs = s.fanouts@;
    let n = fs.len();
    let w = s.wires@[i];
    lemma_atoms_before_bound(fs, n);
    lemma_wire_source(s, i);
    if exists|node: nat, k: nat|
        node < fs.len() && 0 < k < atom_count(fs[node as int] as nat) && w == #[trigger] fold_wire(
            fs,
            node,
            k,
        ) {
        let (node, k) = choose|node: nat, k: nat|
            node < fs.len() && 0 < k < atom_count(fs[node as int] as nat) && w
                == #[trigger] fold_wire(fs, node, k);
        lemma_node_order(fs, node, n);
    } else if is_leaf_wire(fs, w) {
        let (node, k, j) = choose|node: nat, k: nat, j: nat|
            node < fs.len() && k < atom_count(fs[node as int] as nat) && j < fresh(
                fs[node as int] as nat,
                k,
            ) && w == #[trigger] leaf_wire(fs, node, k, j);
        lemma_node_order(fs, node, n);
        lemma_leaves_before_mono(fs, node + 1, n);
    } else if is_cross_wire(fs, w) {
        let node = choose|node: nat| node < fs.len() && #[trigger] cross_wire(fs, node).contains(w);
        lemma_parent_of(fs, node);
        lemma_node_order(fs, node, n);
        lemma_node_order(fs, parent_of(fs, node)->0, n);
    } else {
        lemma_first_with_atoms(fs, 0);
        if let Some(node) = first_with_atoms(fs, 0) {
            lemma_node_order(fs, node, n);
        } else {
            lemma_leaves_before_mono(fs, 1, n);
        }
    }
}

/// Whether every wire between atoms carries what its atom puts out.
pub open spec fn settled(s: MhotHashSchedule, states: Seq<Seq<u8>>) -> bool {
    forall|i: int|
        #![trigger s.wires@[i]]
        0 <= i < s.wires@.len() ==> match (s.wires@[i].src, s.wires@[i].dst) {
            (
                WireEndpoint::AtomOutput { atom_id: a },
                WireEndpoint::AtomInput { atom_id, child_slot },
            ) => slot_digest(states[atom_id as int], child_slot as int) == keccak_digest(
                states[a as int],
            ),
            _ => true,
        }
}

/// Whether wire `w` leads from an atom to byte `at` of the state of `atom`.
pub open spec fn drives(w: Wire, atom: int, at: int) -> bool {
    w.src is AtomOutput && match w.dst {
        WireEndpoint::AtomInput { atom_id, child_slot } => atom_id == atom && 32 * child_slot <= at
            < 32 * child_slot + 32,
        _ => false,
    }
}

/// How far the atoms have fired: those from `from` on, the `n` from `base` on,
/// and the next one as far as wire `sent`.
pub struct Fired {
    pub base: nat,
    pub n: nat,
    pub from: nat,
    pub sent: nat,
}

/// Whether wire `i` has yet to carry a digest.
pub open spec fn yet_to_carry(s: MhotHashSchedule, f: Fired, i: int) -> bool {
    match s.wires@[i].src {
        WireEndpoint::AtomOutput { atom_id } => atom_id < f.from && !(f.base <= atom_id < f.base
            + f.n) && !(atom_id == f.base + f.n && i < f.sent),
        _ => true,
    }
}

/// Whether a wire that leads to byte `at` of `atom` has yet to carry a digest.
pub open spec fn awaited(s: MhotHashSchedule, f: Fired, atom: int, at: int) -> bool {
    exists|i: int|
        0 <= i < s.wires@.len() && #[trigger] drives(s.wires@[i], atom, at) && yet_to_carry(s, f, i)
}

/// Whether states are those of a settled run but for bytes that are awaited.
pub open spec fn settles(
    s: MhotHashSchedule,
    states: Seq<Seq<u8>>,
    f: Fired,
    good: Seq<Seq<u8>>,
) -> bool {
    &&& states.len() == s.hash_atoms@.len()
    &&& forall|x: int| 0 <= x < states.len() ==> (#[trigger] states[x]).len() == 200
    &&& forall|x: int, at: int|
        #![trigger states[x][at]]
        0 <= x < states.len() && 0 <= at < 200 && !awaited(s, f, x, at) ==> states[x][at]
            == good[x][at]
}

/// Whether these are the states of a settled run of a schedule.
pub open spec fn settled_run(s: MhotHashSchedule, good: Seq<Seq<u8>>) -> bool {
    &&& is_schedule(s)
    &&& good.len() == s.hash_atoms@.len()
    &&& forall|x: int| 0 <= x < good.len() ==> (#[trigger] good[x]).len() == 200
    &&& settled(s, good)
}

/// Carrying what an atom of a settled run puts out along wire `f.sent` writes
/// what the settled run has there.
proof fn lemma_deliver_one(s: MhotHashSchedule, f: Fired, run: Run, good: Seq<Seq<u8>>)
    requires
        settled_run(s, good),
        f.sent < s.wires@.len(),
        f.base + f.n < s.hash_atoms@.len(),
        settles(s, run.states, f, good),
    ensures
        settles(
            s,
            deliver(
                s.wires@[f.sent as int],
                f.base + f.n,
                keccak_digest(good[(f.base + f.n) as int]),
                run,
            ).states,
            Fired { sent: f.sent + 1, ..f },
            good,
        ),
{
    let a = f.base + f.n;
    let d = keccak_digest(good[a as int]);
    let i = f.sent as int;
    let w = s.wires@[i];
    let next = Fired { sent: f.sent + 1, ..f };
    let after = deliver(w, a, d, run);
    assert(s.hash_atoms.len() as nat == s.hash_atoms@.len());
    lemma_wire_kinds(s, i);
    assert forall|x: int, at: int|
        #![trigger after.states[x][at]]
        0 <= x < after.states.len() && 0 <= at < 200 && !awaited(s, next, x, at) implies after.states[x][at]
        == good[x][at] by {
        if drives(w, x, at) && w.src == (WireEndpoint::AtomOutput { atom_id: a as usize }) {
            if let WireEndpoint::AtomInput { atom_id, child_slot } = w.dst {
                assert(slot_digest(good[x], child_slot as int) == d);
                assert(d[at - 32 * child_slot] == good[x][at]);
            }
        } else {
            assert(after.states[x][at] == run.states[x][at]);
            if awaited(s, f, x, at) {
                let j = choose|j: int|
                    0 <= j < s.wires@.len() && #[trigger] drives(s.wires@[j], x, at)
                        && yet_to_carry(s, f, j);
                assert(drives(s.wires@[j], x, at) && yet_to_carry(s, next, j));
            }
        }
    }
}

/// Whether one of the first `n` wires leads from atom `a` to the public root.
spec fn leads_to_root(s: MhotHashSchedule, n: nat, a: nat) -> bool {
    exists|i: int|
        0 <= i < n && (#[trigger] s.wires@[i]) == (Wire {
            src: WireEndpoint::AtomOutput { atom_id: a as usize },
            dst: WireEndpoint::PublicRoot,
        })
}

proof fn lemma_deliver_settles(s: MhotHashSchedule, f: Fired, n: nat, run: Run, good: Seq<Seq<u8>>)
    requires
        settled_run(s, good),
        n <= s.wires@.len(),
        f.sent == 0,
        f.base + f.n < s.hash_atoms@.len(),
        settles(s, run.states, f, good),
    ensures
        ({
            let a = f.base + f.n;
            let d = keccak_digest(good[a as int]);
            let after = deliver_all(s.wires@, n, a, d, run);
            &&& settles(s, after.states, Fired { sent: n, ..f }, good)
            &&& after.root == if leads_to_root(s, n, a) {
                Some(d)
            } else {
                run.root
            }
        }),
    decreases n,
{
    let a = f.base + f.n;
    assert(s.hash_atoms.len() as nat == s.hash_atoms@.len());
    if n > 0 {
        let m = (n - 1) as nat;
        lemma_deliver_settles(s, f, m, run, good);
        let d = keccak_digest(good[a as int]);
        let before = deliver_all(s.wires@, m, a, d, run);
        lemma_deliver_one(s, Fired { sent: m, ..f }, before, good);
        lemma_wire_kinds(s, m as int);
        let root_wire = Wire {
            src: WireEndpoint::AtomOutput { atom_id: a as usize },
            dst: WireEndpoint::PublicRoot,
        };
        if s.wires@[m as int] != root_wire && leads_to_root(s, n, a) {
            let i = choose|i: int| 0 <= i < n && (#[trigger] s.wires@[i]) == root_wire;
            assert(i < m);
        }
        if leads_to_root(s, m, a) {
            let i = choose|i: int| 0 <= i < m && (#[trigger] s.wires@[i]) == root_wire;
            assert(0 <= i < n);
        }
    }
}

/// A wire from an atom leads to a later atom of the same node, or from a later
/// node.
proof fn lemma_wires_lead_on(s: MhotHashSchedule, node: nat, k: nat, i: int)
    requires
        is_schedule(s),
        node < s.fanouts@.len(),
        k < atom_count(s.fanouts@[node as int] as nat),
        0 <= i < s.wires@.len(),
        s.wires@[i].dst matches WireEndpoint::AtomInput { atom_id, .. } && atom_id == atoms_before(
            s.fanouts@,
            node,
        ) + k,
    ensures
        match s.wires@[i].src {
            WireEndpoint::AtomOutput { atom_id } => atoms_before(s.fanouts@, node) <= atom_id
                < atoms_before(s.fanouts@, node) + k || atoms_before(s.fanouts@, node + 1)
                <= atom_id,
            _ => true,
        },
{
    let fs = s.fanouts@;
    let w = s.wires@[i];
    lemma_wire_source(s, i);
    lemma_atoms_before_bound(fs, fs.len());
    assert(s.hash_atoms.len() as nat == s.hash_atoms@.len());
    if exists|m: nat, l: nat|
        m < fs.len() && 0 < l < atom_count(fs[m as int] as nat) && w == #[trigger] fold_wire(
            fs,
            m,
            l,
        ) {
        let (m, l) = choose|m: nat, l: nat|
            m < fs.len() && 0 < l < atom_count(fs[m as int] as nat) && w == #[trigger] fold_wire(
                fs,
                m,
                l,
            );
        lemma_node_order(fs, m, fs.len());
        lemma_node_order(fs, node, m);
    } else if is_leaf_wire(fs, w) {
    } else if is_cross_wire(fs, w) {
        let m = choose|m: nat| m < fs.len() && #[trigger] cross_wire(fs, m).contains(w);
        let p = parent_of(fs, m)->0;
        lemma_parent_of(fs, m);
        lemma_node_order(fs, m, fs.len());
        lemma_node_order(fs, p, fs.len());
        lemma_node_order(fs, node, p);
        lemma_node_order(fs, node + 1, m);
    }
}

/// How far the atoms have fired once the nodes behind `node`, and its first
/// `n` atoms, have.
spec fn fired_to(fs: Seq<usize>, node: nat, n: nat) -> Fired {
    Fired { base: atoms_before(fs, node), n, from: atoms_before(fs, node + 1), sent: 0 }
}

/// Where the same wires have carried a digest, the same bytes are awaited.
proof fn lemma_settles_alike(
    s: MhotHashSchedule,
    states: Seq<Seq<u8>>,
    f: Fired,
    g: Fired,
    good: Seq<Seq<u8>>,
)
    requires
        settles(s, states, f, good),
        forall|i: int|
            0 <= i < s.wires@.len() && #[trigger] yet_to_carry(s, f, i) ==> yet_to_carry(s, g, i),
    ensures
        settles(s, states, g, good),
{
    assert forall|x: int, at: int|
        #![trigger states[x][at]]
        0 <= x < states.len() && 0 <= at < 200 && !awaited(s, g, x, at) implies states[x][at]
        == good[x][at] by {
        if awaited(s, f, x, at) {
            let i = choose|i: int|
                0 <= i < s.wires@.len() && #[trigger] drives(s.wires@[i], x, at) && yet_to_carry(
                    s,
                    f,
                    i,
                );
            assert(drives(s.wires@[i], x, at) && yet_to_carry(s, g, i));
        }
    }
}

/// Firing the atoms of a node settles what they drive, and the root becomes
/// the digest of the atom that is wired to it once that atom has fired.
proof fn lemma_fire_settles(
    s: MhotHashSchedule,
    node: nat,
    n: nat,
    run: Run,
    top: nat,
    good: Seq<Seq<u8>>,
)
    requires
        settled_run(s, good),
        node < s.fanouts@.len(),
        n <= atom_count(s.fanouts@[node as int] as nat),
        settles(s, run.states, fired_to(s.fanouts@, node, 0), good),
        top < s.hash_atoms@.len(),
        root_wires(s.fanouts@) == seq![
            Wire {
                src: WireEndpoint::AtomOutput { atom_id: top as usize },
                dst: WireEndpoint::PublicRoot,
            },
        ],
    ensures
        ({
            let base = atoms_before(s.fanouts@, node);
            let after = fire_list(s, node_list(s, node), n, run);
            &&& settles(s, after.states, fired_to(s.fanouts@, node, n), good)
            &&& after.root == if base <= top < base + n {
                Some(keccak_digest(good[top as int]))
            } else {
                run.root
            }
        }),
    decreases n,
{
    let fs = s.fanouts@;
    let base = atoms_before(fs, node);
    assert(s.hash_atoms.len() as nat == s.hash_atoms@.len());
    if n > 0 {
        let m = (n - 1) as nat;
        lemma_fire_settles(s, node, m, run, top, good);
        lemma_node_list(s, node);
        lemma_atoms_before_bound(fs, fs.len());
        lemma_node_order(fs, node, fs.len());
        let before = fire_list(s, node_list(s, node), m, run);
        let f = fired_to(fs, node, m);
        let a = base + m;
        assert(node_list(s, node)[m as int] == a);
        assert(before.states[a as int] == good[a as int]) by {
            assert forall|at: int| 0 <= at < 200 implies before.states[a as int][at]
                == good[a as int][at] by {
                if awaited(s, f, a as int, at) {
                    let j = choose|j: int|
                        0 <= j < s.wires@.len() && #[trigger] drives(s.wires@[j], a as int, at)
                            && yet_to_carry(s, f, j);
                    lemma_wires_lead_on(s, node, m, j);
                    assert(false);
                }
            }
            assert(before.states[a as int] =~= good[a as int]);
        }
        lemma_deliver_settles(s, f, s.wires@.len(), before, good);
        let after = fire_list(s, node_list(s, node), n, run);
        lemma_settles_alike(
            s,
            after.states,
            Fired { sent: s.wires@.len(), ..f },
            fired_to(fs, node, n),
            good,
        );
        crate::schedule::law_one_public_root(s);
        let last = s.wires@.len() - 1;
        assert(s.wires@[last] == root_wires(fs)[0]);
        if a == top {
            assert(leads_to_root(s, s.wires@.len(), a));
        } else if leads_to_root(s, s.wires@.len(), a) {
            let i = choose|i: int|
                0 <= i < s.wires@.len() && (#[trigger] s.wires@[i]) == (Wire {
                    src: WireEndpoint::AtomOutput { atom_id: a as usize },
                    dst: WireEndpoint::PublicRoot,
                });
            assert(i == last);
            assert(false);
        }
    }
}

/// How far the atoms have fired once the nodes from `node` on have.
spec fn fired_from(fs: Seq<usize>, node: nat) -> Fired {
    Fired { base: 0, n: 0, from: atoms_before(fs, node), sent: 0 }
}

proof fn lemma_fire_nodes_settles(
    s: MhotHashSchedule,
    node: nat,
    run: Run,
    top_node: nat,
    good: Seq<Seq<u8>>,
)
    requires
        settled_run(s, good),
        node <= s.fanouts@.len(),
        settles(s, run.states, fired_from(s.fanouts@, s.fanouts@.len()), good),
        first_with_atoms(s.fanouts@, 0) == Some(top_node),
    ensures
        ({
            let after = fire_nodes(s, node, run);
            &&& settles(s, after.states, fired_from(s.fanouts@, node), good)
            &&& after.root == if node <= top_node {
                Some(keccak_digest(good[root_atom(s.fanouts@, top_node) as int]))
            } else {
                run.root
            }
        }),
    decreases s.fanouts@.len() - node,
{
    let fs = s.fanouts@;
    lemma_first_with_atoms(fs, 0);
    lemma_atoms_before_bound(fs, fs.len());
    lemma_node_order(fs, top_node, fs.len());
    let top = root_atom(fs, top_node);
    if node < fs.len() {
        let before = fire_nodes(s, node + 1, run);
        lemma_fire_nodes_settles(s, node + 1, run, top_node, good);
        lemma_settles_alike(s, before.states, fired_from(fs, node + 1), fired_to(fs, node, 0), good);
        lemma_node_list(s, node);
        let count = atom_count(fs[node as int] as nat);
        lemma_fire_settles(s, node, count, before, top, good);
        let after = fire_nodes(s, node, run);
        lemma_settles_alike(s, after.states, fired_to(fs, node, count), fired_from(fs, node), good);
        lemma_node_order(fs, node, top_node);
    }
}

/// The input state of atom `k` of `node` in a reference run.
proof fn lemma_ref_state(w: RefWitness, s: MhotHashSchedule, seed: u64, node: nat, k: nat)
    requires
        is_schedule(s),
        is_ref_witness(w, s, seed),
        node < s.fanouts@.len(),
        k < atom_count(s.fanouts@[node as int] as nat),
    ensures
        atoms_before(s.fanouts@, node) + k < s.hash_atoms@.len(),
        state_views(w.atom_states@)[(atoms_before(s.fanouts@, node) + k) as int] == fold_in(
            final_children(s, seed, node),
            k,
        ),
        keccak_digest(state_views(w.atom_states@)[(atoms_before(s.fanouts@, node) + k) as int]) == fold_out(
            final_children(s, seed, node),
            k + 1,
        ),
{
    let fs = s.fanouts@;
    lemma_node_list(s, node);
    lemma_atoms_before_bound(fs, fs.len());
    lemma_node_order(fs, node, fs.len());
    assert(node_list(s, node)[k as int] == atoms_before(fs, node) + k);
    assert(w.atom_states@[node_list(s, node as nat)[k as int] as int]@ == fold_in(
        final_children(s, seed, node as nat),
        k,
    )) by {
        let nn = node as int;
        assert(node_list(s, nn as nat)[k as int] == node_list(s, node)[k as int]);
    }
}

/// Every digest that a fold takes in has 32 bytes, and a slot gives it back.
proof fn lemma_slot_of_fold(children: Seq<Seq<u8>>, k: nat, slot: nat)
    requires
        children.len() >= 2,
        k < atom_count(children.len()),
        slot < fold_inputs(children, k).len(),
        forall|i: int| 0 <= i < children.len() ==> (#[trigger] children[i]).len() == 32,
    ensures
        fold_inputs(children, k).len() == first_slot(k) + fresh(children.len(), k) <= 4,
        slot_digest(fold_in(children, k), slot as int) == fold_inputs(children, k)[slot as int],
        fold_in(children, k).len() == 200,
{
    let inputs = fold_inputs(children, k);
    let d = inputs[slot as int];
    assert(d.len() == 32) by {
        if k > 0 && slot == 0 {
            assert(d == fold_out(children, k));
            lemma_digest_len(fold_in(children, (k - 1) as nat), 0, 0);
        } else {
            let at = taken(children.len(), k) + slot - first_slot(k);
            assert(d == children[at]);
        }
    }
    let st = fold_in(children, k);
    assert forall|i: int| 0 <= i < 32 implies slot_digest(st, slot as int)[i] == d[i] by {
        let at = 32 * slot + i;
        assert(at / 32 == slot && at % 32 == i);
        assert(st[at] == inputs[at / 32][at % 32]);
    }
    assert(slot_digest(st, slot as int) =~= d);
}

/// All children of a node have 32 bytes, and so has the digest it comes to.
proof fn lemma_children_len(s: MhotHashSchedule, seed: u64, node: nat)
    requires
        is_schedule(s),
    ensures
        node < s.fanouts@.len() ==> forall|i: int|
            0 <= i < final_children(s, seed, node).len() ==> (#[trigger] final_children(
                s,
                seed,
                node,
            )[i]).len() == 32,
        node_digest(s, seed, node) is Some ==> (node_digest(s, seed, node)->0).len() == 32,
        node < s.fanouts@.len() ==> node_digest(s, seed, node) is Some,
    decreases s.fanouts@.len() - node,
{
    if node < s.fanouts@.len() {
        lemma_children_len(s, seed, node + 1);
        lemma_node_list(s, node);
        assert(s.fanouts@[node as int] >= 1);
        let ch = final_children(s, seed, node);
        assert(ch.len() == s.fanouts@[node as int]);
        assert forall|i: int| 0 <= i < ch.len() implies (#[trigger] ch[i]).len() == 32 by {
            lemma_digest_len(
                ch[0],
                seed,
                (leaves_before(s.fanouts@, node) + i) as usize,
            );
        }
        let n_atoms = node_list(s, node).len();
        if n_atoms > 0 {
            lemma_digest_len(fold_in(ch, (n_atoms - 1) as nat), 0, 0);
        }
    }
}

/// A node without atoms passes on the digest of the node below it.
proof fn lemma_pass_through(s: MhotHashSchedule, seed: u64, from: nat, to: nat)
    requires
        is_schedule(s),
        from <= to < s.fanouts@.len(),
        forall|m: int| from <= m < to ==> atom_count(#[trigger] s.fanouts@[m] as nat) == 0,
    ensures
        node_digest(s, seed, from) == node_digest(s, seed, to),
    decreases to - from,
{
    if from < to {
        lemma_pass_through(s, seed, from + 1, to);
        lemma_node_list(s, from);
        lemma_children_len(s, seed, from + 1);
        assert(s.fanouts@[from as int] >= 1);
        assert(atom_count(s.fanouts@[from as int] as nat) == 0);
        let ch = final_children(s, seed, from);
        assert(ch[0] == node_digest(s, seed, from + 1)->0);
    }
}

/// In a reference run every wire between atoms carries what its atom puts out.
proof fn lemma_ref_settled(w: RefWitness, s: MhotHashSchedule, seed: u64)
    requires
        is_schedule(s),
        is_ref_witness(w, s, seed),
    ensures
        settled(s, state_views(w.atom_states@)),
{
    let fs = s.fanouts@;
    let states = state_views(w.atom_states@);
    assert forall|i: int| #![trigger s.wires@[i]] 0 <= i < s.wires@.len() implies match (
        s.wires@[i].src,
        s.wires@[i].dst,
    ) {
        (
            WireEndpoint::AtomOutput { atom_id: a },
            WireEndpoint::AtomInput { atom_id, child_slot },
        ) => slot_digest(states[atom_id as int], child_slot as int) == keccak_digest(
            states[a as int],
        ),
        _ => true,
    } by {
        let wire = s.wires@[i];
        lemma_wire_source(s, i);
        lemma_atoms_before_bound(fs, fs.len());
        if exists|node: nat, k: nat|
            node < fs.len() && 0 < k < atom_count(fs[node as int] as nat) && wire
                == #[trigger] fold_wire(fs, node, k) {
            let (node, k) = choose|node: nat, k: nat|
                node < fs.len() && 0 < k < atom_count(fs[node as int] as nat) && wire
                    == #[trigger] fold_wire(fs, node, k);
            let ch = final_children(s, seed, node);
            lemma_ref_state(w, s, seed, node, k);
            lemma_ref_state(w, s, seed, node, (k - 1) as nat);
            lemma_children_len(s, seed, node);
            lemma_slot_of_fold(ch, k, 0);
        } else if is_leaf_wire(fs, wire) {
        } else if is_cross_wire(fs, wire) {
            let node = choose|node: nat|
                node < fs.len() && #[trigger] cross_wire(fs, node).contains(wire);
            let p = parent_of(fs, node)->0;
            let count = atom_count(fs[node as int] as nat);
            lemma_parent_of(fs, node);
            lemma_ref_state(w, s, seed, p, 0);
            lemma_ref_state(w, s, seed, node, (count - 1) as nat);
            lemma_pass_through(s, seed, p + 1, node);
            lemma_children_len(s, seed, p);
            lemma_children_len(s, seed, p + 1);
            lemma_node_list(s, node);
            let ch = final_children(s, seed, p);
            lemma_slot_of_fold(ch, 0, 0);
            assert(fold_inputs(ch, 0)[0] == ch[0]);
        }
    }
}

/// Whether states are alike but in the slots that atoms drive.
pub open spec fn alike_off_wires(s: MhotHashSchedule, a: Seq<Seq<u8>>, b: Seq<Seq<u8>>) -> bool {
    &&& a.len() == b.len()
    &&& forall|x: int, at: int|
        #![trigger a[x][at]]
        0 <= x < a.len() && 0 <= at < 200 && !driven(s.wires@, x as usize, (at / 32) as usize)
            ==> a[x][at] == b[x][at]
}

/// Firing the atoms leads to the root that a reference run expects, whatever
/// the slots hold that atoms drive, for every path that has an atom.
pub proof fn law_fold_root_ignores_driven_slots(
    w: RefWitness,
    s: MhotHashSchedule,
    seed: u64,
    states: Seq<[u8; 200]>,
)
    requires
        is_schedule(s),
        is_ref_witness(w, s, seed),
        exists|i: int| 0 <= i < s.fanouts@.len() && #[trigger] s.fanouts@[i] >= 2,
        alike_off_wires(s, state_views(states), state_views(w.atom_states@)),
    ensures
        fold_root(s, state_views(states)) == w.expected_root@,
{
    let fs = s.fanouts@;
    let good = state_views(w.atom_states@);
    let start = state_views(states);
    lemma_ref_settled(w, s, seed);
    lemma_first_with_atoms(fs, 0);
    lemma_atoms_before_bound(fs, fs.len());
    assert(s.hash_atoms.len() as nat == s.hash_atoms@.len());
    let i = choose|i: int| 0 <= i < fs.len() && #[trigger] fs[i] >= 2;
    assert(atom_count(fs[i] as nat) > 0);
    let top = first_with_atoms(fs, 0)->0;
    let none = fired_from(fs, fs.len());
    assert forall|x: int| 0 <= x < good.len() implies (#[trigger] good[x]).len() == 200 by {
        assert(good[x] == w.atom_states@[x]@);
    }
    assert forall|x: int| 0 <= x < start.len() implies (#[trigger] start[x]).len() == 200 by {
        assert(start[x] == states[x]@);
    }
    assert forall|x: int, at: int|
        #![trigger start[x][at]]
        0 <= x < start.len() && 0 <= at < 200 && !awaited(s, none, x, at) implies start[x][at]
        == good[x][at] by {
        if driven(s.wires@, x as usize, (at / 32) as usize) {
            let j = choose|j: int|
                0 <= j < s.wires@.len() && (#[trigger] s.wires@[j]).src is AtomOutput
                    && s.wires@[j].dst == (WireEndpoint::AtomInput {
                    atom_id: x as usize,
                    child_slot: (at / 32) as usize,
                });
            lemma_wire_kinds(s, j);
            assert(drives(s.wires@[j], x, at) && yet_to_carry(s, none, j));
        }
    }
    lemma_fire_nodes_settles(s, 0, Run { states: start, root: None }, top, good);
    let count = atom_count(fs[top as int] as nat);
    lemma_ref_state(w, s, seed, top, (count - 1) as nat);
    lemma_pass_through(s, seed, 0, top);
    lemma_node_list(s, top);
}

/// Firing the atoms of a reference run leads to the root that the run expects,
/// for every path that has an atom.
pub proof fn law_fold_root_of_ref_witness(w: RefWitness, s: MhotHashSchedule, seed: u64)
    requires
        is_schedule(s),
        is_ref_witness(w, s, seed),
        exists|i: int| 0 <= i < s.fanouts@.len() && #[trigger] s.fanouts@[i] >= 2,
    ensures
        fold_root(s, state_views(w.atom_states@)) == w.expected_root@,
{
    law_fold_root_ignores_driven_slots(w, s, seed, w.atom_states@);
}

/// The first node with atoms behind `node`, if there is one, has `node` as its
/// parent.
proof fn lemma_parent_of_next(fs: Seq<usize>, node: nat, next: nat)
    requires
        node < next < fs.len(),
        atom_count(fs[node as int] as nat) > 0,
        forall|m: int| node < m < next ==> atom_count(#[trigger] fs[m] as nat) == 0,
    ensures
        parent_of(fs, next) == Some(node),
    decreases next - node,
{
    if node + 1 < next {
        assert(atom_count(fs[next - 1] as nat) == 0);
        lemma_parent_of_next_step(fs, node, (next - 1) as nat);
    }
}

proof fn lemma_parent_of_next_step(fs: Seq<usize>, node: nat, at: nat)
    requires
        node < at < fs.len(),
        atom_count(fs[node as int] as nat) > 0,
        forall|m: int| node < m <= at ==> atom_count(#[trigger] fs[m] as nat) == 0,
    ensures
        parent_of(fs, at) == Some(node),
    decreases at - node,
{
    if node + 1 < at {
        assert(atom_count(fs[at - 1] as nat) == 0);
        lemma_parent_of_next_step(fs, node, (at - 1) as nat);
    }
}

proof fn lemma_cross_wire_in_draft(fs: Seq<usize>, n: nat, node: nat)
    requires
        node < n,
        cross_wire(fs, node).len() == 1,
    ensures
        exists|i: int|
            0 <= i < cross_wires(fs, n).len() && #[trigger] cross_wires(fs, n)[i] == cross_wire(
                fs,
                node,
            )[0],
    decreases n,
{
    let m = (n - 1) as nat;
    let below = cross_wires(fs, m);
    if node < m {
        lemma_cross_wire_in_draft(fs, m, node);
        let i = choose|i: int|
            0 <= i < below.len() && #[trigger] below[i] == cross_wire(fs, node)[0];
        assert(cross_wires(fs, n)[i] == below[i]);
    } else {
        assert(cross_wires(fs, n)[below.len() as int] == cross_wire(fs, node)[0]);
    }
}

/// Where a later node has atoms, the wire from outside to the first slot of a
/// node is shadowed.
proof fn lemma_first_leaf_shadowed(fs: Seq<usize>, node: nat)
    requires
        fanouts_valid(fs),
        node + 1 < fs.len(),
        atom_count(fs[node as int] as nat) > 0,
        fs.last() >= 2,
    ensures
        shadowed(leaf_wire(fs, node, 0, 0), draft_wires(fs)),
{
    lemma_first_with_atoms(fs, node + 1);
    assert(atom_count(fs[fs.len() - 1] as nat) > 0);
    let next = first_with_atoms(fs, node + 1)->0;
    lemma_parent_of_next(fs, node, next);
    lemma_cross_wire_in_draft(fs, fs.len(), next);
    let cross = cross_wires(fs, fs.len());
    let inner = inner_wires(fs, fs.len());
    let i = choose|i: int| 0 <= i < cross.len() && #[trigger] cross[i] == cross_wire(fs, next)[0];
    let draft = draft_wires(fs);
    assert(draft[inner.len() + i] == cross[i]);
    assert(draft[inner.len() + i].src is AtomOutput);
    assert(draft[inner.len() + i].dst == leaf_wire(fs, node, 0, 0).dst);
}

/// The wiring of a reference run is accepted, for every path whose last node
/// has two children or more.
pub proof fn law_ref_witness_wiring_accepted(
    w: RefWitness,
    s: MhotHashSchedule,
    seed: u64,
    b: Board,
)
    requires
        is_schedule(s),
        is_ref_witness(w, s, seed),
        s.fanouts@.len() > 0,
        s.fanouts@.last() >= 2,
        b.inputs == state_views(w.atom_states@),
        b.outputs == Seq::new(b.inputs.len(), |i: int| keccak_digest(b.inputs[i])),
        b.leaves == Seq::new(
            leaves_before(s.fanouts@, s.fanouts@.len()),
            |i: int| seeded_leaf(seed, i as usize),
        ),
        b.root == w.expected_root@,
    ensures
        agree_below(s.wires@, s.wires@.len() as int, b),
        forall|i: int|
            #![trigger s.wires@[i]]
            0 <= i < s.wires@.len() ==> on_board(s.wires@[i].src, b) && on_board(s.wires@[i].dst, b),
{
    let fs = s.fanouts@;
    let n = fs.len();
    lemma_ref_settled(w, s, seed);
    assert forall|i: int| #![trigger s.wires@[i]] 0 <= i < s.wires@.len() implies on_board(
        s.wires@[i].src,
        b,
    ) && on_board(s.wires@[i].dst, b) by {
        lemma_wire_kinds(s, i);
    }
    assert forall|i: int| 0 <= i < s.wires@.len() implies wire_agrees(#[trigger] s.wires@[i], b) by {
        let wire = s.wires@[i];
        lemma_wire_source(s, i);
        lemma_wire_kinds(s, i);
        lemma_atoms_before_bound(fs, n);
        if exists|node: nat, k: nat|
            node < fs.len() && 0 < k < atom_count(fs[node as int] as nat) && wire
                == #[trigger] fold_wire(fs, node, k) {
        } else if is_leaf_wire(fs, wire) {
            let (node, k, j) = choose|node: nat, k: nat, j: nat|
                node < fs.len() && k < atom_count(fs[node as int] as nat) && j < fresh(
                    fs[node as int] as nat,
                    k,
                ) && wire == #[trigger] leaf_wire(fs, node, k, j);
            let ch = final_children(s, seed, node);
            let slot = first_slot(k) + j;
            let at = (taken(fs[node as int] as nat, k) + j) as nat;
            lemma_ref_state(w, s, seed, node, k);
            lemma_children_len(s, seed, node);
            lemma_node_order(fs, node, n);
            lemma_leaves_before_mono(fs, node + 1, n);
            lemma_slot_of_fold(ch, k, slot);
            assert(fold_inputs(ch, k)[slot as int] == ch[at as int]);
            if at == 0 && node + 1 < n {
                assert(k == 0 && j == 0);
                lemma_first_leaf_shadowed(fs, node);
                assert(false);
            }
            assert(ch[at as int] == seeded_leaf(seed, (leaves_before(fs, node) + at) as usize)) by {
                if at == 0 {
                    assert(node_digest(s, seed, node + 1) is None);
                }
            }
        } else if is_cross_wire(fs, wire) {
        } else {
            lemma_first_with_atoms(fs, 0);
            assert(atom_count(fs[n - 1] as nat) > 0);
            let top = first_with_atoms(fs, 0)->0;
            let count = atom_count(fs[top as int] as nat);
            lemma_ref_state(w, s, seed, top, (count - 1) as nat);
            lemma_pass_through(s, seed, 0, top);
            lemma_node_list(s, top);
        }
    }
}

/// Byte `j` of the digest at an endpoint, on the arrays themselves.
pub open spec fn end_byte(
    ep: WireEndpoint,
    outputs: Seq<Digest>,
    states: Seq<[u8; 200]>,
    leaves: Seq<Digest>,
    root: Digest,
    j: int,
) -> u8 {
    match ep {
        WireEndpoint::AtomOutput { atom_id } => outputs[atom_id as int]@[j],
        WireEndpoint::AtomInput { atom_id, child_slot } => states[atom_id as int]@[32 * child_slot
            + j],
        WireEndpoint::PublicRoot => root@[j],
        WireEndpoint::LeafDigest { leaf_index } => leaves[leaf_index as int]@[j],
    }
}

/// The ends of a wire agree exactly when their 32 bytes do, each read where it
/// stands: an atom's output, bytes `32 slot .. 32 slot + 32` of an atom's
/// state, a leaf, or the root.
pub proof fn law_wire_agrees_bytewise(
    w: Wire,
    outputs: Seq<Digest>,
    states: Seq<[u8; 200]>,
    leaves: Seq<Digest>,
    root: Digest,
)
    requires
        on_board(w.src, board_of(outputs, states, leaves, root)),
        on_board(w.dst, board_of(outputs, states, leaves, root)),
    ensures
        wire_agrees(w, board_of(outputs, states, leaves, root)) <==> (forall|j: int|
            0 <= j < 32 ==> #[trigger] end_byte(w.src, outputs, states, leaves, root, j)
                == end_byte(w.dst, outputs, states, leaves, root, j)),
        forall|j: int|
            0 <= j < 32 ==> digest_at(w.src, board_of(outputs, states, leaves, root))[j]
                == #[trigger] end_byte(w.src, outputs, states, leaves, root, j),
        forall|j: int|
            0 <= j < 32 ==> digest_at(w.dst, board_of(outputs, states, leaves, root))[j]
                == #[trigger] end_byte(w.dst, outputs, states, leaves, root, j),
{
    let b = board_of(outputs, states, leaves, root);
    let (s, d) = (digest_at(w.src, b), digest_at(w.dst, b));
    assert(s.len() == 32 && d.len() == 32);
    assert forall|j: int| 0 <= j < 32 implies s[j] == #[trigger] end_byte(
        w.src,
        outputs,
        states,
        leaves,
        root,
        j,
    ) by {}
    assert forall|j: int| 0 <= j < 32 implies d[j] == #[trigger] end_byte(
        w.dst,
        outputs,
        states,
        leaves,
        root,
        j,
    ) by {}
    if wire_agrees(w, b) {
        assert forall|j: int| 0 <= j < 32 implies #[trigger] end_byte(
            w.src,
            outputs,
            states,
            leaves,
            root,
            j,
        ) == end_byte(w.dst, outputs, states, leaves, root, j) by {
            assert(s[j] == d[j]);
        }
    }
    if forall|j: int|
        0 <= j < 32 ==> #[trigger] end_byte(w.src, outputs, states, leaves, root, j) == end_byte(
            w.dst,
            outputs,
            states,
            leaves,
            root,
            j,
        ) {
        assert forall|j: int| 0 <= j < 32 implies s[j] == d[j] by {
            let _ = end_byte(w.src, outputs, states, leaves, root, j);
        }
        assert(s =~= d);
    }
}

/// A wiring is accepted exactly when every wire carries to each of the 32 bytes
/// of its destination the byte of its source.
pub proof fn law_wiring_accepted_iff_bytes_agree(
    ws: Seq<Wire>,
    outputs: Seq<Digest>,
    states: Seq<[u8; 200]>,
    leaves: Seq<Digest>,
    root: Digest,
)
    requires
        forall|i: int|
            #![trigger ws[i]]
            0 <= i < ws.len() ==> on_board(ws[i].src, board_of(outputs, states, leaves, root))
                && on_board(ws[i].dst, board_of(outputs, states, leaves, root)),
    ensures
        agree_below(ws, ws.len() as int, board_of(outputs, states, leaves, root)) <==> (forall|
            i: int,
            j: int,
        |
            0 <= i < ws.len() && 0 <= j < 32 ==> #[trigger] end_byte(
                ws[i].src,
                outputs,
                states,
                leaves,
                root,
                j,
            ) == end_byte(ws[i].dst, outputs, states, leaves, root, j)),
{
    let b = board_of(outputs, states, leaves, root);
    assert forall|i: int| 0 <= i < ws.len() implies (wire_agrees(#[trigger] ws[i], b) <==> (forall|
        j: int,
    |
        0 <= j < 32 ==> #[trigger] end_byte(ws[i].src, outputs, states, leaves, root, j)
            == end_byte(ws[i].dst, outputs, states, leaves, root, j))) by {
        law_wire_agrees_bytewise(ws[i], outputs, states, leaves, root);
    }
}

/// Where a wiring is accepted, byte `j` at the source of wire `i` is byte `j` at
/// its destination.
pub proof fn law_accepted_wire_carries_byte(
    ws: Seq<Wire>,
    outputs: Seq<Digest>,
    states: Seq<[u8; 200]>,
    leaves: Seq<Digest>,
    root: Digest,
    i: int,
    j: int,
)
    requires
        agree_below(ws, ws.len() as int, board_of(outputs, states, leaves, root)),
        0 <= i < ws.len(),
        0 <= j < 32,
        on_board(ws[i].src, board_of(outputs, states, leaves, root)),
        on_board(ws[i].dst, board_of(outputs, states, leaves, root)),
    ensures
        (match ws[i].src {
            WireEndpoint::AtomOutput { atom_id } => outputs[atom_id as int]@[j],
            WireEndpoint::AtomInput { atom_id, child_slot } => states[atom_id as int]@[32
                * child_slot + j],
            WireEndpoint::PublicRoot => root@[j],
            WireEndpoint::LeafDigest { leaf_index } => leaves[leaf_index as int]@[j],
        }) == (match ws[i].dst {
            WireEndpoint::AtomOutput { atom_id } => outputs[atom_id as int]@[j],
            WireEndpoint::AtomInput { atom_id, child_slot } => states[atom_id as int]@[32
                * child_slot + j],
            WireEndpoint::PublicRoot => root@[j],
            WireEndpoint::LeafDigest { leaf_index } => leaves[leaf_index as int]@[j],
        }),
{
    law_wire_agrees_bytewise(ws[i], outputs, states, leaves, root);
    assert(wire_agrees(ws[i], board_of(outputs, states, leaves, root)));
    let _ = end_byte(ws[i].src, outputs, states, leaves, root, j);
}

/// What a node of a reference run folds: the digest of the node below as its
/// first child, and a leaf of its own for every other child; all of the last
/// node's are leaves.
pub open spec fn run_children(s: MhotHashSchedule, seed: u64, node: nat) -> Seq<Seq<u8>> {
    Seq::new(
        s.fanouts@[node as int] as nat,
        |i: int|
            if i == 0 && node + 1 < s.fanouts@.len() {
                node_digest(s, seed, node + 1)->0
            } else {
                seeded_leaf(seed, (leaves_before(s.fanouts@, node) + i) as usize)
            },
    )
}

/// The digest of a node of a reference run is its only child's, or what its
/// atoms fold its children to, step by step.
pub proof fn law_node_digest_folds(s: MhotHashSchedule, seed: u64, node: nat)
    requires
        is_schedule(s),
        node < s.fanouts@.len(),
    ensures
        node_digest(s, seed, node) == Some(
            if s.fanouts@[node as int] >= 2 {
                fold_out(
                    run_children(s, seed, node),
                    atom_count(s.fanouts@[node as int] as nat),
                )
            } else {
                run_children(s, seed, node)[0]
            },
        ),
        final_children(s, seed, node) == run_children(s, seed, node),
    decreases s.fanouts@.len() - node,
{
    lemma_node_list(s, node);
    assert(s.fanouts@[node as int] >= 1);
    if node + 1 < s.fanouts@.len() {
        law_node_digest_folds(s, seed, node + 1);
    }
    assert(final_children(s, seed, node) =~= run_children(s, seed, node));
}

/// The states of a reference run: fold step `k` of a node starts from the
/// padded state of what it takes in; and the expected root is the digest of the
/// first node.
pub proof fn law_ref_witness_states(
    w: RefWitness,
    s: MhotHashSchedule,
    seed: u64,
    node: nat,
    k: nat,
)
    requires
        is_schedule(s),
        is_ref_witness(w, s, seed),
        node < s.fanouts@.len(),
        k < atom_count(s.fanouts@[node as int] as nat),
    ensures
        w.atom_states@.len() == s.hash_atoms@.len(),
        atoms_before(s.fanouts@, node) + k < w.atom_states@.len(),
        w.atom_states@[(atoms_before(s.fanouts@, node) + k) as int]@ == fold_in(
            run_children(s, seed, node),
            k,
        ),
        Some(w.expected_root@) == node_digest(s, seed, 0),
{
    law_node_digest_folds(s, seed, node);
    law_node_digest_folds(s, seed, 0);
    lemma_node_list(s, node);
    lemma_node_order(s.fanouts@, node, s.fanouts@.len());
    lemma_atoms_before_bound(s.fanouts@, s.fanouts@.len());
    let list = node_list(s, node);
    assert(list[k as int] == atoms_before(s.fanouts@, node) + k);
}

} // verus!
