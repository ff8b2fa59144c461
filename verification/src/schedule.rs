//! The order in which the digests along a path are folded: one permutation
//! call takes up to four digests to one, and wires say where each digest comes
//! from.

use vstd::prelude::*;

verus! {

/// One permutation call.
#[derive(Clone, Copy, Debug)]
pub struct KeccakAtom {
    /// The atom's number, counted over all nodes.
    pub atom_id: usize,
    /// The node that the atom belongs to; node 0 is the root's.
    pub node: usize,
    /// The atom's number within its node.
    pub fold_step: usize,
    /// How many digests the atom takes in.
    pub n_children: usize,
}

/// Where a digest stands.
#[derive(Clone, Copy, Debug)]
pub enum WireEndpoint {
    /// What an atom puts out.
    AtomOutput { atom_id: usize },
    /// One of the slots that an atom takes digests in at.
    AtomInput { atom_id: usize, child_slot: usize },
    /// The public root.
    PublicRoot,
    /// A digest from outside.
    LeafDigest { leaf_index: usize },
}

/// Two places that hold the same digest.
#[derive(Clone, Copy, Debug)]
pub struct Wire {
    pub src: WireEndpoint,
    pub dst: WireEndpoint,
}

/// All atoms and wires of a path.
#[derive(Clone, Debug)]
pub struct MhotHashSchedule {
    /// The fanout of each node, the root's first.
    pub fanouts: Vec<usize>,
    /// The atoms, by node and then by fold step.
    pub hash_atoms: Vec<KeccakAtom>,
    pub wires: Vec<Wire>,
}

/// How many atoms a node of `fanout` children takes: the first folds four
/// digests, each later one the result and three more.
pub open spec fn atom_count(fanout: nat) -> nat {
    if fanout <= 1 {
        0
    } else {
        (fanout + 1) / 3
    }
}

/// How many atoms the nodes before `node` take.
pub open spec fn atoms_before(fs: Seq<usize>, node: nat) -> nat
    decreases node,
{
    if node == 0 {
        0
    } else {
        atoms_before(fs, (node - 1) as nat) + atom_count(fs[node - 1] as nat)
    }
}

/// How many children the nodes before `node` have.
pub open spec fn leaves_before(fs: Seq<usize>, node: nat) -> nat
    decreases node,
{
    if node == 0 {
        0
    } else {
        leaves_before(fs, (node - 1) as nat) + fs[node - 1] as nat
    }
}

/// How many of a node's children the first `k` atoms have taken in.
pub open spec fn taken(fanout: nat, k: nat) -> nat {
    if k == 0 {
        0
    } else if fanout < 3 * k + 1 {
        fanout
    } else {
        3 * k + 1
    }
}

/// How many children atom `k` of a node takes in itself.
pub open spec fn fresh(fanout: nat, k: nat) -> nat {
    (taken(fanout, k + 1) - taken(fanout, k)) as nat
}

/// The slot of atom `k` where its own children start: slot 0 belongs to the
/// digest of the atom before it.
pub open spec fn first_slot(k: nat) -> nat {
    if k == 0 {
        0
    } else {
        1
    }
}

/// Atom `k` of `node`.
pub open spec fn node_atom(fs: Seq<usize>, node: nat, k: nat) -> KeccakAtom {
    KeccakAtom {
        atom_id: (atoms_before(fs, node) + k) as usize,
        node: node as usize,
        fold_step: k as usize,
        n_children: (first_slot(k) + fresh(fs[node as int] as nat, k)) as usize,
    }
}

/// The first `k` atoms of `node`.
pub open spec fn node_atoms(fs: Seq<usize>, node: nat, k: nat) -> Seq<KeccakAtom> {
    Seq::new(k, |i: int| node_atom(fs, node, i as nat))
}

/// The atoms of the first `n` nodes.
pub open spec fn all_atoms(fs: Seq<usize>, n: nat) -> Seq<KeccakAtom>
    decreases n,
{
    if n == 0 {
        Seq::empty()
    } else {
        all_atoms(fs, (n - 1) as nat) + node_atoms(
            fs,
            (n - 1) as nat,
            atom_count(fs[n - 1] as nat),
        )
    }
}

/// The wire from child `j` of atom `k`'s own children to its slot.
pub open spec fn leaf_wire(fs: Seq<usize>, node: nat, k: nat, j: nat) -> Wire {
    Wire {
        src: WireEndpoint::LeafDigest {
            leaf_index: (leaves_before(fs, node) + taken(fs[node as int] as nat, k) + j) as usize,
        },
        dst: WireEndpoint::AtomInput {
            atom_id: (atoms_before(fs, node) + k) as usize,
            child_slot: (first_slot(k) + j) as usize,
        },
    }
}

/// The wire from atom `k - 1` of `node` to atom `k`.
pub open spec fn fold_wire(fs: Seq<usize>, node: nat, k: nat) -> Wire {
    Wire {
        src: WireEndpoint::AtomOutput { atom_id: (atoms_before(fs, node) + k - 1) as usize },
        dst: WireEndpoint::AtomInput {
            atom_id: (atoms_before(fs, node) + k) as usize,
            child_slot: 0,
        },
    }
}

/// The wires into atom `k` of `node`, up to `j` of its own children.
pub open spec fn atom_wires(fs: Seq<usize>, node: nat, k: nat, j: nat) -> Seq<Wire> {
    (if k == 0 {
        Seq::empty()
    } else {
        seq![fold_wire(fs, node, k)]
    }) + Seq::new(j, |i: int| leaf_wire(fs, node, k, i as nat))
}

/// The wires into the first `k` atoms of `node`.
pub open spec fn node_wires(fs: Seq<usize>, node: nat, k: nat) -> Seq<Wire>
    decreases k,
{
    if k == 0 {
        Seq::empty()
    } else {
        node_wires(fs, node, (k - 1) as nat) + atom_wires(
            fs,
            node,
            (k - 1) as nat,
            fresh(fs[node as int] as nat, (k - 1) as nat),
        )
    }
}

/// The wires within the first `n` nodes.
pub open spec fn inner_wires(fs: Seq<usize>, n: nat) -> Seq<Wire>
    decreases n,
{
    if n == 0 {
        Seq::empty()
    } else {
        inner_wires(fs, (n - 1) as nat) + node_wires(
            fs,
            (n - 1) as nat,
            atom_count(fs[n - 1] as nat),
        )
    }
}

/// The nearest node before `node` that has atoms.
pub open spec fn parent_of(fs: Seq<usize>, node: nat) -> Option<nat>
    decreases node,
{
    if node == 0 {
        None
    } else if atom_count(fs[node - 1] as nat) > 0 {
        Some((node - 1) as nat)
    } else {
        parent_of(fs, (node - 1) as nat)
    }
}

/// The last atom of a node that has atoms.
pub open spec fn root_atom(fs: Seq<usize>, node: nat) -> nat {
    (atoms_before(fs, node) + atom_count(fs[node as int] as nat) - 1) as nat
}

/// The wire from the last atom of `node` to the first atom of its parent, if
/// both have atoms.
pub open spec fn cross_wire(fs: Seq<usize>, node: nat) -> Seq<Wire> {
    if atom_count(fs[node as int] as nat) == 0 {
        Seq::empty()
    } else {
        match parent_of(fs, node) {
            Some(p) => seq![
                Wire {
                    src: WireEndpoint::AtomOutput { atom_id: root_atom(fs, node) as usize },
                    dst: WireEndpoint::AtomInput {
                        atom_id: atoms_before(fs, p) as usize,
                        child_slot: 0,
                    },
                },
            ],
            None => Seq::empty(),
        }
    }
}

/// The wires from the first `n` nodes to their parents.
pub open spec fn cross_wires(fs: Seq<usize>, n: nat) -> Seq<Wire>
    decreases n,
{
    if n == 0 {
        Seq::empty()
    } else {
        cross_wires(fs, (n - 1) as nat) + cross_wire(fs, (n - 1) as nat)
    }
}

/// All wires but the one to the public root, with those from outside still in
/// that a node's digest takes the place of.
pub open spec fn draft_wires(fs: Seq<usize>) -> Seq<Wire> {
    inner_wires(fs, fs.len()) + cross_wires(fs, fs.len())
}

/// Whether an atom drives slot `child_slot` of atom `atom_id`.
pub open spec fn driven(ws: Seq<Wire>, atom_id: usize, child_slot: usize) -> bool {
    exists|i: int|
        0 <= i < ws.len() && (#[trigger] ws[i]).src is AtomOutput && ws[i].dst == (
        WireEndpoint::AtomInput { atom_id, child_slot })
}

/// Whether a wire from outside leads to a slot that an atom drives.
pub open spec fn shadowed(w: Wire, ws: Seq<Wire>) -> bool {
    w.src is LeafDigest && match w.dst {
        WireEndpoint::AtomInput { atom_id, child_slot } => driven(ws, atom_id, child_slot),
        _ => false,
    }
}

/// The wires among the first `n` that are not shadowed.
pub open spec fn unshadowed(ws: Seq<Wire>, n: nat) -> Seq<Wire>
    decreases n,
{
    if n == 0 {
        Seq::empty()
    } else {
        let rest = unshadowed(ws, (n - 1) as nat);
        if shadowed(ws[n - 1], ws) {
            rest
        } else {
            rest.push(ws[n - 1])
        }
    }
}

/// The first node from `node` on that has atoms.
pub open spec fn first_with_atoms(fs: Seq<usize>, node: nat) -> Option<nat>
    decreases fs.len() - node,
{
    if node >= fs.len() {
        None
    } else if atom_count(fs[node as int] as nat) > 0 {
        Some(node)
    } else {
        first_with_atoms(fs, node + 1)
    }
}

/// The wire to the public root, if there is any node.
pub open spec fn root_wires(fs: Seq<usize>) -> Seq<Wire> {
    match first_with_atoms(fs, 0) {
        Some(node) => seq![
            Wire {
                src: WireEndpoint::AtomOutput { atom_id: root_atom(fs, node) as usize },
                dst: WireEndpoint::PublicRoot,
            },
        ],
        None => if fs.len() == 0 {
            Seq::empty()
        } else {
            seq![
                Wire {
                    src: WireEndpoint::LeafDigest { leaf_index: 0 },
                    dst: WireEndpoint::PublicRoot,
                },
            ]
        },
    }
}

/// All wires of a path.
pub open spec fn all_wires(fs: Seq<usize>) -> Seq<Wire> {
    unshadowed(draft_wires(fs), draft_wires(fs).len()) + root_wires(fs)
}

/// What a path's fanouts must satisfy: no node is without children, and the
/// children can be counted.
pub open spec fn fanouts_valid(fs: Seq<usize>) -> bool {
    &&& forall|i: int| 0 <= i < fs.len() ==> 1 <= #[trigger] fs[i]
    &&& leaves_before(fs, fs.len()) <= usize::MAX
}

/// Whether a schedule is the one of its fanouts.
pub open spec fn is_schedule(s: MhotHashSchedule) -> bool {
    &&& fanouts_valid(s.fanouts@)
    &&& s.hash_atoms@ == all_atoms(s.fanouts@, s.fanouts@.len())
    &&& s.wires@ == all_wires(s.fanouts@)
}

pub proof fn lemma_leaves_before_mono(fs: Seq<usize>, m: nat, n: nat)
    requires
        m <= n,
    ensures
        leaves_before(fs, m) <= leaves_before(fs, n),
    decreases n,
{
    if m < n {
        lemma_leaves_before_mono(fs, m, (n - 1) as nat);
    }
}

/// There are no more nodes than children.
pub proof fn lemma_nodes_bound(fs: Seq<usize>, n: nat)
    requires
        fanouts_valid(fs),
        n <= fs.len(),
    ensures
        n <= leaves_before(fs, n),
    decreases n,
{
    if n > 0 {
        lemma_nodes_bound(fs, (n - 1) as nat);
        assert(1 <= fs[n - 1]);
    }
}

/// There are no more atoms than children.
pub proof fn lemma_atoms_before_bound(fs: Seq<usize>, n: nat)
    ensures
        atoms_before(fs, n) <= leaves_before(fs, n),
        all_atoms(fs, n).len() == atoms_before(fs, n),
    decreases n,
{
    if n > 0 {
        lemma_atoms_before_bound(fs, (n - 1) as nat);
    }
}

/// How many atoms a node of `fanout` children takes.
fn atom_count_for_fanout(fanout: usize) -> (n: usize)
    ensures
        n == atom_count(fanout as nat),
{
    if fanout <= 1 {
        0
    } else {
        (fanout - 1) / 3 + if (fanout - 1) % 3 == 0 { 0 } else { 1 }
    }
}

/// Appends the wires of atom `k` of `node`.
fn push_atom_wires(
    wires: &mut Vec<Wire>,
    fanout: usize,
    leaf_base: usize,
    atom_base: usize,
    k: usize,
    Ghost(fs): Ghost<Seq<usize>>,
    Ghost(node): Ghost<nat>,
)
    requires
        node < fs.len(),
        fanout == fs[node as int],
        leaf_base == leaves_before(fs, node),
        atom_base == atoms_before(fs, node),
        leaf_base + fanout <= usize::MAX,
        atom_base <= leaf_base,
        k < atom_count(fanout as nat),
    ensures
        final(wires)@ == old(wires)@ + atom_wires(fs, node, k as nat, fresh(fanout as nat, k as nat)),
{
    let atom_id: usize = atom_base + k;
    let start: usize = if k == 0 { 0 } else { 3 * k + 1 };
    let room: usize = if k == 0 { 4 } else { 3 };
    let count: usize = if fanout - start < room { fanout - start } else { room };
    let slot: usize = if k == 0 { 0 } else { 1 };
    assert(count == fresh(fanout as nat, k as nat));
    if k > 0 {
        wires.push(
            Wire {
                src: WireEndpoint::AtomOutput { atom_id: atom_id - 1 },
                dst: WireEndpoint::AtomInput { atom_id, child_slot: 0 },
            },
        );
    }
    assert(wires@ =~= old(wires)@ + atom_wires(fs, node, k as nat, 0));
    for j in 0..count
        invariant
            start == taken(fanout as nat, k as nat),
            start + count <= fanout,
            fanout == fs[node as int],
            slot == first_slot(k as nat),
            count <= 4,
            atom_id == atoms_before(fs, node) + k,
            leaf_base == leaves_before(fs, node),
            leaf_base + fanout <= usize::MAX,
            wires@ == old(wires)@ + atom_wires(fs, node, k as nat, j as nat),
    {
        let ghost before = wires@;
        wires.push(
            Wire {
                src: WireEndpoint::LeafDigest { leaf_index: leaf_base + start + j },
                dst: WireEndpoint::AtomInput { atom_id, child_slot: slot + j },
            },
        );
        assert(wires@ =~= old(wires)@ + atom_wires(fs, node, k as nat, (j + 1) as nat));
    }
}

/// Whether an atom drives a slot.
fn is_driven(ws: &Vec<Wire>, atom: usize, slot: usize) -> (r: bool)
    ensures
        r == driven(ws@, atom, slot),
{
    for i in 0..ws.len()
        invariant
            forall|j: int|
                0 <= j < i ==> !((#[trigger] ws@[j]).src is AtomOutput && ws@[j].dst == (
                WireEndpoint::AtomInput { atom_id: atom, child_slot: slot })),
    {
        let w: Wire = ws[i];
        if let WireEndpoint::AtomOutput { .. } = w.src {
            if let WireEndpoint::AtomInput { atom_id, child_slot } = w.dst {
                if atom_id == atom && child_slot == slot {
                    assert(ws@[i as int].src is AtomOutput);
                    return true;
                }
            }
        }
    }
    false
}

/// Drops the wires from outside whose slot an atom drives.
fn remove_leaf_wires_shadowed_by_atom_outputs(wires: &Vec<Wire>) -> (kept: Vec<Wire>)
    ensures
        kept@ == unshadowed(wires@, wires@.len()),
{
    let mut kept: Vec<Wire> = Vec::new();
    for i in 0..wires.len()
        invariant
            kept@ == unshadowed(wires@, i as nat),
    {
        let w: Wire = wires[i];
        let mut drop_it: bool = false;
        if let WireEndpoint::LeafDigest { .. } = w.src {
            if let WireEndpoint::AtomInput { atom_id, child_slot } = w.dst {
                drop_it = is_driven(wires, atom_id, child_slot);
            }
        }
        assert(drop_it == shadowed(wires@[i as int], wires@));
        if !drop_it {
            kept.push(w);
        }
    }
    kept
}

/// Adding a node's wire to its parent.
fn push_cross_wire(
    wires: &mut Vec<Wire>,
    fanouts: &[usize],
    atom_bases: &Vec<usize>,
    node: usize,
)
    requires
        fanouts_valid(fanouts@),
        node < fanouts@.len(),
        atom_bases@.len() == fanouts@.len(),
        forall|i: int|
            0 <= i < fanouts@.len() ==> #[trigger] atom_bases@[i] == atoms_before(fanouts@, i as nat),
    ensures
        final(wires)@ == old(wires)@ + cross_wire(fanouts@, node as nat),
{
    let n_atoms: usize = atom_count_for_fanout(fanouts[node]);
    if n_atoms == 0 {
        assert(wires@ =~= old(wires)@ + cross_wire(fanouts@, node as nat));
        return ;
    }
    proof {
        lemma_atoms_before_bound(fanouts@, (node + 1) as nat);
        lemma_leaves_before_mono(fanouts@, (node + 1) as nat, fanouts@.len());
    }
    let mut p: usize = node;
    while p > 0
        invariant
            p <= node < fanouts@.len(),
            n_atoms == atom_count(fanouts@[node as int] as nat),
            n_atoms > 0,
            atoms_before(fanouts@, (node + 1) as nat) <= usize::MAX,
            atom_bases@.len() == fanouts@.len(),
            forall|i: int|
                0 <= i < fanouts@.len() ==> #[trigger] atom_bases@[i] == atoms_before(
                    fanouts@,
                    i as nat,
                ),
            parent_of(fanouts@, node as nat) == parent_of(fanouts@, p as nat),
            wires@ == old(wires)@,
        decreases p,
    {
        p = p - 1;
        if atom_count_for_fanout(fanouts[p]) > 0 {
            let src: usize = atom_bases[node] + (n_atoms - 1);
            wires.push(
                Wire {
                    src: WireEndpoint::AtomOutput { atom_id: src },
                    dst: WireEndpoint::AtomInput { atom_id: atom_bases[p], child_slot: 0 },
                },
            );
            assert(wires@ =~= old(wires)@ + cross_wire(fanouts@, node as nat));
            return ;
        }
    }
    assert(wires@ =~= old(wires)@ + cross_wire(fanouts@, node as nat));
}

/// The wire to the public root.
fn push_root_wire(wires: &mut Vec<Wire>, fanouts: &[usize], atom_bases: &Vec<usize>)
    requires
        fanouts_valid(fanouts@),
        atom_bases@.len() == fanouts@.len(),
        forall|i: int|
            0 <= i < fanouts@.len() ==> #[trigger] atom_bases@[i] == atoms_before(fanouts@, i as nat),
    ensures
        final(wires)@ == old(wires)@ + root_wires(fanouts@),
{
    let n: usize = fanouts.len();
    for node in 0..n
        invariant
            n == fanouts@.len(),
            fanouts_valid(fanouts@),
            atom_bases@.len() == fanouts@.len(),
            forall|i: int|
                0 <= i < fanouts@.len() ==> #[trigger] atom_bases@[i] == atoms_before(
                    fanouts@,
                    i as nat,
                ),
            first_with_atoms(fanouts@, 0) == first_with_atoms(fanouts@, node as nat),
            wires@ == old(wires)@,
    {
        let n_atoms: usize = atom_count_for_fanout(fanouts[node]);
        if n_atoms > 0 {
            proof {
                lemma_atoms_before_bound(fanouts@, (node + 1) as nat);
                lemma_leaves_before_mono(fanouts@, (node + 1) as nat, fanouts@.len());
            }
            let src: usize = atom_bases[node] + (n_atoms - 1);
            wires.push(
                Wire { src: WireEndpoint::AtomOutput { atom_id: src }, dst: WireEndpoint::PublicRoot },
            );
            assert(wires@ =~= old(wires)@ + root_wires(fanouts@));
            return ;
        }
    }
    if n > 0 {
        wires.push(
            Wire {
                src: WireEndpoint::LeafDigest { leaf_index: 0 },
                dst: WireEndpoint::PublicRoot,
            },
        );
    }
    assert(wires@ =~= old(wires)@ + root_wires(fanouts@));
}

impl MhotHashSchedule {
    /// The schedule of a path with the given fanouts, the root's first.
    pub fn from_fanouts(fanouts: &[usize]) -> (s: Self)
        requires
            fanouts_valid(fanouts@),
        ensures
            is_schedule(s),
            s.fanouts@ == fanouts@,
            crate::ref_witness::runnable(s),
            crate::ref_witness::wires_in_range(s),
    {
        let ghost fs = fanouts@;
        let mut hash_atoms: Vec<KeccakAtom> = Vec::new();
        let mut wires: Vec<Wire> = Vec::new();
        let mut atom_bases: Vec<usize> = Vec::new();
        let mut leaf_base: usize = 0;
        for node in 0..fanouts.len()
            invariant
                fs == fanouts@,
                fanouts_valid(fs),
                leaf_base == leaves_before(fs, node as nat),
                hash_atoms@ == all_atoms(fs, node as nat),
                wires@ == inner_wires(fs, node as nat),
                atom_bases@.len() == node,
                forall|i: int|
                    0 <= i < node ==> #[trigger] atom_bases@[i] == atoms_before(fs, i as nat),
        {
            let fanout: usize = fanouts[node];
            let n_atoms: usize = atom_count_for_fanout(fanout);
            let atom_base: usize = hash_atoms.len();
            let ghost atoms0 = hash_atoms@;
            let ghost wires0 = wires@;
            proof {
                lemma_atoms_before_bound(fs, node as nat);
                lemma_leaves_before_mono(fs, (node + 1) as nat, fs.len());
                assert(hash_atoms@ =~= atoms0 + node_atoms(fs, node as nat, 0));
                assert(wires@ =~= wires0 + node_wires(fs, node as nat, 0));
            }
            for k in 0..n_atoms
                invariant
                    node < fs.len(),
                    fanout == fs[node as int],
                    n_atoms == atom_count(fanout as nat),
                    atom_base == atoms_before(fs, node as nat),
                    leaf_base == leaves_before(fs, node as nat),
                    atom_base <= leaf_base,
                    leaf_base + fanout <= usize::MAX,
                    hash_atoms@ == atoms0 + node_atoms(fs, node as nat, k as nat),
                    wires@ == wires0 + node_wires(fs, node as nat, k as nat),
            {
                let start: usize = if k == 0 { 0 } else { 3 * k + 1 };
                let room: usize = if k == 0 { 4 } else { 3 };
                let external: usize = if fanout - start < room { fanout - start } else { room };
                let n_children: usize = external + if k == 0 { 0 } else { 1 };
                let ghost before = hash_atoms@;
                hash_atoms.push(
                    KeccakAtom { atom_id: atom_base + k, node, fold_step: k, n_children },
                );
                assert(hash_atoms@ =~= atoms0 + node_atoms(fs, node as nat, (k + 1) as nat));
                let ghost wires1 = wires@;
                push_atom_wires(
                    &mut wires,
                    fanout,
                    leaf_base,
                    atom_base,
                    k,
                    Ghost(fs),
                    Ghost(node as nat),
                );
                assert(wires@ =~= wires0 + node_wires(fs, node as nat, (k + 1) as nat));
            }
            atom_bases.push(atom_base);
            leaf_base = leaf_base + fanout;
        }
        let ghost inner = wires@;
        let n: usize = fanouts.len();
        assert(wires@ =~= inner + cross_wires(fs, 0));
        for node in 0..n
            invariant
                fs == fanouts@,
                n == fs.len(),
                fanouts_valid(fs),
                atom_bases@.len() == n,
                forall|i: int|
                    0 <= i < n ==> #[trigger] atom_bases@[i] == atoms_before(fs, i as nat),
                wires@ == inner + cross_wires(fs, node as nat),
        {
            push_cross_wire(&mut wires, fanouts, &atom_bases, node);
            assert(wires@ =~= inner + cross_wires(fs, (node + 1) as nat));
        }
        let mut kept: Vec<Wire> = remove_leaf_wires_shadowed_by_atom_outputs(&wires);
        push_root_wire(&mut kept, fanouts, &atom_bases);
        let copied: Vec<usize> = vstd::slice::slice_to_vec(fanouts);
        let s = MhotHashSchedule { fanouts: copied, hash_atoms, wires: kept };
        proof {
            crate::wide_glue::law_schedule_runs(s);
        }
        s
    }
}

/// The packed index of the first half of what atom `atom` puts out.
pub open spec fn output_slot(atom: nat) -> nat {
    atom / 3 * 1024 + (2 * (atom % 3) + 1) * 16
}

/// The packed index of the first half of slot `child_slot` of atom `atom`.
pub open spec fn input_slot(atom: nat, child_slot: nat) -> nat {
    atom / 3 * 1024 + 2 * (atom % 3) * 16 + 2 * child_slot
}

impl MhotHashSchedule {
    /// Where the two halves of what an atom puts out are packed.
    pub fn atom_output_f128(&self, atom_id: usize) -> (r: (usize, usize))
        requires
            output_slot(atom_id as nat) + 1 <= usize::MAX,
        ensures
            r.0 == output_slot(atom_id as nat),
            r.1 == output_slot(atom_id as nat) + 1,
    {
        let base: usize = atom_id / 3 * 1024 + (2 * (atom_id % 3) + 1) * 16;
        (base, base + 1)
    }

    /// Where the two halves of a digest that an atom takes in are packed.
    pub fn atom_input_f128(&self, atom_id: usize, child_slot: usize) -> (r: (usize, usize))
        requires
            input_slot(atom_id as nat, child_slot as nat) + 1 <= usize::MAX,
        ensures
            r.0 == input_slot(atom_id as nat, child_slot as nat),
            r.1 == input_slot(atom_id as nat, child_slot as nat) + 1,
    {
        let base: usize = atom_id / 3 * 1024 + 2 * (atom_id % 3) * 16 + 2 * child_slot;
        (base, base + 1)
    }

    /// Where the two halves of the digest at an endpoint are packed, when the
    /// schedule's atoms start at number `atom_offset`. Digests from outside and
    /// the public root are not packed.
    pub fn endpoint_f128_with_offset(
        &self,
        ep: &WireEndpoint,
        atom_offset: usize,
    ) -> (r: Option<(usize, usize)>)
        requires
            match *ep {
                WireEndpoint::AtomOutput { atom_id } => {
                    &&& atom_id + atom_offset <= usize::MAX
                    &&& output_slot((atom_id + atom_offset) as nat) + 1 <= usize::MAX
                },
                WireEndpoint::AtomInput { atom_id, child_slot } => {
                    &&& atom_id + atom_offset <= usize::MAX
                    &&& input_slot((atom_id + atom_offset) as nat, child_slot as nat) + 1
                        <= usize::MAX
                },
                _ => true,
            },
        ensures
            match *ep {
                WireEndpoint::AtomOutput { atom_id } => {
                    let base = output_slot((atom_id + atom_offset) as nat);
                    r matches Some((lo, hi)) && lo == base && hi == base + 1
                },
                WireEndpoint::AtomInput { atom_id, child_slot } => {
                    let base = input_slot((atom_id + atom_offset) as nat, child_slot as nat);
                    r matches Some((lo, hi)) && lo == base && hi == base + 1
                },
                _ => r is None,
            },
    {
        match *ep {
            WireEndpoint::AtomOutput { atom_id } => Some(
                self.atom_output_f128(atom_id + atom_offset),
            ),
            WireEndpoint::AtomInput { atom_id, child_slot } => Some(
                self.atom_input_f128(atom_id + atom_offset, child_slot),
            ),
            WireEndpoint::PublicRoot => None,
            WireEndpoint::LeafDigest { .. } => None,
        }
    }
}

/// What an atom puts out and what it takes in are packed apart, and so are two
/// atoms.
pub proof fn law_packed_slots_disjoint(a: nat, b: nat, slot_a: nat, slot_b: nat)
    requires
        slot_a < 4,
        slot_b < 4,
    ensures
        output_slot(a) + 1 < input_slot(b, slot_b) || input_slot(b, slot_b) + 1 < output_slot(a),
        a != b ==> output_slot(a) + 1 < output_slot(b) || output_slot(b) + 1 < output_slot(a),
        (a, slot_a) != (b, slot_b) ==> input_slot(a, slot_a) + 1 < input_slot(b, slot_b)
            || input_slot(b, slot_b) + 1 < input_slot(a, slot_a),
{
    let (ba, sa) = (a / 3, a % 3);
    let (bb, sb) = (b / 3, b % 3);
    assert(a == 3 * ba + sa && b == 3 * bb + sb);
}

/// A schedule has as many atoms as its nodes take, and none more.
pub proof fn law_atom_count(s: MhotHashSchedule)
    requires
        is_schedule(s),
    ensures
        s.hash_atoms@.len() == atoms_before(s.fanouts@, s.fanouts@.len()),
{
    lemma_atoms_before_bound(s.fanouts@, s.fanouts@.len());
}

/// The node that atom `a` belongs to, among the first `n`.
pub open spec fn node_of(fs: Seq<usize>, n: nat, a: nat) -> nat
    decreases n,
{
    if n == 0 {
        0
    } else if a >= atoms_before(fs, (n - 1) as nat) {
        (n - 1) as nat
    } else {
        node_of(fs, (n - 1) as nat, a)
    }
}

/// Every atom of the first `n` nodes is one of its node's atoms.
pub proof fn lemma_atom_of_node(fs: Seq<usize>, n: nat, a: nat)
    requires
        a < atoms_before(fs, n),
    ensures
        ({
            let node = node_of(fs, n, a);
            &&& node < n
            &&& atoms_before(fs, node) <= a < atoms_before(fs, node) + atom_count(
                fs[node as int] as nat,
            )
            &&& all_atoms(fs, n)[a as int] == node_atom(
                fs,
                node,
                (a - atoms_before(fs, node)) as nat,
            )
        }),
    decreases n,
{
    lemma_atoms_before_bound(fs, n);
    lemma_atoms_before_bound(fs, (n - 1) as nat);
    if a < atoms_before(fs, (n - 1) as nat) {
        lemma_atom_of_node(fs, (n - 1) as nat, a);
    }
}

/// Atoms are numbered in order, belong to a node of the path, and take in two
/// to four digests.
pub proof fn law_atoms_well_formed(s: MhotHashSchedule, a: int)
    requires
        is_schedule(s),
        0 <= a < s.hash_atoms@.len(),
    ensures
        s.hash_atoms@[a].atom_id == a,
        s.hash_atoms@[a].node < s.fanouts@.len(),
        2 <= s.hash_atoms@[a].n_children <= 4,
{
    let fs = s.fanouts@;
    lemma_atoms_before_bound(fs, fs.len());
    lemma_atom_of_node(fs, fs.len(), a as nat);
    let node = node_of(fs, fs.len(), a as nat);
    lemma_leaves_before_mono(fs, node, fs.len());
}

/// No wire within or between nodes leads to the public root.
proof fn lemma_draft_has_no_root(fs: Seq<usize>, n: nat)
    ensures
        forall|i: int|
            0 <= i < inner_wires(fs, n).len() ==> (#[trigger] inner_wires(fs, n)[i]).dst is AtomInput,
        forall|i: int|
            0 <= i < cross_wires(fs, n).len() ==> (#[trigger] cross_wires(fs, n)[i]).dst is AtomInput,
    decreases n,
{
    if n > 0 {
        lemma_draft_has_no_root(fs, (n - 1) as nat);
        lemma_node_wires_have_no_root(fs, (n - 1) as nat, atom_count(fs[n - 1] as nat));
    }
}

proof fn lemma_node_wires_have_no_root(fs: Seq<usize>, node: nat, k: nat)
    ensures
        forall|i: int|
            0 <= i < node_wires(fs, node, k).len() ==> (#[trigger] node_wires(fs, node, k)[i]).dst is AtomInput,
    decreases k,
{
    if k > 0 {
        lemma_node_wires_have_no_root(fs, node, (k - 1) as nat);
    }
}

/// Every wire that is kept was there before, and is not shadowed; and every
/// wire that is not shadowed is kept.
pub proof fn lemma_unshadowed(ws: Seq<Wire>, n: nat)
    requires
        n <= ws.len(),
    ensures
        forall|w: Wire|
            #![trigger unshadowed(ws, n).contains(w)]
            unshadowed(ws, n).contains(w) <==> (exists|i: int|
                0 <= i < n && #[trigger] ws[i] == w && !shadowed(w, ws)),
    decreases n,
{
    if n > 0 {
        let m = (n - 1) as nat;
        lemma_unshadowed(ws, m);
        let rest = unshadowed(ws, m);
        let all = unshadowed(ws, n);
        let last = ws[n - 1];
        assert forall|w: Wire| #![trigger all.contains(w)] all.contains(w) <==> (exists|i: int|
            0 <= i < n && #[trigger] ws[i] == w && !shadowed(w, ws)) by {
            if all.contains(w) {
                let i = choose|i: int| 0 <= i < all.len() && all[i] == w;
                if i < rest.len() {
                    assert(rest[i] == w);
                    assert(rest.contains(w));
                } else {
                    assert(ws[n - 1] == w);
                }
            }
            if exists|i: int| 0 <= i < n && #[trigger] ws[i] == w && !shadowed(w, ws) {
                let i = choose|i: int| 0 <= i < n && #[trigger] ws[i] == w && !shadowed(w, ws);
                if i < m {
                    assert(rest.contains(w));
                    let j = choose|j: int| 0 <= j < rest.len() && rest[j] == w;
                    assert(all[j] == w);
                } else {
                    assert(all[all.len() - 1] == w);
                }
            }
        }
    }
}

/// A path with a node has exactly one wire to the public root, and it is the
/// last one.
pub proof fn law_one_public_root(s: MhotHashSchedule)
    requires
        is_schedule(s),
        s.fanouts@.len() > 0,
    ensures
        s.wires@.len() > 0,
        s.wires@.last().dst is PublicRoot,
        forall|i: int|
            0 <= i < s.wires@.len() - 1 ==> !((#[trigger] s.wires@[i]).dst is PublicRoot),
{
    let fs = s.fanouts@;
    let draft = draft_wires(fs);
    let kept = unshadowed(draft, draft.len());
    lemma_draft_has_no_root(fs, fs.len());
    lemma_unshadowed(draft, draft.len());
    assert(root_wires(fs).len() == 1);
    assert forall|i: int| 0 <= i < s.wires@.len() - 1 implies !((#[trigger] s.wires@[i]).dst is PublicRoot) by {
        assert(s.wires@[i] == kept[i]);
        assert(kept.contains(kept[i]));
        let j = choose|j: int| 0 <= j < draft.len() && #[trigger] draft[j] == kept[i];
        if j < inner_wires(fs, fs.len()).len() {
            assert(draft[j] == inner_wires(fs, fs.len())[j]);
        } else {
            assert(draft[j] == cross_wires(fs, fs.len())[j - inner_wires(fs, fs.len()).len()]);
        }
    }
}

/// No slot takes both a digest from outside and an atom's.
pub proof fn law_single_source_kind(s: MhotHashSchedule, i: int, j: int)
    requires
        is_schedule(s),
        0 <= i < s.wires@.len(),
        0 <= j < s.wires@.len(),
        s.wires@[i].src is LeafDigest,
        s.wires@[i].dst is AtomInput,
        s.wires@[j].src is AtomOutput,
    ensures
        s.wires@[i].dst != s.wires@[j].dst,
{
    let fs = s.fanouts@;
    let draft = draft_wires(fs);
    let kept = unshadowed(draft, draft.len());
    lemma_unshadowed(draft, draft.len());
    if s.wires@[i].dst == s.wires@[j].dst {
        assert(i < kept.len() && j < kept.len());
        assert(kept.contains(kept[i]) && kept.contains(kept[j]));
        let jj = choose|jj: int| 0 <= jj < draft.len() && #[trigger] draft[jj] == kept[j];
        assert(draft[jj].src is AtomOutput && draft[jj].dst == kept[i].dst);
        assert(shadowed(kept[i], draft));
    }
}

/// A node's children are folded four in the first atom and three in each later
/// one: with `c` atoms, `3 c - 1` to `3 c + 1` children, and no atom for one.
pub proof fn law_atoms_per_node(fanout: nat)
    requires
        fanout >= 1,
    ensures
        fanout == 1 <==> atom_count(fanout) == 0,
        fanout >= 2 ==> 3 * atom_count(fanout) - 1 <= fanout <= 3 * atom_count(fanout) + 1,
{
}

/// Atom `a` of a path: with `before` atoms in the nodes before its own, it is
/// fold step `a - before` of that node; the first takes up to four of the
/// node's children, every later one the step before and up to three more.
pub proof fn law_atom_takes_children(s: MhotHashSchedule, a: int)
    requires
        is_schedule(s),
        0 <= a < s.hash_atoms@.len(),
    ensures
        ({
            let atom = s.hash_atoms@[a];
            let f = s.fanouts@[atom.node as int] as int;
            let k = atom.fold_step as int;
            &&& atom.atom_id == a
            &&& atom.node < s.fanouts@.len()
            &&& a == atoms_before(s.fanouts@, atom.node as nat) + k
            &&& k < atom_count(f as nat)
            &&& k == 0 ==> atom.n_children == if f < 4 {
                f
            } else {
                4
            }
            &&& k > 0 ==> atom.n_children == 1 + if f - (3 * k + 1) < 3 {
                f - (3 * k + 1)
            } else {
                3
            }
        }),
{
    let fs = s.fanouts@;
    lemma_atoms_before_bound(fs, fs.len());
    lemma_atom_of_node(fs, fs.len(), a as nat);
    let node = node_of(fs, fs.len(), a as nat);
    lemma_leaves_before_mono(fs, node, fs.len());
    lemma_nodes_bound(fs, fs.len());
}

/// Where the digests of atom `3 q + r` stand: three atoms share 1024 places,
/// each its input and its output 16 places apart, and each slot of an input
/// takes two.
pub proof fn law_slot_places(q: nat, r: nat, child_slot: nat)
    requires
        r < 3,
    ensures
        output_slot(3 * q + r) == 1024 * q + 32 * r + 16,
        input_slot(3 * q + r, child_slot) == 1024 * q + 32 * r + 2 * child_slot,
{
    assert((3 * q + r) / 3 == q && (3 * q + r) % 3 == r);
}

/// The nodes before one account for all atoms and all leaves before it: each
/// for as many leaves as it has children, and for one atom per three children,
/// rounded so that one child needs none.
pub proof fn law_counts_before(fs: Seq<usize>, node: nat)
    requires
        node < fs.len(),
        fs[node as int] >= 1,
    ensures
        atoms_before(fs, 0) == 0,
        leaves_before(fs, 0) == 0,
        leaves_before(fs, node + 1) == leaves_before(fs, node) + fs[node as int],
        atoms_before(fs, node + 1) == atoms_before(fs, node) + (fs[node as int] as int - 1 + 2) / 3,
{
}

} // verus!
