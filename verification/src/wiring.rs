//! Where the wires of a path lead: every slot that an atom uses takes one wire.

use vstd::prelude::*;

use crate::schedule::{
    atom_count, atom_wires, atoms_before, cross_wire, cross_wires, draft_wires, driven,
    fanouts_valid, first_with_atoms, fold_wire, fresh, inner_wires, is_schedule, law_atoms_well_formed, law_one_public_root,
    leaf_wire, leaves_before, lemma_atom_of_node, lemma_atoms_before_bound, lemma_leaves_before_mono,
    lemma_unshadowed, node_of, node_wires, parent_of, root_wires, shadowed, unshadowed,
    MhotHashSchedule, Wire, WireEndpoint,
};
use crate::wide_glue::{
    is_leaf_wire, lemma_cross_wire_kind, lemma_first_with_atoms, lemma_node_order, lemma_parent_of, lemma_wire_kinds,
    lemma_wire_source,
};

verus! {

/// Whether a wire leads to slot `slot` of atom `a`.
pub open spec fn leads_to(w: Wire, a: nat, slot: nat) -> bool {
    w.dst matches WireEndpoint::AtomInput { atom_id, child_slot } && atom_id == a && child_slot
        == slot
}

/// Whether all wires lead to atoms from `lo` on and before `hi`, and no two
/// lead to the same slot.
spec fn apart(ws: Seq<Wire>, lo: nat, hi: nat) -> bool {
    &&& forall|p: int|
        0 <= p < ws.len() ==> ((#[trigger] ws[p]).dst matches WireEndpoint::AtomInput {
            atom_id,
            ..
        } && lo <= atom_id < hi)
    &&& forall|p: int, q: int|
        0 <= p < q < ws.len() ==> (#[trigger] ws[p]).dst != (#[trigger] ws[q]).dst
}

proof fn lemma_apart_joined(a: Seq<Wire>, b: Seq<Wire>, lo: nat, mid: nat, hi: nat)
    requires
        apart(a, lo, mid),
        apart(b, mid, hi),
        lo <= mid <= hi,
    ensures
        apart(a + b, lo, hi),
{
    let ws = a + b;
    assert forall|p: int, q: int| 0 <= p < q < ws.len() implies (#[trigger] ws[p]).dst != (
    #[trigger] ws[q]).dst by {
        if p < a.len() {
            assert(ws[p] == a[p]);
        } else {
            assert(ws[p] == b[p - a.len()]);
        }
        if q < a.len() {
            assert(ws[q] == a[q]);
        } else {
            assert(ws[q] == b[q - a.len()]);
        }
    }
}

proof fn lemma_node_wires_apart(fs: Seq<usize>, node: nat, k: nat)
    requires
        node < fs.len(),
        k <= atom_count(fs[node as int] as nat),
        atoms_before(fs, node) + k <= usize::MAX,
    ensures
        apart(node_wires(fs, node, k), atoms_before(fs, node), atoms_before(fs, node) + k),
    decreases k,
{
    if k > 0 {
        let m = (k - 1) as nat;
        let base = atoms_before(fs, node);
        lemma_node_wires_apart(fs, node, m);
        let ws = atom_wires(fs, node, m, fresh(fs[node as int] as nat, m));
        assert(apart(ws, base + m, base + k));
        lemma_apart_joined(node_wires(fs, node, m), ws, base, base + m, base + k);
    }
}

proof fn lemma_inner_wires_apart(fs: Seq<usize>, n: nat)
    requires
        n <= fs.len(),
        atoms_before(fs, n) <= usize::MAX,
    ensures
        apart(inner_wires(fs, n), 0, atoms_before(fs, n)),
    decreases n,
{
    if n > 0 {
        let m = (n - 1) as nat;
        let count = atom_count(fs[m as int] as nat);
        lemma_inner_wires_apart(fs, m);
        lemma_node_wires_apart(fs, m, count);
        lemma_apart_joined(
            inner_wires(fs, m),
            node_wires(fs, m, count),
            0,
            atoms_before(fs, m),
            atoms_before(fs, n),
        );
    }
}

/// The wires between the first `n` nodes lead to the first atoms of nodes that
/// come before the last of these with atoms.
proof fn lemma_cross_wires_apart(fs: Seq<usize>, n: nat)
    requires
        n <= fs.len(),
        atoms_before(fs, fs.len()) <= usize::MAX,
    ensures
        apart(
            cross_wires(fs, n),
            0,
            match parent_of(fs, n) {
                Some(p) => atoms_before(fs, p),
                None => 0,
            },
        ),
    decreases n,
{
    if n > 0 {
        let m = (n - 1) as nat;
        lemma_cross_wires_apart(fs, m);
        lemma_parent_of(fs, m);
        lemma_node_order(fs, m, fs.len());
        if atom_count(fs[m as int] as nat) > 0 {
            assert(parent_of(fs, n) == Some(m));
            if let Some(p) = parent_of(fs, m) {
                lemma_node_order(fs, p, m);
                lemma_apart_joined(
                    cross_wires(fs, m),
                    cross_wire(fs, m),
                    0,
                    atoms_before(fs, p),
                    atoms_before(fs, m),
                );
            } else {
                assert(cross_wires(fs, n) =~= cross_wires(fs, m));
            }
        } else {
            assert(cross_wires(fs, n) =~= cross_wires(fs, m));
        }
    }
}

/// Of two draft wires to one slot, the first comes from outside and is
/// shadowed.
proof fn lemma_draft_wires_apart(fs: Seq<usize>, p: int, q: int)
    requires
        fanouts_valid(fs),
        0 <= p < q < draft_wires(fs).len(),
        draft_wires(fs)[p].dst == draft_wires(fs)[q].dst,
    ensures
        shadowed(draft_wires(fs)[p], draft_wires(fs)),
{
    let n = fs.len();
    let inner = inner_wires(fs, n);
    let cross = cross_wires(fs, n);
    let draft = draft_wires(fs);
    lemma_atoms_before_bound(fs, n);
    lemma_inner_wires_apart(fs, n);
    lemma_cross_wires_apart(fs, n);
    if p >= inner.len() {
        assert(draft[p] == cross[p - inner.len()] && draft[q] == cross[q - inner.len()]);
    } else if q < inner.len() {
        assert(draft[p] == inner[p] && draft[q] == inner[q]);
    } else {
        let (w, c) = (inner[p], cross[q - inner.len()]);
        assert(draft[p] == w && draft[q] == c);
        lemma_cross_wire_kind(fs, n, q - inner.len());
        let m = choose|m: nat| m < n && #[trigger] cross_wire(fs, m).contains(c);
        let parent = parent_of(fs, m)->0;
        lemma_parent_of(fs, m);
        lemma_node_order(fs, parent, n);
        lemma_inner_wire_place(fs, n, p);
        let (node, k) = choose|node: nat, k: nat|
            node < n && k < atom_count(fs[node as int] as nat) && #[trigger] atom_wires(
                fs,
                node,
                k,
                fresh(fs[node as int] as nat, k),
            ).contains(w);
        lemma_node_order(fs, node, n);
        lemma_node_order(fs, node, parent);
        assert(node == parent && k == 0);
        assert(w.src is LeafDigest);
        assert(driven(draft, atoms_before(fs, parent) as usize, 0));
    }
}

/// Every wire within nodes is one of an atom's.
proof fn lemma_inner_wire_place(fs: Seq<usize>, n: nat, i: int)
    requires
        n <= fs.len(),
        0 <= i < inner_wires(fs, n).len(),
    ensures
        exists|node: nat, k: nat|
            node < n && k < atom_count(fs[node as int] as nat) && #[trigger] atom_wires(
                fs,
                node,
                k,
                fresh(fs[node as int] as nat, k),
            ).contains(inner_wires(fs, n)[i]),
    decreases n,
{
    let m = (n - 1) as nat;
    let below = inner_wires(fs, m);
    if i < below.len() {
        lemma_inner_wire_place(fs, m, i);
        assert(inner_wires(fs, n)[i] == below[i]);
    } else {
        let count = atom_count(fs[m as int] as nat);
        lemma_node_wire_place(fs, m, count, i - below.len());
        assert(inner_wires(fs, n)[i] == node_wires(fs, m, count)[i - below.len()]);
    }
}

proof fn lemma_node_wire_place(fs: Seq<usize>, node: nat, k: nat, i: int)
    requires
        0 <= i < node_wires(fs, node, k).len(),
    ensures
        exists|l: nat|
            l < k && #[trigger] atom_wires(fs, node, l, fresh(fs[node as int] as nat, l)).contains(
                node_wires(fs, node, k)[i],
            ),
    decreases k,
{
    let m = (k - 1) as nat;
    let below = node_wires(fs, node, m);
    let ws = atom_wires(fs, node, m, fresh(fs[node as int] as nat, m));
    if i < below.len() {
        lemma_node_wire_place(fs, node, m, i);
        let l = choose|l: nat|
            l < m && #[trigger] atom_wires(fs, node, l, fresh(fs[node as int] as nat, l)).contains(
                below[i],
            );
        assert(l < k);
        assert(atom_wires(fs, node, l, fresh(fs[node as int] as nat, l)).contains(
            node_wires(fs, node, k)[i],
        ));
    } else {
        assert(ws[i - below.len()] == node_wires(fs, node, k)[i]);
        assert(ws.contains(node_wires(fs, node, k)[i]));
    }
}

/// The wires of every atom are among those within nodes.
proof fn lemma_atom_wires_inner(fs: Seq<usize>, n: nat, node: nat, k: nat, i: int)
    requires
        node < n <= fs.len(),
        k < atom_count(fs[node as int] as nat),
        0 <= i < atom_wires(fs, node, k, fresh(fs[node as int] as nat, k)).len(),
    ensures
        inner_wires(fs, n).contains(
            atom_wires(fs, node, k, fresh(fs[node as int] as nat, k))[i],
        ),
    decreases n,
{
    let m = (n - 1) as nat;
    let below = inner_wires(fs, m);
    let w = atom_wires(fs, node, k, fresh(fs[node as int] as nat, k))[i];
    if node < m {
        lemma_atom_wires_inner(fs, m, node, k, i);
        let at = choose|at: int| 0 <= at < below.len() && below[at] == w;
        assert(inner_wires(fs, n)[at] == w);
    } else {
        let count = atom_count(fs[node as int] as nat);
        lemma_atom_wires_of_node(fs, node, count, k, i);
        let ws = node_wires(fs, node, count);
        let at = choose|at: int| 0 <= at < ws.len() && ws[at] == w;
        assert(inner_wires(fs, n)[below.len() + at] == w);
    }
}

proof fn lemma_atom_wires_of_node(fs: Seq<usize>, node: nat, n: nat, k: nat, i: int)
    requires
        k < n,
        0 <= i < atom_wires(fs, node, k, fresh(fs[node as int] as nat, k)).len(),
    ensures
        node_wires(fs, node, n).contains(
            atom_wires(fs, node, k, fresh(fs[node as int] as nat, k))[i],
        ),
    decreases n,
{
    let m = (n - 1) as nat;
    let below = node_wires(fs, node, m);
    let w = atom_wires(fs, node, k, fresh(fs[node as int] as nat, k))[i];
    if k < m {
        lemma_atom_wires_of_node(fs, node, m, k, i);
        let at = choose|at: int| 0 <= at < below.len() && below[at] == w;
        assert(node_wires(fs, node, n)[at] == w);
    } else {
        assert(node_wires(fs, node, n)[below.len() + i] == w);
    }
}

/// Two wires that are kept were there before, in the same order.
proof fn lemma_kept_in_order(ws: Seq<Wire>, n: nat, i: int, j: int)
    requires
        n <= ws.len(),
        0 <= i < j < unshadowed(ws, n).len(),
    ensures
        exists|p: int, q: int|
            0 <= p < q < n && #[trigger] ws[p] == unshadowed(ws, n)[i] && #[trigger] ws[q]
                == unshadowed(ws, n)[j] && !shadowed(ws[p], ws),
    decreases n,
{
    let m = (n - 1) as nat;
    let rest = unshadowed(ws, m);
    if j < rest.len() {
        lemma_kept_in_order(ws, m, i, j);
        let (p, q) = choose|p: int, q: int|
            0 <= p < q < m && #[trigger] ws[p] == rest[i] && #[trigger] ws[q] == rest[j]
                && !shadowed(ws[p], ws);
        assert(0 <= p < q < n);
    } else {
        lemma_unshadowed(ws, m);
        assert(rest.contains(rest[i]));
        let p = choose|p: int|
            0 <= p < m && #[trigger] ws[p] == rest[i] && !shadowed(rest[i], ws);
        assert(ws[m as int] == unshadowed(ws, n)[j]);
        assert(0 <= p < m < n);
    }
}

/// A wire of the draft that is not shadowed is a wire of the path.
proof fn lemma_draft_wire_kept(s: MhotHashSchedule, p: int)
    requires
        is_schedule(s),
        0 <= p < draft_wires(s.fanouts@).len(),
        !shadowed(draft_wires(s.fanouts@)[p], draft_wires(s.fanouts@)),
    ensures
        s.wires@.contains(draft_wires(s.fanouts@)[p]),
{
    let draft = draft_wires(s.fanouts@);
    let kept = unshadowed(draft, draft.len());
    lemma_unshadowed(draft, draft.len());
    assert(kept.contains(draft[p]));
    let i = choose|i: int| 0 <= i < kept.len() && kept[i] == draft[p];
    assert(s.wires@[i] == draft[p]);
}

/// No two wires lead to the same slot.
pub proof fn law_no_slot_takes_two_wires(s: MhotHashSchedule, i: int, j: int)
    requires
        is_schedule(s),
        0 <= i < s.wires@.len(),
        0 <= j < s.wires@.len(),
        s.wires@[i].dst == s.wires@[j].dst,
    ensures
        i == j,
{
    if i < j {
        lemma_wires_ordered_apart(s, i, j);
    } else if j < i {
        lemma_wires_ordered_apart(s, j, i);
    }
}

proof fn lemma_wires_ordered_apart(s: MhotHashSchedule, i: int, j: int)
    requires
        is_schedule(s),
        0 <= i < j < s.wires@.len(),
    ensures
        s.wires@[i].dst != s.wires@[j].dst,
{
    let fs = s.fanouts@;
    let draft = draft_wires(fs);
    let kept = unshadowed(draft, draft.len());
    assert(fs.len() > 0) by {
        if fs.len() == 0 {
            assert(draft.len() == 0);
        }
    }
    law_one_public_root(s);
    if s.wires@[i].dst == s.wires@[j].dst {
        assert(j < s.wires@.len() - 1);
        assert(root_wires(fs).len() == 1);
        assert(s.wires@[i] == kept[i] && s.wires@[j] == kept[j]);
        lemma_kept_in_order(draft, draft.len(), i, j);
        let (p, q) = choose|p: int, q: int|
            0 <= p < q < draft.len() && #[trigger] draft[p] == kept[i] && #[trigger] draft[q]
                == kept[j] && !shadowed(draft[p], draft);
        lemma_draft_wires_apart(fs, p, q);
    }
}

/// A wire leads to the public root, or to a slot that an atom uses.
pub proof fn law_wires_lead_to_used_slots(s: MhotHashSchedule, i: int)
    requires
        is_schedule(s),
        0 <= i < s.wires@.len(),
    ensures
        match s.wires@[i].dst {
            WireEndpoint::AtomInput { atom_id, child_slot } => atom_id < s.hash_atoms@.len()
                && child_slot < s.hash_atoms@[atom_id as int].n_children,
            WireEndpoint::PublicRoot => true,
            _ => false,
        },
{
    let fs = s.fanouts@;
    let n = fs.len();
    let w = s.wires@[i];
    lemma_wire_kinds(s, i);
    lemma_wire_source(s, i);
    lemma_atoms_before_bound(fs, n);
    if let WireEndpoint::AtomInput { atom_id, child_slot } = w.dst {
        let a = atom_id as nat;
        lemma_atom_of_node(fs, n, a);
        let node = node_of(fs, n, a);
        let k = (a - atoms_before(fs, node)) as nat;
        law_atoms_well_formed(s, a as int);
        if is_leaf_wire(fs, w) {
            let (m, l, j) = choose|m: nat, l: nat, j: nat|
                m < n && l < atom_count(fs[m as int] as nat) && j < fresh(fs[m as int] as nat, l)
                    && w == #[trigger] leaf_wire(fs, m, l, j);
            lemma_node_order(fs, m, n);
            lemma_node_order(fs, m, node);
            assert(m == node && l == k);
            lemma_leaves_before_mono(fs, node + 1, n);
        }
    }
}

/// Every slot that an atom uses takes a wire, and only one.
pub proof fn law_one_wire_per_slot(s: MhotHashSchedule, a: nat, slot: nat)
    requires
        is_schedule(s),
        a < s.hash_atoms@.len(),
        slot < s.hash_atoms@[a as int].n_children,
    ensures
        exists|i: int| 0 <= i < s.wires@.len() && leads_to(#[trigger] s.wires@[i], a, slot),
        forall|i: int, j: int|
            0 <= i < s.wires@.len() && 0 <= j < s.wires@.len() && leads_to(
                #[trigger] s.wires@[i],
                a,
                slot,
            ) && leads_to(#[trigger] s.wires@[j], a, slot) ==> i == j,
{
    let fs = s.fanouts@;
    let n = fs.len();
    lemma_atoms_before_bound(fs, n);
    lemma_atom_of_node(fs, n, a);
    law_atoms_well_formed(s, a as int);
    let node = node_of(fs, n, a);
    let k = (a - atoms_before(fs, node)) as nat;
    lemma_leaves_before_mono(fs, node + 1, n);
    let ws = atom_wires(fs, node, k, fresh(fs[node as int] as nat, k));
    let w = ws[slot as int];
    assert(leads_to(w, a, slot));
    lemma_atom_wires_inner(fs, n, node, k, slot as int);
    let inner = inner_wires(fs, n);
    let draft = draft_wires(fs);
    let p = choose|p: int| 0 <= p < inner.len() && inner[p] == w;
    assert(draft[p] == w);
    let q: int = if shadowed(w, draft) {
        choose|q: int|
            0 <= q < draft.len() && (#[trigger] draft[q]).src is AtomOutput && draft[q].dst == (
            WireEndpoint::AtomInput { atom_id: a as usize, child_slot: slot as usize })
    } else {
        p
    };
    lemma_draft_wire_kept(s, q);
    let i = choose|i: int| 0 <= i < s.wires@.len() && s.wires@[i] == draft[q];
    assert(leads_to(s.wires@[i], a, slot));
    assert forall|i: int, j: int|
        0 <= i < s.wires@.len() && 0 <= j < s.wires@.len() && leads_to(
            #[trigger] s.wires@[i],
            a,
            slot,
        ) && leads_to(#[trigger] s.wires@[j], a, slot) implies i == j by {
        law_no_slot_takes_two_wires(s, i, j);
    }
}

proof fn lemma_cross_wire_kept(fs: Seq<usize>, n: nat, m: nat)
    requires
        m < n <= fs.len(),
        cross_wire(fs, m).len() > 0,
    ensures
        cross_wires(fs, n).contains(cross_wire(fs, m)[0]),
    decreases n,
{
    let l = (n - 1) as nat;
    let below = cross_wires(fs, l);
    if m < l {
        lemma_cross_wire_kept(fs, l, m);
        let at = choose|at: int| 0 <= at < below.len() && below[at] == cross_wire(fs, m)[0];
        assert(cross_wires(fs, n)[at] == cross_wire(fs, m)[0]);
    } else {
        assert(cross_wires(fs, n)[below.len() as int] == cross_wire(fs, m)[0]);
    }
}

/// Where a slot's digest comes from. Slot 0 of a later atom takes the output of
/// the atom before it. Slot 0 of a node's first atom takes the output of the
/// last atom of the next node that has atoms, if one follows. Every other slot
/// takes one of the node's own children: slot `j` of fold step `k` takes child
/// `3 k + j`.
#[verifier::rlimit(40)]
pub proof fn law_slot_source(s: MhotHashSchedule, i: int, node: nat, k: nat, slot: nat, next: nat)
    requires
        is_schedule(s),
        0 <= i < s.wires@.len(),
        node < s.fanouts@.len(),
        k < atom_count(s.fanouts@[node as int] as nat),
        leads_to(s.wires@[i], atoms_before(s.fanouts@, node) + k, slot),
        node < next <= s.fanouts@.len(),
        forall|m: int| node < m < next ==> (#[trigger] s.fanouts@[m]) < 2,
        next < s.fanouts@.len() ==> s.fanouts@[next as int] >= 2,
    ensures
        s.wires@[i].src == if k > 0 && slot == 0 {
            WireEndpoint::AtomOutput {
                atom_id: (atoms_before(s.fanouts@, node) + k - 1) as usize,
            }
        } else if k == 0 && slot == 0 && next < s.fanouts@.len() {
            WireEndpoint::AtomOutput { atom_id: (atoms_before(s.fanouts@, next + 1) - 1) as usize }
        } else {
            WireEndpoint::LeafDigest {
                leaf_index: (leaves_before(s.fanouts@, node) + 3 * k + slot) as usize,
            }
        },
{
    let fs = s.fanouts@;
    let n = fs.len();
    let w = s.wires@[i];
    let a = atoms_before(fs, node) + k;
    lemma_wire_source(s, i);
    lemma_wire_kinds(s, i);
    lemma_atoms_before_bound(fs, n);
    lemma_node_order(fs, node, n);
    let draft = draft_wires(fs);
    if is_leaf_wire(fs, w) {
        let (m, l, j) = choose|m: nat, l: nat, j: nat|
            m < n && l < atom_count(fs[m as int] as nat) && j < fresh(fs[m as int] as nat, l) && w
                == #[trigger] leaf_wire(fs, m, l, j);
        lemma_node_order(fs, m, n);
        lemma_node_order(fs, m, node);
        assert(m == node && l == k);
        lemma_leaves_before_mono(fs, node + 1, n);
        if k == 0 && slot == 0 && next < n {
            lemma_next_parent(fs, node, next);
            lemma_cross_wire_kept(fs, n, next);
            let c = cross_wire(fs, next)[0];
            let cross = cross_wires(fs, n);
            let at = choose|at: int| 0 <= at < cross.len() && cross[at] == c;
            assert(draft[inner_wires(fs, n).len() + at] == c);
            assert(driven(draft, a as usize, 0));
            assert(shadowed(w, draft));
        }
    } else if exists|m: nat| m < n && #[trigger] cross_wire(fs, m).contains(w) {
        let m = choose|m: nat| m < n && #[trigger] cross_wire(fs, m).contains(w);
        lemma_parent_of(fs, m);
        let p = parent_of(fs, m)->0;
        lemma_node_order(fs, p, node);
        lemma_node_order(fs, p, n);
        assert(p == node && k == 0 && slot == 0);
        if m < next {
            assert(fs[m as int] < 2);
        } else if next < m {
            assert(atom_count(fs[next as int] as nat) == 0);
        }
        assert(m == next);
    } else if w.src is AtomOutput && w.dst is AtomInput {
        let (m, l) = choose|m: nat, l: nat|
            m < n && 0 < l < atom_count(fs[m as int] as nat) && w == #[trigger] fold_wire(fs, m, l);
        lemma_node_order(fs, m, n);
        lemma_node_order(fs, m, node);
        assert(m == node && l == k);
    }
}

proof fn lemma_next_parent(fs: Seq<usize>, node: nat, next: nat)
    requires
        node < next < fs.len(),
        atom_count(fs[node as int] as nat) > 0,
        fs[next as int] >= 2,
        forall|m: int| node < m < next ==> (#[trigger] fs[m]) < 2,
    ensures
        parent_of(fs, next) == Some(node),
        cross_wire(fs, next).len() > 0,
{
    lemma_parent_of(fs, next);
    match parent_of(fs, next) {
        Some(p) => {
            if p < node {
                assert(atom_count(fs[node as int] as nat) == 0);
            } else if node < p {
                assert(fs[p as int] < 2);
            }
        },
        None => {
            assert(atom_count(fs[node as int] as nat) == 0);
        },
    }
}

/// The public root takes the output of the last atom of the first node with two
/// children or more; where there is no such node, the first leaf.
pub proof fn law_root_source(s: MhotHashSchedule, top: nat)
    requires
        is_schedule(s),
        s.fanouts@.len() > 0,
        top <= s.fanouts@.len(),
        forall|m: int| 0 <= m < top ==> (#[trigger] s.fanouts@[m]) < 2,
        top < s.fanouts@.len() ==> s.fanouts@[top as int] >= 2,
    ensures
        s.wires@.last().dst is PublicRoot,
        s.wires@.last().src == if top < s.fanouts@.len() {
            WireEndpoint::AtomOutput { atom_id: (atoms_before(s.fanouts@, top + 1) - 1) as usize }
        } else {
            WireEndpoint::LeafDigest { leaf_index: 0 }
        },
{
    let fs = s.fanouts@;
    lemma_first_with_atoms(fs, 0);
    match first_with_atoms(fs, 0) {
        Some(p) => {
            if p < top {
                assert(fs[p as int] < 2);
            } else if top < p {
                assert(atom_count(fs[top as int] as nat) == 0);
            }
        },
        None => {
            if top < fs.len() {
                assert(atom_count(fs[top as int] as nat) == 0);
            }
        },
    }
    assert(root_wires(fs).len() == 1);
    assert(s.wires@.last() == root_wires(fs)[0]);
}

} // verus!
