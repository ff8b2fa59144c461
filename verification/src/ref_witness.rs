//! A reference run of a schedule: the input state of every atom, and the root
//! that the atoms fold to.

use vstd::prelude::*;

use crate::bits::byte_bit;
use crate::bytes::{le64, u64_le};
use crate::keccak::{keccak_f, law_permute_is_injective, permute, State};
use crate::schedule::{
    first_slot, fresh, leaves_before, lemma_leaves_before_mono, taken, KeccakAtom,
    MhotHashSchedule, Wire, WireEndpoint,
};

verus! {

/// A digest of 256 bits.
pub type Digest = [u8; 32];

/// The input states of all atoms, and the root that they fold to.
pub struct RefWitness {
    /// The 200-byte input state of each atom, by atom number.
    pub atom_states: Vec<[u8; 200]>,
    pub expected_root: Digest,
}

/// The bits of a state of 200 bytes: byte `8 lane + z / 8` holds bit `z` of
/// its lane at bit `z % 8`.
pub open spec fn state_bits(bytes: Seq<u8>) -> Seq<bool> {
    Seq::new(1600, |i: int| byte_bit(bytes[i % 25 * 8 + i / 25 / 8], i / 25 % 8))
}

/// Bit `t` of byte `k`, in its place.
pub open spec fn placed_bit(bits: Seq<bool>, k: int, t: int) -> u8 {
    if bits[k / 8 + 25 * (k % 8 * 8 + t)] {
        1u8 << (t as u8)
    } else {
        0
    }
}

/// Byte `k` of the state whose bits are `bits`.
pub open spec fn state_byte(bits: Seq<bool>, k: int) -> u8 {
    placed_bit(bits, k, 0) | placed_bit(bits, k, 1) | placed_bit(bits, k, 2) | placed_bit(
        bits,
        k,
        3,
    ) | placed_bit(bits, k, 4) | placed_bit(bits, k, 5) | placed_bit(bits, k, 6) | placed_bit(
        bits,
        k,
        7,
    )
}

/// The 200 bytes of the state whose bits are `bits`.
pub open spec fn state_bytes(bits: Seq<bool>) -> Seq<u8> {
    Seq::new(200, |k: int| state_byte(bits, k))
}

/// The digest of a state: the first 32 bytes of the permuted state.
#[verifier::opaque]
pub open spec fn keccak_digest(state: Seq<u8>) -> Seq<u8> {
    state_bytes(permute(state_bits(state))).take(32)
}

/// The state that folds `inputs`: the digests one after another, and the
/// padding of a message of four digests.
pub open spec fn padded_state(inputs: Seq<Seq<u8>>) -> Seq<u8> {
    Seq::new(
        200,
        |i: int|
            if i < 32 * inputs.len() {
                inputs[i / 32][i % 32]
            } else if i == 128 {
                0x01u8
            } else if i == 135 {
                0x80u8
            } else {
                0u8
            },
    )
}

pub open spec fn splitmix_next(state: u64) -> u64 {
    state.wrapping_add(0x9E37_79B9_7F4A_7C15)
}

pub open spec fn splitmix_output(s: u64) -> u64 {
    let y = (s ^ (s >> 30)).wrapping_mul(0xBF58_476D_1CE4_E5B9);
    let z = (y ^ (y >> 27)).wrapping_mul(0x94D0_49BB_1331_11EB);
    z ^ (z >> 31)
}

/// The digest that stands for leaf `leaf_index` under `seed`: four outputs of
/// a SplitMix64 generator.
#[verifier::opaque]
pub open spec fn seeded_leaf(seed: u64, leaf_index: usize) -> Seq<u8> {
    let s0 = seed ^ (leaf_index as u64).wrapping_mul(0x9E37_79B9_7F4A_7C15);
    let s1 = splitmix_next(s0);
    let s2 = splitmix_next(s1);
    let s3 = splitmix_next(s2);
    let s4 = splitmix_next(s3);
    le64(splitmix_output(s1)) + le64(splitmix_output(s2)) + le64(splitmix_output(s3)) + le64(
        splitmix_output(s4),
    )
}

/// Digests have 32 bytes.
pub proof fn lemma_digest_len(state: Seq<u8>, seed: u64, leaf_index: usize)
    ensures
        keccak_digest(state).len() == 32,
        seeded_leaf(seed, leaf_index).len() == 32,
{
    reveal(keccak_digest);
    reveal(seeded_leaf);
}

/// What a node's children fold to after `j` of its atoms: each atom takes in
/// the digest before it and the next children.
pub open spec fn fold_out(children: Seq<Seq<u8>>, j: nat) -> Seq<u8>
    decreases j, 0nat,
{
    if j == 0 {
        Seq::empty()
    } else {
        keccak_digest(fold_in(children, (j - 1) as nat))
    }
}

/// The digests that atom `j` of a node takes in.
pub open spec fn fold_inputs(children: Seq<Seq<u8>>, j: nat) -> Seq<Seq<u8>>
    decreases j, 1nat,
{
    (if j == 0 {
        Seq::empty()
    } else {
        seq![fold_out(children, j)]
    }) + children.subrange(taken(children.len(), j) as int, taken(children.len(), j + 1) as int)
}

/// The input state of atom `j` of a node.
pub open spec fn fold_in(children: Seq<Seq<u8>>, j: nat) -> Seq<u8>
    decreases j, 2nat,
{
    padded_state(fold_inputs(children, j))
}

/// `s` with atom `a` put behind all atoms of the same fold step or less.
pub open spec fn insert_by_step(atoms: Seq<KeccakAtom>, s: Seq<nat>, a: nat) -> Seq<nat>
    decreases s.len(),
{
    if s.len() == 0 || atoms[s.last() as int].fold_step <= atoms[a as int].fold_step {
        s.push(a)
    } else {
        insert_by_step(atoms, s.drop_last(), a).push(s.last())
    }
}

/// The atoms of `node` among the first `n`, by fold step.
pub open spec fn atoms_of_node(atoms: Seq<KeccakAtom>, node: nat, n: nat) -> Seq<nat>
    decreases n,
{
    if n == 0 {
        Seq::empty()
    } else {
        let s = atoms_of_node(atoms, node, (n - 1) as nat);
        if atoms[n - 1].node == node {
            insert_by_step(atoms, s, (n - 1) as nat)
        } else {
            s
        }
    }
}

/// The atoms of `node`, by fold step.
pub open spec fn node_list(s: MhotHashSchedule, node: nat) -> Seq<nat> {
    atoms_of_node(s.hash_atoms@, node, s.hash_atoms@.len())
}

/// The children of `node`: leaves, but for the first one where a node below
/// has come to a digest.
pub open spec fn node_children(
    s: MhotHashSchedule,
    seed: u64,
    node: nat,
    below: Option<Seq<u8>>,
) -> Seq<Seq<u8>> {
    Seq::new(
        s.fanouts@[node as int] as nat,
        |i: int|
            if i == 0 && below is Some {
                below->0
            } else {
                seeded_leaf(seed, (leaves_before(s.fanouts@, node) + i) as usize)
            },
    )
}

/// The digest that `node` comes to, on top of all nodes below it.
pub open spec fn node_digest(s: MhotHashSchedule, seed: u64, node: nat) -> Option<Seq<u8>>
    decreases s.fanouts@.len() - node,
{
    if node >= s.fanouts@.len() {
        None
    } else {
        let children = node_children(s, seed, node, node_digest(s, seed, node + 1));
        let n_atoms = node_list(s, node).len();
        if n_atoms > 0 {
            Some(fold_out(children, n_atoms))
        } else if children.len() > 0 {
            Some(children[0])
        } else {
            None
        }
    }
}

/// The children of `node` on top of all nodes below it.
pub open spec fn final_children(s: MhotHashSchedule, seed: u64, node: nat) -> Seq<Seq<u8>> {
    node_children(s, seed, node, node_digest(s, seed, node + 1))
}

/// Atoms are numbered in order, and each belongs to a node of the path.
pub open spec fn atoms_indexed(s: MhotHashSchedule) -> bool {
    forall|i: int|
        #![trigger s.hash_atoms@[i]]
        0 <= i < s.hash_atoms@.len() ==> s.hash_atoms@[i].atom_id == i && s.hash_atoms@[i].node
            < s.fanouts@.len()
}

/// What a schedule must satisfy to be run: the atoms of a node take in all
/// that the fold gives them, and a node with atoms has children.
pub open spec fn runnable(s: MhotHashSchedule) -> bool {
    &&& atoms_indexed(s)
    &&& leaves_before(s.fanouts@, s.fanouts@.len()) <= usize::MAX
    &&& forall|node: int, j: int|
        #![trigger node_list(s, node as nat)[j]]
        0 <= node < s.fanouts@.len() && 0 <= j < node_list(s, node as nat).len() ==> {
            let f = s.fanouts@[node] as nat;
            f >= 1 && s.hash_atoms@[node_list(s, node as nat)[j] as int].n_children == first_slot(
                j as nat,
            ) + fresh(f, j as nat)
        }
}

/// Whether `w` is the reference run of `s` under `seed`.
pub open spec fn is_ref_witness(w: RefWitness, s: MhotHashSchedule, seed: u64) -> bool {
    &&& w.atom_states@.len() == s.hash_atoms@.len()
    &&& forall|node: int, j: int|
        #![trigger node_list(s, node as nat)[j]]
        0 <= node < s.fanouts@.len() && 0 <= j < node_list(s, node as nat).len()
            ==> w.atom_states@[node_list(s, node as nat)[j] as int]@ == fold_in(
            final_children(s, seed, node as nat),
            j as nat,
        )
    &&& w.expected_root@ == match node_digest(s, seed, 0) {
        Some(d) => d,
        None => Seq::new(32, |i: int| 0u8),
    }
}

/// The digest that stands for leaf `leaf_index` under `seed`.
pub fn leaf_digest(seed: u64, leaf_index: usize) -> (d: Digest)
    ensures
        d@ == seeded_leaf(seed, leaf_index),
{
    let mut state: u64 = seed ^ (leaf_index as u64).wrapping_mul(0x9E37_79B9_7F4A_7C15);
    let a = u64_le(splitmix64(&mut state));
    let b = u64_le(splitmix64(&mut state));
    let c = u64_le(splitmix64(&mut state));
    let e = u64_le(splitmix64(&mut state));
    let d = [
        a[0], a[1], a[2], a[3], a[4], a[5], a[6], a[7],
        b[0], b[1], b[2], b[3], b[4], b[5], b[6], b[7],
        c[0], c[1], c[2], c[3], c[4], c[5], c[6], c[7],
        e[0], e[1], e[2], e[3], e[4], e[5], e[6], e[7],
    ];
    reveal(seeded_leaf);
    assert(d@ =~= a@ + b@ + c@ + e@);
    d
}

fn splitmix64(state: &mut u64) -> (r: u64)
    ensures
        *final(state) == splitmix_next(*old(state)),
        r == splitmix_output(*final(state)),
{
    *state = state.wrapping_add(0x9E37_79B9_7F4A_7C15);
    let s: u64 = *state;
    let y: u64 = (s ^ (s >> 30)).wrapping_mul(0xBF58_476D_1CE4_E5B9);
    let z: u64 = (y ^ (y >> 27)).wrapping_mul(0x94D0_49BB_1331_11EB);
    z ^ (z >> 31)
}

/// The bits of a state of 200 bytes.
pub fn bytes_to_logical_state(bytes: &[u8; 200]) -> (state: State)
    ensures
        state@ == state_bits(bytes@),
{
    let mut state: State = [false; 1600];
    for i in 0..1600usize
        invariant
            forall|j: int| 0 <= j < i ==> state@[j] == state_bits(bytes@)[j],
    {
        let z: usize = i / 25;
        let t: u8 = (z % 8) as u8;
        state[i] = (bytes[i % 25 * 8 + z / 8] >> t) & 1 == 1;
    }
    assert(state@ =~= state_bits(bytes@));
    state
}

fn place_bit(state: &State, k: usize, t: usize) -> (b: u8)
    requires
        k < 200,
        t < 8,
    ensures
        b == placed_bit(state@, k as int, t as int),
{
    if state[k / 8 + 25 * (k % 8 * 8 + t)] {
        1u8 << (t as u8)
    } else {
        0
    }
}

/// The 200 bytes of a state.
pub fn logical_state_to_bytes(state: &State) -> (bytes: [u8; 200])
    ensures
        bytes@ == state_bytes(state@),
{
    let mut bytes = [0u8; 200];
    for k in 0..200usize
        invariant
            forall|j: int| 0 <= j < k ==> bytes@[j] == state_byte(state@, j),
    {
        bytes[k] = place_bit(state, k, 0) | place_bit(state, k, 1) | place_bit(state, k, 2)
            | place_bit(state, k, 3) | place_bit(state, k, 4) | place_bit(state, k, 5) | place_bit(
            state,
            k,
            6,
        ) | place_bit(state, k, 7);
    }
    assert(bytes@ =~= state_bytes(state@));
    bytes
}

/// The digest of a state.
pub fn keccak_f_digest(state: &[u8; 200]) -> (d: Digest)
    ensures
        d@ == keccak_digest(state@),
{
    let mut logical = bytes_to_logical_state(state);
    keccak_f(&mut logical);
    let bytes = logical_state_to_bytes(&logical);
    let mut d = [0u8; 32];
    for i in 0..32usize
        invariant
            forall|j: int| 0 <= j < i ==> d@[j] == bytes@[j],
    {
        d[i] = bytes[i];
    }
    reveal(keccak_digest);
    assert(d@ =~= bytes@.take(32));
    d
}

/// The digests of a list, as byte sequences.
pub open spec fn digest_views(ds: Seq<Digest>) -> Seq<Seq<u8>> {
    ds.map_values(|d: Digest| d@)
}

/// The state that folds `inputs`.
fn fold_state(inputs: &Vec<Digest>) -> (state: [u8; 200])
    requires
        1 <= inputs@.len() <= 4,
    ensures
        state@ == padded_state(digest_views(inputs@)),
{
    let mut state = [0u8; 200];
    let n: usize = inputs.len();
    for i in 0..200usize
        invariant
            n == inputs@.len() <= 4,
            forall|j: int| 0 <= j < i ==> state@[j] == padded_state(digest_views(inputs@))[j],
            forall|j: int| i <= j < 200 ==> state@[j] == 0,
    {
        if i < 32 * n {
            state[i] = inputs[i / 32][i % 32];
        } else if i == 128 {
            state[i] = 0x01;
        } else if i == 135 {
            state[i] = 0x80;
        }
    }
    assert(state@ =~= padded_state(digest_views(inputs@)));
    state
}

/// What the atoms of a node are, as numbers of a list.
pub open spec fn as_indices(s: Seq<usize>) -> Seq<nat> {
    s.map_values(|x: usize| x as nat)
}

proof fn lemma_insert_by_step(atoms: Seq<KeccakAtom>, s: Seq<nat>, a: nat)
    ensures
        insert_by_step(atoms, s, a).len() == s.len() + 1,
        forall|i: int|
            0 <= i < insert_by_step(atoms, s, a).len() ==> s.contains(
                #[trigger] insert_by_step(atoms, s, a)[i],
            ) || insert_by_step(atoms, s, a)[i] == a,
    decreases s.len(),
{
    let r = insert_by_step(atoms, s, a);
    if !(s.len() == 0 || atoms[s.last() as int].fold_step <= atoms[a as int].fold_step) {
        let front = s.drop_last();
        lemma_insert_by_step(atoms, front, a);
        assert forall|i: int| 0 <= i < r.len() implies s.contains(#[trigger] r[i]) || r[i] == a by {
            let t = insert_by_step(atoms, front, a);
            if i < t.len() {
                if front.contains(t[i]) {
                    let k = choose|k: int| 0 <= k < front.len() && front[k] == t[i];
                    assert(s[k] == t[i]);
                }
            } else {
                assert(s[s.len() - 1] == r[i]);
            }
        }
    } else {
        assert forall|i: int| 0 <= i < r.len() implies s.contains(#[trigger] r[i]) || r[i] == a by {
            if i < s.len() {
                assert(s[i] == r[i]);
            }
        }
    }
}

/// The atoms of a node are among the first `n`, and belong to it.
pub proof fn lemma_atoms_of_node(atoms: Seq<KeccakAtom>, node: nat, n: nat)
    requires
        n <= atoms.len(),
    ensures
        forall|i: int|
            #![trigger atoms_of_node(atoms, node, n)[i]]
            0 <= i < atoms_of_node(atoms, node, n).len() ==> atoms_of_node(atoms, node, n)[i] < n
                && atoms[atoms_of_node(atoms, node, n)[i] as int].node == node,
        atoms_of_node(atoms, node, n).len() <= n,
    decreases n,
{
    if n > 0 {
        let m = (n - 1) as nat;
        lemma_atoms_of_node(atoms, node, m);
        let s = atoms_of_node(atoms, node, m);
        let r = atoms_of_node(atoms, node, n);
        lemma_insert_by_step(atoms, s, m);
        assert forall|i: int| #![trigger r[i]] 0 <= i < r.len() implies r[i] < n && atoms[r[i] as int].node == node by {
            if s.contains(r[i]) {
                let k = choose|k: int| 0 <= k < s.len() && s[k] == r[i];
                assert(s[k] < m);
            } else if atoms[n - 1].node != node {
                assert(r[i] == s[i]);
            }
        }
    }
}

/// Collects the atoms of `node`, by fold step.
fn collect_node_atoms(s: &MhotHashSchedule, node: usize) -> (list: Vec<usize>)
    ensures
        as_indices(list@) == node_list(*s, node as nat),
{
    let ghost atoms = s.hash_atoms@;
    let mut list: Vec<usize> = Vec::new();
    assert(as_indices(list@) =~= atoms_of_node(atoms, node as nat, 0));
    for n in 0..s.hash_atoms.len()
        invariant
            atoms == s.hash_atoms@,
            as_indices(list@) == atoms_of_node(atoms, node as nat, n as nat),
    {
        if s.hash_atoms[n].node == node {
            let ghost before = as_indices(list@);
            let ghost old_list = list@;
            let total: usize = list.len();
            let mut at: usize = total;
            proof {
                lemma_atoms_of_node(atoms, node as nat, n as nat);
                assert forall|i: int| 0 <= i < list@.len() implies #[trigger] list@[i]
                    < atoms.len() by {
                    assert(before[i] == list@[i]);
                }
                assert(before.take(total as int) =~= before);
                assert(insert_by_step(atoms, before, n as nat) + before.skip(total as int)
                    =~= insert_by_step(atoms, before, n as nat));
            }
            while at > 0 && s.hash_atoms[list[at - 1]].fold_step > s.hash_atoms[n].fold_step
                invariant
                    at <= total,
                    total == list@.len(),
                    n < atoms.len(),
                    atoms == s.hash_atoms@,
                    list@ == old_list,
                    before == as_indices(old_list),
                    forall|i: int| 0 <= i < before.len() ==> #[trigger] before[i] < atoms.len(),
                    forall|i: int| 0 <= i < list@.len() ==> #[trigger] list@[i] < atoms.len(),
                    insert_by_step(atoms, before.take(at as int), n as nat) + before.skip(at as int)
                        == insert_by_step(atoms, before, n as nat),
                decreases at,
            {
                proof {
                    let t = before.take(at as int);
                    assert(t.last() == list@[at - 1]);
                    assert(t.drop_last() =~= before.take(at - 1));
                    let low = insert_by_step(atoms, before.take(at - 1), n as nat);
                    assert(low.push(t.last()) + before.skip(at as int) =~= low + before.skip(
                        at - 1,
                    ));
                }
                at = at - 1;
            }
            list.insert(at, n);
            proof {
                let t = before.take(at as int);
                if at > 0 {
                    assert(t.last() == old_list[at - 1]);
                }
                assert(insert_by_step(atoms, t, n as nat) == t.push(n as nat));
                assert(as_indices(list@) =~= t.push(n as nat) + before.skip(at as int));
            }
        }
    }
    list
}

/// Whether each index of `list` is below `n`.
proof fn lemma_list_bound(s: MhotHashSchedule, node: nat, list: Seq<usize>)
    requires
        as_indices(list) == node_list(s, node),
    ensures
        list.len() == node_list(s, node).len(),
        forall|i: int|
            #![trigger list[i]]
            0 <= i < list.len() ==> list[i] < s.hash_atoms@.len() && list[i] == node_list(s, node)[i]
                && s.hash_atoms@[list[i] as int].node == node,
{
    lemma_atoms_of_node(s.hash_atoms@, node, s.hash_atoms@.len());
    assert forall|i: int| #![trigger list[i]] 0 <= i < list.len() implies list[i]
        < s.hash_atoms@.len() && list[i] == node_list(s, node)[i] && s.hash_atoms@[list[i] as int].node
        == node by {
        assert(as_indices(list)[i] == list[i]);
        assert(node_list(s, node)[i] < s.hash_atoms@.len());
    }
}

/// No two of a list's entries are the same.
proof fn lemma_list_distinct(atoms: Seq<KeccakAtom>, node: nat, n: nat)
    requires
        n <= atoms.len(),
    ensures
        forall|i: int, j: int|
            #![trigger atoms_of_node(atoms, node, n)[i], atoms_of_node(atoms, node, n)[j]]
            0 <= i < j < atoms_of_node(atoms, node, n).len() ==> atoms_of_node(atoms, node, n)[i]
                != atoms_of_node(atoms, node, n)[j],
    decreases n,
{
    if n > 0 {
        let m = (n - 1) as nat;
        lemma_list_distinct(atoms, node, m);
        lemma_atoms_of_node(atoms, node, m);
        if atoms[n - 1].node == node {
            lemma_insert_distinct(atoms, atoms_of_node(atoms, node, m), m);
        }
    }
}

proof fn lemma_insert_distinct(atoms: Seq<KeccakAtom>, s: Seq<nat>, a: nat)
    requires
        forall|i: int| 0 <= i < s.len() ==> #[trigger] s[i] < a,
        forall|i: int, j: int| 0 <= i < j < s.len() ==> s[i] != s[j],
    ensures
        forall|i: int, j: int|
            #![trigger insert_by_step(atoms, s, a)[i], insert_by_step(atoms, s, a)[j]]
            0 <= i < j < insert_by_step(atoms, s, a).len() ==> insert_by_step(atoms, s, a)[i]
                != insert_by_step(atoms, s, a)[j],
    decreases s.len(),
{
    if !(s.len() == 0 || atoms[s.last() as int].fold_step <= atoms[a as int].fold_step) {
        let front = s.drop_last();
        let t = insert_by_step(atoms, front, a);
        let r = insert_by_step(atoms, s, a);
        lemma_insert_distinct(atoms, front, a);
        lemma_insert_by_step(atoms, front, a);
        assert forall|i: int, j: int| #![trigger r[i], r[j]] 0 <= i < j < r.len() implies r[i]
            != r[j] by {
            if j == r.len() - 1 {
                assert(r[i] == t[i]);
                if front.contains(t[i]) {
                    let k = choose|k: int| 0 <= k < front.len() && front[k] == t[i];
                    assert(s[k] != s[s.len() - 1]);
                } else {
                    assert(s[s.len() - 1] < a);
                }
            } else {
                assert(r[i] == t[i] && r[j] == t[j]);
            }
        }
    }
}

/// Whether all atoms of the nodes from `node` on hold their final states.
pub open spec fn states_final(
    states: Seq<[u8; 200]>,
    s: MhotHashSchedule,
    seed: u64,
    from: int,
) -> bool {
    &&& states.len() == s.hash_atoms@.len()
    &&& forall|node: int, j: int|
        #![trigger node_list(s, node as nat)[j]]
        from <= node < s.fanouts@.len() && 0 <= node && 0 <= j < node_list(s, node as nat).len()
            ==> states[node_list(s, node as nat)[j] as int]@ == fold_in(
            final_children(s, seed, node as nat),
            j as nat,
        )
}

/// Folds the children of `node`, writing the input state of each atom.
fn fill_node_atom_states(
    s: &MhotHashSchedule,
    seed: u64,
    node: usize,
    list: &Vec<usize>,
    children: &Vec<Digest>,
    atom_states: &mut Vec<[u8; 200]>,
) -> (d: Digest)
    requires
        runnable(*s),
        node < s.fanouts@.len(),
        as_indices(list@) == node_list(*s, node as nat),
        list@.len() > 0,
        digest_views(children@) == final_children(*s, seed, node as nat),
        states_final(old(atom_states)@, *s, seed, node + 1),
    ensures
        d@ == fold_out(final_children(*s, seed, node as nat), list@.len()),
        states_final(final(atom_states)@, *s, seed, node as int),
{
    let ghost ch = final_children(*s, seed, node as nat);
    let n: usize = children.len();
    let mut next_child: usize = 0;
    let mut prev: Digest = [0u8; 32];
    proof {
        lemma_list_bound(*s, node as nat, list@);
        lemma_list_distinct(s.hash_atoms@, node as nat, s.hash_atoms@.len());
        assert(node_list(*s, node as nat)[0] == node_list(*s, node as nat)[0]);
        assert(n >= 1) by {
            assert(digest_views(children@).len() == s.fanouts@[node as int]);
            let _ = node_list(*s, node as nat)[0];
        }
    }
    for j in 0..list.len()
        invariant
            runnable(*s),
            node < s.fanouts@.len(),
            as_indices(list@) == node_list(*s, node as nat),
            ch == final_children(*s, seed, node as nat),
            digest_views(children@) == ch,
            n == children@.len() == ch.len() == s.fanouts@[node as int],
            n >= 1,
            next_child == taken(n as nat, j as nat),
            j > 0 ==> prev@ == fold_out(ch, j as nat),
            states_final(atom_states@, *s, seed, node + 1),
            list@.len() == node_list(*s, node as nat).len(),
            forall|i: int|
                #![trigger list@[i]]
                0 <= i < list@.len() ==> list@[i] < s.hash_atoms@.len() && list@[i] == node_list(
                    *s,
                    node as nat,
                )[i] && s.hash_atoms@[list@[i] as int].node == node,
            forall|i: int, k: int|
                #![trigger node_list(*s, node as nat)[i], node_list(*s, node as nat)[k]]
                0 <= i < k < list@.len() ==> node_list(*s, node as nat)[i] != node_list(
                    *s,
                    node as nat,
                )[k],
            forall|i: int|
                #![trigger node_list(*s, node as nat)[i]]
                0 <= i < j ==> atom_states@[node_list(*s, node as nat)[i] as int]@ == fold_in(
                    ch,
                    i as nat,
                ),
    {
        let mut inputs: Vec<Digest> = Vec::new();
        if j > 0 {
            inputs.push(prev);
        }
        let room: usize = if j == 0 { 4 } else { 3 };
        let count: usize = if n - next_child < room { n - next_child } else { room };
        let ghost head = digest_views(inputs@);
        assert(digest_views(inputs@) =~= head + ch.subrange(next_child as int, next_child as int));
        for i in 0..count
            invariant
                n == children@.len() == ch.len(),
                digest_views(children@) == ch,
                next_child + count <= n,
                digest_views(inputs@) == head + ch.subrange(
                    next_child as int,
                    next_child + i,
                ),
        {
            let ghost before = inputs@;
            inputs.push(children[next_child + i]);
            assert(ch[next_child + i] == children@[next_child + i]@);
            assert(digest_views(inputs@) =~= digest_views(before).push(ch[next_child + i]));
            assert(ch.subrange(next_child as int, next_child + i + 1) =~= ch.subrange(
                next_child as int,
                next_child + i,
            ).push(ch[next_child + i]));
        }
        proof {
            assert(next_child + count == taken(n as nat, (j + 1) as nat));
            assert(digest_views(inputs@) =~= fold_inputs(ch, j as nat));
            assert(digest_views(inputs@).len() == inputs@.len());
        }
        next_child = next_child + count;
        let state = fold_state(&inputs);
        let a: usize = list[j];
        let ghost before = atom_states@;
        atom_states.set(a, state);
        prev = keccak_f_digest(&state);
        proof {
            assert(states_final(atom_states@, *s, seed, node + 1)) by {
                assert forall|m: int, i: int|
                    #![trigger node_list(*s, m as nat)[i]]
                    node + 1 <= m < s.fanouts@.len() && 0 <= m && 0 <= i < node_list(
                        *s,
                        m as nat,
                    ).len() implies atom_states@[node_list(*s, m as nat)[i] as int]@ == fold_in(
                    final_children(*s, seed, m as nat),
                    i as nat,
                ) by {
                    lemma_atoms_of_node(s.hash_atoms@, m as nat, s.hash_atoms@.len());
                    let x = node_list(*s, m as nat)[i];
                    assert(s.hash_atoms@[x as int].node == m);
                    assert(before[x as int]@ == fold_in(
                        final_children(*s, seed, m as nat),
                        i as nat,
                    ));
                }
            }
            assert forall|i: int|
                #![trigger node_list(*s, node as nat)[i]]
                0 <= i < j + 1 implies atom_states@[node_list(*s, node as nat)[i] as int]@ == fold_in(
                ch,
                i as nat,
            ) by {
                if i < j {
                    assert(node_list(*s, node as nat)[i] != node_list(*s, node as nat)[j as int]);
                    let _ = list@[i];
                }
            }
        }
    }
    prev
}

/// The bytes of a digest that may be missing.
pub open spec fn optional_view(d: Option<Digest>) -> Option<Seq<u8>> {
    match d {
        Some(d) => Some(d@),
        None => None,
    }
}

/// Collects the children of `node`.
fn gather_children(
    sched: &MhotHashSchedule,
    seed: u64,
    node: usize,
    below: Option<Digest>,
) -> (children: Vec<Digest>)
    requires
        node < sched.fanouts@.len(),
        leaves_before(sched.fanouts@, sched.fanouts@.len()) <= usize::MAX,
    ensures
        digest_views(children@) == node_children(*sched, seed, node as nat, optional_view(below)),
{
    let fanout: usize = sched.fanouts[node];
    let first_leaf: usize = count_leaves(sched, node);
    let ghost ch = node_children(*sched, seed, node as nat, optional_view(below));
    proof {
        lemma_leaves_before_mono(sched.fanouts@, (node + 1) as nat, sched.fanouts@.len());
    }
    let mut children: Vec<Digest> = Vec::new();
    for i in 0..fanout
        invariant
            node < sched.fanouts@.len(),
            fanout == sched.fanouts@[node as int],
            first_leaf == leaves_before(sched.fanouts@, node as nat),
            first_leaf + fanout <= usize::MAX,
            ch == node_children(*sched, seed, node as nat, optional_view(below)),
            children@.len() == i,
            forall|k: int| 0 <= k < i ==> (#[trigger] children@[k])@ == ch[k],
    {
        let leaf: Digest = leaf_digest(seed, first_leaf + i);
        let d: Digest = match below {
            Some(d) => if i == 0 {
                d
            } else {
                leaf
            },
            None => leaf,
        };
        assert(d@ == ch[i as int]);
        children.push(d);
    }
    assert(digest_views(children@) =~= ch);
    children
}

/// Runs a schedule over seeded leaves.
pub fn build_ref_witness(sched: &MhotHashSchedule, seed: u64) -> (w: RefWitness)
    requires
        runnable(*sched),
    ensures
        is_ref_witness(w, *sched, seed),
{
    let mut atom_states: Vec<[u8; 200]> = Vec::new();
    for i in 0..sched.hash_atoms.len()
        invariant
            atom_states@.len() == i,
    {
        atom_states.push([0u8; 200]);
    }
    let n: usize = sched.fanouts.len();
    let mut node: usize = n;
    let mut lower: Option<Digest> = None;
    while node > 0
        invariant
            runnable(*sched),
            n == sched.fanouts@.len(),
            node <= n,
            states_final(atom_states@, *sched, seed, node as int),
            optional_view(lower) == node_digest(*sched, seed, node as nat),
        decreases node,
    {
        let children = gather_children(sched, seed, node - 1, lower);
        let list = collect_node_atoms(sched, node - 1);
        assert(as_indices(list@).len() == list@.len());
        assert(digest_views(children@).len() == children@.len());
        if list.len() > 0 {
            lower = Some(
                fill_node_atom_states(sched, seed, node - 1, &list, &children, &mut atom_states),
            );
        } else if children.len() > 0 {
            assert(digest_views(children@)[0] == children@[0]@);
            lower = Some(children[0]);
        } else {
            lower = None;
        }
        node = node - 1;
    }
    let zero: Digest = [0u8; 32];
    let expected_root: Digest = match lower {
        Some(d) => d,
        None => zero,
    };
    assert(zero@ =~= Seq::new(32, |i: int| 0u8));
    RefWitness { atom_states, expected_root }
}

/// How many children the nodes before `node` have.
fn count_leaves(sched: &MhotHashSchedule, node: usize) -> (n: usize)
    requires
        node < sched.fanouts@.len(),
        leaves_before(sched.fanouts@, sched.fanouts@.len()) <= usize::MAX,
    ensures
        n == leaves_before(sched.fanouts@, node as nat),
{
    let mut n: usize = 0;
    for i in 0..node
        invariant
            node < sched.fanouts@.len(),
            leaves_before(sched.fanouts@, sched.fanouts@.len()) <= usize::MAX,
            n == leaves_before(sched.fanouts@, i as nat),
    {
        proof {
            lemma_leaves_before_mono(sched.fanouts@, (i + 1) as nat, sched.fanouts@.len());
        }
        n = n + sched.fanouts[i];
    }
    n
}

/// The states of a list, as byte sequences.
pub open spec fn state_views(states: Seq<[u8; 200]>) -> Seq<Seq<u8>> {
    states.map_values(|x: [u8; 200]| x@)
}

/// `state` with digest `d` in slot `slot`.
pub open spec fn with_slot(state: Seq<u8>, slot: nat, d: Seq<u8>) -> Seq<u8> {
    Seq::new(
        200,
        |i: int|
            if 32 * slot <= i < 32 * slot + 32 {
                d[i - 32 * slot]
            } else {
                state[i]
            },
    )
}

/// How far a run of the atoms has come: the states, and the root once it is
/// known.
pub struct Run {
    pub states: Seq<Seq<u8>>,
    pub root: Option<Seq<u8>>,
}

/// The run after wire `w` has carried `d`, which atom `a` has put out.
pub open spec fn deliver(w: Wire, a: nat, d: Seq<u8>, run: Run) -> Run {
    match w.src {
        WireEndpoint::AtomOutput { atom_id } => if atom_id == a {
            match w.dst {
                WireEndpoint::AtomInput { atom_id, child_slot } => Run {
                    states: run.states.update(
                        atom_id as int,
                        with_slot(run.states[atom_id as int], child_slot as nat, d),
                    ),
                    root: run.root,
                },
                WireEndpoint::PublicRoot => Run { states: run.states, root: Some(d) },
                _ => run,
            }
        } else {
            run
        },
        _ => run,
    }
}

/// The run after the first `n` wires have carried `d`.
pub open spec fn deliver_all(ws: Seq<Wire>, n: nat, a: nat, d: Seq<u8>, run: Run) -> Run
    decreases n,
{
    if n == 0 {
        run
    } else {
        deliver(ws[n - 1], a, d, deliver_all(ws, (n - 1) as nat, a, d, run))
    }
}

/// The run after atom `a` has fired: its digest goes out on all its wires.
pub open spec fn fire(s: MhotHashSchedule, a: nat, run: Run) -> Run {
    deliver_all(s.wires@, s.wires@.len(), a, keccak_digest(run.states[a as int]), run)
}

/// The run after the first `n` atoms of `list` have fired.
pub open spec fn fire_list(s: MhotHashSchedule, list: Seq<nat>, n: nat, run: Run) -> Run
    decreases n,
{
    if n == 0 {
        run
    } else {
        fire(s, list[n - 1], fire_list(s, list, (n - 1) as nat, run))
    }
}

/// The run after the nodes from `node` on have fired, the last one first.
pub open spec fn fire_nodes(s: MhotHashSchedule, node: nat, run: Run) -> Run
    decreases s.fanouts@.len() - node,
{
    if node >= s.fanouts@.len() {
        run
    } else {
        fire_list(
            s,
            node_list(s, node),
            node_list(s, node).len(),
            fire_nodes(s, node + 1, run),
        )
    }
}

/// The root that firing all atoms leads to, or zeros if no atom leads to it.
pub open spec fn fold_root(s: MhotHashSchedule, states: Seq<Seq<u8>>) -> Seq<u8> {
    match fire_nodes(s, 0, Run { states, root: None }).root {
        Some(d) => d,
        None => Seq::new(32, |i: int| 0u8),
    }
}

/// Every wire from an atom leads to a slot that exists.
pub open spec fn wires_in_range(s: MhotHashSchedule) -> bool {
    forall|i: int|
        #![trigger s.wires@[i]]
        0 <= i < s.wires@.len() ==> match (s.wires@[i].src, s.wires@[i].dst) {
            (
                WireEndpoint::AtomOutput { atom_id: a },
                WireEndpoint::AtomInput { atom_id, child_slot },
            ) => a < s.hash_atoms@.len() ==> atom_id < s.hash_atoms@.len() && child_slot < 4,
            _ => true,
        }
}

/// Writes a digest into a slot of a state.
fn write_child_digest(state: &[u8; 200], child_slot: usize, digest: &Digest) -> (r: [u8; 200])
    requires
        child_slot < 4,
    ensures
        r@ == with_slot(state@, child_slot as nat, digest@),
{
    let mut r: [u8; 200] = *state;
    for i in 0..32usize
        invariant
            child_slot < 4,
            forall|j: int|
                0 <= j < 200 ==> r@[j] == (if 32 * child_slot <= j < 32 * child_slot + i {
                    digest@[j - 32 * child_slot]
                } else {
                    state@[j]
                }),
    {
        r[32 * child_slot + i] = digest[i];
    }
    assert(r@ =~= with_slot(state@, child_slot as nat, digest@));
    r
}

/// Carries the digest of an atom along all its wires.
fn propagate_atom_output(
    sched: &MhotHashSchedule,
    src_atom_id: usize,
    digest: Digest,
    states: &mut Vec<[u8; 200]>,
    root: &mut Option<Digest>,
)
    requires
        wires_in_range(*sched),
        old(states)@.len() == sched.hash_atoms@.len(),
        src_atom_id < sched.hash_atoms@.len(),
    ensures
        final(states)@.len() == old(states)@.len(),
        ({
            let before = Run { states: state_views(old(states)@), root: optional_view(*old(root)) };
            let after = deliver_all(
                sched.wires@,
                sched.wires@.len(),
                src_atom_id as nat,
                digest@,
                before,
            );
            after.states == state_views(final(states)@) && after.root == optional_view(
                *final(root),
            )
        }),
{
    let ghost before = Run { states: state_views(states@), root: optional_view(*root) };
    for i in 0..sched.wires.len()
        invariant
            wires_in_range(*sched),
            states@.len() == old(states)@.len() == sched.hash_atoms@.len(),
            src_atom_id < sched.hash_atoms@.len(),
            ({
                let run = deliver_all(
                    sched.wires@,
                    i as nat,
                    src_atom_id as nat,
                    digest@,
                    before,
                );
                run.states == state_views(states@) && run.root == optional_view(*root)
            }),
    {
        let w: Wire = sched.wires[i];
        let ghost states0 = states@;
        if let WireEndpoint::AtomOutput { atom_id } = w.src {
            if atom_id == src_atom_id {
                match w.dst {
                    WireEndpoint::AtomInput { atom_id: to, child_slot } => {
                        assert(w == sched.wires@[i as int]);
                        let state = write_child_digest(&states[to], child_slot, &digest);
                        states.set(to, state);
                        assert(state_views(states@) =~= state_views(states0).update(
                            to as int,
                            state@,
                        ));
                    },
                    WireEndpoint::PublicRoot => {
                        *root = Some(digest);
                    },
                    _ => {},
                }
            }
        }
    }
}

/// Fires all atoms, following the wires, and returns the root they lead to.
pub fn cpu_fold_root(sched: &MhotHashSchedule, atom_states: &[[u8; 200]]) -> (d: Digest)
    requires
        atom_states@.len() == sched.hash_atoms@.len(),
        atoms_indexed(*sched),
        wires_in_range(*sched),
    ensures
        d@ == fold_root(*sched, state_views(atom_states@)),
{
    let mut states: Vec<[u8; 200]> = vstd::slice::slice_to_vec(atom_states);
    let mut root: Option<Digest> = None;
    let mut node: usize = sched.fanouts.len();
    let ghost start = Run { states: state_views(atom_states@), root: None };
    while node > 0
        invariant
            wires_in_range(*sched),
            node <= sched.fanouts@.len(),
            states@.len() == sched.hash_atoms@.len(),
            fire_nodes(*sched, node as nat, start).states == state_views(states@),
            fire_nodes(*sched, node as nat, start).root == optional_view(root),
        decreases node,
    {
        let list = collect_node_atoms(sched, node - 1);
        let ghost ids = node_list(*sched, (node - 1) as nat);
        let ghost run = fire_nodes(*sched, node as nat, start);
        proof {
            lemma_list_bound(*sched, (node - 1) as nat, list@);
        }
        for j in 0..list.len()
            invariant
                wires_in_range(*sched),
                states@.len() == sched.hash_atoms@.len(),
                list@.len() == ids.len(),
                forall|i: int|
                    #![trigger list@[i]]
                    0 <= i < list@.len() ==> list@[i] < sched.hash_atoms@.len() && list@[i]
                        == ids[i],
                fire_list(*sched, ids, j as nat, run).states == state_views(states@),
                fire_list(*sched, ids, j as nat, run).root == optional_view(root),
        {
            let a: usize = list[j];
            let digest = keccak_f_digest(&states[a]);
            assert(state_views(states@)[a as int] == states@[a as int]@);
            proof {
                let now = fire_list(*sched, ids, j as nat, run);
                assert(now == (Run { states: state_views(states@), root: optional_view(root) }));
            }
            propagate_atom_output(sched, a, digest, &mut states, &mut root);
        }
        node = node - 1;
    }
    let zero: Digest = [0u8; 32];
    assert(zero@ =~= Seq::new(32, |i: int| 0u8));
    match root {
        Some(d) => d,
        None => zero,
    }
}

proof fn lemma_byte_round_trip(b: u8)
    ensures
        ({
            let p = |t: int|
                if byte_bit(b, t) {
                    1u8 << (t as u8)
                } else {
                    0u8
                };
            p(0) | p(1) | p(2) | p(3) | p(4) | p(5) | p(6) | p(7) == b
        }),
{
    assert((if (b >> 0) & 1 == 1 {
        1u8 << 0
    } else {
        0u8
    }) | (if (b >> 1) & 1 == 1 {
        1u8 << 1
    } else {
        0u8
    }) | (if (b >> 2) & 1 == 1 {
        1u8 << 2
    } else {
        0u8
    }) | (if (b >> 3) & 1 == 1 {
        1u8 << 3
    } else {
        0u8
    }) | (if (b >> 4) & 1 == 1 {
        1u8 << 4
    } else {
        0u8
    }) | (if (b >> 5) & 1 == 1 {
        1u8 << 5
    } else {
        0u8
    }) | (if (b >> 6) & 1 == 1 {
        1u8 << 6
    } else {
        0u8
    }) | (if (b >> 7) & 1 == 1 {
        1u8 << 7
    } else {
        0u8
    }) == b) by (bit_vector);
}

/// The bytes of the bits of a state are the state.
pub proof fn law_state_round_trip(bytes: Seq<u8>)
    requires
        bytes.len() == 200,
    ensures
        state_bytes(state_bits(bytes)) == bytes,
{
    let bits = state_bits(bytes);
    assert forall|k: int| 0 <= k < 200 implies state_bytes(bits)[k] == bytes[k] by {
        lemma_byte_round_trip(bytes[k]);
        assert forall|t: int| 0 <= t < 8 implies bits[k / 8 + 25 * (k % 8 * 8 + t)] == #[trigger] byte_bit(
            bytes[k],
            t,
        ) by {
            let i = k / 8 + 25 * (k % 8 * 8 + t);
            assert(i % 25 == k / 8);
            assert(i / 25 == k % 8 * 8 + t);
            assert(i / 25 / 8 == k % 8);
            assert(i / 25 % 8 == t);
            assert(i % 25 * 8 + i / 25 / 8 == k);
        }
        assert(byte_bit(bytes[k], 0) == byte_bit(bytes[k], 0));
        let _ = (byte_bit(bytes[k], 1), byte_bit(bytes[k], 2), byte_bit(bytes[k], 3));
        let _ = (byte_bit(bytes[k], 4), byte_bit(bytes[k], 5), byte_bit(bytes[k], 6));
        let _ = byte_bit(bytes[k], 7);
    }
    assert(state_bytes(bits) =~= bytes);
}

/// The digest of a state, bit by bit: where `bits` are the bits of the state
/// as the permutation takes them, bit `t` of byte `j` of the digest is the bit
/// of the permuted state in its place. Bit `t` of byte `k` of a state has its
/// place in lane `k / 8`, at depth `8 (k % 8) + t`.
#[verifier::rlimit(40)]
pub proof fn law_digest_is_permuted_state(state: Seq<u8>, bits: Seq<bool>, j: int, t: int)
    requires
        state.len() == 200,
        bits.len() == 1600,
        forall|k: int, u: int|
            0 <= k < 200 && 0 <= u < 8 ==> #[trigger] bits[k / 8 + 25 * (k % 8 * 8 + u)] == ((
            state[k] >> (u as u8)) & 1 == 1),
        0 <= j < 32,
        0 <= t < 8,
    ensures
        keccak_digest(state).len() == 32,
        (keccak_digest(state)[j] >> (t as u8)) & 1 == 1 <==> permute(bits)[j / 8 + 25 * (j % 8 * 8
            + t)],
{
    reveal(keccak_digest);
    let own = state_bits(state);
    assert forall|i: int| 0 <= i < 1600 implies bits[i] == own[i] by {
        let (lane, z) = (i % 25, i / 25);
        let (k, u) = (8 * lane + z / 8, z % 8);
        assert(k / 8 == lane && k % 8 == z / 8);
        assert(k / 8 + 25 * (k % 8 * 8 + u) == i);
        assert(bits[k / 8 + 25 * (k % 8 * 8 + u)] == ((state[k] >> (u as u8)) & 1 == 1));
    }
    assert(bits =~= own);
    lemma_state_byte_bit(permute(bits), j, t);
}

/// Bit `t` of byte `k` of the bytes of a state is its bit in that place.
proof fn lemma_state_byte_bit(bits: Seq<bool>, k: int, t: int)
    requires
        0 <= t < 8,
    ensures
        (state_byte(bits, k) >> (t as u8)) & 1 == 1 <==> bits[k / 8 + 25 * (k % 8 * 8 + t)],
{
    let at = |u: int| bits[k / 8 + 25 * (k % 8 * 8 + u)];
    let (b0, b1, b2, b3) = (at(0), at(1), at(2), at(3));
    let (b4, b5, b6, b7) = (at(4), at(5), at(6), at(7));
    let s = t as u8;
    let b = at(t);
    assert((((if b0 { 1u8 << 0 } else { 0u8 }) | (if b1 { 1u8 << 1 } else { 0u8 }) | (if b2 {
        1u8 << 2
    } else {
        0u8
    }) | (if b3 { 1u8 << 3 } else { 0u8 }) | (if b4 { 1u8 << 4 } else { 0u8 }) | (if b5 {
        1u8 << 5
    } else {
        0u8
    }) | (if b6 { 1u8 << 6 } else { 0u8 }) | (if b7 { 1u8 << 7 } else { 0u8 })) >> s) & 1 == 1
        <==> b) by (bit_vector)
        requires
            s < 8,
            b == (if s == 0 {
                b0
            } else if s == 1 {
                b1
            } else if s == 2 {
                b2
            } else if s == 3 {
                b3
            } else if s == 4 {
                b4
            } else if s == 5 {
                b5
            } else if s == 6 {
                b6
            } else {
                b7
            }),
    ;
}

/// The state that folds digests: each digest in its slot of 32 bytes, a byte
/// 0x01 at the end of the four slots, a byte 0x80 at the end of the rate of 136
/// bytes, and zeros elsewhere.
pub proof fn law_padded_state_layout(inputs: Seq<Seq<u8>>, k: int)
    requires
        inputs.len() <= 4,
        forall|i: int| 0 <= i < inputs.len() ==> (#[trigger] inputs[i]).len() == 32,
        0 <= k < 200,
    ensures
        padded_state(inputs).len() == 200,
        k < 32 * inputs.len() ==> padded_state(inputs)[k] == inputs[k / 32][k % 32],
        32 * inputs.len() <= k ==> padded_state(inputs)[k] == if k == 128 {
            0x01u8
        } else if k == 135 {
            0x80u8
        } else {
            0u8
        },
{
}

/// A state that holds a message of 128 bytes and its padding is the one block
/// that Keccak-256 absorbs of that message: the digest is that of folding the
/// four quarters of the message.
pub proof fn law_digest_of_message(msg: Seq<u8>, state: Seq<u8>)
    requires
        msg.len() == 128,
        state == msg + seq![0x01u8] + Seq::new(6, |i: int| 0u8) + seq![0x80u8] + Seq::new(
            64,
            |i: int| 0u8,
        ),
    ensures
        keccak_digest(state) == fold_out(
            seq![
                msg.subrange(0, 32),
                msg.subrange(32, 64),
                msg.subrange(64, 96),
                msg.subrange(96, 128),
            ],
            1,
        ),
{
    let quarters = seq![
        msg.subrange(0, 32),
        msg.subrange(32, 64),
        msg.subrange(64, 96),
        msg.subrange(96, 128),
    ];
    assert(fold_inputs(quarters, 0) =~= quarters);
    assert(padded_state(quarters) =~= state);
    assert(fold_in(quarters, 0) == state);
}

/// Two states of 200 bytes that differ have permutations that differ.
pub proof fn law_states_permute_apart(a: Seq<u8>, b: Seq<u8>)
    requires
        a.len() == 200,
        b.len() == 200,
        a != b,
    ensures
        permute(state_bits(a)) != permute(state_bits(b)),
{
    if permute(state_bits(a)) == permute(state_bits(b)) {
        law_permute_is_injective(state_bits(a), state_bits(b));
        assert(state_bytes(state_bits(a)) =~= state_bytes(state_bits(b)));
        law_state_round_trip(a);
        law_state_round_trip(b);
    }
}

/// Folding, step by step: the first step takes up to four children, every
/// later one the digest of the step before and up to three more children.
pub proof fn law_fold_steps(children: Seq<Seq<u8>>, j: nat)
    requires
        children.len() >= 1,
        j > 0 ==> 3 * j + 1 < children.len(),
    ensures
        fold_in(children, 0) == padded_state(
            children.take(
                if children.len() < 4 {
                    children.len() as int
                } else {
                    4
                },
            ),
        ),
        fold_out(children, j + 1) == keccak_digest(fold_in(children, j)),
        j > 0 ==> fold_in(children, j) == padded_state(
            seq![keccak_digest(fold_in(children, (j - 1) as nat))] + children.subrange(
                (3 * j + 1) as int,
                if children.len() < 3 * j + 4 {
                    children.len() as int
                } else {
                    (3 * j + 4) as int
                },
            ),
        ),
{
    let first = if children.len() < 4 {
        children.len() as int
    } else {
        4
    };
    assert(fold_inputs(children, 0) =~= children.take(first));
    if j > 0 {
        let last = if children.len() < 3 * j + 4 {
            children.len() as int
        } else {
            (3 * j + 4) as int
        };
        assert(fold_out(children, j) == keccak_digest(fold_in(children, (j - 1) as nat)));
        assert(fold_inputs(children, j) =~= seq![
            keccak_digest(fold_in(children, (j - 1) as nat)),
        ] + children.subrange((3 * j + 1) as int, last));
    }
}

/// A leaf is four words, least significant byte first: the outputs of the
/// generator whose state starts at the seed mixed with the leaf's number and
/// grows by the same odd constant before each output.
pub proof fn law_seeded_leaf_words(seed: u64, leaf_index: usize, k: int, j: int)
    requires
        0 <= k < 4,
        0 <= j < 8,
    ensures
        seeded_leaf(seed, leaf_index).len() == 32,
        ({
            let start = seed ^ (leaf_index as u64).wrapping_mul(0x9E37_79B9_7F4A_7C15);
            let s = ((start + (k + 1) * 0x9E37_79B9_7F4A_7C15) % 0x1_0000_0000_0000_0000) as u64;
            let y = (s ^ (s >> 30)).wrapping_mul(0xBF58_476D_1CE4_E5B9);
            let z = (y ^ (y >> 27)).wrapping_mul(0x94D0_49BB_1331_11EB);
            seeded_leaf(seed, leaf_index)[8 * k + j] == ((z ^ (z >> 31)) >> ((8 * j) as u64)) as u8
        }),
{
    let start = seed ^ (leaf_index as u64).wrapping_mul(0x9E37_79B9_7F4A_7C15);
    let s1 = splitmix_next(start);
    let s2 = splitmix_next(s1);
    let s3 = splitmix_next(s2);
    let s4 = splitmix_next(s3);
    lemma_generator_states(start, k);
    let s = ((start + (k + 1) * 0x9E37_79B9_7F4A_7C15) % 0x1_0000_0000_0000_0000) as u64;
    let words = seq![
        splitmix_output(s1),
        splitmix_output(s2),
        splitmix_output(s3),
        splitmix_output(s4),
    ];
    assert(words[k] == splitmix_output(s));
    assert(seeded_leaf(seed, leaf_index) == le64(words[0]) + le64(words[1]) + le64(words[2]) + le64(
        words[3],
    )) by {
        reveal(seeded_leaf);
    }
    lemma_word_of_four(words, k, j);
}

proof fn lemma_generator_states(start: u64, k: int)
    requires
        0 <= k < 4,
    ensures
        ({
            let s1 = splitmix_next(start);
            let s2 = splitmix_next(s1);
            let s3 = splitmix_next(s2);
            let s4 = splitmix_next(s3);
            ((start + (k + 1) * 0x9E37_79B9_7F4A_7C15) % 0x1_0000_0000_0000_0000) as u64 == seq![
                s1,
                s2,
                s3,
                s4,
            ][k]
        }),
{
    assert(k == 0 || k == 1 || k == 2 || k == 3);
}

proof fn lemma_word_of_four(words: Seq<u64>, k: int, j: int)
    requires
        words.len() == 4,
        0 <= k < 4,
        0 <= j < 8,
    ensures
        (le64(words[0]) + le64(words[1]) + le64(words[2]) + le64(words[3])).len() == 32,
        (le64(words[0]) + le64(words[1]) + le64(words[2]) + le64(words[3]))[8 * k + j] == (words[k]
            >> ((8 * j) as u64)) as u8,
{
    let w = words[k];
    let all = le64(words[0]) + le64(words[1]) + le64(words[2]) + le64(words[3]);
    assert(all[8 * k + j] == le64(w)[j]) by {
        assert(k == 0 || k == 1 || k == 2 || k == 3);
    }
    assert(w >> 0u64 == w) by (bit_vector);
    assert(j == 0 || j == 1 || j == 2 || j == 3 || j == 4 || j == 5 || j == 6 || j == 7);
}

/// Whether a wire carries the output of atom `a` to byte `k` of the state of
/// atom `b`.
pub open spec fn carries(w: Wire, a: nat, b: nat, k: int) -> bool {
    &&& w.src matches WireEndpoint::AtomOutput { atom_id } && atom_id == a
    &&& w.dst matches WireEndpoint::AtomInput { atom_id, child_slot } && atom_id == b && 32
        * child_slot <= k < 32 * child_slot + 32
}

/// Whether a wire carries the output of atom `a` to the public root.
pub open spec fn carries_to_root(w: Wire, a: nat) -> bool {
    &&& w.src matches WireEndpoint::AtomOutput { atom_id } && atom_id == a
    &&& w.dst is PublicRoot
}

#[verifier::rlimit(40)]
proof fn lemma_delivered_byte(
    ws: Seq<Wire>,
    n: nat,
    a: nat,
    d: Seq<u8>,
    run: Run,
    b: nat,
    k: int,
)
    requires
        n <= ws.len(),
        d.len() == 32,
        b < run.states.len(),
        0 <= k < 200,
        forall|x: int| 0 <= x < run.states.len() ==> (#[trigger] run.states[x]).len() == 200,
        forall|i: int|
            #![trigger ws[i]]
            0 <= i < ws.len() ==> match (ws[i].src, ws[i].dst) {
                (
                    WireEndpoint::AtomOutput { atom_id: x },
                    WireEndpoint::AtomInput { atom_id, child_slot },
                ) => x == a ==> atom_id < run.states.len(),
                _ => true,
            },
    ensures
        ({
            let after = deliver_all(ws, n, a, d, run);
            &&& after.states.len() == run.states.len()
            &&& forall|x: int|
                0 <= x < run.states.len() ==> (#[trigger] after.states[x]).len() == 200
            &&& after.states[b as int][k] == if exists|i: int|
                0 <= i < n && carries(#[trigger] ws[i], a, b, k) {
                d[k % 32]
            } else {
                run.states[b as int][k]
            }
            &&& after.root == if exists|i: int|
                0 <= i < n && carries_to_root(#[trigger] ws[i], a) {
                Some(d)
            } else {
                run.root
            }
        }),
    decreases n,
{
    if n > 0 {
        let m = (n - 1) as nat;
        lemma_delivered_byte(ws, m, a, d, run, b, k);
        let before = deliver_all(ws, m, a, d, run);
        let after = deliver_all(ws, n, a, d, run);
        let w = ws[n - 1];
        assert(after == deliver(w, a, d, before));
        if exists|i: int| 0 <= i < n && carries(#[trigger] ws[i], a, b, k) {
            let i = choose|i: int| 0 <= i < n && carries(#[trigger] ws[i], a, b, k);
            if !carries(w, a, b, k) {
                assert(i < m);
                assert(after.states[b as int][k] == before.states[b as int][k]);
            }
        } else {
            assert(!carries(ws[n - 1], a, b, k));
        }
        if exists|i: int| 0 <= i < n && carries_to_root(#[trigger] ws[i], a) {
            let i = choose|i: int| 0 <= i < n && carries_to_root(#[trigger] ws[i], a);
            if !carries_to_root(w, a) {
                assert(i < m);
            }
        } else {
            assert(!carries_to_root(ws[n - 1], a));
        }
    }
}

/// What an atom's output changes: of every state the bytes of the slots that a
/// wire leads to from it, which become the digest of its own state, and the
/// root where a wire leads there; all else stays.
pub proof fn law_fire_delivers(s: MhotHashSchedule, a: nat, run: Run, b: nat, k: int)
    requires
        wires_in_range(s),
        a < s.hash_atoms@.len(),
        run.states.len() == s.hash_atoms@.len(),
        forall|x: int| 0 <= x < run.states.len() ==> (#[trigger] run.states[x]).len() == 200,
        b < run.states.len(),
        0 <= k < 200,
    ensures
        fire(s, a, run).states.len() == run.states.len(),
        fire(s, a, run).states[b as int].len() == 200,
        fire(s, a, run).states[b as int][k] == if exists|i: int|
            0 <= i < s.wires@.len() && carries(#[trigger] s.wires@[i], a, b, k) {
            keccak_digest(run.states[a as int])[k % 32]
        } else {
            run.states[b as int][k]
        },
        fire(s, a, run).root == if exists|i: int|
            0 <= i < s.wires@.len() && carries_to_root(#[trigger] s.wires@[i], a) {
            Some(keccak_digest(run.states[a as int]))
        } else {
            run.root
        },
{
    let d = keccak_digest(run.states[a as int]);
    lemma_digest_len(run.states[a as int], 0, 0);
    lemma_delivered_byte(s.wires@, s.wires@.len(), a, d, run, b, k);
}

/// The order of a run: the nodes from the last to the first, and within a node
/// its atoms one after another; the root is what the run has put there, and
/// zeros if nothing has.
pub proof fn law_run_order(
    s: MhotHashSchedule,
    list: Seq<nat>,
    n: nat,
    node: nat,
    run: Run,
    states: Seq<Seq<u8>>,
)
    ensures
        fire_list(s, list, 0, run) == run,
        fire_list(s, list, n + 1, run) == fire(s, list[n as int], fire_list(s, list, n, run)),
        node >= s.fanouts@.len() ==> fire_nodes(s, node, run) == run,
        node < s.fanouts@.len() ==> fire_nodes(s, node, run) == fire_list(
            s,
            node_list(s, node),
            node_list(s, node).len(),
            fire_nodes(s, node + 1, run),
        ),
        fold_root(s, states) == match fire_nodes(s, 0, (Run { states, root: None })).root {
            Some(d) => d,
            None => Seq::new(32, |i: int| 0u8),
        },
{
}

spec fn in_step_order(atoms: Seq<KeccakAtom>, s: Seq<nat>) -> bool {
    forall|i: int, j: int|
        #![trigger s[i], s[j]]
        0 <= i < j < s.len() ==> atoms[s[i] as int].fold_step < atoms[s[j] as int].fold_step || (
        atoms[s[i] as int].fold_step == atoms[s[j] as int].fold_step && s[i] < s[j])
}

#[verifier::rlimit(40)]
proof fn lemma_insert_in_order(atoms: Seq<KeccakAtom>, s: Seq<nat>, a: nat)
    requires
        in_step_order(atoms, s),
        forall|i: int| 0 <= i < s.len() ==> #[trigger] s[i] < a,
    ensures
        in_step_order(atoms, insert_by_step(atoms, s, a)),
        forall|x: nat|
            #[trigger] insert_by_step(atoms, s, a).contains(x) <==> s.contains(x) || x == a,
    decreases s.len(),
{
    let r = insert_by_step(atoms, s, a);
    if s.len() == 0 || atoms[s.last() as int].fold_step <= atoms[a as int].fold_step {
        assert forall|i: int, j: int| #![trigger r[i], r[j]] 0 <= i < j < r.len() implies atoms[r[i] as int].fold_step
            < atoms[r[j] as int].fold_step || (atoms[r[i] as int].fold_step
            == atoms[r[j] as int].fold_step && r[i] < r[j]) by {
            if j == s.len() {
                assert(r[i] == s[i]);
                if i < s.len() - 1 {
                    assert(s[s.len() - 1] == s.last());
                }
            } else {
                assert(r[i] == s[i] && r[j] == s[j]);
            }
        }
        assert forall|x: nat| #[trigger] r.contains(x) <==> s.contains(x) || x == a by {
            if s.contains(x) {
                let i = choose|i: int| 0 <= i < s.len() && s[i] == x;
                assert(r[i] == x);
            }
            if x == a {
                assert(r[s.len() as int] == a);
            }
            if r.contains(x) {
                let i = choose|i: int| 0 <= i < r.len() && r[i] == x;
                if i < s.len() {
                    assert(s[i] == x);
                }
            }
        }
    } else {
        let front = s.drop_last();
        let last = s.last();
        assert forall|i: int| 0 <= i < front.len() implies #[trigger] front[i] < a by {
            assert(front[i] == s[i]);
        }
        assert(in_step_order(atoms, front)) by {
            assert forall|i: int, j: int| #![trigger front[i], front[j]] 0 <= i < j < front.len() implies atoms[front[i] as int].fold_step
                < atoms[front[j] as int].fold_step || (atoms[front[i] as int].fold_step
                == atoms[front[j] as int].fold_step && front[i] < front[j]) by {
                assert(front[i] == s[i] && front[j] == s[j]);
            }
        }
        lemma_insert_in_order(atoms, front, a);
        let t = insert_by_step(atoms, front, a);
        assert(r == t.push(last));
        assert forall|i: int, j: int| #![trigger r[i], r[j]] 0 <= i < j < r.len() implies atoms[r[i] as int].fold_step
            < atoms[r[j] as int].fold_step || (atoms[r[i] as int].fold_step
            == atoms[r[j] as int].fold_step && r[i] < r[j]) by {
            if j == t.len() {
                assert(t.contains(t[i]));
                if t[i] != a {
                    let k = choose|k: int| 0 <= k < front.len() && front[k] == t[i];
                    assert(s[k] == t[i] && s[s.len() - 1] == last);
                }
            } else {
                assert(r[i] == t[i] && r[j] == t[j]);
            }
        }
        assert forall|x: nat| #[trigger] r.contains(x) <==> s.contains(x) || x == a by {
            if s.contains(x) {
                let i = choose|i: int| 0 <= i < s.len() && s[i] == x;
                if i < front.len() {
                    assert(front[i] == x);
                    assert(front.contains(x));
                    assert(t.contains(x));
                    let j = choose|j: int| 0 <= j < t.len() && t[j] == x;
                    assert(r[j] == x);
                } else {
                    assert(r[t.len() as int] == x);
                }
            }
            if x == a {
                assert(t.contains(a));
                let j = choose|j: int| 0 <= j < t.len() && t[j] == a;
                assert(r[j] == a);
            }
            if r.contains(x) {
                let i = choose|i: int| 0 <= i < r.len() && r[i] == x;
                if i < t.len() {
                    assert(t.contains(x));
                    if x != a {
                        let k = choose|k: int| 0 <= k < front.len() && front[k] == x;
                        assert(s[k] == x);
                    }
                } else {
                    assert(s[s.len() - 1] == x);
                }
            }
        }
    }
}

proof fn lemma_atoms_in_order(atoms: Seq<KeccakAtom>, node: nat, n: nat)
    requires
        n <= atoms.len(),
    ensures
        in_step_order(atoms, atoms_of_node(atoms, node, n)),
        forall|x: nat|
            #[trigger] atoms_of_node(atoms, node, n).contains(x) <==> x < n && atoms[x as int].node
                == node,
    decreases n,
{
    if n > 0 {
        let m = (n - 1) as nat;
        lemma_atoms_in_order(atoms, node, m);
        lemma_atoms_of_node(atoms, node, m);
        if atoms[n - 1].node == node {
            lemma_insert_in_order(atoms, atoms_of_node(atoms, node, m), m);
        }
    }
}

/// The atoms of a node: all that belong to it, by ascending fold step, and by
/// ascending number where fold steps are the same.
pub proof fn law_node_list(s: MhotHashSchedule, node: nat, i: int, j: int, x: nat)
    ensures
        node_list(s, node).contains(x) <==> x < s.hash_atoms@.len() && s.hash_atoms@[x as int].node
            == node,
        0 <= i < j < node_list(s, node).len() ==> {
            let (a, b) = (node_list(s, node)[i], node_list(s, node)[j]);
            let (p, q) = (
                s.hash_atoms@[a as int].fold_step,
                s.hash_atoms@[b as int].fold_step,
            );
            p < q || (p == q && a < b)
        },
{
    lemma_atoms_in_order(s.hash_atoms@, node, s.hash_atoms@.len());
}

/// What a node of a run folds and comes to, whatever its schedule: its first
/// child is the digest of the node behind it, if that has one, and every other
/// is a leaf of its own; with atoms it comes to what they fold, with none to
/// its first child.
pub proof fn law_node_digest(s: MhotHashSchedule, seed: u64, node: nat, i: int)
    ensures
        node >= s.fanouts@.len() ==> node_digest(s, seed, node) is None,
        node < s.fanouts@.len() ==> {
            let children = final_children(s, seed, node);
            &&& children.len() == s.fanouts@[node as int]
            &&& 0 <= i < children.len() ==> children[i] == match node_digest(s, seed, node + 1) {
                Some(d) if i == 0 => d,
                _ => seeded_leaf(seed, (leaves_before(s.fanouts@, node) + i) as usize),
            }
            &&& node_digest(s, seed, node) == if node_list(s, node).len() > 0 {
                Some(fold_out(children, node_list(s, node).len()))
            } else if children.len() > 0 {
                Some(children[0])
            } else {
                None
            }
        },
{
}

/// The states of a run: fold step `j` of a node takes in its share of what the
/// node folds; and the root is what the first node comes to, or zeros.
pub proof fn law_run_states(w: RefWitness, s: MhotHashSchedule, seed: u64, node: nat, j: int)
    requires
        is_ref_witness(w, s, seed),
        node < s.fanouts@.len(),
        0 <= j < node_list(s, node).len(),
    ensures
        w.atom_states@.len() == s.hash_atoms@.len(),
        w.atom_states@[node_list(s, node)[j] as int]@ == padded_state(
            fold_inputs(final_children(s, seed, node), j as nat),
        ),
        w.expected_root@ == match node_digest(s, seed, 0) {
            Some(d) => d,
            None => Seq::new(32, |i: int| 0u8),
        },
{
    let n = node as int;
    assert(n as nat == node);
    assert(w.atom_states@[node_list(s, n as nat)[j] as int]@ == fold_in(
        final_children(s, seed, n as nat),
        j as nat,
    ));
}

} // verus!
