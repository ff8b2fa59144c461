//! The binary hash tree inside a node, and the path from one of its children
//! to the tree's root.

use vstd::arithmetic::div_mod::lemma_div_denominator;
use vstd::arithmetic::power2::{
    lemma2_to64, lemma_pow2_pos, lemma_pow2_strictly_increases, lemma_pow2_unfold, pow2,
};
use vstd::prelude::*;

use crate::bytes::{be_words, digest_words, law_be_word_value, lemma_words_of_bytes, words_be};
use crate::math::{
    ceil_log2, lemma_ceil_log2, lemma_ceil_log2_mono, lemma_ceil_log2_of_bound, log2_ceil,
    next_pow2, next_power_of_two,
};
use crate::sha256::{compress, sha256_compress, Compression, SHA256_IV};

verus! {

/// A node: the digests of its children, and the child that a path descends
/// through.
#[derive(Clone, Debug)]
pub struct MhotNodeWitness {
    pub children: Vec<[u8; 32]>,
    pub selected_child: usize,
}

/// The path from the selected child to the root of its node's tree.
#[derive(Clone, Debug)]
pub struct BinaryMerkleWitness {
    pub compressions: Vec<Compression>,
    pub b_bits: Vec<bool>,
    pub leaf: [u32; 8],
    /// What the chain of compressions comes to.
    pub root: [u32; 8],
    /// The root of the node's tree.
    pub native_root: [u32; 8],
}

/// The hash of two tree nodes.
pub open spec fn hash_node(left: Seq<u32>, right: Seq<u32>) -> Seq<u32> {
    compress(SHA256_IV@, left + right)
}

/// Leaf `i` of the tree over `children`: a child's words, or zeros behind the
/// last child.
pub open spec fn tree_leaf(children: Seq<[u8; 32]>, i: int) -> Seq<u32> {
    if i < children.len() {
        be_words(children[i]@, 0, 8)
    } else {
        Seq::new(8, |j: int| 0u32)
    }
}

/// Node `i` at height `d` of the tree over `children`.
pub open spec fn tree_node(children: Seq<[u8; 32]>, d: nat, i: int) -> Seq<u32>
    decreases d,
{
    if d == 0 {
        tree_leaf(children, i)
    } else {
        hash_node(
            tree_node(children, (d - 1) as nat, 2 * i),
            tree_node(children, (d - 1) as nat, 2 * i + 1),
        )
    }
}

/// The height of the tree over `n` children.
pub open spec fn tree_depth(n: nat) -> nat {
    ceil_log2(n)
}

/// The root of the tree over `children`.
pub open spec fn tree_root(children: Seq<[u8; 32]>) -> Seq<u32> {
    tree_node(children, tree_depth(children.len()), 0)
}

/// The sibling of index `i`.
pub open spec fn sibling(i: nat) -> nat {
    if i % 2 == 0 {
        i + 1
    } else {
        (i - 1) as nat
    }
}

/// `i` halved `d` times.
pub open spec fn ancestor(i: nat, d: nat) -> nat
    decreases d,
{
    if d == 0 {
        i
    } else {
        ancestor(i, (d - 1) as nat) / 2
    }
}

/// Whether the path from child `sel` places its own hash on the right at
/// height `d`. In native order that is the side it is on; otherwise the leaf
/// itself always goes left.
pub open spec fn side_bit(sel: nat, native_order: bool, d: nat) -> bool {
    ancestor(sel, d) % 2 == 1 && (native_order || d > 0)
}

/// The hash that the path from child `sel` has reached at height `d`.
pub open spec fn path_value(
    children: Seq<[u8; 32]>,
    sel: nat,
    native_order: bool,
    d: nat,
) -> Seq<u32>
    decreases d, 0nat,
{
    if d == 0 {
        tree_leaf(children, sel as int)
    } else {
        compress(SHA256_IV@, path_block(children, sel, native_order, (d - 1) as nat))
    }
}

/// The block that the path from child `sel` hashes at height `d`: its own hash
/// and the sibling's, ordered by the side bit.
pub open spec fn path_block(
    children: Seq<[u8; 32]>,
    sel: nat,
    native_order: bool,
    d: nat,
) -> Seq<u32>
    decreases d, 1nat,
{
    let own = path_value(children, sel, native_order, d);
    let sib = tree_node(children, d, sibling(ancestor(sel, d)) as int);
    if side_bit(sel, native_order, d) {
        sib + own
    } else {
        own + sib
    }
}

/// Whether `w` is the path witness of `node`.
pub open spec fn is_path_witness(
    w: BinaryMerkleWitness,
    children: Seq<[u8; 32]>,
    sel: nat,
    native_order: bool,
) -> bool {
    let depth = tree_depth(children.len());
    &&& w.compressions@.len() == depth
    &&& w.b_bits@.len() == depth
    &&& w.leaf@ == tree_leaf(children, sel as int)
    &&& w.native_root@ == tree_root(children)
    &&& w.root@ == path_value(children, sel, native_order, depth)
    &&& forall|d: int|
        #![trigger w.compressions@[d]]
        0 <= d < depth ==> w.compressions@[d].0@ == SHA256_IV@ && w.compressions@[d].1@
            == path_block(children, sel, native_order, d as nat)
    &&& forall|d: int|
        #![trigger w.b_bits@[d]]
        0 <= d < depth ==> w.b_bits@[d] == side_bit(sel, native_order, d as nat)
}

/// What a node must satisfy for its path to exist: two children or more, and
/// the selected one among them.
pub open spec fn node_valid(node: MhotNodeWitness) -> bool {
    &&& node.children@.len() >= 2
    &&& node.selected_child < node.children@.len()
    &&& next_pow2(node.children@.len()) <= usize::MAX
}

pub proof fn lemma_tree_node_len(children: Seq<[u8; 32]>, d: nat, i: int)
    ensures
        tree_node(children, d, i).len() == 8,
{
}

pub proof fn lemma_path_value_len(children: Seq<[u8; 32]>, sel: nat, native_order: bool, d: nat)
    ensures
        path_value(children, sel, native_order, d).len() == 8,
        path_block(children, sel, native_order, d).len() == 16,
{
    lemma_tree_node_len(children, d, sibling(ancestor(sel, d)) as int);
}

/// Puts two hashes into one block, the left one first.
pub fn join_block(left: &[u32; 8], right: &[u32; 8]) -> (m: [u32; 16])
    ensures
        m@ == left@ + right@,
{
    let m = [
        left[0], left[1], left[2], left[3], left[4], left[5], left[6], left[7],
        right[0], right[1], right[2], right[3], right[4], right[5], right[6], right[7],
    ];
    assert(m@ =~= left@ + right@);
    m
}

/// The leaves of the tree over `children`, padded with zeros to `n`.
fn tree_leaves(children: &[[u8; 32]], n: usize) -> (layer: Vec<[u32; 8]>)
    requires
        children@.len() <= n,
    ensures
        layer@.len() == n,
        forall|i: int| 0 <= i < n ==> (#[trigger] layer@[i])@ == tree_leaf(children@, i),
{
    let mut layer: Vec<[u32; 8]> = Vec::new();
    for i in 0..n
        invariant
            children@.len() <= n,
            layer@.len() == i,
            forall|j: int| 0 <= j < i ==> (#[trigger] layer@[j])@ == tree_leaf(children@, j),
    {
        if i < children.len() {
            layer.push(digest_words(&children[i]));
        } else {
            let zero = [0u32; 8];
            assert(zero@ =~= tree_leaf(children@, i as int));
            layer.push(zero);
        }
    }
    layer
}

/// The layer above `prev`: the hash of each pair.
fn parent_layer(
    prev: &Vec<[u32; 8]>,
    Ghost(children): Ghost<Seq<[u8; 32]>>,
    Ghost(d): Ghost<nat>,
) -> (cur: Vec<[u32; 8]>)
    requires
        forall|i: int|
            0 <= i < prev@.len() ==> (#[trigger] prev@[i])@ == tree_node(children, d, i),
    ensures
        cur@.len() == prev@.len() / 2,
        forall|i: int|
            0 <= i < cur@.len() ==> (#[trigger] cur@[i])@ == tree_node(children, d + 1, i),
{
    let total: usize = prev.len();
    let n: usize = total / 2;
    let mut cur: Vec<[u32; 8]> = Vec::new();
    for i in 0..n
        invariant
            n == total / 2,
            total == prev@.len(),
            forall|j: int|
                0 <= j < prev@.len() ==> (#[trigger] prev@[j])@ == tree_node(children, d, j),
            cur@.len() == i,
            forall|j: int| 0 <= j < i ==> (#[trigger] cur@[j])@ == tree_node(children, d + 1, j),
    {
        let m = join_block(&prev[2 * i], &prev[2 * i + 1]);
        cur.push(sha256_compress(&SHA256_IV, &m));
    }
    cur
}

/// All layers of the tree over `children`, the leaves first.
fn tree_layers(children: &[[u8; 32]], n: usize, depth: usize) -> (layers: Vec<Vec<[u32; 8]>>)
    requires
        children@.len() <= n,
        n == pow2(depth as nat),
    ensures
        layers@.len() == depth + 1,
        forall|d: int, i: int|
            #![trigger layers@[d]@[i]]
            0 <= d <= depth && 0 <= i < pow2((depth - d) as nat) ==> layers@[d]@[i]@ == tree_node(
                children@,
                d as nat,
                i,
            ),
        forall|d: int|
            0 <= d <= depth ==> (#[trigger] layers@[d])@.len() == pow2((depth - d) as nat),
{
    let mut layers: Vec<Vec<[u32; 8]>> = Vec::new();
    layers.push(tree_leaves(children, n));
    for d in 0..depth
        invariant
            layers@.len() == d + 1,
            forall|e: int, i: int|
                #![trigger layers@[e]@[i]]
                0 <= e <= d && 0 <= i < pow2((depth - e) as nat) ==> layers@[e]@[i]@ == tree_node(
                    children@,
                    e as nat,
                    i,
                ),
            forall|e: int|
                0 <= e <= d ==> (#[trigger] layers@[e])@.len() == pow2((depth - e) as nat),
    {
        proof {
            lemma_pow2_unfold((depth - d) as nat);
        }
        let cur = parent_layer(&layers[d], Ghost(children@), Ghost(d as nat));
        layers.push(cur);
    }
    layers
}

/// An index below `2^depth` has an ancestor below `2^(depth - d)` at height
/// `d`, and below the root a sibling there too.
pub proof fn lemma_ancestor_bound(i: nat, depth: nat, d: nat)
    requires
        i < pow2(depth),
        d <= depth,
    ensures
        ancestor(i, d) < pow2((depth - d) as nat),
        d < depth ==> sibling(ancestor(i, d)) < pow2((depth - d) as nat),
    decreases d,
{
    if d > 0 {
        lemma_ancestor_bound(i, depth, (d - 1) as nat);
        lemma_pow2_unfold((depth - d + 1) as nat);
    }
    if d < depth {
        lemma_pow2_unfold((depth - d) as nat);
    }
}

/// Builds the path from the selected child to the root of its node's tree.
///
/// With `native_order` every hash is placed on the side it is on in the tree,
/// so the chain ends at the tree's root. Without it the leaf always goes left,
/// and the chain ends elsewhere when the leaf is a right child.
pub fn mhot_node_to_sha256_merkle(
    node: &MhotNodeWitness,
    native_order: bool,
) -> (w: BinaryMerkleWitness)
    requires
        node_valid(*node),
    ensures
        is_path_witness(w, node.children@, node.selected_child as nat, native_order),
{
    let n: usize = next_power_of_two(node.children.len());
    let depth: usize = log2_ceil(node.children.len());
    let ghost children = node.children@;
    let ghost sel = node.selected_child as nat;
    proof {
        lemma_ceil_log2(children.len());
        assert(n == pow2(depth as nat));
        assert(pow2(0) == 1) by {
            lemma2_to64();
        }
    }
    let layers = tree_layers(node.children.as_slice(), n, depth);
    let native_root = layers[depth][0];
    proof {
        lemma_ancestor_bound(sel, depth as nat, 0);
    }
    let leaf = layers[0][node.selected_child];
    let mut compressions: Vec<Compression> = Vec::new();
    let mut b_bits: Vec<bool> = Vec::new();
    let mut idx: usize = node.selected_child;
    let mut current: [u32; 8] = leaf;
    for d in 0..depth
        invariant
            children == node.children@,
            sel == node.selected_child,
            sel < pow2(depth as nat),
            depth == tree_depth(children.len()),
            layers@.len() == depth + 1,
            forall|e: int, i: int|
                #![trigger layers@[e]@[i]]
                0 <= e <= depth && 0 <= i < pow2((depth - e) as nat) ==> layers@[e]@[i]@
                    == tree_node(children, e as nat, i),
            forall|e: int|
                0 <= e <= depth ==> (#[trigger] layers@[e])@.len() == pow2((depth - e) as nat),
            idx == ancestor(sel, d as nat),
            current@ == path_value(children, sel, native_order, d as nat),
            compressions@.len() == d,
            b_bits@.len() == d,
            forall|e: int|
                #![trigger compressions@[e]]
                0 <= e < d ==> compressions@[e].0@ == SHA256_IV@ && compressions@[e].1@
                    == path_block(children, sel, native_order, e as nat),
            forall|e: int|
                #![trigger b_bits@[e]]
                0 <= e < d ==> b_bits@[e] == side_bit(sel, native_order, e as nat),
    {
        proof {
            lemma_ancestor_bound(sel, depth as nat, d as nat);
        }
        let sibling_idx: usize = if idx % 2 == 0 { idx + 1 } else { idx - 1 };
        let sib: [u32; 8] = layers[d][sibling_idx];
        let is_right: bool = idx % 2 == 1;
        let place_right: bool = is_right && (native_order || d > 0);
        let m = if place_right {
            join_block(&sib, &current)
        } else {
            join_block(&current, &sib)
        };
        compressions.push((SHA256_IV, m));
        b_bits.push(place_right);
        current = sha256_compress(&SHA256_IV, &m);
        idx = idx / 2;
    }
    BinaryMerkleWitness { compressions, b_bits, leaf, root: current, native_root }
}

/// The path witnesses of `nodes`, each on its own, with the leaf on the left.
pub fn mhot_nodes_to_sha256_merkle(nodes: &[MhotNodeWitness]) -> (ws: Vec<BinaryMerkleWitness>)
    requires
        forall|i: int| 0 <= i < nodes@.len() ==> #[trigger] node_valid(nodes@[i]),
    ensures
        ws@.len() == nodes@.len(),
        forall|i: int|
            #![trigger ws@[i]]
            0 <= i < nodes@.len() ==> is_path_witness(
                ws@[i],
                nodes@[i].children@,
                nodes@[i].selected_child as nat,
                false,
            ),
{
    let mut ws: Vec<BinaryMerkleWitness> = Vec::new();
    for i in 0..nodes.len()
        invariant
            forall|j: int| 0 <= j < nodes@.len() ==> #[trigger] node_valid(nodes@[j]),
            ws@.len() == i,
            forall|j: int|
                #![trigger ws@[j]]
                0 <= j < i ==> is_path_witness(
                    ws@[j],
                    nodes@[j].children@,
                    nodes@[j].selected_child as nat,
                    false,
                ),
    {
        assert(node_valid(nodes@[i as int]));
        let w = mhot_node_to_sha256_merkle(&nodes[i], false);
        ws.push(w);
    }
    ws
}

/// Computes the root of the tree over `children`, layer by layer.
pub fn cpu_merkle_root(children_bytes: &[[u8; 32]]) -> (root: [u32; 8])
    requires
        children_bytes@.len() > 0,
        next_pow2(children_bytes@.len()) <= usize::MAX,
    ensures
        root@ == tree_root(children_bytes@),
{
    let n: usize = next_power_of_two(children_bytes.len());
    let ghost children = children_bytes@;
    let ghost depth = tree_depth(children.len());
    proof {
        lemma_ceil_log2(children.len());
        lemma2_to64();
    }
    let mut layer = tree_leaves(children_bytes, n);
    let ghost mut d: nat = 0;
    while layer.len() > 1
        invariant
            depth == tree_depth(children.len()),
            d <= depth,
            layer@.len() == pow2((depth - d) as nat),
            forall|i: int|
                0 <= i < layer@.len() ==> (#[trigger] layer@[i])@ == tree_node(children, d, i),
        decreases depth - d,
    {
        proof {
            if d == depth {
                lemma2_to64();
            }
            lemma_pow2_unfold((depth - d) as nat);
        }
        layer = parent_layer(&layer, Ghost(children), Ghost(d));
        proof {
            d = d + 1;
        }
    }
    proof {
        lemma_pow2_pos((depth - d) as nat);
        if d < depth {
            lemma_pow2_unfold((depth - d) as nat);
            lemma_pow2_pos((depth - d - 1) as nat);
        }
    }
    layer[0]
}

/// The root of the tree over one child is that child.
pub proof fn law_tree_root_of_one(children: Seq<[u8; 32]>)
    requires
        children.len() == 1,
    ensures
        tree_root(children) == be_words(children[0]@, 0, 8),
{
}

/// Whether `padded` is `children` with zero digests behind them.
pub open spec fn is_zero_padded(padded: Seq<[u8; 32]>, children: Seq<[u8; 32]>) -> bool {
    &&& children.len() <= padded.len()
    &&& forall|i: int| 0 <= i < children.len() ==> #[trigger] padded[i] == children[i]
    &&& forall|i: int|
        children.len() <= i < padded.len() ==> (#[trigger] padded[i])@ == Seq::new(
            32,
            |j: int| 0u8,
        )
}

/// The words of a zero digest are zero.
proof fn lemma_zero_digest_words(bytes: Seq<u8>)
    requires
        bytes == Seq::new(32, |j: int| 0u8),
    ensures
        be_words(bytes, 0, 8) == Seq::new(8, |j: int| 0u32),
{
    let zeros = Seq::new(8, |j: int| 0u32);
    assert(0u32 >> 24 == 0 && 0u32 >> 16 == 0 && 0u32 >> 8 == 0) by (bit_vector);
    assert(words_be(zeros) =~= bytes);
    lemma_words_of_bytes(zeros);
}

/// Trees over the same leaves, shifted by `c` subtrees of height `d`, have the
/// same nodes there.
proof fn lemma_tree_node_shift(a: Seq<[u8; 32]>, b: Seq<[u8; 32]>, d: nat, i: int, c: int)
    requires
        forall|j: int|
            i * pow2(d) <= j < (i + 1) * pow2(d) ==> #[trigger] tree_leaf(a, j) == tree_leaf(
                b,
                j + c * pow2(d),
            ),
    ensures
        tree_node(a, d, i) == tree_node(b, d, i + c),
    decreases d,
{
    if d == 0 {
        lemma2_to64();
        assert(tree_leaf(a, i) == tree_leaf(b, i + c * pow2(0)));
    } else {
        let e = (d - 1) as nat;
        lemma_pow2_unfold(d);
        let h = pow2(e) as int;
        lemma_pow2_pos(e);
        assert(i * (2 * h) == 2 * i * h && (i + 1) * (2 * h) == (2 * i + 1 + 1) * h && c * (2 * h)
            == 2 * c * h && 2 * i * h <= (2 * i + 1) * h <= (2 * i + 1 + 1) * h) by (nonlinear_arith)
            requires
                h >= 0,
        ;
        lemma_tree_node_shift(a, b, e, 2 * i, 2 * c);
        lemma_tree_node_shift(a, b, e, 2 * i + 1, 2 * c);
    }
}

/// Zero digests behind the children, up to the next power of two, do not
/// change the root of the tree.
pub proof fn law_padding_keeps_root(children: Seq<[u8; 32]>, padded: Seq<[u8; 32]>)
    requires
        children.len() > 0,
        is_zero_padded(padded, children),
        padded.len() <= next_pow2(children.len()),
    ensures
        tree_root(padded) == tree_root(children),
{
    let d = tree_depth(children.len());
    lemma_ceil_log2_mono(children.len(), padded.len());
    lemma_ceil_log2_of_bound(padded.len(), d);
    assert forall|j: int| 0 <= j < pow2(d) implies #[trigger] tree_leaf(padded, j) == tree_leaf(
        children,
        j + 0 * pow2(d),
    ) by {
        if children.len() <= j < padded.len() {
            lemma_zero_digest_words(padded[j]@);
        }
    }
    lemma_tree_node_shift(padded, children, d, 0, 0);
}

/// The root of the tree over two children or more is the hash of the roots of
/// the two halves of the padded children.
pub proof fn law_tree_root_of_halves(children: Seq<[u8; 32]>, padded: Seq<[u8; 32]>)
    requires
        children.len() >= 2,
        is_zero_padded(padded, children),
        padded.len() == next_pow2(children.len()),
    ensures
        tree_root(children) == hash_node(
            tree_root(padded.take(padded.len() as int / 2)),
            tree_root(padded.skip(padded.len() as int / 2)),
        ),
{
    let d = tree_depth(children.len());
    let e = (d - 1) as nat;
    lemma_ceil_log2(children.len());
    law_padding_keeps_root(children, padded);
    lemma_pow2_unfold(d);
    let half = padded.len() as int / 2;
    let (left, right) = (padded.take(half), padded.skip(half));
    assert(half == pow2(e));
    lemma_ceil_log2_of_pow2(e);
    lemma_ceil_log2_of_pow2(d);
    lemma_tree_node_shift(left, padded, e, 0, 0);
    lemma_tree_node_shift(right, padded, e, 0, 1);
}

/// The height of a full tree.
proof fn lemma_ceil_log2_of_pow2(k: nat)
    ensures
        ceil_log2(pow2(k)) == k,
{
    lemma_pow2_pos(k);
    lemma_ceil_log2_of_bound(pow2(k), k);
    let l = ceil_log2(pow2(k));
    lemma_ceil_log2(pow2(k));
    if l < k {
        lemma_pow2_strictly_increases(l, k);
    }
}

/// In native order the path runs along the tree: at every height it has
/// reached the tree's own node.
pub proof fn lemma_native_path_follows_tree(children: Seq<[u8; 32]>, sel: nat, d: nat)
    ensures
        path_value(children, sel, true, d) == tree_node(children, d, ancestor(sel, d) as int),
    decreases d,
{
    if d > 0 {
        lemma_native_path_follows_tree(children, sel, (d - 1) as nat);
    }
}

/// A native-order path ends at the root of its node's tree, whichever child it
/// starts from.
pub proof fn law_native_order_root(w: BinaryMerkleWitness, node: MhotNodeWitness)
    requires
        node_valid(node),
        is_path_witness(w, node.children@, node.selected_child as nat, true),
    ensures
        w.root@ == w.native_root@,
{
    let depth = tree_depth(node.children@.len());
    lemma_ceil_log2(node.children@.len());
    lemma_native_path_follows_tree(node.children@, node.selected_child as nat, depth);
    lemma_ancestor_bound(node.selected_child as nat, depth, depth);
    lemma2_to64();
}

/// Without native order the leaf is placed on the left, whichever side it is
/// on.
pub proof fn law_leaf_first_bit_clear(w: BinaryMerkleWitness, node: MhotNodeWitness)
    requires
        node_valid(node),
        is_path_witness(w, node.children@, node.selected_child as nat, false),
    ensures
        w.b_bits@.len() > 0,
        !w.b_bits@[0],
{
    lemma_ceil_log2(node.children@.len());
}

/// Where the leaf is a left child the two orders build the same path.
pub proof fn law_orders_agree_on_left_leaf(children: Seq<[u8; 32]>, sel: nat, d: nat)
    requires
        sel % 2 == 0,
    ensures
        side_bit(sel, false, d) == side_bit(sel, true, d),
        path_value(children, sel, false, d) == path_value(children, sel, true, d),
        path_block(children, sel, false, d) == path_block(children, sel, true, d),
    decreases d,
{
    if d > 0 {
        law_orders_agree_on_left_leaf(children, sel, (d - 1) as nat);
    }
}

/// The root of a node's tree does not depend on the selected child.
pub proof fn law_native_root_independent_of_selection(
    w1: BinaryMerkleWitness,
    w2: BinaryMerkleWitness,
    children: Seq<[u8; 32]>,
    sel1: nat,
    sel2: nat,
    order1: bool,
    order2: bool,
)
    requires
        is_path_witness(w1, children, sel1, order1),
        is_path_witness(w2, children, sel2, order2),
    ensures
        w1.native_root@ == w2.native_root@,
{
}

/// The ancestor of a place `d` levels up is the place over two to the `d`.
pub proof fn law_ancestor(i: nat, d: nat)
    ensures
        ancestor(i, d) == i / pow2(d),
    decreases d,
{
    if d == 0 {
        lemma2_to64();
        let p = pow2(0);
        assert(i / p == i) by (nonlinear_arith)
            requires
                p == 1,
        ;
    } else {
        let h = (d - 1) as nat;
        law_ancestor(i, h);
        lemma_pow2_unfold(d);
        lemma_pow2_pos(h);
        lemma_div_denominator(i as int, pow2(h) as int, 2);
        assert(pow2(h) as int * 2 == pow2(d));
        assert(ancestor(i, d) == i / pow2(h) / 2);
    }
}

/// A tree: at the bottom the words of the children, most significant byte
/// first, and zeros past the last; above, one compression from the initial
/// value over the two below.
pub proof fn law_tree_nodes(children: Seq<[u8; 32]>, d: nat, i: int, j: int)
    requires
        0 <= i,
        0 <= j < 8,
    ensures
        tree_node(children, 0, i).len() == 8,
        tree_node(children, 0, i)[j] == if i < children.len() {
            0x100_0000 * children[i]@[4 * j] + 0x1_0000 * children[i]@[4 * j + 1] + 0x100
                * children[i]@[4 * j + 2] + children[i]@[4 * j + 3]
        } else {
            0
        },
        tree_node(children, d + 1, i) == compress(
            SHA256_IV@,
            tree_node(children, d, 2 * i) + tree_node(children, d, 2 * i + 1),
        ),
{
    if i < children.len() {
        law_be_word_value(children[i]@, 4 * j);
    }
}

/// A path of a node, level by level: each compression joins the value below
/// it with its sibling, the sibling first where the side bit is set; the side
/// bit is the bit of the selected place at that level, but clear at the bottom
/// outside the native order.
#[verifier::rlimit(40)]
pub proof fn law_path_witness_level(
    w: BinaryMerkleWitness,
    node: MhotNodeWitness,
    native_order: bool,
    d: int,
)
    requires
        node_valid(node),
        is_path_witness(w, node.children@, node.selected_child as nat, native_order),
        0 <= d < w.compressions@.len(),
    ensures
        w.b_bits@.len() == w.compressions@.len(),
        pow2((w.compressions@.len() - 1) as nat) < node.children@.len() <= pow2(
            w.compressions@.len(),
        ),
        w.compressions@[d].0@ == SHA256_IV@,
        ({
            let place = (node.selected_child as nat / pow2(d as nat)) as int;
            let own = if d == 0 {
                w.leaf@
            } else {
                compress(w.compressions@[d - 1].0@, w.compressions@[d - 1].1@)
            };
            let sib = tree_node(
                node.children@,
                d as nat,
                if place % 2 == 1 {
                    place - 1
                } else {
                    place + 1
                },
            );
            &&& w.b_bits@[d] == (place % 2 == 1 && (native_order || d > 0))
            &&& w.compressions@[d].1@ == if w.b_bits@[d] {
                sib + own
            } else {
                own + sib
            }
        }),
        w.leaf@ == tree_node(node.children@, 0, node.selected_child as int),
        w.root@ == compress(w.compressions@.last().0@, w.compressions@.last().1@),
        w.native_root@ == tree_node(node.children@, w.compressions@.len(), 0),
{
    let sel = node.selected_child as nat;
    law_ancestor(sel, d as nat);
    lemma_ceil_log2(node.children@.len());
    let c = w.compressions@;
    assert(c[d].0@ == SHA256_IV@);
    assert(w.b_bits@[d] == side_bit(sel, native_order, d as nat));
    lemma_path_value_below(w, node, native_order, d as nat);
    lemma_path_value_below(w, node, native_order, c.len());
    assert(c[d].1@ == path_block(node.children@, sel, native_order, d as nat));
}

proof fn lemma_path_value_below(
    w: BinaryMerkleWitness,
    node: MhotNodeWitness,
    native_order: bool,
    d: nat,
)
    requires
        is_path_witness(w, node.children@, node.selected_child as nat, native_order),
        d <= w.compressions@.len(),
    ensures
        path_value(node.children@, node.selected_child as nat, native_order, d) == if d == 0 {
            w.leaf@
        } else {
            compress(w.compressions@[d - 1].0@, w.compressions@[d - 1].1@)
        },
{
    if d > 0 {
        assert(w.compressions@[d - 1].0@ == SHA256_IV@);
    }
}

/// The root of a tree is its node at the top of the least depth that holds all
/// children.
pub proof fn law_tree_root(children: Seq<[u8; 32]>, depth: nat)
    requires
        children.len() >= 1,
        children.len() <= pow2(depth),
        depth > 0 ==> pow2((depth - 1) as nat) < children.len(),
    ensures
        tree_root(children) == tree_node(children, depth, 0),
{
    lemma_ceil_log2_of_bound(children.len(), depth);
    lemma_ceil_log2(children.len());
    if ceil_log2(children.len()) < depth {
        crate::math::lemma_pow2_mono(ceil_log2(children.len()), (depth - 1) as nat);
    }
}

} // verus!
