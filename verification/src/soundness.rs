//! What an accepted proof says of a trie. A digest binds what it is taken of
//! only as far as no two of the hashed messages collide, so each law names the
//! messages that have to be told apart: one of the proof's, and the one that
//! the trie has in its place.

use vstd::arithmetic::power2::{lemma2_to64, lemma_pow2_unfold, pow2};
use vstd::prelude::*;

use crate::backend::{index_point, packed_words, PackedDirectClaim};
use crate::bits::{all_bits, bit_at};
use crate::bytes::{dwords_le, le64, lemma_split, lemma_words_of_bytes, words_be, words_le};
use crate::content::is_compact;
use crate::entry_binding::{
    bits_value, discriminative_bits, leaf_preimage, routed_child, PathEntry,
};
use crate::membership_proof::{
    chain_consistent, is_output_claim, is_output_claims, leaf_outputs, ContentChainProof,
};
use crate::merkle_membership::{
    chain_pad, element_words, pad_value, route_bits, zero_block, zero_words, Meta,
};
use crate::native_witness::{ancestor, hash_node, tree_depth, tree_leaf, tree_node, tree_root};
use crate::r1cs::{block_holds, matrix_rows, F128};
use crate::route_f32::{
    law_checks_are_compactness, law_route_selects_spelled_child, law_satisfying_block_is_filled,
    route_of, spelled_index,
};
use crate::route_f32_setup::RouteF32Setup;
use crate::sha256::{compress, sha256_words, Compression, SHA256_IV};
use crate::sound_laws::{
    block_linked, form_paths, holds_on_side, lemma_dwords_le_injective, lemma_words_le_injective,
};
use crate::sound_multiproof::{
    is_shift_statement, law_verified_entries_are_members, lemma_binding, lemma_form,
    ShiftStatement, SoundMultiproof, SoundReplies,
};

verus! {

/// Whether SHA-256 tells two messages apart.
pub open spec fn messages_apart(a: Seq<u8>, b: Seq<u8>) -> bool {
    sha256_words(a) == sha256_words(b) ==> a == b
}

/// Whether the compression tells two blocks apart.
pub open spec fn blocks_apart(a: Seq<u32>, b: Seq<u32>) -> bool {
    compress(SHA256_IV@, a) == compress(SHA256_IV@, b) ==> a == b
}

/// A number is its lowest bit and twice the number that the others write.
proof fn lemma_bits_value_front(bits: Seq<bool>)
    requires
        bits.len() > 0,
    ensures
        bits_value(bits) == 2 * bits_value(bits.skip(1)) + if bits[0] {
            1int
        } else {
            0
        },
    decreases bits.len(),
{
    let n = bits.len();
    lemma2_to64();
    if n == 1 {
        assert(bits.drop_last() =~= Seq::<bool>::empty());
        assert(bits.skip(1) =~= Seq::<bool>::empty());
    } else {
        let init = bits.drop_last();
        lemma_bits_value_front(init);
        assert(init.skip(1) =~= bits.skip(1).drop_last());
        assert(bits.skip(1).last() == bits.last());
        lemma_pow2_unfold((n - 1) as nat);
    }
}

/// Halving the number that bits write drops the lowest of them.
proof fn lemma_ancestor_of_bits(bits: Seq<bool>, d: nat)
    requires
        d <= bits.len(),
    ensures
        ancestor(bits_value(bits), d) == bits_value(bits.skip(d as int)),
    decreases d,
{
    if d == 0 {
        assert(bits.skip(0) =~= bits);
    } else {
        lemma_ancestor_of_bits(bits, (d - 1) as nat);
        let rest = bits.skip(d - 1);
        lemma_bits_value_front(rest);
        assert(rest.skip(1) =~= bits.skip(d as int));
    }
}

/// The value that a path to a tree padded to eight blocks has to have before
/// position `d`.
pub open spec fn genuine_value(children: Seq<[u8; 32]>, sel: nat, d: nat) -> Seq<u32> {
    let depth = tree_depth(children.len());
    if d < depth {
        tree_node(children, d, ancestor(sel, d) as int)
    } else {
        pad_value(tree_root(children), (d - depth) as nat)
    }
}

/// The block that such a path has to have at position `d`: the two nodes of
/// the tree below the one that it comes to, or a padding block.
pub open spec fn genuine_block(children: Seq<[u8; 32]>, sel: nat, d: nat) -> Seq<u32> {
    if d < tree_depth(children.len()) {
        let above = ancestor(sel, d + 1) as int;
        tree_node(children, d, 2 * above) + tree_node(children, d, 2 * above + 1)
    } else {
        genuine_value(children, sel, d) + zero_words()
    }
}

/// What eight blocks have come to before position `d`.
pub open spec fn walked(leaf: Seq<u32>, blocks: Seq<Seq<u32>>, d: nat) -> Seq<u32> {
    if d == 0 {
        leaf
    } else {
        compress(SHA256_IV@, blocks[d - 1])
    }
}

/// Whether eight blocks lead from a leaf to a root along these sides.
pub open spec fn leads(
    leaf: Seq<u32>,
    blocks: Seq<Seq<u32>>,
    sides: Seq<bool>,
    root: Seq<u32>,
) -> bool {
    &&& blocks.len() == 8
    &&& sides.len() == 8
    &&& forall|d: int|
        0 <= d < 8 ==> holds_on_side(#[trigger] blocks[d], sides[d], walked(leaf, blocks, d as nat))
    &&& walked(leaf, blocks, 8) == root
}

/// Whether no block collides with the one that the tree has in its place, and
/// none comes to eight zero words.
pub open spec fn blocks_clear(
    blocks: Seq<Seq<u32>>,
    children: Seq<[u8; 32]>,
    sel: nat,
) -> bool {
    forall|d: int|
        0 <= d < 8 ==> blocks_apart(#[trigger] blocks[d], genuine_block(children, sel, d as nat))
            && compress(SHA256_IV@, blocks[d]) != zero_words()
}

proof fn lemma_value_len(children: Seq<[u8; 32]>, d: nat, i: int)
    ensures
        tree_node(children, d, i).len() == 8,
{
    crate::native_witness::lemma_tree_node_len(children, d, i);
}

proof fn lemma_genuine_step(children: Seq<[u8; 32]>, sel: nat, d: nat)
    requires
        d < 8,
        ancestor(sel, tree_depth(children.len())) == 0,
    ensures
        genuine_value(children, sel, d + 1) == compress(
            SHA256_IV@,
            genuine_block(children, sel, d),
        ),
        genuine_value(children, sel, d).len() == 8,
        genuine_block(children, sel, d).len() == 16,
{
    let depth = tree_depth(children.len());
    lemma_value_len(children, depth, 0);
    if d < depth {
        let above = ancestor(sel, d + 1) as int;
        lemma_value_len(children, d, ancestor(sel, d) as int);
        lemma_value_len(children, d, 2 * above);
        lemma_value_len(children, d, 2 * above + 1);
        assert(tree_node(children, d + 1, above) == hash_node(
            tree_node(children, d, 2 * above),
            tree_node(children, d, 2 * above + 1),
        ));
        if d + 1 == depth {
            assert(above == 0);
            assert(pad_value(tree_root(children), 0) == tree_root(children));
        }
    } else {
        let k = (d - depth) as nat;
        crate::sound_laws::lemma_pad_value_len(tree_root(children), k);
        assert(pad_value(tree_root(children), k + 1) == hash_node(
            pad_value(tree_root(children), k),
            zero_words(),
        ));
    }
}

/// On the side that a path's bit gives, the block that the tree has holds the
/// path's own value.
proof fn lemma_own_half(children: Seq<[u8; 32]>, bits: Seq<bool>, d: nat)
    requires
        d < bits.len(),
        bits.len() == tree_depth(children.len()),
    ensures
        ({
            let sel = bits_value(bits);
            let block = genuine_block(children, sel, d);
            genuine_value(children, sel, d) == if bits[d as int] {
                block.subrange(8, 16)
            } else {
                block.subrange(0, 8)
            }
        }),
{
    let sel = bits_value(bits);
    let above = ancestor(sel, d + 1) as int;
    let (left, right) = (tree_node(children, d, 2 * above), tree_node(children, d, 2 * above + 1));
    lemma_value_len(children, d, 2 * above);
    lemma_value_len(children, d, 2 * above + 1);
    assert((left + right).subrange(0, 8) =~= left);
    assert((left + right).subrange(8, 16) =~= right);
    lemma_ancestor_of_bits(bits, d);
    lemma_bits_value_front(bits.skip(d as int));
    assert(bits.skip(d as int)[0] == bits[d as int]);
}

/// Behind the tree the left half of a block holds the path's own value, and the
/// right half zeros.
proof fn lemma_padding_halves(children: Seq<[u8; 32]>, sel: nat, d: nat)
    requires
        tree_depth(children.len()) <= d,
        genuine_value(children, sel, d).len() == 8,
    ensures
        genuine_block(children, sel, d).subrange(0, 8) == genuine_value(children, sel, d),
        genuine_block(children, sel, d).subrange(8, 16) == zero_words(),
{
    let own = genuine_value(children, sel, d);
    assert((own + zero_words()).subrange(0, 8) =~= own);
    assert((own + zero_words()).subrange(8, 16) =~= zero_words());
}

proof fn lemma_walk_is_genuine(
    leaf: Seq<u32>,
    blocks: Seq<Seq<u32>>,
    sides: Seq<bool>,
    children: Seq<[u8; 32]>,
    sel: nat,
    d: nat,
)
    requires
        d <= 8,
        0 < tree_depth(children.len()) <= 8,
        sel == bits_value(sides.take(tree_depth(children.len()) as int)),
        leads(
            leaf,
            blocks,
            sides,
            pad_value(tree_root(children), (8 - tree_depth(children.len())) as nat),
        ),
        blocks_clear(blocks, children, sel),
    ensures
        walked(leaf, blocks, d) == genuine_value(children, sel, d),
    decreases 8 - d,
{
    let depth = tree_depth(children.len());
    let bits = sides.take(depth as int);
    if d < 8 {
        lemma_walk_is_genuine(leaf, blocks, sides, children, sel, d + 1);
        assert(ancestor(sel, depth) == 0) by {
            lemma_ancestor_of_bits(bits, depth);
            assert(bits.skip(depth as int) =~= Seq::<bool>::empty());
        }
        lemma_genuine_step(children, sel, d);
        let block = blocks[d as int];
        let genuine = genuine_block(children, sel, d);
        assert(blocks_apart(block, genuine));
        assert(block == genuine);
        assert(holds_on_side(block, sides[d as int], walked(leaf, blocks, d)));
        if d < depth {
            lemma_own_half(children, bits, d);
            assert(bits[d as int] == sides[d as int]);
        } else {
            lemma_padding_halves(children, sel, d);
            assert(compress(SHA256_IV@, blocks[d - 1]) != zero_words());
        }
    }
}

/// Eight blocks that lead from a leaf to the padded root of a node's tree
/// start at the child that their sides write.
pub proof fn law_path_binds_child(
    leaf: Seq<u32>,
    blocks: Seq<Seq<u32>>,
    sides: Seq<bool>,
    children: Seq<[u8; 32]>,
)
    requires
        2 <= children.len(),
        tree_depth(children.len()) <= 8,
        leads(
            leaf,
            blocks,
            sides,
            pad_value(tree_root(children), (8 - tree_depth(children.len())) as nat),
        ),
        blocks_clear(
            blocks,
            children,
            bits_value(sides.take(tree_depth(children.len()) as int)),
        ),
    ensures
        leaf == tree_leaf(
            children,
            bits_value(sides.take(tree_depth(children.len()) as int)) as int,
        ),
{
    let sel = bits_value(sides.take(tree_depth(children.len()) as int));
    assert(tree_depth(children.len()) > 0) by {
        crate::math::lemma_ceil_log2(children.len());
        lemma2_to64();
    }
    lemma_walk_is_genuine(leaf, blocks, sides, children, sel, 0);
}

/// Whether content has four masks, and a key and a count for each child.
pub open spec fn content_formed(m: Meta) -> bool {
    &&& m.masks.len() == 4
    &&& m.keys.len() == m.counts.len()
}

/// What a content hash is taken of tells the content and the root of the tree.
pub proof fn lemma_preimage_binds(a: Meta, ra: Seq<u8>, b: Meta, rb: Seq<u8>)
    requires
        content_formed(a),
        content_formed(b),
        ra.len() == 32,
        rb.len() == 32,
        a.preimage(ra) == b.preimage(rb),
    ensures
        a == b,
        ra == rb,
{
    let (ma, mb) = (dwords_le(a.masks), dwords_le(b.masks));
    let (ka, kb) = (words_le(a.keys), words_le(b.keys));
    let (ca, cb) = (words_le(a.counts), words_le(b.counts));
    assert(a.preimage(ra) == ma + ka + ra + ca);
    assert(b.preimage(rb) == mb + kb + rb + cb);
    assert(ma.len() == 32 && mb.len() == 32);
    assert(ka.len() == 4 * a.keys.len() && kb.len() == 4 * b.keys.len());
    assert(ca.len() == 4 * a.keys.len() && cb.len() == 4 * b.keys.len());
    assert((ma + ka + ra + ca).len() == (mb + kb + rb + cb).len());
    assert(a.keys.len() == b.keys.len());
    assert(ma + ka + ra + ca =~= ma + (ka + (ra + ca)));
    assert(mb + kb + rb + cb =~= mb + (kb + (rb + cb)));
    lemma_split(ma, ka + (ra + ca), mb, kb + (rb + cb));
    lemma_split(ka, ra + ca, kb, rb + cb);
    lemma_split(ra, ca, rb, cb);
    lemma_dwords_le_injective(a.masks, b.masks);
    lemma_words_le_injective(a.keys, b.keys);
    lemma_words_le_injective(a.counts, b.counts);
}

/// The content hash of a node binds its content and the root of its tree.
pub proof fn law_content_hash_binds(a: Meta, root_a: Seq<u32>, b: Meta, root_b: Seq<u32>)
    requires
        content_formed(a),
        content_formed(b),
        root_a.len() == 8,
        root_b.len() == 8,
        a.content_hash(root_a) == b.content_hash(root_b),
        messages_apart(a.preimage(words_be(root_a)), b.preimage(words_be(root_b))),
    ensures
        a == b,
        root_a == root_b,
{
    lemma_preimage_binds(a, words_be(root_a), b, words_be(root_b));
    lemma_words_of_bytes(root_a);
    lemma_words_of_bytes(root_b);
}

/// The digest of a leaf binds its key and its value.
pub proof fn law_leaf_hash_binds(a: PathEntry, b: PathEntry)
    requires
        a.value@.len() <= u64::MAX,
        b.value@.len() <= u64::MAX,
        sha256_words(leaf_preimage(a.key@, a.value@)) == sha256_words(
            leaf_preimage(b.key@, b.value@),
        ),
        messages_apart(leaf_preimage(a.key@, a.value@), leaf_preimage(b.key@, b.value@)),
    ensures
        a.key@ == b.key@,
        a.value@ == b.value@,
{
    let (la, lb) = (le64(a.value@.len() as u64), le64(b.value@.len() as u64));
    assert(a.key@ + la + a.value@ =~= a.key@ + (la + a.value@));
    assert(b.key@ + lb + b.value@ =~= b.key@ + (lb + b.value@));
    lemma_split(a.key@, la + a.value@, b.key@, lb + b.value@);
    lemma_split(la, a.value@, lb, b.value@);
}

/// A node of a trie: its content and the digests of its children.
pub struct TrieNode {
    pub meta: Meta,
    pub children: Seq<[u8; 32]>,
}

impl TrieNode {
    /// Whether this is a node: two to thirty-two children, with content for each.
    pub open spec fn formed(self) -> bool {
        &&& 2 <= self.children.len() <= 32
        &&& content_formed(self.meta)
        &&& self.meta.keys.len() == self.children.len()
    }

    /// The words of the node's content hash.
    pub open spec fn hash(self) -> Seq<u32> {
        self.meta.content_hash(tree_root(self.children))
    }

    /// The child that a key routes to.
    pub open spec fn routed(self, key: Seq<u8>) -> nat {
        routed_child(
            bits_value(discriminative_bits(key, self.meta.masks)) as u32,
            self.meta.keys,
        )
    }

    /// The words of the digest of the child that a key routes to.
    pub open spec fn child(self, key: Seq<u8>) -> Seq<u32> {
        tree_leaf(self.children, self.routed(key) as int)
    }
}

/// Whether `trie` is the way of a key through a trie, from the node with this
/// content hash down: each node is the child of the one before it that the key
/// routes to, and has more than one leaf below it.
pub open spec fn is_way(trie: Seq<TrieNode>, key: Seq<u8>, root: Seq<u32>) -> bool {
    &&& trie.len() > 0
    &&& trie[0].hash() == root
    &&& forall|j: int| 0 <= j < trie.len() ==> (#[trigger] trie[j]).formed()
    &&& forall|j: int|
        #![trigger trie[j]]
        0 <= j && j + 1 < trie.len() ==> trie[j].child(key) == trie[j + 1].hash()
            && trie[j].meta.counts[trie[j].routed(key) as int] != 1
}

/// The blocks that are committed for pair `i`.
pub open spec fn pair_blocks(comps: Seq<Compression>, i: int) -> Seq<Seq<u32>> {
    Seq::new(8, |d: int| comps[8 * i + d].1@)
}

/// Whether nothing that is hashed for pair `i` collides with what is hashed in
/// its place for a node of a trie.
pub open spec fn pair_clear(
    proof: SoundMultiproof,
    comps: Seq<Compression>,
    i: int,
    node: TrieNode,
) -> bool {
    let p = proof.pair_phys@[i] as int;
    &&& messages_apart(
        proof.content_metas@[p]@.preimage(words_be(proof.merkle_native_roots@[p]@)),
        node.meta.preimage(words_be(tree_root(node.children))),
    )
    &&& blocks_clear(pair_blocks(comps, i), node.children, proof.selected(i))
}

/// Whether pair `i` is of a node of a trie.
pub open spec fn pair_is(proof: SoundMultiproof, i: int, node: TrieNode) -> bool {
    let p = proof.pair_phys@[i] as int;
    &&& proof.content_metas@[p]@ == node.meta
    &&& proof.merkle_native_roots@[p]@ == tree_root(node.children)
}

proof fn lemma_pair_leads(
    proof: SoundMultiproof,
    root: [u32; 8],
    min_n: nat,
    comps: Seq<Compression>,
    st: ShiftStatement,
    i: int,
)
    requires
        proof.form(root, min_n) is Ok,
        proof.binding_verdict(root) is Ok,
        is_shift_statement(st, proof),
        form_paths(comps, st),
        0 <= i < proof.pairs(),
    ensures
        leads(
            proof.merkle_leaves@[i]@,
            pair_blocks(comps, i),
            proof.merkle_b_bits@[i]@,
            proof.merkle_roots@[proof.pair_phys@[i] as int]@,
        ),
{
    lemma_form(proof, root, min_n);
    let blocks = pair_blocks(comps, i);
    let sides = proof.merkle_b_bits@[i]@;
    let leaf = proof.merkle_leaves@[i]@;
    assert(sides.len() == 8);
    assert(i < st.leaves@.len());
    assert(st.leaves@[i]@ == leaf);
    assert(st.roots@[i]@ == proof.merkle_roots@[proof.pair_phys@[i] as int]@);
    assert forall|d: int| 0 <= d < 8 implies holds_on_side(
        #[trigger] blocks[d],
        sides[d],
        walked(leaf, blocks, d as nat),
    ) by {
        let k = 8 * i + d;
        assert(block_linked(comps, st, k));
        assert(k / 8 == i && k % 8 == d);
        assert(st.b_bits@[k] == sides[d]);
        if d > 0 {
            assert(blocks[d - 1] == comps[k - 1].1@);
        }
    }
    assert(blocks[7] == comps[8 * i + 7].1@);
}

/// What an accepted form and binding say of pair `i`.
proof fn lemma_pair_formed(proof: SoundMultiproof, root: [u32; 8], min_n: nat, i: int)
    requires
        proof.form(root, min_n) is Ok,
        proof.binding_verdict(root) is Ok,
        0 <= i < proof.pairs(),
    ensures
        ({
            let p = proof.pair_phys@[i] as int;
            let meta = proof.content_metas@[p]@;
            &&& proof.merkle_b_bits@[i]@.len() == 8
            &&& content_formed(meta)
            &&& 2 <= meta.keys.len() <= 32
            &&& pad_value(
                proof.merkle_native_roots@[p]@,
                (8 - tree_depth(meta.keys.len())) as nat,
            ) == proof.merkle_roots@[p]@
        }),
{
    lemma_form(proof, root, min_n);
    lemma_binding(proof, root);
    let p = proof.pair_phys@[i] as int;
    assert(proof.node_formed(p) && proof.merkle_block_counts@[p] == 8);
    assert(proof.root_padded(p)) by {
        let r = proof.merkle_roots@[p];
    }
}

/// The child that pair `i` selects is written by the sides of its path.
proof fn lemma_selected_is_written(proof: SoundMultiproof, i: int, depth: nat)
    requires
        proof.merkle_b_bits@[i]@.len() == 8,
        depth <= 8,
        proof.depth(proof.pair_phys@[i] as int) == depth,
    ensures
        proof.selected(i) == bits_value(proof.merkle_b_bits@[i]@.take(depth as int)),
{
    let sides = proof.merkle_b_bits@[i]@;
    assert(Seq::new(depth, |d: int| proof.side(i, d)) =~= sides.take(depth as int));
}

/// A pair of an accepted proof whose node has the content hash of a node of a
/// trie is of that node, and what it selects is the child at the index that
/// its sides write.
pub proof fn law_accepted_pair_is_genuine(
    proof: SoundMultiproof,
    root: [u32; 8],
    min_n: nat,
    replies: SoundReplies,
    comps: Seq<Compression>,
    st: ShiftStatement,
    i: int,
    node: TrieNode,
)
    requires
        proof.verdict(root, min_n, replies) is Ok,
        is_shift_statement(st, proof),
        form_paths(comps, st),
        0 <= i < proof.pairs(),
        node.formed(),
        proof.pair_hash(i) == node.hash(),
        pair_clear(proof, comps, i, node),
    ensures
        pair_is(proof, i, node),
        proof.merkle_leaves@[i]@ == tree_leaf(node.children, proof.selected(i) as int),
{
    let p = proof.pair_phys@[i] as int;
    let depth = tree_depth(node.children.len());
    lemma_pair_formed(proof, root, min_n, i);
    lemma_value_len(node.children, depth, 0);
    law_content_hash_binds(
        proof.content_metas@[p]@,
        proof.merkle_native_roots@[p]@,
        node.meta,
        tree_root(node.children),
    );
    assert(depth <= 5) by {
        lemma2_to64();
        crate::math::lemma_ceil_log2_of_bound(node.children.len(), 5);
    }
    lemma_pair_leads(proof, root, min_n, comps, st, i);
    lemma_selected_is_written(proof, i, depth);
    law_path_binds_child(
        proof.merkle_leaves@[i]@,
        pair_blocks(comps, i),
        proof.merkle_b_bits@[i]@,
        node.children,
    );
}

proof fn lemma_way_is_followed(
    proof: SoundMultiproof,
    root: [u32; 8],
    entries: Seq<PathEntry>,
    min_n: nat,
    replies: SoundReplies,
    comps: Seq<Compression>,
    st: ShiftStatement,
    p: int,
    trie: Seq<TrieNode>,
    j: int,
)
    requires
        proof.verdict_with_entries(root, entries, min_n, replies) is Ok,
        is_shift_statement(st, proof),
        form_paths(comps, st),
        0 <= p < proof.paths(),
        is_way(trie, entries[p].key@, root@),
        proof.path(p).len() <= trie.len(),
        forall|k: int|
            0 <= k < proof.path(p).len() ==> pair_clear(
                proof,
                comps,
                proof.path(p)[k] as int,
                #[trigger] trie[k],
            ),
        0 <= j < proof.path(p).len(),
    ensures
        pair_is(proof, proof.path(p)[j] as int, trie[j]),
        proof.selected(proof.path(p)[j] as int) == trie[j].routed(entries[p].key@),
        proof.merkle_leaves@[proof.path(p)[j] as int]@ == trie[j].child(entries[p].key@),
    decreases j,
{
    law_verified_entries_are_members(proof, root, entries, min_n, replies);
    let i = proof.path(p)[j] as int;
    let key = entries[p].key@;
    assert(i < proof.pairs());
    assert(trie[j].formed());
    if j > 0 {
        lemma_way_is_followed(
            proof,
            root,
            entries,
            min_n,
            replies,
            comps,
            st,
            p,
            trie,
            j - 1,
        );
        assert(trie[j - 1].child(key) == trie[j - 1 + 1].hash());
        assert(proof.merkle_leaves@[proof.path(p)[j - 1] as int]@ == proof.pair_hash(
            proof.path(p)[j - 1 + 1] as int,
        ));
    } else {
        assert(proof.pair_hash(proof.path(p)[0] as int) == root@);
    }
    law_accepted_pair_is_genuine(proof, root, min_n, replies, comps, st, i, trie[j]);
    assert(proof.matched(key, i) == proof.selected(i));
}

/// An accepted entry is a member of the trie: its key leads, from the node with
/// the root's content hash, through exactly the nodes of its path, and the
/// child that it comes to in the last of them has the entry's digest. The
/// committed blocks are those that the proof system has accepted as forming
/// the paths; a path is not longer than the way of the key.
pub proof fn law_accepted_entry_is_in_trie(
    proof: SoundMultiproof,
    root: [u32; 8],
    entries: Seq<PathEntry>,
    min_n: nat,
    replies: SoundReplies,
    comps: Seq<Compression>,
    st: ShiftStatement,
    p: int,
    trie: Seq<TrieNode>,
)
    requires
        proof.verdict_with_entries(root, entries, min_n, replies) is Ok,
        is_shift_statement(st, proof),
        form_paths(comps, st),
        0 <= p < proof.paths(),
        is_way(trie, entries[p].key@, root@),
        proof.path(p).len() <= trie.len(),
        forall|k: int|
            0 <= k < proof.path(p).len() ==> pair_clear(
                proof,
                comps,
                proof.path(p)[k] as int,
                #[trigger] trie[k],
            ),
    ensures
        proof.path(p).len() == trie.len(),
        forall|j: int|
            #![trigger trie[j]]
            0 <= j < trie.len() ==> pair_is(proof, proof.path(p)[j] as int, trie[j])
                && proof.selected(proof.path(p)[j] as int) == trie[j].routed(entries[p].key@),
        trie.last().meta.counts[trie.last().routed(entries[p].key@) as int] == 1,
        trie.last().child(entries[p].key@) == sha256_words(
            leaf_preimage(entries[p].key@, entries[p].value@),
        ),
{
    law_verified_entries_are_members(proof, root, entries, min_n, replies);
    let n = proof.path(p).len();
    assert(n > 0);
    assert forall|j: int| #![trigger trie[j]] 0 <= j < n implies pair_is(
        proof,
        proof.path(p)[j] as int,
        trie[j],
    ) && proof.selected(proof.path(p)[j] as int) == trie[j].routed(entries[p].key@) by {
        lemma_way_is_followed(proof, root, entries, min_n, replies, comps, st, p, trie, j);
    }
    lemma_way_is_followed(proof, root, entries, min_n, replies, comps, st, p, trie, n - 1);
    assert(proof.ends_at(p, entries[p]));
    assert(proof.path(p).last() == proof.path(p)[n - 1]);
    if n < trie.len() {
        assert(trie[n - 1].meta.counts[trie[n - 1].routed(entries[p].key@) as int] != 1);
    }
}

/// Whether the compression tells apart two chaining values with their blocks.
pub open spec fn steps_apart(cv1: Seq<u32>, m1: Seq<u32>, cv2: Seq<u32>, m2: Seq<u32>) -> bool {
    compress(cv1, m1) == compress(cv2, m2) ==> cv1 == cv2 && m1 == m2
}

/// Whether each compression starts from what the one before it comes to, and
/// the last comes to `out`.
pub open spec fn chain_leads(chain: Seq<Compression>, out: Seq<u32>) -> bool {
    &&& chain.len() > 0
    &&& forall|k: int|
        0 <= k && k + 1 < chain.len() ==> (#[trigger] chain[k + 1]).0@ == compress(
            chain[k].0@,
            chain[k].1@,
        )
    &&& compress(chain.last().0@, chain.last().1@) == out
}

/// What a chain has come to after `k` compressions.
pub open spec fn chain_output(chain: Seq<Compression>, k: int) -> Seq<u32> {
    compress(chain[k - 1].0@, chain[k - 1].1@)
}

/// The content hash of a node's proof is what its chain comes to after the
/// blocks that are not padding, where the chain leads to the proof's last
/// value and no padding step collides with another step.
pub proof fn law_chain_binds_content_hash(cp: ContentChainProof, chain: Seq<Compression>, k: int)
    requires
        chain_consistent(cp),
        chain.len() == cp.n_compressions,
        chain_leads(chain, cp.cv_last@),
        0 < cp.n_real_compressions <= k <= chain.len(),
        forall|d: int|
            cp.n_real_compressions <= d < chain.len() ==> steps_apart(
                (#[trigger] chain[d]).0@,
                chain[d].1@,
                chain_pad(cp.content_hash@, (d - cp.n_real_compressions) as nat),
                zero_block(),
            ),
    ensures
        chain_output(chain, k) == chain_pad(
            cp.content_hash@,
            (k - cp.n_real_compressions) as nat,
        ),
        k == cp.n_real_compressions ==> chain_output(chain, k) == cp.content_hash@,
    decreases chain.len() - k,
{
    if k < chain.len() {
        law_chain_binds_content_hash(cp, chain, k + 1);
        assert(chain[k - 1 + 1].0@ == compress(chain[k - 1].0@, chain[k - 1].1@));
    }
}

/// Whether packed values hold what claims say of them.
pub open spec fn opened(z: Seq<F128>, claims: Seq<PackedDirectClaim>, m: nat) -> bool {
    forall|k: int, index: int|
        #![trigger claims[k], z[index]]
        0 <= k < claims.len() && 0 <= index < z.len() && claims[k].point@ == index_point(
            index as nat,
            (m - 7) as nat,
        ) ==> z[index] == claims[k].value
}

/// Bit `j` of two packed elements stands where the output of a block stands.
proof fn lemma_output_bit(z: Seq<F128>, i: int, j: int)
    requires
        0 <= i,
        256 * i + 148 <= z.len(),
        0 <= j < 256,
    ensures
        all_bits(packed_words(z))[32768 * i + 18688 + j] == if j < 128 {
            bit_at(element_words(z[256 * i + 146]), j)
        } else {
            bit_at(element_words(z[256 * i + 147]), j - 128)
        },
{
    let words = packed_words(z);
    let p = 32768 * i + 18688 + j;
    let w = 512 * i + 292 + j / 64;
    assert(p / 64 == w && p % 64 == j % 64);
    if j < 128 {
        assert(words[w] == element_words(z[256 * i + 146])[j / 64]);
    } else {
        assert((j - 128) / 64 == j / 64 - 2 && (j - 128) % 64 == j % 64);
        assert(words[w] == element_words(z[256 * i + 147])[j / 64 - 2]);
    }
}

/// Routes that satisfy their relation, and put out what the claims on some
/// leaves say, select these leaves: each route is compact, and the child that
/// its key spells has the digest of its leaf.
pub proof fn law_opened_routes_select_leaves(
    setup: RouteF32Setup,
    n: nat,
    z: Seq<F128>,
    leaves: Seq<[u32; 8]>,
    claims: Seq<PackedDirectClaim>,
    i: int,
)
    requires
        setup.is_setup_of(n),
        z.len() == 256 * setup.r1cs.blocks(),
        setup.r1cs.holds(all_bits(packed_words(z))),
        setup.r1cs.pinned(all_bits(packed_words(z))),
        is_output_claims(claims, leaf_outputs(leaves), setup.r1cs.m as nat),
        opened(z, claims, setup.r1cs.m as nat),
        0 <= i < leaves.len() <= setup.r1cs.blocks(),
    ensures
        ({
            let r = route_of(all_bits(packed_words(z)), 32768 * i);
            &&& is_compact(r.key, r.mask)
            &&& r.children[spelled_index(r)] == route_bits(words_be(leaves[i]@))
        }),
{
    let bits = all_bits(packed_words(z));
    let off = 32768 * i;
    let r = route_of(bits, off);
    let want = route_bits(words_be(leaves[i]@));
    assert(pow2(15) == 32768) by {
        lemma2_to64();
    }
    assert(block_holds(
        matrix_rows(setup.r1cs.a_0),
        matrix_rows(setup.r1cs.b_0),
        32768,
        bits,
        i * 32768,
    ));
    assert(bits[off + 256]) by {
        let pin = setup.r1cs.const_pin->0;
        assert(bits[i * pow2(setup.r1cs.k_log as nat) + pin]);
    }
    law_satisfying_block_is_filled(bits, off);
    law_checks_are_compactness(r);
    assert(leaf_outputs(leaves)[i] == want);
    assert(is_output_claim(claims, i, leaf_outputs(leaves)[i], setup.r1cs.m as nat));
    assert(z[256 * i + 146] == claims[2 * i].value);
    assert(z[256 * i + 147] == claims[2 * i + 1].value);
    let child = r.children[spelled_index(r)];
    law_route_selects_spelled_child(r, 0);
    assert forall|j: int| 0 <= j < 256 implies child[j] == want[j] by {
        law_route_selects_spelled_child(r, j);
        assert(bits[off + (18688 + j)] == r.cell(18688 + j).z);
        lemma_output_bit(z, i, j);
        if j < 128 {
            assert(want.subrange(0, 128)[j] == want[j]);
        } else {
            assert(want.subrange(128, 256)[j - 128] == want[j]);
        }
    }
    assert(child =~= want);
}

} // verus!
