//! A binary hash tree over equal-sized leaves, with openings of one leaf and
//! of several leaves at once.
//!
//! A tree over `n` leaves is one flat sequence of `2 n - 1` digests: the
//! leaves, then the level above them, and so on to the root, which is last.

use sha2::{Digest, Sha256};
use vstd::arithmetic::div_mod::lemma_div_denominator;
use vstd::arithmetic::power2::{lemma2_to64, lemma_pow2_pos, lemma_pow2_unfold, pow2};
use vstd::prelude::*;

use crate::bytes::lemma_split;
use crate::math::{ceil_log2, is_pow2, is_power_of_two, law_is_pow2, lemma_pow2_mono};
use crate::native_witness::{law_ancestor, lemma_ancestor_bound, sibling};
use crate::sha256::{block_count, lemma_sha256_len, sha256, MAX_MESSAGE_LEN};
use crate::sha256x4::hash4;

verus! {

pub type Hash = [u8; 32];

/// The digests of a sequence, as byte sequences.
pub open spec fn views(hs: Seq<Hash>) -> Seq<Seq<u8>> {
    hs.map_values(|h: Hash| h@)
}

/// The digests of the leaves that `data` splits into.
pub open spec fn leaf_level(data: Seq<u8>, num_leaves: nat) -> Seq<Seq<u8>> {
    let size = (data.len() / num_leaves) as int;
    Seq::new(num_leaves, |i: int| sha256(data.subrange(i * size, (i + 1) * size)))
}

/// The level above `level`: the digest of each pair of neighbours.
pub open spec fn parents(level: Seq<Seq<u8>>) -> Seq<Seq<u8>> {
    Seq::new(level.len() / 2, |i: int| sha256(level[2 * i] + level[2 * i + 1]))
}

/// `level` and all the levels above it.
pub open spec fn flat_tree(level: Seq<Seq<u8>>) -> Seq<Seq<u8>>
    decreases level.len(),
{
    if level.len() <= 1 {
        level
    } else {
        level + flat_tree(parents(level))
    }
}

/// The siblings on the way from leaf `index` to the root of `tree`.
pub open spec fn single_path(tree: Seq<Seq<u8>>, n: nat, index: nat) -> Seq<Seq<u8>>
    decreases n,
{
    if n <= 1 {
        Seq::empty()
    } else {
        seq![tree[sibling(index) as int]] + single_path(tree.skip(n as int), n / 2, index / 2)
    }
}

/// The root that `leaf` at `index` and its siblings lead to.
pub open spec fn path_root(leaf: Seq<u8>, index: nat, proof: Seq<Seq<u8>>) -> Seq<u8>
    decreases proof.len(),
{
    if proof.len() == 0 {
        leaf
    } else {
        let parent = if index % 2 == 0 {
            sha256(leaf + proof[0])
        } else {
            sha256(proof[0] + leaf)
        };
        path_root(parent, index / 2, proof.skip(1))
    }
}

/// Whether the position at the front has its sibling right behind it.
pub open spec fn front_paired(active: Seq<nat>) -> bool {
    active.len() >= 2 && active[1] == sibling(active[0])
}

/// The siblings that one level owes the active positions: those that are not
/// active themselves.
pub open spec fn level_siblings(level: Seq<Seq<u8>>, active: Seq<nat>) -> Seq<Seq<u8>>
    decreases active.len(),
{
    if active.len() == 0 {
        Seq::empty()
    } else if front_paired(active) {
        level_siblings(level, active.skip(2))
    } else {
        seq![level[sibling(active[0]) as int]] + level_siblings(level, active.skip(1))
    }
}

/// The positions of the parents of the active positions.
pub open spec fn next_active(active: Seq<nat>) -> Seq<nat>
    decreases active.len(),
{
    if active.len() == 0 {
        Seq::empty()
    } else if front_paired(active) {
        seq![active[0] / 2] + next_active(active.skip(2))
    } else {
        seq![active[0] / 2] + next_active(active.skip(1))
    }
}

/// The siblings that open all active positions, from the leaves upwards.
pub open spec fn multi_path(tree: Seq<Seq<u8>>, n: nat, active: Seq<nat>) -> Seq<Seq<u8>>
    decreases n,
{
    if n <= 1 {
        Seq::empty()
    } else {
        level_siblings(tree, active) + multi_path(tree.skip(n as int), n / 2, next_active(active))
    }
}

/// `s` with `x` put in its place, if it is not there yet.
pub open spec fn insert_position(s: Seq<nat>, x: nat) -> Seq<nat>
    decreases s.len(),
{
    if s.len() == 0 || x < s[0] {
        seq![x] + s
    } else if x == s[0] {
        s
    } else {
        seq![s[0]] + insert_position(s.skip(1), x)
    }
}

/// The positions in ascending order, each once.
pub open spec fn sorted_positions(positions: Seq<usize>) -> Seq<nat>
    decreases positions.len(),
{
    if positions.len() == 0 {
        Seq::empty()
    } else {
        insert_position(sorted_positions(positions.drop_last()), positions.last() as nat)
    }
}

pub open spec fn strictly_ascending(s: Seq<nat>) -> bool {
    forall|i: int, j: int| 0 <= i < j < s.len() ==> s[i] < s[j]
}

/// A node on the way up: its position in its level, and its digest.
pub type Node = (nat, Seq<u8>);

/// The nodes with `pre` in front, if there are any.
pub open spec fn prepend(
    pre: Seq<Node>,
    r: Option<(Seq<Node>, Seq<Seq<u8>>)>,
) -> Option<(Seq<Node>, Seq<Seq<u8>>)> {
    match r {
        Some((nodes, rest)) => Some((pre + nodes, rest)),
        None => None,
    }
}

/// One level up from `active`, taking the siblings that are not active from
/// `proof`: the parents and the unused rest, or nothing if `proof` runs out.
pub open spec fn fold_level(active: Seq<Node>, proof: Seq<Seq<u8>>) -> Option<
    (Seq<Node>, Seq<Seq<u8>>),
>
    decreases active.len(),
{
    if active.len() == 0 {
        Some((Seq::empty(), proof))
    } else {
        let (p, h) = active[0];
        if active.len() >= 2 && active[1].0 == sibling(p) {
            prepend(seq![(p / 2, sha256(h + active[1].1))], fold_level(active.skip(2), proof))
        } else if proof.len() == 0 {
            None
        } else {
            let parent = if p % 2 == 0 {
                sha256(h + proof[0])
            } else {
                sha256(proof[0] + h)
            };
            prepend(seq![(p / 2, parent)], fold_level(active.skip(1), proof.skip(1)))
        }
    }
}

/// All the way up a tree over `n` leaves.
pub open spec fn fold_tree(n: nat, active: Seq<Node>, proof: Seq<Seq<u8>>) -> Option<
    (Seq<Node>, Seq<Seq<u8>>),
>
    decreases n,
{
    if n <= 1 {
        Some((active, proof))
    } else {
        match fold_level(active, proof) {
            Some((next, rest)) => fold_tree(n / 2, next, rest),
            None => None,
        }
    }
}

/// The positions with their digests.
pub open spec fn zip_nodes(positions: Seq<nat>, hashes: Seq<Seq<u8>>) -> Seq<Node> {
    Seq::new(positions.len(), |i: int| (positions[i], hashes[i]))
}

/// When a multi-proof is accepted: the positions ascend strictly and lie in
/// the tree, they come with a digest each, and folding them up with exactly
/// the digests of the proof leads to the root.
pub open spec fn multi_proof_accepted(
    root: Seq<u8>,
    num_leaves: nat,
    positions: Seq<nat>,
    hashes: Seq<Seq<u8>>,
    proof: Seq<Seq<u8>>,
) -> bool {
    &&& is_pow2(num_leaves)
    &&& positions.len() == hashes.len()
    &&& if positions.len() == 0 {
        proof.len() == 0
    } else {
        &&& strictly_ascending(positions)
        &&& forall|i: int| 0 <= i < positions.len() ==> positions[i] < num_leaves
        &&& match fold_tree(num_leaves, zip_nodes(positions, hashes), proof) {
            Some((nodes, rest)) => rest.len() == 0 && nodes.len() == 1 && nodes[0].1 == root,
            None => false,
        }
    }
}

/// The positions as natural numbers.
pub open spec fn as_nats(s: Seq<usize>) -> Seq<nat> {
    s.map_values(|x: usize| x as nat)
}

/// `sha2::Sha256::digest`: the one-shot digest of a byte string. Trusted to be
/// the SHA-256 function, as that crate documents: the one that `sha256` spells
/// out and that `sha256_bytes` and `hash4` are proved to compute.
#[verifier::external_body]
fn sha2_digest(data: &[u8]) -> (r: Hash)
    requires
        data@.len() <= MAX_MESSAGE_LEN,
    ensures
        r@ == sha256(data@),
{
    Sha256::digest(data).into()
}

/// How many compressions a one-shot hash of `len` bytes takes.
pub fn sha256_blocks(len: usize) -> (n: u64)
    requires
        len + 9 <= usize::MAX,
    ensures
        n == block_count(len as nat),
{
    let padded: usize = len + 9;
    let n: usize = if padded % 64 == 0 { padded / 64 } else { padded / 64 + 1 };
    n as u64
}

/// Hashes one leaf.
pub fn hash_leaf(data: &[u8]) -> (r: Hash)
    requires
        data@.len() <= MAX_MESSAGE_LEN,
    ensures
        r@ == sha256(data@),
{
    sha2_digest(data)
}

/// The 64 bytes of two digests.
fn pair_bytes(left: &Hash, right: &Hash) -> (r: [u8; 64])
    ensures
        r@ == left@ + right@,
{
    let mut r = [0u8; 64];
    for i in 0..32usize
        invariant
            forall|j: int| 0 <= j < i ==> r@[j] == left@[j] && r@[32 + j] == right@[j],
    {
        r[i] = left[i];
        r[32 + i] = right[i];
    }
    assert(r@ =~= left@ + right@);
    r
}

/// Hashes two children into their parent.
pub fn hash_pair(left: &Hash, right: &Hash) -> (r: Hash)
    ensures
        r@ == sha256(left@ + right@),
{
    let bytes = pair_bytes(left, right);
    sha2_digest(bytes.as_slice())
}

/// Whether two digests are the same.
pub fn same_hash(a: &Hash, b: &Hash) -> (r: bool)
    ensures
        r == (a@ == b@),
{
    for i in 0..32usize
        invariant
            forall|j: int| 0 <= j < i ==> a@[j] == b@[j],
    {
        if a[i] != b[i] {
            return false;
        }
    }
    assert(a@ =~= b@);
    true
}

/// Four consecutive leaves, the first of them number `i`, hashed in step.
pub fn hash_leaf_quad(data: &[u8], leaf_size: usize, i: usize) -> (outs: [Hash; 4])
    requires
        leaf_size <= MAX_MESSAGE_LEN,
        (i + 4) * leaf_size <= data@.len(),
    ensures
        forall|l: int|
            #![trigger outs@[l]]
            0 <= l < 4 ==> outs@[l]@ == sha256(
                data@.subrange((i + l) * leaf_size, (i + l + 1) * leaf_size),
            ),
{
    let total: usize = data.len();
    let mut outs: [Hash; 4] = [[0u8; 32]; 4];
    assert((i + 4) * leaf_size == i * leaf_size + 4 * leaf_size) by (nonlinear_arith);
    assert((i + 1) * leaf_size == i * leaf_size + leaf_size) by (nonlinear_arith);
    assert((i + 2) * leaf_size == i * leaf_size + 2 * leaf_size) by (nonlinear_arith);
    assert((i + 3) * leaf_size == i * leaf_size + 3 * leaf_size) by (nonlinear_arith);
    assert(0 <= i * leaf_size) by (nonlinear_arith);
    let start: usize = i * leaf_size;
    let inputs: [&[u8]; 4] = [
        vstd::slice::slice_subrange(data, start, start + leaf_size),
        vstd::slice::slice_subrange(data, start + leaf_size, start + 2 * leaf_size),
        vstd::slice::slice_subrange(data, start + 2 * leaf_size, start + 3 * leaf_size),
        vstd::slice::slice_subrange(data, start + 3 * leaf_size, start + 4 * leaf_size),
    ];
    hash4(inputs, &mut outs);
    outs
}

/// Four consecutive parents of the level that starts at `tree[start]`, the
/// first of them number `i`, hashed in step.
pub fn hash_pair_quad(tree: &[Hash], start: usize, i: usize) -> (outs: [Hash; 4])
    requires
        start + 2 * i + 8 <= tree@.len(),
    ensures
        forall|l: int|
            #![trigger outs@[l]]
            0 <= l < 4 ==> outs@[l]@ == sha256(
                tree@[start + 2 * (i + l)]@ + tree@[start + 2 * (i + l) + 1]@,
            ),
{
    let total: usize = tree.len();
    let mut outs: [Hash; 4] = [[0u8; 32]; 4];
    let at: usize = start + 2 * i;
    let b0 = pair_bytes(&tree[at], &tree[at + 1]);
    let b1 = pair_bytes(&tree[at + 2], &tree[at + 3]);
    let b2 = pair_bytes(&tree[at + 4], &tree[at + 5]);
    let b3 = pair_bytes(&tree[at + 6], &tree[at + 7]);
    let inputs: [&[u8]; 4] = [b0.as_slice(), b1.as_slice(), b2.as_slice(), b3.as_slice()];
    hash4(inputs, &mut outs);
    outs
}

/// What the two tree builders ask for: a power of two of leaves, whose number
/// divides the length of the data, and at least one byte a leaf and no more
/// than can be hashed.
pub open spec fn splits_into_leaves(data: Seq<u8>, num_leaves: nat) -> bool {
    &&& is_pow2(num_leaves)
    &&& data.len() > 0
    &&& data.len() % num_leaves == 0
    &&& data.len() / num_leaves <= MAX_MESSAGE_LEN
    &&& 2 * num_leaves - 1 <= usize::MAX
}

/// A tree over a power of two of leaves has `2 n - 1` nodes.
pub proof fn lemma_flat_tree_len(level: Seq<Seq<u8>>)
    requires
        is_pow2(level.len()),
    ensures
        flat_tree(level).len() == 2 * level.len() - 1,
    decreases level.len(),
{
    if level.len() > 1 {
        lemma_flat_tree_len(parents(level));
    }
}

/// Leaf `i` of the data lies within it.
proof fn lemma_leaf_bounds(len: nat, n: nat, i: int)
    requires
        n > 0,
        len % n == 0,
        0 <= i < n,
    ensures
        0 <= i * (len / n) <= (i + 1) * (len / n) <= len,
        n * (len / n) == len,
        (i + 1) * (len / n) == i * (len / n) + len / n,
{
    let size = len / n;
    vstd::arithmetic::div_mod::lemma_fundamental_div_mod(len as int, n as int);
    assert((i + 1) * size == i * size + size) by (nonlinear_arith);
    assert((i + 1) * size <= n * size) by (nonlinear_arith)
        requires
            0 <= i < n,
            size >= 0,
    ;
    assert(0 <= i * size) by (nonlinear_arith)
        requires
            0 <= i,
            size >= 0,
    ;
}

/// Hashes the leaves one at a time, from number `from` on.
fn push_leaves(tree: &mut Vec<Hash>, data: &[u8], num_leaves: usize, from: usize)
    requires
        splits_into_leaves(data@, num_leaves as nat),
        from <= num_leaves,
        views(old(tree)@) == leaf_level(data@, num_leaves as nat).take(from as int),
    ensures
        views(final(tree)@) == leaf_level(data@, num_leaves as nat),
{
    let leaf_size: usize = data.len() / num_leaves;
    let ghost leaves = leaf_level(data@, num_leaves as nat);
    for i in from..num_leaves
        invariant
            splits_into_leaves(data@, num_leaves as nat),
            leaf_size == data@.len() / num_leaves as nat,
            leaves == leaf_level(data@, num_leaves as nat),
            from <= num_leaves,
            views(tree@) == leaves.take(i as int),
    {
        let total: usize = data.len();
        proof {
            lemma_leaf_bounds(data@.len(), num_leaves as nat, i as int);
        }
        let start: usize = i * leaf_size;
        let leaf = vstd::slice::slice_subrange(data, start, start + leaf_size);
        let h = hash_leaf(leaf);
        let ghost before = tree@;
        tree.push(h);
        proof {
            assert(views(tree@) =~= views(before).push(h@));
            assert(leaves.take(i + 1) =~= leaves.take(i as int).push(leaves[i as int]));
        }
    }
    assert(leaves.take(num_leaves as int) =~= leaves);
}

/// Builds the tree over `data` split into `num_leaves` leaves, four hashes at
/// a time.
pub fn merkle_tree(data: &[u8], num_leaves: usize) -> (tree: Vec<Hash>)
    requires
        splits_into_leaves(data@, num_leaves as nat),
    ensures
        views(tree@) == flat_tree(leaf_level(data@, num_leaves as nat)),
        tree@.len() == 2 * num_leaves - 1,
{
    let leaf_size: usize = data.len() / num_leaves;
    let ghost leaves = leaf_level(data@, num_leaves as nat);
    let mut tree: Vec<Hash> = Vec::new();
    let mut i: usize = 0;
    assert(views(tree@) =~= leaves.take(0));
    while num_leaves - i >= 4
        invariant
            splits_into_leaves(data@, num_leaves as nat),
            leaf_size == data@.len() / num_leaves as nat,
            leaves == leaf_level(data@, num_leaves as nat),
            i <= num_leaves,
            views(tree@) == leaves.take(i as int),
        decreases num_leaves - i,
    {
        proof {
            lemma_leaf_bounds(data@.len(), num_leaves as nat, i + 3);
            assert(leaf_size <= data@.len()) by (nonlinear_arith)
                requires
                    num_leaves * leaf_size == data@.len(),
                    num_leaves >= 1,
                    leaf_size >= 0,
            ;
        }
        let outs = hash_leaf_quad(data, leaf_size, i);
        let ghost before = tree@;
        tree.push(outs[0]);
        tree.push(outs[1]);
        tree.push(outs[2]);
        tree.push(outs[3]);
        proof {
            let a = outs@[0]@;
            let b = outs@[1]@;
            let c = outs@[2]@;
            let d = outs@[3]@;
            assert(views(tree@) =~= views(before) + seq![a, b, c, d]);
            assert(leaves.take(i + 4) =~= leaves.take(i as int) + seq![a, b, c, d]);
        }
        i = i + 4;
    }
    push_leaves(&mut tree, data, num_leaves, i);
    proof {
        lemma_flat_tree_len(leaves);
    }
    let mut read_start: usize = 0;
    let mut read_len: usize = num_leaves;
    assert(views(tree@).skip(0) =~= leaves);
    while read_len > 1
        invariant
            read_start + read_len == tree@.len(),
            read_len >= 1,
            is_pow2(read_len as nat),
            views(tree@).take(read_start as int) + flat_tree(
                views(tree@).skip(read_start as int),
            ) == flat_tree(leaves),
        decreases read_len,
    {
        let next_len: usize = read_len / 2;
        let read_end: usize = tree.len();
        let ghost base = tree@;
        let ghost level = views(base).skip(read_start as int);
        let mut k: usize = 0;
        assert(parents(level).take(0) =~= Seq::<Seq<u8>>::empty());
        while next_len - k >= 4
            invariant
                k <= next_len,
                read_len == 2 * next_len,
                read_start + read_len == base.len(),
                level == views(base).skip(read_start as int),
                tree@.len() == base.len() + k,
                tree@.take(base.len() as int) == base,
                views(tree@) == views(base) + parents(level).take(k as int),
            decreases next_len - k,
        {
            let total: usize = tree.len();
            let outs = hash_pair_quad(tree.as_slice(), read_start, k);
            let ghost before = tree@;
            tree.push(outs[0]);
            tree.push(outs[1]);
            tree.push(outs[2]);
            tree.push(outs[3]);
            proof {
                assert forall|j: int| 0 <= j < base.len() implies base[j] == #[trigger] before[j] by {
                    assert(before.take(base.len() as int)[j] == before[j]);
                }
                let a = outs@[0]@;
                let b = outs@[1]@;
                let c = outs@[2]@;
                let d = outs@[3]@;
                assert(views(tree@) =~= views(before) + seq![a, b, c, d]);
                assert(parents(level).take(k + 4) =~= parents(level).take(k as int) + seq![
                    a,
                    b,
                    c,
                    d,
                ]);
                assert(views(tree@) =~= views(base) + parents(level).take(k + 4));
                assert(tree@.take(base.len() as int) =~= base);
            }
            k = k + 4;
        }
        push_parents(&mut tree, read_start, next_len, k, Ghost(base));
        proof {
            lemma_level_done(views(base), views(tree@), read_start as int, flat_tree(leaves));
        }
        read_start = read_end;
        read_len = next_len;
    }
    proof {
        assert(views(tree@) =~= views(tree@).take(read_start as int) + views(tree@).skip(
            read_start as int,
        ));
    }
    tree
}

/// Appending the level above the last level moves the frontier up by one.
proof fn lemma_level_done(
    base: Seq<Seq<u8>>,
    tree: Seq<Seq<u8>>,
    start: int,
    whole: Seq<Seq<u8>>,
)
    requires
        0 <= start,
        start + 1 < base.len(),
        base.take(start) + flat_tree(base.skip(start)) == whole,
        tree == base + parents(base.skip(start)),
    ensures
        tree.take(base.len() as int) + flat_tree(tree.skip(base.len() as int)) == whole,
{
    let level = base.skip(start);
    assert(tree.skip(base.len() as int) =~= parents(level));
    assert(tree.take(base.len() as int) =~= base.take(start) + level);
    assert(base.take(start) + (level + flat_tree(parents(level))) =~= (base.take(start) + level)
        + flat_tree(parents(level)));
}

/// Hashes the parents of the level that starts at `tree[start]` one at a time,
/// from number `from` on.
fn push_parents(
    tree: &mut Vec<Hash>,
    start: usize,
    next_len: usize,
    from: usize,
    Ghost(base): Ghost<Seq<Hash>>,
)
    requires
        from <= next_len,
        start + 2 * next_len == base.len(),
        old(tree)@.len() == base.len() + from,
        old(tree)@.take(base.len() as int) == base,
        views(old(tree)@) == views(base) + parents(views(base).skip(start as int)).take(
            from as int,
        ),
    ensures
        views(final(tree)@) == views(base) + parents(views(base).skip(start as int)),
        final(tree)@.len() == base.len() + next_len,
{
    let ghost level = views(base).skip(start as int);
    for k in from..next_len
        invariant
            from <= next_len,
            start + 2 * next_len == base.len(),
            level == views(base).skip(start as int),
            tree@.len() == base.len() + k,
            tree@.take(base.len() as int) == base,
            views(tree@) == views(base) + parents(level).take(k as int),
    {
        let total: usize = tree.len();
        let h = hash_pair(&tree[start + 2 * k], &tree[start + 2 * k + 1]);
        let ghost before = tree@;
        tree.push(h);
        proof {
            assert forall|j: int| 0 <= j < base.len() implies base[j] == #[trigger] before[j] by {
                assert(before.take(base.len() as int)[j] == before[j]);
            }
            assert(views(tree@) =~= views(before).push(h@));
            assert(parents(level).take(k + 1) =~= parents(level).take(k as int).push(h@));
            assert(views(tree@) =~= views(base) + parents(level).take(k + 1));
            assert(tree@.take(base.len() as int) =~= base);
        }
    }
    assert(parents(level).take(next_len as int) =~= parents(level));
}

/// Builds the same tree one hash at a time.
pub fn merkle_tree_sequential(data: &[u8], num_leaves: usize) -> (tree: Vec<Hash>)
    requires
        splits_into_leaves(data@, num_leaves as nat),
    ensures
        views(tree@) == flat_tree(leaf_level(data@, num_leaves as nat)),
        tree@.len() == 2 * num_leaves - 1,
{
    let ghost leaves = leaf_level(data@, num_leaves as nat);
    let mut tree: Vec<Hash> = Vec::new();
    assert(views(tree@) =~= leaves.take(0));
    push_leaves(&mut tree, data, num_leaves, 0);
    proof {
        lemma_flat_tree_len(leaves);
    }
    let mut read_start: usize = 0;
    let mut read_len: usize = num_leaves;
    assert(views(tree@).skip(0) =~= leaves);
    while read_len > 1
        invariant
            read_start + read_len == tree@.len(),
            read_len >= 1,
            is_pow2(read_len as nat),
            views(tree@).take(read_start as int) + flat_tree(
                views(tree@).skip(read_start as int),
            ) == flat_tree(leaves),
        decreases read_len,
    {
        let next_len: usize = read_len / 2;
        let read_end: usize = tree.len();
        let ghost base = tree@;
        let ghost level = views(base).skip(read_start as int);
        proof {
            assert(tree@.take(base.len() as int) =~= base);
            assert(views(tree@) =~= views(base) + parents(level).take(0));
        }
        push_parents(&mut tree, read_start, next_len, 0, Ghost(base));
        proof {
            lemma_level_done(views(base), views(tree@), read_start as int, flat_tree(leaves));
        }
        read_start = read_end;
        read_len = next_len;
    }
    proof {
        assert(views(tree@) =~= views(tree@).take(read_start as int) + views(tree@).skip(
            read_start as int,
        ));
    }
    tree
}

/// The root of the tree over `data` split into `num_leaves` leaves.
pub fn merkle_root(data: &[u8], num_leaves: usize) -> (root: Hash)
    requires
        splits_into_leaves(data@, num_leaves as nat),
    ensures
        root@ == flat_tree(leaf_level(data@, num_leaves as nat)).last(),
{
    let tree = merkle_tree(data, num_leaves);
    let root = tree[tree.len() - 1];
    assert(views(tree@)[tree@.len() - 1] == root@);
    root
}

/// Opens leaf `index`: the siblings from the leaf level up to the root.
pub fn merkle_proof(tree: &[Hash], num_leaves: usize, index: usize) -> (proof: Vec<Hash>)
    requires
        is_pow2(num_leaves as nat),
        index < num_leaves,
        tree@.len() == 2 * num_leaves - 1,
    ensures
        views(proof@) == single_path(views(tree@), num_leaves as nat, index as nat),
        proof@.len() == ceil_log2(num_leaves as nat),
{
    let mut proof: Vec<Hash> = Vec::new();
    let mut level_start: usize = 0;
    let mut level_len: usize = num_leaves;
    let mut idx: usize = index;
    let ghost goal = single_path(views(tree@), num_leaves as nat, index as nat);
    let total: usize = tree.len();
    proof {
        assert(views(tree@).skip(0) =~= views(tree@));
        assert(views(proof@) + goal =~= goal);
    }
    while level_len > 1
        invariant
            total == tree@.len(),
            is_pow2(level_len as nat),
            idx < level_len,
            level_start + 2 * level_len - 1 == tree@.len(),
            proof@.len() + ceil_log2(level_len as nat) == ceil_log2(num_leaves as nat),
            views(proof@) + single_path(
                views(tree@).skip(level_start as int),
                level_len as nat,
                idx as nat,
            ) == goal,
        decreases level_len,
    {
        let sibling_idx: usize = if idx % 2 == 0 { idx + 1 } else { idx - 1 };
        let ghost before = proof@;
        proof.push(tree[level_start + sibling_idx]);
        proof {
            let rest = views(tree@).skip(level_start as int);
            let s = tree@[level_start + sibling_idx]@;
            assert(rest[sibling(idx as nat) as int] == s);
            assert(views(proof@) =~= views(before) + seq![s]);
            assert(rest.skip(level_len as int) =~= views(tree@).skip(level_start + level_len));
            let above = single_path(rest.skip(level_len as int), level_len as nat / 2, idx as nat / 2);
            assert(views(before) + (seq![s] + above) =~= (views(before) + seq![s]) + above);
            assert((level_len as nat + 1) / 2 == level_len as nat / 2);
        }
        level_start = level_start + level_len;
        level_len = level_len / 2;
        idx = idx / 2;
    }
    assert(views(proof@) + Seq::<Seq<u8>>::empty() =~= views(proof@));
    proof
}

/// Checks an opening: whether the leaf and the siblings lead to `root`.
pub fn verify_merkle_proof(root: &Hash, leaf_hash: &Hash, index: usize, proof: &[Hash]) -> (r: bool)
    ensures
        r == (path_root(leaf_hash@, index as nat, views(proof@)) == root@),
{
    let mut acc: Hash = *leaf_hash;
    let mut idx: usize = index;
    assert(views(proof@).skip(0) =~= views(proof@));
    for k in 0..proof.len()
        invariant
            path_root(acc@, idx as nat, views(proof@).skip(k as int)) == path_root(
                leaf_hash@,
                index as nat,
                views(proof@),
            ),
    {
        let ghost rest = views(proof@).skip(k as int);
        assert(rest[0] == proof@[k as int]@);
        assert(rest.skip(1) =~= views(proof@).skip(k + 1));
        acc = if idx % 2 == 0 {
            hash_pair(&acc, &proof[k])
        } else {
            hash_pair(&proof[k], &acc)
        };
        idx = idx / 2;
    }
    same_hash(&acc, root)
}

/// Puts `x` into its place in an ascending list, if it is not there yet.
fn insert_sorted(active: &mut Vec<usize>, x: usize)
    requires
        strictly_ascending(as_nats(old(active)@)),
    ensures
        as_nats(final(active)@) == insert_position(as_nats(old(active)@), x as nat),
{
    let n: usize = active.len();
    let mut i: usize = 0;
    let ghost s = as_nats(active@);
    assert(s.skip(0) =~= s);
    assert(s.take(0) + insert_position(s, x as nat) =~= insert_position(s, x as nat));
    while i < n && active[i] < x
        invariant
            n == active@.len(),
            i <= n,
            s == as_nats(active@),
            active@ == old(active)@,
            s.take(i as int) + insert_position(s.skip(i as int), x as nat) == insert_position(
                s,
                x as nat,
            ),
        decreases n - i,
    {
        proof {
            let rest = s.skip(i as int);
            assert(rest[0] == active@[i as int]);
            assert(rest.skip(1) =~= s.skip(i + 1));
            let above = insert_position(rest.skip(1), x as nat);
            assert(s.take(i + 1) =~= s.take(i as int) + seq![rest[0]]);
            assert(s.take(i as int) + (seq![rest[0]] + above) =~= s.take(i + 1) + above);
        }
        i = i + 1;
    }
    if i < n && active[i] == x {
        proof {
            assert(s.skip(i as int)[0] == active@[i as int]);
            assert(s.take(i as int) + s.skip(i as int) =~= s);
        }
        return ;
    }
    active.insert(i, x);
    proof {
        if i < n {
            assert(s.skip(i as int)[0] == old(active)@[i as int]);
        }
        assert(as_nats(active@) =~= s.take(i as int) + (seq![x as nat] + s.skip(i as int)));
    }
}

/// What inserting keeps and adds.
proof fn lemma_insert_position(s: Seq<nat>, x: nat)
    requires
        strictly_ascending(s),
    ensures
        strictly_ascending(insert_position(s, x)),
        forall|y: nat| #[trigger] insert_position(s, x).contains(y) <==> s.contains(y) || y == x,
        insert_position(s, x).len() <= s.len() + 1,
    decreases s.len(),
{
    let r = insert_position(s, x);
    if s.len() == 0 || x < s[0] {
        assert(r[0] == x);
        assert forall|i: int| 0 < i < r.len() implies r[i] == s[i - 1] by {}
        assert forall|y: nat| #[trigger] r.contains(y) <==> s.contains(y) || y == x by {
            if s.contains(y) {
                let i = choose|i: int| 0 <= i < s.len() && s[i] == y;
                assert(r[i + 1] == y);
            }
        }
    } else if x == s[0] {
    } else {
        let rest = s.skip(1);
        let t = insert_position(rest, x);
        lemma_insert_position(rest, x);
        assert(r == seq![s[0]] + t);
        assert forall|i: int| 0 <= i < t.len() implies s[0] < #[trigger] t[i] by {
            assert(t.contains(t[i]));
            if t[i] != x {
                let j = choose|j: int| 0 <= j < rest.len() && rest[j] == t[i];
                assert(rest[j] == s[j + 1]);
            }
        }
        assert forall|y: nat| #[trigger] r.contains(y) <==> s.contains(y) || y == x by {
            if r.contains(y) {
                let i = choose|i: int| 0 <= i < r.len() && r[i] == y;
                if i > 0 {
                    assert(t[i - 1] == y);
                    assert(t.contains(y));
                    if y != x {
                        let j = choose|j: int| 0 <= j < rest.len() && rest[j] == y;
                        assert(s[j + 1] == y);
                    }
                }
            }
            if s.contains(y) || y == x {
                if y == s[0] {
                    assert(r[0] == y);
                } else {
                    if s.contains(y) {
                        let i = choose|i: int| 0 <= i < s.len() && s[i] == y;
                        assert(rest[i - 1] == y);
                    }
                    assert(t.contains(y));
                    let i = choose|i: int| 0 <= i < t.len() && t[i] == y;
                    assert(r[i + 1] == y);
                }
            }
        }
    }
}

/// `sorted_positions` ascends strictly and holds exactly the given positions.
pub proof fn lemma_sorted_positions(positions: Seq<usize>)
    ensures
        strictly_ascending(sorted_positions(positions)),
        forall|y: nat|
            #[trigger] sorted_positions(positions).contains(y) <==> as_nats(positions).contains(y),
        sorted_positions(positions).len() <= positions.len(),
        positions.len() > 0 ==> sorted_positions(positions).len() > 0,
    decreases positions.len(),
{
    if positions.len() > 0 {
        let front = positions.drop_last();
        let x = positions.last() as nat;
        lemma_sorted_positions(front);
        lemma_insert_position(sorted_positions(front), x);
        assert forall|y: nat|
            #[trigger] sorted_positions(positions).contains(y) <==> as_nats(positions).contains(
                y,
            ) by {
            if as_nats(front).contains(y) {
                let i = choose|i: int| 0 <= i < front.len() && as_nats(front)[i] == y;
                assert(as_nats(positions)[i] == y);
            }
            if y == x {
                assert(as_nats(positions)[positions.len() - 1] == y);
            }
            if as_nats(positions).contains(y) {
                let i = choose|i: int| 0 <= i < positions.len() && as_nats(positions)[i] == y;
                if i < front.len() {
                    assert(as_nats(front)[i] == y);
                }
            }
        }
        assert(sorted_positions(positions).contains(x));
    } else {
        assert(as_nats(positions) =~= Seq::<nat>::empty());
    }
}

/// Positions that ascend strictly are left as they are.
pub proof fn law_ascending_positions_kept(positions: Seq<usize>)
    requires
        strictly_ascending(as_nats(positions)),
    ensures
        sorted_positions(positions) == as_nats(positions),
    decreases positions.len(),
{
    if positions.len() > 0 {
        let front = positions.drop_last();
        assert(as_nats(front) =~= as_nats(positions).drop_last());
        law_ascending_positions_kept(front);
        let all = as_nats(positions);
        assert(all[positions.len() - 1] == positions.last());
        assert forall|i: int| 0 <= i < front.len() implies as_nats(front)[i] < positions.last() by {
            assert(as_nats(front)[i] == all[i]);
        }
        lemma_insert_last(as_nats(front), positions.last() as nat);
        assert(as_nats(positions) =~= as_nats(front).push(positions.last() as nat));
    } else {
        assert(as_nats(positions) =~= Seq::<nat>::empty());
    }
}

proof fn lemma_insert_last(s: Seq<nat>, x: nat)
    requires
        forall|i: int| 0 <= i < s.len() ==> s[i] < x,
    ensures
        insert_position(s, x) == s.push(x),
    decreases s.len(),
{
    if s.len() == 0 {
        assert(seq![x] + s =~= s.push(x));
    } else {
        lemma_insert_last(s.skip(1), x);
        assert(seq![s[0]] + s.skip(1).push(x) =~= s.push(x));
    }
}

/// The positions in ascending order, each once.
fn sort_positions(positions: &[usize]) -> (active: Vec<usize>)
    ensures
        as_nats(active@) == sorted_positions(positions@),
{
    let mut active: Vec<usize> = Vec::new();
    assert(as_nats(active@) =~= sorted_positions(positions@.take(0)));
    for i in 0..positions.len()
        invariant
            as_nats(active@) == sorted_positions(positions@.take(i as int)),
    {
        proof {
            lemma_sorted_positions(positions@.take(i as int));
            assert(positions@.take(i + 1).drop_last() =~= positions@.take(i as int));
        }
        insert_sorted(&mut active, positions[i]);
    }
    assert(positions@.take(positions@.len() as int) =~= positions@);
    active
}

/// Parents lie in the level above.
proof fn lemma_next_active_bound(active: Seq<nat>, n: nat)
    requires
        forall|i: int| 0 <= i < active.len() ==> active[i] < 2 * n,
    ensures
        forall|i: int| 0 <= i < next_active(active).len() ==> next_active(active)[i] < n,
        next_active(active).len() <= active.len(),
        active.len() > 0 ==> next_active(active).len() > 0,
    decreases active.len(),
{
    if active.len() > 0 {
        if front_paired(active) {
            lemma_next_active_bound(active.skip(2), n);
        } else {
            lemma_next_active_bound(active.skip(1), n);
        }
    }
}

/// Opens several leaves at once: the siblings that are needed and not
/// themselves opened, level by level and by position within a level. The
/// positions may come in any order and more than once.
pub fn merkle_multi_proof(tree: &[Hash], num_leaves: usize, positions: &[usize]) -> (proof: Vec<
    Hash,
>)
    requires
        is_pow2(num_leaves as nat),
        tree@.len() == 2 * num_leaves - 1,
        num_leaves > 1 ==> forall|i: int| 0 <= i < positions@.len() ==> positions@[i] < num_leaves,
    ensures
        views(proof@) == multi_path(
            views(tree@),
            num_leaves as nat,
            sorted_positions(positions@),
        ),
{
    let mut proof: Vec<Hash> = Vec::new();
    let ghost goal = multi_path(views(tree@), num_leaves as nat, sorted_positions(positions@));
    if num_leaves == 1 {
        assert(views(proof@) =~= goal);
        return proof;
    }
    let mut active: Vec<usize> = sort_positions(positions);
    let mut level_start: usize = 0;
    let mut level_len: usize = num_leaves;
    let total: usize = tree.len();
    proof {
        lemma_sorted_positions(positions@);
        assert forall|i: int| 0 <= i < active@.len() implies #[trigger] active@[i] < num_leaves by {
            assert(sorted_positions(positions@)[i] == active@[i]);
            assert(sorted_positions(positions@).contains(active@[i] as nat));
            let j = choose|j: int|
                0 <= j < positions@.len() && as_nats(positions@)[j] == active@[i];
            assert(positions@[j] == active@[i]);
        }
        assert(views(tree@).skip(0) =~= views(tree@));
        assert(views(proof@) + goal =~= goal);
    }
    while level_len > 1
        invariant
            total == tree@.len(),
            is_pow2(level_len as nat),
            level_start + 2 * level_len - 1 == tree@.len(),
            forall|i: int| 0 <= i < active@.len() ==> active@[i] < level_len,
            views(proof@) + multi_path(
                views(tree@).skip(level_start as int),
                level_len as nat,
                as_nats(active@),
            ) == goal,
        decreases level_len,
    {
        let ghost base = views(proof@);
        let ghost rest = views(tree@).skip(level_start as int);
        let ghost act = as_nats(active@);
        let mut next: Vec<usize> = Vec::new();
        let mut i: usize = 0;
        let n_active: usize = active.len();
        proof {
            assert(act.skip(0) =~= act);
            assert(as_nats(next@) + next_active(act) =~= next_active(act));
        }
        while i < n_active
            invariant
                total == tree@.len(),
                n_active == active@.len(),
                i <= n_active,
                level_len > 1,
                level_len % 2 == 0,
                level_start + 2 * level_len - 1 == tree@.len(),
                rest == views(tree@).skip(level_start as int),
                act == as_nats(active@),
                forall|j: int| 0 <= j < active@.len() ==> active@[j] < level_len,
                views(proof@) + level_siblings(rest, act.skip(i as int)) == base + level_siblings(
                    rest,
                    act,
                ),
                as_nats(next@) + next_active(act.skip(i as int)) == next_active(act),
            decreases n_active - i,
        {
            let p: usize = active[i];
            let sib: usize = if p % 2 == 0 { p + 1 } else { p - 1 };
            let ghost here = act.skip(i as int);
            let ghost next0 = next@;
            let ghost proof0 = proof@;
            assert(here[0] == p);
            assert(i + 1 < n_active ==> here[1] == active@[i + 1]);
            next.push(p / 2);
            if i + 1 < n_active && active[i + 1] == sib {
                proof {
                    assert(front_paired(here));
                    assert(here.skip(2) =~= act.skip(i + 2));
                    let above = next_active(here.skip(2));
                    assert(as_nats(next0) + (seq![p as nat / 2] + above) =~= as_nats(next@) + above);
                }
                i = i + 2;
            } else {
                proof.push(tree[level_start + sib]);
                proof {
                    let h = tree@[level_start + sib]@;
                    assert(!front_paired(here));
                    assert(rest[sib as int] == h);
                    assert(here.skip(1) =~= act.skip(i + 1));
                    let above = next_active(here.skip(1));
                    assert(as_nats(next0) + (seq![p as nat / 2] + above) =~= as_nats(next@) + above);
                    let more = level_siblings(rest, here.skip(1));
                    assert(views(proof0) + (seq![h] + more) =~= views(proof@) + more);
                }
                i = i + 1;
            }
        }
        proof {
            assert(act.skip(n_active as int) =~= Seq::<nat>::empty());
            assert(as_nats(next@) + next_active(act.skip(n_active as int)) =~= as_nats(next@));
            assert(views(proof@) + level_siblings(rest, act.skip(n_active as int)) =~= views(
                proof@,
            ));
            lemma_next_active_bound(act, level_len as nat / 2);
            assert forall|j: int| 0 <= j < next@.len() implies #[trigger] next@[j] < level_len / 2 by {
                assert(as_nats(next@)[j] == next@[j]);
            }
            assert(rest.skip(level_len as int) =~= views(tree@).skip(level_start + level_len));
            let above = multi_path(
                rest.skip(level_len as int),
                level_len as nat / 2,
                next_active(act),
            );
            assert(base + (level_siblings(rest, act) + above) =~= (base + level_siblings(rest, act))
                + above);
        }
        active = next;
        level_start = level_start + level_len;
        level_len = level_len / 2;
    }
    assert(views(proof@) + Seq::<Seq<u8>>::empty() =~= views(proof@));
    proof
}

/// The nodes of a list of positions with digests.
pub open spec fn as_nodes(active: Seq<(usize, Hash)>) -> Seq<Node> {
    active.map_values(|x: (usize, Hash)| (x.0 as nat, x.1@))
}

proof fn lemma_prepend_prepend(
    a: Seq<Node>,
    b: Seq<Node>,
    r: Option<(Seq<Node>, Seq<Seq<u8>>)>,
)
    ensures
        prepend(a, prepend(b, r)) == prepend(a + b, r),
{
    if let Some((nodes, rest)) = r {
        assert(a + (b + nodes) =~= (a + b) + nodes);
    }
}

/// One step of folding: a node and its sibling behind it.
proof fn lemma_fold_paired(
    act: Seq<Node>,
    i: int,
    left: Seq<Seq<u8>>,
    done: Seq<Node>,
    parent: Seq<u8>,
)
    requires
        0 <= i,
        i + 1 < act.len(),
        act[i + 1].0 == sibling(act[i].0),
        parent == sha256(act[i].1 + act[i + 1].1),
    ensures
        prepend(done, fold_level(act.skip(i), left)) == prepend(
            done.push((act[i].0 / 2, parent)),
            fold_level(act.skip(i + 2), left),
        ),
{
    let here = act.skip(i);
    let front = seq![(act[i].0 / 2, parent)];
    assert(here[0] == act[i] && here[1] == act[i + 1]);
    assert(here.skip(2) =~= act.skip(i + 2));
    lemma_prepend_prepend(done, front, fold_level(here.skip(2), left));
    assert(done + front =~= done.push((act[i].0 / 2, parent)));
}

/// One step of folding: a node whose sibling comes from the proof.
proof fn lemma_fold_alone(
    act: Seq<Node>,
    i: int,
    left: Seq<Seq<u8>>,
    done: Seq<Node>,
    parent: Seq<u8>,
)
    requires
        0 <= i < act.len(),
        i + 1 < act.len() ==> act[i + 1].0 != sibling(act[i].0),
        left.len() > 0,
        parent == (if act[i].0 % 2 == 0 {
            sha256(act[i].1 + left[0])
        } else {
            sha256(left[0] + act[i].1)
        }),
    ensures
        prepend(done, fold_level(act.skip(i), left)) == prepend(
            done.push((act[i].0 / 2, parent)),
            fold_level(act.skip(i + 1), left.skip(1)),
        ),
{
    let here = act.skip(i);
    let front = seq![(act[i].0 / 2, parent)];
    assert(here[0] == act[i]);
    if i + 1 < act.len() {
        assert(here[1] == act[i + 1]);
    }
    assert(here.skip(1) =~= act.skip(i + 1));
    lemma_prepend_prepend(done, front, fold_level(here.skip(1), left.skip(1)));
    assert(done + front =~= done.push((act[i].0 / 2, parent)));
}

/// A node that needs a sibling from an empty proof.
proof fn lemma_fold_runs_out(act: Seq<Node>, i: int, left: Seq<Seq<u8>>)
    requires
        0 <= i < act.len(),
        i + 1 < act.len() ==> act[i + 1].0 != sibling(act[i].0),
        left.len() == 0,
    ensures
        fold_level(act.skip(i), left) is None,
{
    let here = act.skip(i);
    assert(here[0] == act[i]);
    if i + 1 < act.len() {
        assert(here[1] == act[i + 1]);
    }
}

/// Folds one level up. The result is the parents and how many digests of the
/// proof are used up, or nothing if the proof runs out.
fn fold_up(active: &Vec<(usize, Hash)>, proof: &[Hash], used: usize) -> (r: Option<
    (Vec<(usize, Hash)>, usize),
>)
    requires
        used <= proof@.len(),
    ensures
        match r {
            Some((next, now_used)) => {
                &&& used <= now_used <= proof@.len()
                &&& fold_level(as_nodes(active@), views(proof@).skip(used as int)) == Some(
                    (as_nodes(next@), views(proof@).skip(now_used as int)),
                )
            },
            None => fold_level(as_nodes(active@), views(proof@).skip(used as int)) is None,
        },
{
    let ghost act = as_nodes(active@);
    let ghost all = fold_level(act, views(proof@).skip(used as int));
    let mut next: Vec<(usize, Hash)> = Vec::new();
    let mut i: usize = 0;
    let mut k: usize = used;
    let n: usize = active.len();
    let n_proof: usize = proof.len();
    proof {
        assert(act.skip(0) =~= act);
        if let Some((nodes, rest)) = all {
            assert(as_nodes(next@) + nodes =~= nodes);
        }
    }
    while i < n
        invariant
            n == active@.len(),
            n_proof == proof@.len(),
            i <= n,
            used <= k <= n_proof,
            act == as_nodes(active@),
            all == fold_level(act, views(proof@).skip(used as int)),
            all == prepend(
                as_nodes(next@),
                fold_level(act.skip(i as int), views(proof@).skip(k as int)),
            ),
        decreases n - i,
    {
        let p: usize = active[i].0;
        let h: Hash = active[i].1;
        let sib: bool = i + 1 < n && active[i + 1].0 == (if p % 2 == 0 {
            p + 1
        } else {
            p - 1
        });
        let ghost left = views(proof@).skip(k as int);
        let ghost next0 = next@;
        assert(act[i as int] == (p as nat, h@));
        if sib {
            assert(act[i + 1] == (active@[i + 1].0 as nat, active@[i + 1].1@));
            let parent = hash_pair(&h, &active[i + 1].1);
            next.push((p / 2, parent));
            proof {
                lemma_fold_paired(act, i as int, left, as_nodes(next0), parent@);
                assert(as_nodes(next@) =~= as_nodes(next0).push((p as nat / 2, parent@)));
            }
            i = i + 2;
        } else {
            proof {
                if i + 1 < n {
                    assert(act[i + 1].0 == active@[i + 1].0);
                }
            }
            if k == n_proof {
                proof {
                    lemma_fold_runs_out(act, i as int, left);
                }
                return None;
            }
            assert(left[0] == proof@[k as int]@);
            let parent = if p % 2 == 0 {
                hash_pair(&h, &proof[k])
            } else {
                hash_pair(&proof[k], &h)
            };
            next.push((p / 2, parent));
            proof {
                assert(left.skip(1) =~= views(proof@).skip(k + 1));
                lemma_fold_alone(act, i as int, left, as_nodes(next0), parent@);
                assert(as_nodes(next@) =~= as_nodes(next0).push((p as nat / 2, parent@)));
            }
            i = i + 1;
            k = k + 1;
        }
    }
    proof {
        assert(act.skip(n as int) =~= Seq::<Node>::empty());
        assert(as_nodes(next@) + Seq::<Node>::empty() =~= as_nodes(next@));
    }
    Some((next, k))
}

/// Checks a multi-proof: `leaf_hashes[i]` is the digest of the leaf at
/// `sorted_unique_positions[i]`.
pub fn verify_merkle_multi_proof(
    root: &Hash,
    num_leaves: usize,
    sorted_unique_positions: &[usize],
    leaf_hashes: &[Hash],
    proof: &[Hash],
) -> (r: bool)
    ensures
        r == multi_proof_accepted(
            root@,
            num_leaves as nat,
            as_nats(sorted_unique_positions@),
            views(leaf_hashes@),
            views(proof@),
        ),
{
    let ghost positions = as_nats(sorted_unique_positions@);
    if !is_power_of_two(num_leaves) {
        return false;
    }
    if sorted_unique_positions.len() != leaf_hashes.len() {
        return false;
    }
    if sorted_unique_positions.len() == 0 {
        return proof.len() == 0;
    }
    let q: usize = sorted_unique_positions.len();
    let mut active: Vec<(usize, Hash)> = Vec::new();
    for i in 0..q
        invariant
            q == sorted_unique_positions@.len() == leaf_hashes@.len(),
            q > 0,
            positions == as_nats(sorted_unique_positions@),
            active@.len() == i,
            forall|j: int|
                #![trigger active@[j]]
                0 <= j < i ==> active@[j] == (sorted_unique_positions@[j], leaf_hashes@[j]),
            forall|j: int| 0 <= j < i ==> sorted_unique_positions@[j] < num_leaves,
            forall|j: int, k: int|
                0 <= j < k < i ==> sorted_unique_positions@[j] < sorted_unique_positions@[k],
    {
        let p: usize = sorted_unique_positions[i];
        if p >= num_leaves {
            assert(positions[i as int] == p);
            return false;
        }
        if i > 0 && sorted_unique_positions[i - 1] >= p {
            assert(positions[i as int] == p);
            assert(positions[i - 1] == sorted_unique_positions@[i - 1]);
            return false;
        }
        active.push((p, leaf_hashes[i]));
    }
    let ghost start = zip_nodes(positions, views(leaf_hashes@));
    proof {
        assert(as_nodes(active@) =~= start);
        assert(views(proof@).skip(0) =~= views(proof@));
    }
    let mut used: usize = 0;
    let mut level_len: usize = num_leaves;
    while level_len > 1
        invariant
            used <= proof@.len(),
            is_pow2(level_len as nat),
            q == positions.len() == leaf_hashes@.len(),
            q > 0,
            fold_tree(num_leaves as nat, start, views(proof@)) == fold_tree(
                level_len as nat,
                as_nodes(active@),
                views(proof@).skip(used as int),
            ),
            positions == as_nats(sorted_unique_positions@),
            start == zip_nodes(positions, views(leaf_hashes@)),
        decreases level_len,
    {
        match fold_up(&active, proof, used) {
            Some((next, now_used)) => {
                active = next;
                used = now_used;
            },
            None => {
                return false;
            },
        }
        level_len = level_len / 2;
    }
    assert(is_pow2(0) == false);
    if used != proof.len() {
        return false;
    }
    if active.len() != 1 {
        return false;
    }
    assert(as_nodes(active@)[0].1 == active@[0].1@);
    same_hash(&active[0].1, root)
}

/// The nodes of `level` at `positions`.
pub open spec fn nodes_at(level: Seq<Seq<u8>>, positions: Seq<nat>) -> Seq<Node> {
    Seq::new(positions.len(), |i: int| (positions[i], level[positions[i] as int]))
}

/// Two tree builders, one tree.
pub proof fn law_builders_agree(a: Seq<Hash>, b: Seq<Hash>, data: Seq<u8>, num_leaves: nat)
    requires
        views(a) == flat_tree(leaf_level(data, num_leaves)),
        views(b) == flat_tree(leaf_level(data, num_leaves)),
    ensures
        a == b,
{
    assert(a.len() == views(a).len() && b.len() == views(b).len());
    assert forall|i: int| 0 <= i < a.len() implies a[i] == b[i] by {
        assert(views(a)[i] == a[i]@);
        assert(views(b)[i] == b[i]@);
        assert(a[i]@ =~= b[i]@);
    }
    assert(a =~= b);
}

/// A tree over a power of two of leaves holds the leaves, then for every pair
/// of neighbours, in order, their digest; the root comes last.
pub proof fn law_tree_layout(level: Seq<Seq<u8>>)
    requires
        is_pow2(level.len()),
    ensures
        flat_tree(level).len() == 2 * level.len() - 1,
        forall|i: int| 0 <= i < level.len() ==> #[trigger] flat_tree(level)[i] == level[i],
        forall|k: int|
            0 <= k < level.len() - 1 ==> #[trigger] flat_tree(level)[level.len() + k] == sha256(
                flat_tree(level)[2 * k] + flat_tree(level)[2 * k + 1],
            ),
    decreases level.len(),
{
    lemma_flat_tree_len(level);
    if level.len() > 1 {
        let n = level.len();
        let up = parents(level);
        law_tree_layout(up);
        let (tree, above) = (flat_tree(level), flat_tree(up));
        assert forall|k: int| 0 <= k < n - 1 implies #[trigger] tree[n + k] == sha256(
            tree[2 * k] + tree[2 * k + 1],
        ) by {
            assert(tree[n + k] == above[k]);
            if k < up.len() {
                assert(above[k] == up[k]);
            } else {
                let j = k - up.len();
                assert(above[up.len() + j] == sha256(above[2 * j] + above[2 * j + 1]));
                assert(tree[n + 2 * j] == above[2 * j]);
                assert(tree[n + (2 * j + 1)] == above[2 * j + 1]);
                assert(n + 2 * j == 2 * k);
            }
        }
    }
}

/// The tree over `data`, as either builder makes it: the digests of the leaves
/// of equal size, then those of the pairs, each two places a pair.
pub proof fn law_data_tree_layout(tree: Seq<Hash>, data: Seq<u8>, num_leaves: nat)
    requires
        splits_into_leaves(data, num_leaves),
        views(tree) == flat_tree(leaf_level(data, num_leaves)),
    ensures
        tree.len() == 2 * num_leaves - 1,
        forall|i: int|
            #![trigger tree[i]]
            0 <= i < num_leaves ==> tree[i]@ == sha256(
                data.subrange(
                    i * (data.len() / num_leaves),
                    (i + 1) * (data.len() / num_leaves),
                ),
            ),
        forall|k: int|
            0 <= k < num_leaves - 1 ==> (#[trigger] tree[num_leaves + k])@ == sha256(
                tree[2 * k]@ + tree[2 * k + 1]@,
            ),
{
    let level = leaf_level(data, num_leaves);
    law_tree_layout(level);
    assert(views(tree).len() == tree.len());
    assert forall|i: int| 0 <= i < tree.len() implies (#[trigger] tree[i])@ == flat_tree(
        level,
    )[i] by {
        assert(views(tree)[i] == tree[i]@);
    }
}

/// The opening of a leaf of a tree leads from that leaf to the tree's root.
pub proof fn law_merkle_proof_round_trip(level: Seq<Seq<u8>>, index: nat)
    requires
        is_pow2(level.len()),
        index < level.len(),
    ensures
        path_root(
            level[index as int],
            index,
            single_path(flat_tree(level), level.len(), index),
        ) == flat_tree(level).last(),
    decreases level.len(),
{
    let n = level.len();
    if n > 1 {
        let up = parents(level);
        let tree = flat_tree(level);
        law_merkle_proof_round_trip(up, index / 2);
        assert(tree.skip(n as int) =~= flat_tree(up));
        lemma_flat_tree_len(up);
        assert(tree.last() == flat_tree(up).last());
        let proof = single_path(tree, n, index);
        let above = single_path(flat_tree(up), n / 2, index / 2);
        assert(proof.skip(1) =~= above);
        assert(proof[0] == level[sibling(index) as int]);
        if index % 2 == 0 {
            assert(up[index as int / 2] == sha256(level[index as int] + level[index as int + 1]));
        } else {
            assert(up[index as int / 2] == sha256(level[index as int - 1] + level[index as int]));
        }
    }
}

/// Folding the opened nodes of a level with the siblings the level owes gives
/// the opened nodes of the level above, and leaves the rest of the proof.
proof fn lemma_fold_level(level: Seq<Seq<u8>>, tree: Seq<Seq<u8>>, active: Seq<nat>, more: Seq<Seq<u8>>)
    requires
        level.len() > 1,
        level.len() % 2 == 0,
        tree.len() >= level.len(),
        tree.take(level.len() as int) == level,
        strictly_ascending(active),
        forall|i: int| 0 <= i < active.len() ==> active[i] < level.len(),
    ensures
        fold_level(nodes_at(level, active), level_siblings(tree, active) + more) == Some(
            (nodes_at(parents(level), next_active(active)), more),
        ),
    decreases active.len(),
{
    let up = parents(level);
    if active.len() == 0 {
        assert(nodes_at(up, next_active(active)) =~= Seq::<Node>::empty());
        assert(level_siblings(tree, active) + more =~= more);
    } else {
        let p = active[0];
        let nodes = nodes_at(level, active);
        assert(nodes[0] == (p, level[p as int]));
        if front_paired(active) {
            let rest = active.skip(2);
            lemma_fold_level(level, tree, rest, more);
            assert(nodes.skip(2) =~= nodes_at(level, rest));
            assert(active[0] < active[1]);
            assert(p % 2 == 0 && active[1] == p + 1);
            assert(nodes[1] == (active[1], level[p as int + 1]));
            assert(up[p as int / 2] == sha256(level[p as int] + level[p as int + 1]));
            assert(seq![(p / 2, up[p as int / 2])] + nodes_at(up, next_active(rest)) =~= nodes_at(
                up,
                next_active(active),
            ));
        } else {
            let rest = active.skip(1);
            lemma_fold_level(level, tree, rest, more);
            assert(nodes.skip(1) =~= nodes_at(level, rest));
            if active.len() >= 2 {
                assert(nodes[1].0 == active[1]);
            }
            let s = level_siblings(tree, active) + more;
            assert(tree.take(level.len() as int)[sibling(p) as int] == tree[sibling(p) as int]);
            assert(s[0] == level[sibling(p) as int]);
            assert(s.skip(1) =~= level_siblings(tree, rest) + more);
            if p % 2 == 0 {
                assert(up[p as int / 2] == sha256(level[p as int] + level[p as int + 1]));
            } else {
                assert(up[p as int / 2] == sha256(level[p as int - 1] + level[p as int]));
            }
            assert(seq![(p / 2, up[p as int / 2])] + nodes_at(up, next_active(rest)) =~= nodes_at(
                up,
                next_active(active),
            ));
        }
    }
}

/// Parents of ascending positions ascend.
proof fn lemma_next_active_ascends(active: Seq<nat>)
    requires
        strictly_ascending(active),
    ensures
        strictly_ascending(next_active(active)),
        active.len() > 0 ==> next_active(active).len() > 0 && next_active(active)[0] == active[0]
            / 2,
    decreases active.len(),
{
    if active.len() > 0 {
        let k: int = if front_paired(active) { 2 } else { 1 };
        let rest = active.skip(k);
        lemma_next_active_ascends(rest);
        let up = next_active(rest);
        let all = next_active(active);
        assert(all =~= seq![active[0] / 2] + up);
        if rest.len() > 0 {
            assert(rest[0] == active[k]);
            assert(active[0] < active[k]);
            if k == 2 {
                assert(active[0] < active[1] < active[2]);
            }
            assert(active[0] / 2 < rest[0] / 2);
            assert forall|i: int| 0 <= i < up.len() implies active[0] / 2 < #[trigger] up[i] by {
                assert(up[0] <= up[i]);
            }
        } else {
            assert(up =~= Seq::<nat>::empty());
        }
        assert forall|i: int, j: int| 0 <= i < j < all.len() implies all[i] < all[j] by {
            assert(all[j] == up[j - 1]);
            if i > 0 {
                assert(all[i] == up[i - 1]);
            }
        }
    }
}

proof fn lemma_fold_tree(level: Seq<Seq<u8>>, active: Seq<nat>)
    requires
        is_pow2(level.len()),
        active.len() > 0,
        strictly_ascending(active),
        forall|i: int| 0 <= i < active.len() ==> active[i] < level.len(),
    ensures
        fold_tree(
            level.len(),
            nodes_at(level, active),
            multi_path(flat_tree(level), level.len(), active),
        ) == Some((seq![(0nat, flat_tree(level).last())], Seq::<Seq<u8>>::empty())),
    decreases level.len(),
{
    let n = level.len();
    let tree = flat_tree(level);
    if n == 1 {
        assert(active.len() == 1) by {
            if active.len() > 1 {
                assert(active[0] < active[1]);
            }
        }
        assert(nodes_at(level, active) =~= seq![(0nat, tree.last())]);
    } else {
        let up = parents(level);
        let above = multi_path(flat_tree(up), n / 2, next_active(active));
        assert(tree.skip(n as int) =~= flat_tree(up));
        assert(tree.take(n as int) =~= level);
        lemma_flat_tree_len(up);
        lemma_fold_level(level, tree, active, above);
        lemma_next_active_bound(active, n / 2);
        lemma_next_active_ascends(active);
        lemma_fold_tree(up, next_active(active));
        assert(tree.last() == flat_tree(up).last());
    }
}

/// A multi-proof made from a tree is accepted against the tree's root, for the
/// leaves it opens.
pub proof fn law_multi_proof_round_trip(level: Seq<Seq<u8>>, positions: Seq<usize>)
    requires
        is_pow2(level.len()),
        forall|i: int| 0 <= i < positions.len() ==> positions[i] < level.len(),
    ensures
        ({
            let opened = sorted_positions(positions);
            multi_proof_accepted(
                flat_tree(level).last(),
                level.len(),
                opened,
                Seq::new(opened.len(), |i: int| level[opened[i] as int]),
                multi_path(flat_tree(level), level.len(), opened),
            )
        }),
{
    let opened = sorted_positions(positions);
    let hashes = Seq::new(opened.len(), |i: int| level[opened[i] as int]);
    lemma_sorted_positions(positions);
    assert forall|i: int| 0 <= i < opened.len() implies #[trigger] opened[i] < level.len() by {
        assert(opened.contains(opened[i]));
        let j = choose|j: int| 0 <= j < positions.len() && as_nats(positions)[j] == opened[i];
        assert(positions[j] == opened[i]);
    }
    if opened.len() == 0 {
        lemma_multi_path_of_none(flat_tree(level), level.len());
        assert(opened =~= Seq::<nat>::empty());
    } else {
        lemma_fold_tree(level, opened);
        assert(zip_nodes(opened, hashes) =~= nodes_at(level, opened));
    }
}

proof fn lemma_multi_path_of_none(tree: Seq<Seq<u8>>, n: nat)
    ensures
        multi_path(tree, n, Seq::<nat>::empty()) == Seq::<Seq<u8>>::empty(),
    decreases n,
{
    if n > 1 {
        lemma_multi_path_of_none(tree.skip(n as int), n / 2);
        assert(multi_path(tree, n, Seq::<nat>::empty()) =~= Seq::<Seq<u8>>::empty());
    }
}

/// The multi-proof of one position is that position's own opening.
pub proof fn law_multi_proof_of_one_is_single(tree: Seq<Seq<u8>>, n: nat, index: nat)
    ensures
        multi_path(tree, n, seq![index]) == single_path(tree, n, index),
    decreases n,
{
    if n > 1 {
        let one = seq![index];
        law_multi_proof_of_one_is_single(tree.skip(n as int), n / 2, index / 2);
        reveal_with_fuel(next_active, 2);
        reveal_with_fuel(level_siblings, 2);
        assert(one.skip(1) =~= Seq::<nat>::empty());
        assert(next_active(one) =~= seq![index / 2]);
        assert(level_siblings(tree, one) =~= seq![tree[sibling(index) as int]]);
    }
}

/// All positions below `n`.
pub open spec fn all_positions(n: nat) -> Seq<nat> {
    Seq::new(n, |i: int| i as nat)
}

proof fn lemma_all_positions_pair_up(tree: Seq<Seq<u8>>, n: nat, from: nat)
    requires
        n % 2 == 0,
        from % 2 == 0,
        from <= n,
    ensures
        level_siblings(tree, all_positions(n).skip(from as int)).len() == 0,
        next_active(all_positions(n).skip(from as int)) == all_positions(n / 2).skip(
            from as int / 2,
        ),
    decreases n - from,
{
    let rest = all_positions(n).skip(from as int);
    if from < n {
        lemma_all_positions_pair_up(tree, n, from + 2);
        assert(rest.skip(2) =~= all_positions(n).skip(from as int + 2));
        assert(front_paired(rest));
        assert(next_active(rest) =~= all_positions(n / 2).skip(from as int / 2));
    } else {
        assert(rest =~= Seq::<nat>::empty());
        assert(all_positions(n / 2).skip(from as int / 2) =~= Seq::<nat>::empty());
    }
}

/// Opening every leaf takes no digest at all.
pub proof fn law_multi_proof_of_all_is_empty(tree: Seq<Seq<u8>>, n: nat)
    requires
        is_pow2(n),
    ensures
        multi_path(tree, n, all_positions(n)).len() == 0,
    decreases n,
{
    if n > 1 {
        lemma_all_positions_pair_up(tree, n, 0);
        assert(all_positions(n).skip(0) =~= all_positions(n));
        assert(all_positions(n / 2).skip(0) =~= all_positions(n / 2));
        law_multi_proof_of_all_is_empty(tree.skip(n as int), n / 2);
    }
}

proof fn lemma_level_siblings_len(level: Seq<Seq<u8>>, active: Seq<nat>)
    ensures
        level_siblings(level, active).len() <= active.len(),
        next_active(active).len() <= active.len(),
    decreases active.len(),
{
    if active.len() > 0 {
        if front_paired(active) {
            lemma_level_siblings_len(level, active.skip(2));
        } else {
            lemma_level_siblings_len(level, active.skip(1));
        }
    }
}

/// A multi-proof is no longer than the openings of its positions together.
pub proof fn law_multi_proof_len(tree: Seq<Seq<u8>>, n: nat, active: Seq<nat>)
    requires
        is_pow2(n),
    ensures
        multi_path(tree, n, active).len() <= active.len() * ceil_log2(n),
    decreases n,
{
    if n > 1 {
        let next = next_active(active);
        let d = ceil_log2(n / 2);
        lemma_level_siblings_len(tree, active);
        law_multi_proof_len(tree.skip(n as int), n / 2, next);
        assert((n + 1) / 2 == n / 2);
        assert(next.len() * d <= active.len() * d) by (nonlinear_arith)
            requires
                next.len() <= active.len(),
                d >= 0,
        ;
        assert(active.len() + active.len() * d == active.len() * (1 + d)) by (nonlinear_arith);
    } else {
        assert(0 <= active.len() * ceil_log2(n)) by (nonlinear_arith);
    }
}

/// Whether the digest tells two messages apart.
pub open spec fn digests_apart(a: Seq<u8>, b: Seq<u8>) -> bool {
    sha256(a) == sha256(b) ==> a == b
}

/// Whether every one of these is a digest in length.
pub open spec fn all_digests(hs: Seq<Seq<u8>>) -> bool {
    forall|i: int| 0 <= i < hs.len() ==> (#[trigger] hs[i]).len() == 32
}

/// The message that a walk hashes above the digest at `index`.
pub open spec fn step_message(own: Seq<u8>, index: nat, other: Seq<u8>) -> Seq<u8> {
    if index % 2 == 0 {
        own + other
    } else {
        other + own
    }
}

/// Whether the digest tells apart what two walks from `index` hash at every
/// height.
pub open spec fn walks_apart(
    leaf1: Seq<u8>,
    proof1: Seq<Seq<u8>>,
    leaf2: Seq<u8>,
    proof2: Seq<Seq<u8>>,
    index: nat,
) -> bool
    decreases proof1.len(),
{
    proof1.len() == 0 || ({
        let m1 = step_message(leaf1, index, proof1[0]);
        let m2 = step_message(leaf2, index, proof2[0]);
        &&& digests_apart(m1, m2)
        &&& walks_apart(sha256(m1), proof1.skip(1), sha256(m2), proof2.skip(1), index / 2)
    })
}

/// Two openings of the same position that lead to the same root open the same
/// leaf with the same siblings, as long as nothing that they hash collides.
pub proof fn law_openings_agree(
    leaf1: Seq<u8>,
    proof1: Seq<Seq<u8>>,
    leaf2: Seq<u8>,
    proof2: Seq<Seq<u8>>,
    index: nat,
)
    requires
        leaf1.len() == 32,
        leaf2.len() == 32,
        all_digests(proof1),
        all_digests(proof2),
        proof1.len() == proof2.len(),
        walks_apart(leaf1, proof1, leaf2, proof2, index),
        path_root(leaf1, index, proof1) == path_root(leaf2, index, proof2),
    ensures
        leaf1 == leaf2,
        proof1 == proof2,
    decreases proof1.len(),
{
    if proof1.len() > 0 {
        let (s1, s2) = (proof1[0], proof2[0]);
        let m1 = step_message(leaf1, index, s1);
        let m2 = step_message(leaf2, index, s2);
        lemma_sha256_len(m1);
        lemma_sha256_len(m2);
        law_openings_agree(
            sha256(m1),
            proof1.skip(1),
            sha256(m2),
            proof2.skip(1),
            index / 2,
        );
        if index % 2 == 0 {
            lemma_split(leaf1, s1, leaf2, s2);
        } else {
            lemma_split(s1, leaf1, s2, leaf2);
        }
        assert(proof1 =~= seq![s1] + proof1.skip(1));
        assert(proof2 =~= seq![s2] + proof2.skip(1));
    } else {
        assert(proof1 =~= proof2);
    }
}

/// The siblings on the way up are as many as the tree has levels, and digests.
proof fn lemma_single_path_digests(tree: Seq<Seq<u8>>, n: nat, index: nat)
    requires
        is_pow2(n),
        index < n,
        tree.len() == 2 * n - 1,
        all_digests(tree),
    ensures
        single_path(tree, n, index).len() == ceil_log2(n),
        all_digests(single_path(tree, n, index)),
    decreases n,
{
    if n > 1 {
        assert(all_digests(tree.skip(n as int)));
        lemma_single_path_digests(tree.skip(n as int), n / 2, index / 2);
        assert((n + 1) / 2 == n / 2);
    }
}

/// Every node of a tree over digests is a digest.
proof fn lemma_flat_tree_digests(level: Seq<Seq<u8>>)
    requires
        all_digests(level),
    ensures
        all_digests(flat_tree(level)),
    decreases level.len(),
{
    if level.len() > 1 {
        let up = parents(level);
        assert forall|i: int| 0 <= i < up.len() implies (#[trigger] up[i]).len() == 32 by {
            lemma_sha256_len(level[2 * i] + level[2 * i + 1]);
        }
        lemma_flat_tree_digests(up);
    }
}

/// An opening that leads to a tree's root opens the tree's leaf, with the
/// tree's siblings, as long as nothing that it hashes collides with what the
/// tree has in its place.
pub proof fn law_accepted_opening_is_genuine(
    level: Seq<Seq<u8>>,
    leaf: Seq<u8>,
    index: nat,
    proof: Seq<Seq<u8>>,
)
    requires
        is_pow2(level.len()),
        index < level.len(),
        all_digests(level),
        leaf.len() == 32,
        all_digests(proof),
        proof.len() == ceil_log2(level.len()),
        path_root(leaf, index, proof) == flat_tree(level).last(),
        walks_apart(
            leaf,
            proof,
            level[index as int],
            single_path(flat_tree(level), level.len(), index),
            index,
        ),
    ensures
        leaf == level[index as int],
        proof == single_path(flat_tree(level), level.len(), index),
{
    let genuine = single_path(flat_tree(level), level.len(), index);
    lemma_flat_tree_digests(level);
    lemma_flat_tree_len(level);
    lemma_single_path_digests(flat_tree(level), level.len(), index);
    law_merkle_proof_round_trip(level, index);
    law_openings_agree(leaf, proof, level[index as int], genuine, index);
}

/// The positions of nodes.
pub open spec fn positions_of(active: Seq<Node>) -> Seq<nat> {
    active.map_values(|n: Node| n.0)
}

/// What is hashed for the parent of the first node.
pub open spec fn first_message(active: Seq<Node>, proof: Seq<Seq<u8>>) -> Seq<u8> {
    let (p, h) = active[0];
    if active.len() >= 2 && active[1].0 == sibling(p) {
        h + active[1].1
    } else {
        step_message(h, p, proof[0])
    }
}

/// Whether nothing that is hashed one level up from `active` collides with
/// what `level` has in its place.
pub open spec fn level_apart(
    active: Seq<Node>,
    proof: Seq<Seq<u8>>,
    level: Seq<Seq<u8>>,
) -> bool
    decreases active.len(),
{
    active.len() == 0 || ({
        let (p, h) = active[0];
        let q = p as int / 2;
        &&& digests_apart(first_message(active, proof), level[2 * q] + level[2 * q + 1])
        &&& if active.len() >= 2 && active[1].0 == sibling(p) {
            level_apart(active.skip(2), proof, level)
        } else {
            level_apart(active.skip(1), proof.skip(1), level)
        }
    })
}

/// The same all the way up the tree over `level`.
pub open spec fn folds_apart(
    active: Seq<Node>,
    proof: Seq<Seq<u8>>,
    level: Seq<Seq<u8>>,
) -> bool
    decreases level.len(),
{
    level.len() <= 1 || ({
        &&& level_apart(active, proof, level)
        &&& match fold_level(active, proof) {
            Some((next, rest)) => folds_apart(next, rest, parents(level)),
            None => true,
        }
    })
}

/// Whether every node is the one that `level` has at its position.
pub open spec fn in_level(active: Seq<Node>, level: Seq<Seq<u8>>) -> bool {
    forall|i: int|
        0 <= i < active.len() ==> (#[trigger] active[i]).1 == level[active[i].0 as int]
}

/// Whether every node is a digest at a position below `n`.
pub open spec fn nodes_fit(active: Seq<Node>, n: nat) -> bool {
    forall|i: int| 0 <= i < active.len() ==> (#[trigger] active[i]).1.len() == 32 && active[i].0 < n
}

proof fn lemma_fold_level_fits(active: Seq<Node>, proof: Seq<Seq<u8>>, n: nat)
    requires
        fold_level(active, proof) is Some,
        nodes_fit(active, n),
        n % 2 == 0,
        all_digests(proof),
    ensures
        ({
            let (next, rest) = fold_level(active, proof)->0;
            &&& positions_of(next) == next_active(positions_of(active))
            &&& nodes_fit(next, n / 2)
            &&& all_digests(rest)
        }),
    decreases active.len(),
{
    let at = positions_of(active);
    let (next, rest) = fold_level(active, proof)->0;
    if active.len() == 0 {
        assert(positions_of(next) =~= next_active(at));
    } else {
        let (p, h) = active[0];
        assert(at[0] == p);
        let m = first_message(active, proof);
        lemma_sha256_len(m);
        if active.len() >= 2 && active[1].0 == sibling(p) {
            assert(at[1] == active[1].0);
            lemma_fold_level_fits(active.skip(2), proof, n);
            let (more, _) = fold_level(active.skip(2), proof)->0;
            assert(positions_of(active.skip(2)) =~= at.skip(2));
            assert(next =~= seq![(p / 2, sha256(m))] + more);
            assert(positions_of(next) =~= seq![p / 2] + positions_of(more));
        } else {
            if active.len() >= 2 {
                assert(at[1] == active[1].0);
            }
            assert(all_digests(proof.skip(1)));
            lemma_fold_level_fits(active.skip(1), proof.skip(1), n);
            let (more, _) = fold_level(active.skip(1), proof.skip(1))->0;
            assert(positions_of(active.skip(1)) =~= at.skip(1));
            assert(next =~= seq![(p / 2, sha256(m))] + more);
            assert(positions_of(next) =~= seq![p / 2] + positions_of(more));
        }
    }
}

/// Nodes whose parents are those of a level are those of the level below.
proof fn lemma_fold_level_genuine(
    active: Seq<Node>,
    proof: Seq<Seq<u8>>,
    level: Seq<Seq<u8>>,
)
    requires
        level.len() % 2 == 0,
        all_digests(level),
        all_digests(proof),
        nodes_fit(active, level.len()),
        strictly_ascending(positions_of(active)),
        fold_level(active, proof) is Some,
        in_level((fold_level(active, proof)->0).0, parents(level)),
        level_apart(active, proof, level),
    ensures
        in_level(active, level),
    decreases active.len(),
{
    if active.len() > 0 {
        let at = positions_of(active);
        let (next, _) = fold_level(active, proof)->0;
        let (p, h) = active[0];
        let q = p as int / 2;
        let m = first_message(active, proof);
        assert(at[0] == p);
        let paired = active.len() >= 2 && active[1].0 == sibling(p);
        let k: int = if paired {
            2
        } else {
            1
        };
        let used: int = if paired {
            0
        } else {
            1
        };
        let rest = active.skip(k);
        let left = proof.skip(used);
        assert(proof.skip(0) =~= proof);
        assert(fold_level(rest, left) is Some);
        let (more, _) = fold_level(rest, left)->0;
        assert(next =~= seq![(p / 2, sha256(m))] + more);
        assert(in_level(more, parents(level))) by {
            assert forall|i: int| 0 <= i < more.len() implies (#[trigger] more[i]).1 == parents(
                level,
            )[more[i].0 as int] by {
                assert(next[i + 1] == more[i]);
            }
        }
        assert(positions_of(rest) =~= at.skip(k));
        lemma_fold_level_genuine(rest, left, level);
        assert(next[0] == (p / 2, sha256(m)));
        assert(p < level.len());
        assert(sha256(m) == parents(level)[q]);
        assert(m == level[2 * q] + level[2 * q + 1]);
        if paired {
            assert(at[1] == active[1].0);
            assert(at[0] < at[1]);
            lemma_split(h, active[1].1, level[2 * q], level[2 * q + 1]);
        } else if p % 2 == 0 {
            lemma_split(h, proof[0], level[2 * q], level[2 * q + 1]);
        } else {
            lemma_split(proof[0], h, level[2 * q], level[2 * q + 1]);
        }
        assert forall|i: int| 0 <= i < active.len() implies (#[trigger] active[i]).1
            == level[active[i].0 as int] by {
            if i >= k {
                assert(rest[i - k] == active[i]);
            }
        }
    }
}

proof fn lemma_fold_tree_genuine(
    active: Seq<Node>,
    proof: Seq<Seq<u8>>,
    level: Seq<Seq<u8>>,
)
    requires
        is_pow2(level.len()),
        all_digests(level),
        all_digests(proof),
        active.len() > 0,
        nodes_fit(active, level.len()),
        strictly_ascending(positions_of(active)),
        fold_tree(level.len(), active, proof) matches Some((nodes, _)) && nodes.len() == 1
            && nodes[0].1 == flat_tree(level).last(),
        folds_apart(active, proof, level),
    ensures
        in_level(active, level),
    decreases level.len(),
{
    if level.len() > 1 {
        let up = parents(level);
        let (next, rest) = fold_level(active, proof)->0;
        lemma_fold_level_fits(active, proof, level.len());
        lemma_next_active_ascends(positions_of(active));
        assert(positions_of(next).len() == next.len());
        assert(all_digests(up)) by {
            assert forall|i: int| 0 <= i < up.len() implies (#[trigger] up[i]).len() == 32 by {
                lemma_sha256_len(level[2 * i] + level[2 * i + 1]);
            }
        }
        lemma_flat_tree_len(up);
        assert(flat_tree(level).last() == flat_tree(up).last());
        lemma_fold_tree_genuine(next, rest, up);
        lemma_fold_level_genuine(active, proof, level);
    } else {
        assert(active[0].0 == 0);
        assert(in_level(active, level)) by {
            assert forall|i: int| 0 <= i < active.len() implies (#[trigger] active[i]).1
                == level[active[i].0 as int] by {}
        }
    }
}

/// A multi-proof that is accepted against a tree's root opens leaves of the
/// tree, as long as nothing that it hashes collides with what the tree has in
/// its place.
pub proof fn law_accepted_multi_proof_is_genuine(
    level: Seq<Seq<u8>>,
    positions: Seq<nat>,
    hashes: Seq<Seq<u8>>,
    proof: Seq<Seq<u8>>,
)
    requires
        all_digests(level),
        all_digests(hashes),
        all_digests(proof),
        multi_proof_accepted(flat_tree(level).last(), level.len(), positions, hashes, proof),
        folds_apart(zip_nodes(positions, hashes), proof, level),
    ensures
        forall|i: int|
            #![trigger hashes[i]]
            0 <= i < positions.len() ==> hashes[i] == level[positions[i] as int],
{
    if positions.len() > 0 {
        let active = zip_nodes(positions, hashes);
        assert(positions_of(active) =~= positions);
        lemma_fold_tree_genuine(active, proof, level);
        assert forall|i: int| #![trigger hashes[i]] 0 <= i < positions.len() implies hashes[i]
            == level[positions[i] as int] by {
            assert(active[i] == (positions[i], hashes[i]));
        }
    }
}

/// The positions that are opened: those asked for, each once, in ascending
/// order.
pub proof fn law_sorted_positions(positions: Seq<usize>, x: usize)
    ensures
        forall|i: int, j: int|
            0 <= i < j < sorted_positions(positions).len() ==> sorted_positions(positions)[i]
                < sorted_positions(positions)[j],
        sorted_positions(positions).contains(x as nat) <==> positions.contains(x),
{
    lemma_sorted_positions(positions);
    let all = as_nats(positions);
    if positions.contains(x) {
        let i = choose|i: int| 0 <= i < positions.len() && positions[i] == x;
        assert(all[i] == x as nat);
    }
    if all.contains(x as nat) {
        let i = choose|i: int| 0 <= i < all.len() && all[i] == x as nat;
        assert(positions[i] == x);
    }
}

/// A single proof, entry by entry: the sibling of the leaf's ancestor on each
/// level, from the leaves up. Level `d` of a tree with `n` leaves starts after
/// `2 n - 2 n / 2^d` nodes.
#[verifier::rlimit(40)]
pub proof fn law_single_path_entry(tree: Seq<Seq<u8>>, depth: nat, index: nat, d: nat)
    requires
        d < depth,
        index < pow2(depth),
        tree.len() == 2 * pow2(depth) - 1,
    ensures
        single_path(tree, pow2(depth), index).len() == depth,
        ({
            let x = (index / pow2(d)) as int;
            single_path(tree, pow2(depth), index)[d as int] == tree[2 * pow2(depth) - pow2(
                (depth + 1 - d) as nat,
            ) + if x % 2 == 0 {
                x + 1
            } else {
                x - 1
            }]
        }),
    decreases depth,
{
    let n = pow2(depth);
    let e = (depth - 1) as nat;
    lemma_pow2_unfold(depth);
    lemma_pow2_pos(e);
    lemma_pow2_unfold(depth + 1);
    lemma2_to64();
    let rest = tree.skip(n as int);
    assert(n / 2 == pow2(e) && n > 1);
    let tail = single_path(rest, n / 2, index / 2);
    assert(single_path(tree, n, index) == seq![tree[sibling(index) as int]] + tail);
    if e == 0 {
        assert(tail.len() == 0);
    } else {
        law_single_path_entry(
            rest,
            e,
            index / 2,
            if d == 0 {
                0
            } else {
                (d - 1) as nat
            },
        );
    }
    if d == 0 {
        assert(index / 1 == index);
    } else {
        let c = (d - 1) as nat;
        lemma_pow2_unfold(d);
        lemma_pow2_pos(c);
        lemma_div_denominator(index as int, 2, pow2(c) as int);
        assert(index / 2 / pow2(c) == index / pow2(d));
        let x = (index / pow2(d)) as int;
        lemma_pow2_pos(d);
        law_ancestor(index, d);
        lemma_ancestor_bound(index, depth, d);
        lemma_pow2_mono((depth + 1 - d) as nat, depth);
        let at = 2 * pow2(e) - pow2((e + 1 - c) as nat) + if x % 2 == 0 {
            x + 1
        } else {
            x - 1
        };
        assert(tail[c as int] == rest[at]);
        lemma_pow2_unfold((depth + 1 - d) as nat);
        assert(0 <= at);
        assert(rest[at] == tree[n + at]);
    }
}

/// What a leaf and a proof come to: the leaf where the proof is empty; else the
/// first entry joins it, on the right of an even place and on the left of an
/// odd one, and the rest goes on from there.
pub proof fn law_path_root_steps(leaf: Seq<u8>, index: nat, proof: Seq<Seq<u8>>)
    ensures
        proof.len() == 0 ==> path_root(leaf, index, proof) == leaf,
        proof.len() > 0 ==> path_root(leaf, index, proof) == path_root(
            sha256(
                if index % 2 == 0 {
                    leaf + proof[0]
                } else {
                    proof[0] + leaf
                },
            ),
            index / 2,
            proof.skip(1),
        ),
{
}

/// A proof in two parts: the second goes on from what the first comes to, at
/// the ancestor as many levels up.
pub proof fn law_path_root_joined(
    leaf: Seq<u8>,
    index: nat,
    lower: Seq<Seq<u8>>,
    upper: Seq<Seq<u8>>,
)
    ensures
        path_root(leaf, index, lower + upper) == path_root(
            path_root(leaf, index, lower),
            index / pow2(lower.len()),
            upper,
        ),
    decreases lower.len(),
{
    let all = lower + upper;
    if lower.len() == 0 {
        lemma2_to64();
        assert(all =~= upper);
        let p = pow2(0);
        assert(index / p == index) by (nonlinear_arith)
            requires
                p == 1,
        ;
    } else {
        let h = (lower.len() - 1) as nat;
        let parent = if index % 2 == 0 {
            sha256(leaf + lower[0])
        } else {
            sha256(lower[0] + leaf)
        };
        assert(all.skip(1) =~= lower.skip(1) + upper);
        law_path_root_joined(parent, index / 2, lower.skip(1), upper);
        lemma_pow2_unfold(lower.len());
        lemma_pow2_pos(h);
        lemma_div_denominator(index as int, 2, pow2(h) as int);
    }
}

/// The positions one level up: the halves of those on this level, each once,
/// in ascending order.
pub proof fn law_next_active(active: Seq<nat>, x: nat)
    requires
        strictly_ascending(active),
    ensures
        strictly_ascending(next_active(active)),
        next_active(active).contains(x) <==> active.contains(2 * x) || active.contains(2 * x + 1),
{
    lemma_next_active_ascends(active);
    lemma_next_active_members(active, x);
}

#[verifier::rlimit(40)]
proof fn lemma_next_active_members(active: Seq<nat>, x: nat)
    ensures
        next_active(active).contains(x) <==> active.contains(2 * x) || active.contains(2 * x + 1),
    decreases active.len(),
{
    if active.len() > 0 {
        let k: int = if front_paired(active) {
            2
        } else {
            1
        };
        let rest = active.skip(k);
        let next = next_active(rest);
        lemma_next_active_members(rest, x);
        let all = next_active(active);
        assert(all == seq![active[0] / 2] + next);
        assert(active =~= active.take(k) + rest);
        if all.contains(x) {
            let i = choose|i: int| 0 <= i < all.len() && all[i] == x;
            if i == 0 {
                assert(active[0] == 2 * x || active[0] == 2 * x + 1);
                assert(active.contains(active[0]));
            } else {
                assert(next[i - 1] == x);
                assert(next.contains(x));
                lemma_suffix_contains(active, k, 2 * x);
                lemma_suffix_contains(active, k, 2 * x + 1);
            }
        }
        if active.contains(2 * x) || active.contains(2 * x + 1) {
            let y = if active.contains(2 * x) {
                2 * x
            } else {
                2 * x + 1
            };
            let i = choose|i: int| 0 <= i < active.len() && active[i] == y;
            if i < k {
                assert(active[0] / 2 == x);
                assert(all[0] == x);
            } else {
                assert(rest[i - k] == y);
                assert(rest.contains(y));
                let j = choose|j: int| 0 <= j < next.len() && next[j] == x;
                assert(all[j + 1] == x);
            }
        }
    }
}

proof fn lemma_suffix_contains(s: Seq<nat>, k: int, y: nat)
    requires
        0 <= k <= s.len(),
    ensures
        s.skip(k).contains(y) ==> s.contains(y),
{
    if s.skip(k).contains(y) {
        let i = choose|i: int| 0 <= i < s.skip(k).len() && s.skip(k)[i] == y;
        assert(s[i + k] == y);
    }
}

/// The hashes that a multi proof holds of one level: in the order of the opened
/// positions, the siblings of those whose sibling is not opened too.
pub proof fn law_level_siblings(level: Seq<Seq<u8>>, active: Seq<nat>)
    requires
        strictly_ascending(active),
    ensures
        level_siblings(level, active) == active.filter(
            |p: nat| !active.contains(sibling(p)),
        ).map_values(|p: nat| level[sibling(p) as int]),
{
    lemma_level_siblings_from(level, active, 0);
    assert(active.skip(0) =~= active);
}

#[verifier::rlimit(40)]
proof fn lemma_level_siblings_from(level: Seq<Seq<u8>>, all: Seq<nat>, k: int)
    requires
        strictly_ascending(all),
        0 <= k <= all.len(),
        0 < k < all.len() ==> sibling(all[k]) != all[k - 1],
    ensures
        level_siblings(level, all.skip(k)) == all.skip(k).filter(
            |p: nat| !all.contains(sibling(p)),
        ).map_values(|p: nat| level[sibling(p) as int]),
    decreases all.len() - k,
{
    let open = |p: nat| !all.contains(sibling(p));
    let at = |p: nat| level[sibling(p) as int];
    let active = all.skip(k);
    if k == all.len() {
        reveal(Seq::filter);
        assert(active.filter(open).map_values(at) =~= Seq::empty());
    } else {
        let p = all[k];
        assert(active[0] == p);
        if front_paired(active) {
            assert(active[1] == all[k + 1]);
            assert(all[k + 1] == sibling(p));
            assert(all[k] < all[k + 1]);
            assert(sibling(all[k + 1]) == p);
            assert(all.contains(sibling(p)) && all.contains(sibling(all[k + 1])));
            if k + 2 < all.len() {
                assert(all[k + 1] < all[k + 2]);
            }
            lemma_level_siblings_from(level, all, k + 2);
            assert(active =~= seq![p].push(all[k + 1]) + all.skip(k + 2));
            lemma_filter_front(p, seq![all[k + 1]] + all.skip(k + 2), open);
            lemma_filter_front(all[k + 1], all.skip(k + 2), open);
            assert(active =~= seq![p] + (seq![all[k + 1]] + all.skip(k + 2)));
            assert(active.skip(2) =~= all.skip(k + 2));
            assert(!open(p) && !open(all[k + 1]));
            assert(active.filter(open) == all.skip(k + 2).filter(open));
            assert(level_siblings(level, active) == level_siblings(level, all.skip(k + 2)));
        } else {
            assert(!all.contains(sibling(p))) by {
                if all.contains(sibling(p)) {
                    let i = choose|i: int| 0 <= i < all.len() && all[i] == sibling(p);
                    if i < k {
                        if i < k - 1 {
                            assert(all[i] < all[k - 1] < all[k]);
                        }
                    } else if i > k {
                        if i > k + 1 {
                            assert(all[k] < all[k + 1] < all[i]);
                        }
                        assert(active[1] == all[k + 1]);
                    }
                }
            }
            if k + 1 < all.len() {
                assert(sibling(all[k + 1]) != all[k]) by {
                    if sibling(all[k + 1]) == all[k] {
                        assert(sibling(all[k]) == all[k + 1]);
                        assert(all.contains(all[k + 1]));
                    }
                }
            }
            lemma_level_siblings_from(level, all, k + 1);
            assert(active =~= seq![p] + all.skip(k + 1));
            lemma_filter_front(p, all.skip(k + 1), open);
            assert(active.skip(1) =~= all.skip(k + 1));
            let rest = all.skip(k + 1).filter(open);
            assert(open(p));
            assert(active.filter(open) == seq![p] + rest);
            assert((seq![p] + rest).map_values(at) =~= seq![at(p)] + rest.map_values(at));
            assert(level_siblings(level, active) == seq![at(p)] + level_siblings(
                level,
                all.skip(k + 1),
            ));
        }
    }
}

proof fn lemma_filter_front(x: nat, rest: Seq<nat>, keep: spec_fn(nat) -> bool)
    ensures
        (seq![x] + rest).filter(keep) == if keep(x) {
            seq![x] + rest.filter(keep)
        } else {
            rest.filter(keep)
        },
{
    Seq::filter_distributes_over_add(seq![x], rest, keep);
    reveal_with_fuel(Seq::filter, 2);
    assert(seq![x].drop_last() =~= Seq::<nat>::empty());
    assert(seq![x].filter(keep) =~= if keep(x) {
        seq![x]
    } else {
        Seq::empty()
    });
    assert(Seq::<nat>::empty() + rest.filter(keep) =~= rest.filter(keep));
}

/// A multi proof goes level by level: the siblings of one level, and then the
/// proof of the positions one level up, until one node is left.
pub proof fn law_multi_path_levels(tree: Seq<Seq<u8>>, n: nat, active: Seq<nat>)
    ensures
        n <= 1 ==> multi_path(tree, n, active).len() == 0,
        n > 1 ==> multi_path(tree, n, active) == level_siblings(tree, active) + multi_path(
            tree.skip(n as int),
            n / 2,
            next_active(active),
        ),
{
}

/// A multi proof that is accepted opens, in a tree with a power of two of
/// leaves, as many leaves as it has positions, at positions that ascend and lie
/// in the tree; and with no position it is accepted only if it is empty.
pub proof fn law_accepted_multi_proof_form(
    root: Seq<u8>,
    num_leaves: nat,
    positions: Seq<nat>,
    hashes: Seq<Seq<u8>>,
    proof: Seq<Seq<u8>>,
)
    ensures
        multi_proof_accepted(root, num_leaves, positions, hashes, proof) ==> {
            &&& exists|d: nat| num_leaves == #[trigger] pow2(d)
            &&& positions.len() == hashes.len()
            &&& forall|i: int, j: int|
                0 <= i < j < positions.len() ==> positions[i] < positions[j]
            &&& forall|i: int| 0 <= i < positions.len() ==> positions[i] < num_leaves
        },
        positions.len() == 0 ==> (multi_proof_accepted(root, num_leaves, positions, hashes, proof)
            <==> is_pow2(num_leaves) && hashes.len() == 0 && proof.len() == 0),
{
    if multi_proof_accepted(root, num_leaves, positions, hashes, proof) {
        law_is_pow2(num_leaves);
    }
}

/// Folding one level, from its first open node: where its sibling is the next
/// open node the two are joined; else the next hash of the proof joins it, on
/// the right of an even place and on the left of an odd one, and where the
/// proof has run out nothing comes of it.
pub proof fn law_fold_level_front(active: Seq<Node>, proof: Seq<Seq<u8>>)
    ensures
        active.len() == 0 ==> fold_level(active, proof) == Some((Seq::<Node>::empty(), proof)),
        active.len() > 0 ==> {
            let (p, h) = active[0];
            let paired = active.len() >= 2 && active[1].0 == if p % 2 == 0 {
                p + 1
            } else {
                (p - 1) as nat
            };
            let (parent, rest) = if paired {
                (sha256(h + active[1].1), fold_level(active.skip(2), proof))
            } else if p % 2 == 0 {
                (sha256(h + proof[0]), fold_level(active.skip(1), proof.skip(1)))
            } else {
                (sha256(proof[0] + h), fold_level(active.skip(1), proof.skip(1)))
            };
            fold_level(active, proof) == if !paired && proof.len() == 0 {
                None
            } else {
                match rest {
                    Some((nodes, left)) => Some((seq![(p / 2, parent)] + nodes, left)),
                    None => None,
                }
            }
        },
{
}

/// A multi proof with positions is accepted exactly when the tree has a power
/// of two of leaves, the positions ascend within it, there is a leaf for each,
/// and folding level by level uses up the proof and comes to the root alone.
pub proof fn law_multi_proof_accepted_iff(
    root: Seq<u8>,
    num_leaves: nat,
    positions: Seq<nat>,
    hashes: Seq<Seq<u8>>,
    proof: Seq<Seq<u8>>,
)
    requires
        positions.len() > 0,
    ensures
        multi_proof_accepted(root, num_leaves, positions, hashes, proof) <==> {
            &&& is_pow2(num_leaves)
            &&& positions.len() == hashes.len()
            &&& forall|i: int, j: int|
                0 <= i < j < positions.len() ==> positions[i] < positions[j]
            &&& forall|i: int| 0 <= i < positions.len() ==> positions[i] < num_leaves
            &&& match fold_tree(
                num_leaves,
                Seq::new(positions.len(), |i: int| (positions[i], hashes[i])),
                proof,
            ) {
                Some((nodes, rest)) => rest.len() == 0 && nodes.len() == 1 && nodes[0].1 == root,
                None => false,
            }
        },
{
    assert(zip_nodes(positions, hashes) =~= Seq::new(
        positions.len(),
        |i: int| (positions[i], hashes[i]),
    ));
}

/// A tree is folded level by level until one node is left.
pub proof fn law_fold_tree_levels(n: nat, active: Seq<Node>, proof: Seq<Seq<u8>>)
    ensures
        n <= 1 ==> fold_tree(n, active, proof) == Some((active, proof)),
        n > 1 ==> fold_tree(n, active, proof) == match fold_level(active, proof) {
            Some((next, rest)) => fold_tree(n / 2, next, rest),
            None => None,
        },
{
}

} // verus!
