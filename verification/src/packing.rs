//! Packing the blocks of many instances into one assignment.

use vstd::prelude::*;

use crate::backend::{append_packed, packed_words};
use crate::bits::{all_bits, bit_at, filled, Zab};
use crate::r1cs::F128;

verus! {

/// The words of block `i`, where a block has `words` of them.
pub open spec fn block_of(v: Seq<F128>, words: nat, i: int) -> Seq<u64> {
    packed_words(v).subrange(words * i, words * i + words)
}

/// Whether block `i` holds `cells`.
pub open spec fn block_filled(
    z: Seq<F128>,
    a: Seq<F128>,
    b: Seq<F128>,
    words: nat,
    i: int,
    cells: spec_fn(int) -> Zab,
) -> bool {
    filled(
        block_of(z, words, i),
        block_of(a, words, i),
        block_of(b, words, i),
        words,
        64 * words as int,
        cells,
    )
}

/// Whether the three packed vectors are `n` blocks, each with its cells.
pub open spec fn blocks_filled(
    z: Seq<F128>,
    a: Seq<F128>,
    b: Seq<F128>,
    words: nat,
    n: int,
    cells: spec_fn(int) -> spec_fn(int) -> Zab,
) -> bool {
    &&& packed_words(z).len() == words * n
    &&& packed_words(a).len() == words * n
    &&& packed_words(b).len() == words * n
    &&& forall|i: int| 0 <= i < n ==> #[trigger] block_filled(z, a, b, words, i, cells(i))
}

/// Appending a block leaves the blocks before it as they are.
proof fn lemma_append_block(before: Seq<F128>, after: Seq<F128>, block: Seq<u64>, n: int)
    requires
        n >= 0,
        packed_words(before).len() == block.len() * n,
        packed_words(after) == packed_words(before) + block,
    ensures
        forall|i: int|
            0 <= i < n ==> #[trigger] block_of(after, block.len(), i) == block_of(
                before,
                block.len(),
                i,
            ),
        block_of(after, block.len(), n) == block,
        packed_words(after).len() == block.len() * (n + 1),
{
    let w = block.len() as int;
    assert(w * (n + 1) == w * n + w) by (nonlinear_arith);
    assert forall|i: int| 0 <= i < n implies #[trigger] block_of(after, block.len(), i) == block_of(
        before,
        block.len(),
        i,
    ) by {
        assert(0 <= w * i && w * i + w <= w * n) by (nonlinear_arith)
            requires
                0 <= i < n,
                0 <= w,
        ;
        assert(block_of(after, block.len(), i) =~= block_of(before, block.len(), i));
    }
    assert(block_of(after, block.len(), n) =~= block);
}

/// Appends one filled block to each of three packed vectors.
pub(crate) fn append_block(
    z: &mut Vec<F128>,
    a: &mut Vec<F128>,
    b: &mut Vec<F128>,
    zw: &Vec<u64>,
    aw: &Vec<u64>,
    bw: &Vec<u64>,
    Ghost(n): Ghost<int>,
    Ghost(words): Ghost<nat>,
    Ghost(cells): Ghost<spec_fn(int) -> spec_fn(int) -> Zab>,
)
    requires
        n >= 0,
        words % 2 == 0,
        blocks_filled(old(z)@, old(a)@, old(b)@, words, n, cells),
        filled(zw@, aw@, bw@, words, 64 * words as int, cells(n)),
    ensures
        blocks_filled(final(z)@, final(a)@, final(b)@, words, n + 1, cells),
{
    let ghost (z0, a0, b0) = (z@, a@, b@);
    append_packed(z, zw);
    append_packed(a, aw);
    append_packed(b, bw);
    proof {
        lemma_append_block(z0, z@, zw@, n);
        lemma_append_block(a0, a@, aw@, n);
        lemma_append_block(b0, b@, bw@, n);
        assert forall|i: int| 0 <= i < n + 1 implies #[trigger] block_filled(
            z@,
            a@,
            b@,
            words,
            i,
            cells(i),
        ) by {
            if i < n {
                assert(block_filled(z0, a0, b0, words, i, cells(i)));
                assert(block_of(z@, words, i) == block_of(z0, words, i));
                assert(block_of(a@, words, i) == block_of(a0, words, i));
                assert(block_of(b@, words, i) == block_of(b0, words, i));
            }
        }
    }
}

/// `n` words of zero.
pub(crate) fn zero_block_words(n: usize) -> (w: Vec<u64>)
    ensures
        w@.len() == n,
{
    let mut w: Vec<u64> = Vec::new();
    for i in 0..n
        invariant
            w@.len() == i,
    {
        w.push(0);
    }
    w
}

/// The bits of block `i` are its cells' values.
pub proof fn lemma_block_bits(
    z: Seq<F128>,
    a: Seq<F128>,
    b: Seq<F128>,
    words: nat,
    n: int,
    cells: spec_fn(int) -> spec_fn(int) -> Zab,
    i: int,
    p: int,
)
    requires
        blocks_filled(z, a, b, words, n, cells),
        0 <= i < n,
        0 <= p < 64 * words,
    ensures
        all_bits(packed_words(z))[i * (64 * words) + p] == cells(i)(p).z,
        all_bits(packed_words(a))[i * (64 * words) + p] == cells(i)(p).a,
        all_bits(packed_words(b))[i * (64 * words) + p] == cells(i)(p).b,
{
    assert(block_filled(z, a, b, words, i, cells(i)));
    assert(bit_at(block_of(z, words, i), p) == cells(i)(p).z);
    assert(bit_at(block_of(a, words, i), p) == cells(i)(p).a);
    assert(bit_at(block_of(b, words, i), p) == cells(i)(p).b);
    lemma_bit_in_block(z, words, n, i, p);
    lemma_bit_in_block(a, words, n, i, p);
    lemma_bit_in_block(b, words, n, i, p);
}

proof fn lemma_bit_in_block(v: Seq<F128>, words: nat, n: int, i: int, p: int)
    requires
        packed_words(v).len() == words * n,
        0 <= i < n,
        0 <= p < 64 * words,
    ensures
        all_bits(packed_words(v))[i * (64 * words) + p] == bit_at(block_of(v, words, i), p),
{
    let all = packed_words(v);
    let block = block_of(v, words, i);
    let q = i * (64 * words) + p;
    assert(words * i + words <= words * n) by (nonlinear_arith)
        requires
            0 <= i < n,
            0 <= words,
    ;
    assert(0 <= words * i) by (nonlinear_arith)
        requires
            0 <= i,
            0 <= words,
    ;
    assert(q == 64 * (words * i) + p) by (nonlinear_arith)
        requires
            q == i * (64 * words) + p,
    ;
    assert(q / 64 == words * i + p / 64);
    assert(q % 64 == p % 64);
    assert(block[p / 64] == all[words * i + p / 64]);
    assert(bit_at(all, q) == bit_at(block, p));
}

} // verus!
