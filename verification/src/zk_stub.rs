//! What a hiding prover will need: which parts of a route are private, and the
//! width of a private mask.

use vstd::prelude::*;

verus! {

/// Which parts of a route are private.
#[derive(Clone, Copy, Debug, PartialEq, Eq, Structural)]
pub struct PrivateMuxConfig {
    /// Whether the route mask is private.
    pub mask_private: bool,
    /// Whether the index of the selected child is private.
    pub selected_idx_private: bool,
}

impl PrivateMuxConfig {
    /// Nothing is private.
    pub fn public() -> (c: Self)
        ensures
            c == (PrivateMuxConfig { mask_private: false, selected_idx_private: false }),
    {
        Self { mask_private: false, selected_idx_private: false }
    }

    /// The mask and the selected index are private.
    pub fn private() -> (c: Self)
        ensures
            c == (PrivateMuxConfig { mask_private: true, selected_idx_private: true }),
    {
        Self { mask_private: true, selected_idx_private: true }
    }
}

/// AND gates of a full-adder tree that counts 256 bits.
pub const POPCOUNT_AND_GATES: usize = 512;

/// Output bits of that tree.
pub const POPCOUNT_OUTPUT_BITS: usize = 9;

/// How many bits of `bits` are set.
pub open spec fn count_set(bits: Seq<bool>) -> nat
    decreases bits.len(),
{
    if bits.len() == 0 {
        0
    } else {
        count_set(bits.drop_last()) + if bits.last() {
            1nat
        } else {
            0
        }
    }
}

/// Counts the set bits of a mask.
pub fn popcount(mask: &[bool; 256]) -> (n: usize)
    ensures
        n == count_set(mask@),
        n <= 256,
{
    let mut n: usize = 0;
    assert(mask@.take(0) =~= Seq::<bool>::empty());
    for i in 0..256usize
        invariant
            n == count_set(mask@.take(i as int)),
            n <= i,
    {
        assert(mask@.take(i + 1).drop_last() =~= mask@.take(i as int));
        assert(mask@.take(i + 1).last() == mask@[i as int]);
        if mask[i] {
            n = n + 1;
        }
    }
    assert(mask@.take(256) =~= mask@);
    n
}

/// Whether `mask` has exactly `expected_popcount` bits set.
pub fn check_popcount_cpu(mask: &[bool; 256], expected_popcount: usize) -> (ok: bool)
    ensures
        ok == (count_set(mask@) == expected_popcount),
{
    popcount(mask) == expected_popcount
}

/// The count of set bits: none in no bits, one in one that is set, and the sum
/// of the two counts where bits follow bits.
pub proof fn law_count_set(a: Seq<bool>, b: Seq<bool>, x: bool)
    ensures
        count_set(Seq::empty()) == 0,
        count_set(seq![x]) == if x {
            1nat
        } else {
            0
        },
        count_set(a + b) == count_set(a) + count_set(b),
    decreases b.len(),
{
    reveal_with_fuel(count_set, 2);
    assert(seq![x].drop_last() =~= Seq::<bool>::empty());
    if b.len() == 0 {
        assert(a + b =~= a);
    } else {
        law_count_set(a, b.drop_last(), x);
        assert((a + b).drop_last() =~= a + b.drop_last());
    }
}

} // verus!
