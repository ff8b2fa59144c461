//! The rules on a route's mask and key, and on two keys that must differ.

use vstd::prelude::*;

use crate::zk_stub::{count_set, popcount};

verus! {

pub const KEY_BITS: usize = 256;

#[derive(Debug, PartialEq, Eq, Structural)]
pub enum ContentError {
    /// The mask's bits are not contiguous from bit 0; `bit` is the first one
    /// that tells.
    MaskNotCompact { bit: usize, popcount: usize },
    /// The key has a bit set above the width of the mask.
    KeyBitAboveMask { bit: usize },
}

#[derive(Debug, PartialEq, Eq, Structural)]
pub enum AbsenceError {
    KeysEqual,
}

/// Whether bit `i` of a mask is what it is in the contiguous mask of `width`.
pub open spec fn mask_bit_fits(mask: Seq<bool>, width: nat, i: int) -> bool {
    mask[i] == (i < width)
}

/// Whether the mask's bits are contiguous from bit 0 and the key lies under
/// the mask.
pub open spec fn is_compact(key: Seq<bool>, mask: Seq<bool>) -> bool {
    let width = count_set(mask);
    &&& forall|i: int| 0 <= i < mask.len() ==> mask_bit_fits(mask, width, i)
    &&& forall|i: int| width <= i < key.len() ==> !#[trigger] key[i]
}

/// Checks that `mask` is contiguous from bit 0 and that `key` has no bit set
/// above it.
pub fn check_compact_content(key: &[bool; 256], mask: &[bool; 256]) -> (r: Result<(), ContentError>)
    ensures
        r is Ok <==> is_compact(key@, mask@),
        match r {
            Ok(_) => true,
            Err(ContentError::MaskNotCompact { bit, popcount }) => {
                &&& popcount == count_set(mask@)
                &&& bit < 256
                &&& !mask_bit_fits(mask@, count_set(mask@), bit as int)
                &&& forall|i: int|
                    0 <= i < bit ==> #[trigger] mask_bit_fits(mask@, count_set(mask@), i)
            },
            Err(ContentError::KeyBitAboveMask { bit }) => {
                &&& forall|i: int|
                    0 <= i < 256 ==> #[trigger] mask_bit_fits(mask@, count_set(mask@), i)
                &&& count_set(mask@) <= bit < 256
                &&& key@[bit as int]
                &&& forall|i: int| count_set(mask@) <= i < bit ==> !#[trigger] key@[i]
            },
        },
{
    let width: usize = popcount(mask);
    for bit in 0..256usize
        invariant
            width == count_set(mask@),
            forall|i: int| 0 <= i < bit ==> #[trigger] mask_bit_fits(mask@, count_set(mask@), i),
    {
        if mask[bit] != (bit < width) {
            assert(!mask_bit_fits(mask@, count_set(mask@), bit as int));
            return Err(ContentError::MaskNotCompact { bit, popcount: width });
        }
    }
    for bit in width..256usize
        invariant
            width == count_set(mask@),
            width <= 256,
            forall|i: int| 0 <= i < 256 ==> #[trigger] mask_bit_fits(mask@, count_set(mask@), i),
            forall|i: int| width <= i < bit ==> !#[trigger] key@[i],
    {
        if key[bit] {
            return Err(ContentError::KeyBitAboveMask { bit });
        }
    }
    Ok(())
}

/// Checks that the key found at a position is not the key asked for.
pub fn check_absence(query_key: &[bool; 256], leaf_key: &[bool; 256]) -> (r: Result<
    (),
    AbsenceError,
>)
    ensures
        r is Ok <==> query_key@ != leaf_key@,
        r is Err ==> r == Err::<(), AbsenceError>(AbsenceError::KeysEqual),
{
    for i in 0..256usize
        invariant
            forall|j: int| 0 <= j < i ==> query_key@[j] == leaf_key@[j],
    {
        if query_key[i] != leaf_key[i] {
            return Ok(());
        }
    }
    assert(query_key@ =~= leaf_key@);
    Err(AbsenceError::KeysEqual)
}

/// A mask whose bits are contiguous from bit 0, as far as `n`, has as many bits
/// set there as it is wide.
pub proof fn lemma_prefix_mask(mask: Seq<bool>, n: nat)
    requires
        n <= mask.len(),
        forall|i: int| 0 <= i && i + 1 < n && mask[i + 1] ==> #[trigger] mask[i],
    ensures
        forall|i: int| 0 <= i < n ==> #[trigger] mask[i] == (i < count_set(mask.take(n as int))),
        count_set(mask.take(n as int)) <= n,
    decreases n,
{
    if n > 0 {
        let m = (n - 1) as nat;
        lemma_prefix_mask(mask, m);
        assert(mask.take(n as int).drop_last() =~= mask.take(m as int));
        assert(mask.take(n as int).last() == mask[m as int]);
        if mask[m as int] && m > 0 {
            assert(mask[m - 1]);
        }
    }
}

/// A key and a mask are compact where the mask is some number of ones followed
/// by zeros, and the key has no bit set past those ones.
#[verifier::rlimit(40)]
pub proof fn law_compact_iff_prefix(key: Seq<bool>, mask: Seq<bool>)
    requires
        key.len() == mask.len(),
    ensures
        is_compact(key, mask) <==> exists|w: int|
            0 <= w <= mask.len() && #[trigger] (mask.take(w)) == Seq::new(w as nat, |i: int| true)
                && mask.skip(w) == Seq::new((mask.len() - w) as nat, |i: int| false) && key.skip(w)
                == Seq::new((mask.len() - w) as nat, |i: int| false),
{
    if is_compact(key, mask) {
        let w = count_set(mask) as int;
        lemma_count_bound(mask);
        assert forall|i: int| 0 <= i < mask.len() implies mask[i] == (i < w) by {
            assert(mask_bit_fits(mask, count_set(mask), i));
        }
        assert(mask.take(w) =~= Seq::new(w as nat, |i: int| true));
        assert(mask.skip(w) =~= Seq::new((mask.len() - w) as nat, |i: int| false));
        assert(key.skip(w) =~= Seq::new((mask.len() - w) as nat, |i: int| false));
    }
    if exists|w: int|
        0 <= w <= mask.len() && #[trigger] (mask.take(w)) == Seq::new(w as nat, |i: int| true)
            && mask.skip(w) == Seq::new((mask.len() - w) as nat, |i: int| false) && key.skip(w)
            == Seq::new((mask.len() - w) as nat, |i: int| false) {
        let w = choose|w: int|
            0 <= w <= mask.len() && #[trigger] (mask.take(w)) == Seq::new(w as nat, |i: int| true)
                && mask.skip(w) == Seq::new((mask.len() - w) as nat, |i: int| false) && key.skip(w)
                == Seq::new((mask.len() - w) as nat, |i: int| false);
        assert forall|i: int| 0 <= i < mask.len() implies #[trigger] mask[i] == (i < w) by {
            if i < w {
                assert(mask.take(w)[i]);
            } else {
                assert(!mask.skip(w)[i - w]);
            }
        }
        lemma_count_of_prefix(mask, w as nat);
        assert forall|i: int| w <= i < key.len() implies !#[trigger] key[i] by {
            assert(!key.skip(w)[i - w]);
        }
    }
}

proof fn lemma_count_bound(mask: Seq<bool>)
    ensures
        count_set(mask) <= mask.len(),
    decreases mask.len(),
{
    if mask.len() > 0 {
        lemma_count_bound(mask.drop_last());
    }
}

proof fn lemma_count_of_prefix(mask: Seq<bool>, w: nat)
    requires
        w <= mask.len(),
        forall|i: int| 0 <= i < mask.len() ==> #[trigger] mask[i] == (i < w),
    ensures
        count_set(mask) == w,
    decreases mask.len(),
{
    if mask.len() > 0 {
        let d = mask.drop_last();
        if w == mask.len() {
            lemma_count_of_prefix(d, (w - 1) as nat);
        } else {
            lemma_count_of_prefix(d, w);
        }
    }
}

} // verus!
