//! Single bits of a list of 64-bit words, and blocks of three such lists that
//! are filled from the lowest position upwards.

use vstd::prelude::*;

verus! {

/// Bit `k` of a byte, counted from the lowest.
pub open spec fn byte_bit(b: u8, k: int) -> bool {
    (b >> (k as u8)) & 1 == 1
}

/// Bit `pos` of `words`.
pub open spec fn bit_at(words: Seq<u64>, pos: int) -> bool {
    (words[pos / 64] >> ((pos % 64) as u64)) & 1 == 1
}

/// The bits of `words`.
pub open spec fn all_bits(words: Seq<u64>) -> Seq<bool> {
    Seq::new(64 * words.len(), |p: int| bit_at(words, p))
}

proof fn lemma_or_bit(w: u64, s: u64, t: u64)
    by (bit_vector)
    requires
        s < 64,
        t < 64,
    ensures
        ((w | (1u64 << s)) >> t) & 1 == 1 <==> (t == s || (w >> t) & 1 == 1),
{
}

proof fn lemma_zero_bit(t: u64)
    by (bit_vector)
    ensures
        (0u64 >> t) & 1 == 0,
{
}

/// Words of zero have no bit set.
pub proof fn lemma_zero_words(words: Seq<u64>)
    requires
        forall|i: int| 0 <= i < words.len() ==> words[i] == 0,
    ensures
        forall|p: int| 0 <= p < 64 * words.len() ==> !bit_at(words, p),
{
    assert forall|p: int| 0 <= p < 64 * words.len() implies !bit_at(words, p) by {
        assert(words[p / 64] == 0);
        lemma_zero_bit((p % 64) as u64);
    }
}

/// Sets bit `pos`.
pub fn or_bit_at(words: &mut [u64], pos: usize)
    requires
        pos < 64 * old(words)@.len(),
    ensures
        final(words)@.len() == old(words)@.len(),
        forall|p: int|
            0 <= p < 64 * old(words)@.len() ==> #[trigger] bit_at(final(words)@, p) == (p == pos
                || bit_at(old(words)@, p)),
{
    let s: u64 = (pos % 64) as u64;
    let w: u64 = words[pos / 64];
    words[pos / 64] = w | (1u64 << s);
    proof {
        assert forall|p: int| 0 <= p < 64 * old(words)@.len() implies #[trigger] bit_at(words@, p)
            == (p == pos || bit_at(old(words)@, p)) by {
            lemma_or_bit(w, s, (p % 64) as u64);
            if p / 64 != pos / 64 {
                assert(words@[p / 64] == old(words)@[p / 64]);
            }
        }
    }
}

/// Reads bit `pos`.
pub fn get_bit(words: &[u64], pos: usize) -> (b: bool)
    requires
        pos < 64 * words@.len(),
    ensures
        b == bit_at(words@, pos as int),
{
    (words[pos / 64] >> ((pos % 64) as u64)) & 1 == 1
}

/// Clears all words.
pub fn clear_words(words: &mut [u64])
    ensures
        final(words)@.len() == old(words)@.len(),
        forall|p: int| 0 <= p < 64 * old(words)@.len() ==> !#[trigger] bit_at(final(words)@, p),
{
    let n: usize = words.len();
    for i in 0..n
        invariant
            n == words@.len() == old(words)@.len(),
            forall|j: int| 0 <= j < i ==> words@[j] == 0,
    {
        words[i] = 0;
    }
    proof {
        lemma_zero_words(words@);
    }
}

/// What one position of a block holds: its value, and the values of its two
/// factors.
pub struct Zab {
    pub z: bool,
    pub a: bool,
    pub b: bool,
}

/// The cell of an input: the value times one.
pub open spec fn linear(v: bool) -> Zab {
    Zab { z: v, a: v, b: true }
}

/// The cell of a product.
pub open spec fn product(a: bool, b: bool) -> Zab {
    Zab { z: a && b, a, b }
}

/// The cell of a position that nothing is written to.
pub open spec fn blank() -> Zab {
    Zab { z: false, a: false, b: false }
}

/// Whether a block of `64 * words` positions holds `cells` below `upto`, and
/// nothing from there on.
pub open spec fn filled(
    z: Seq<u64>,
    a: Seq<u64>,
    b: Seq<u64>,
    words: nat,
    upto: int,
    cells: spec_fn(int) -> Zab,
) -> bool {
    &&& z.len() == words
    &&& a.len() == words
    &&& b.len() == words
    &&& forall|p: int|
        0 <= p < 64 * words ==> #[trigger] bit_at(z, p) == (p < upto && cells(p).z)
    &&& forall|p: int|
        0 <= p < 64 * words ==> #[trigger] bit_at(a, p) == (p < upto && cells(p).a)
    &&& forall|p: int|
        0 <= p < 64 * words ==> #[trigger] bit_at(b, p) == (p < upto && cells(p).b)
}

/// Writes the cell at `pos`, the first position that is not written yet.
pub(crate) fn set_zab(
    pos: usize,
    z: bool,
    a: bool,
    b: bool,
    z_u64: &mut [u64],
    a_u64: &mut [u64],
    b_u64: &mut [u64],
    Ghost(words): Ghost<nat>,
    Ghost(cells): Ghost<spec_fn(int) -> Zab>,
)
    requires
        filled(old(z_u64)@, old(a_u64)@, old(b_u64)@, words, pos as int, cells),
        pos < 64 * words,
        cells(pos as int) == (Zab { z, a, b }),
    ensures
        filled(final(z_u64)@, final(a_u64)@, final(b_u64)@, words, pos + 1, cells),
{
    if z {
        or_bit_at(z_u64, pos);
    }
    if a {
        or_bit_at(a_u64, pos);
    }
    if b {
        or_bit_at(b_u64, pos);
    }
}

/// Bit `k` of word `i` is bit `64 i + k` of all words.
pub proof fn law_bit_of_word(words: Seq<u64>, i: int, k: int)
    requires
        0 <= i < words.len(),
        0 <= k < 64,
    ensures
        bit_at(words, 64 * i + k) <==> (words[i] >> (k as u64)) & 1 == 1,
        all_bits(words).len() == 64 * words.len(),
        all_bits(words)[64 * i + k] == bit_at(words, 64 * i + k),
{
    assert((64 * i + k) / 64 == i && (64 * i + k) % 64 == k);
}

} // verus!
