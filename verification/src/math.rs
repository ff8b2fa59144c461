//! Powers of two, logarithms and single bits of machine words.

use vstd::arithmetic::power2::{lemma2_to64, lemma_pow2_pos, lemma_pow2_unfold, pow2};
use vstd::prelude::*;

verus! {

/// Whether `n` is a power of two.
pub open spec fn is_pow2(n: nat) -> bool
    decreases n,
{
    n == 1 || (n > 1 && n % 2 == 0 && is_pow2(n / 2))
}

/// The least `d` with `n <= 2^d`.
pub open spec fn ceil_log2(n: nat) -> nat
    decreases n,
{
    if n <= 1 {
        0
    } else {
        1 + ceil_log2((n + 1) / 2)
    }
}

/// The least power of two that is at least `n`.
pub open spec fn next_pow2(n: nat) -> nat {
    pow2(ceil_log2(n))
}

/// `ceil_log2` is what its comment says: the power reaches `n`, the one before
/// it does not.
pub proof fn lemma_ceil_log2(n: nat)
    ensures
        n <= pow2(ceil_log2(n)),
        n >= 2 ==> ceil_log2(n) >= 1 && pow2((ceil_log2(n) - 1) as nat) < n,
        is_pow2(pow2(ceil_log2(n))),
    decreases n,
{
    if n <= 1 {
        lemma2_to64();
    } else {
        let h = (n + 1) / 2;
        lemma_ceil_log2(h);
        lemma_pow2_unfold(ceil_log2(n));
        lemma_pow2_pos(ceil_log2(h));
        if h >= 2 {
            lemma_pow2_unfold(ceil_log2(h));
        } else {
            lemma2_to64();
        }
    }
}

/// Every `pow2` is a power of two, and its logarithm is the exponent.
pub proof fn lemma_pow2_is_pow2(k: nat)
    ensures
        is_pow2(pow2(k)),
        ceil_log2(pow2(k)) == k,
        pow2(k) >= 1,
    decreases k,
{
    if k == 0 {
        lemma2_to64();
    } else {
        lemma_pow2_unfold(k);
        lemma_pow2_is_pow2((k - 1) as nat);
        assert(pow2(k) / 2 == pow2((k - 1) as nat));
        assert((pow2(k) + 1) / 2 == pow2((k - 1) as nat));
    }
}

/// A power of two is its own ceiling.
pub proof fn lemma_is_pow2_log(n: nat)
    requires
        is_pow2(n),
    ensures
        pow2(ceil_log2(n)) == n,
        n >= 1,
    decreases n,
{
    if n == 1 {
        lemma2_to64();
    } else {
        lemma_is_pow2_log(n / 2);
        assert((n + 1) / 2 == n / 2);
        lemma_pow2_unfold(ceil_log2(n));
    }
}

/// The logarithm grows with its argument.
pub proof fn lemma_ceil_log2_mono(m: nat, n: nat)
    requires
        m <= n,
    ensures
        ceil_log2(m) <= ceil_log2(n),
    decreases n,
{
    if m >= 2 {
        lemma_ceil_log2_mono((m + 1) / 2, (n + 1) / 2);
    }
}

/// Decides whether `n` is a power of two.
pub fn is_power_of_two(n: usize) -> (r: bool)
    ensures
        r == is_pow2(n as nat),
{
    if n == 0 {
        return false;
    }
    let mut m: usize = n;
    while m > 1 && m % 2 == 0
        invariant
            m >= 1,
            is_pow2(n as nat) == is_pow2(m as nat),
        decreases m,
    {
        m = m / 2;
    }
    m == 1
}

/// Computes the least `d` with `n <= 2^d`.
pub fn log2_ceil(n: usize) -> (d: usize)
    ensures
        d == ceil_log2(n as nat),
        d <= usize::BITS,
{
    let mut d: usize = 0;
    let mut m: usize = n;
    proof {
        assert(n <= pow2(usize::BITS as nat)) by {
            lemma_usize_below_pow2(n);
        }
        lemma_ceil_log2_of_bound(n as nat, usize::BITS as nat);
    }
    while m > 1
        invariant
            d + ceil_log2(m as nat) == ceil_log2(n as nat),
            ceil_log2(n as nat) <= usize::BITS,
        decreases m,
    {
        m = m / 2 + m % 2;
        d = d + 1;
    }
    d
}

proof fn lemma_usize_below_pow2(n: usize)
    ensures
        n < pow2(usize::BITS as nat),
{
    lemma2_to64();
    assert(usize::BITS == 32 || usize::BITS == 64);
}

/// A number of at most `2^k` has a logarithm of at most `k`.
pub proof fn lemma_ceil_log2_of_bound(n: nat, k: nat)
    requires
        n <= pow2(k),
    ensures
        ceil_log2(n) <= k,
{
    lemma_ceil_log2_mono(n, pow2(k));
    lemma_pow2_is_pow2(k);
}

/// Computes the least power of two that is at least `n`.
pub fn next_power_of_two(n: usize) -> (r: usize)
    requires
        next_pow2(n as nat) <= usize::MAX,
    ensures
        r == next_pow2(n as nat),
{
    let mut r: usize = 1;
    let ghost mut k: nat = 0;
    proof {
        lemma2_to64();
        lemma_ceil_log2(n as nat);
    }
    while r < n
        invariant
            r == pow2(k),
            k <= ceil_log2(n as nat),
            next_pow2(n as nat) <= usize::MAX,
        decreases ceil_log2(n as nat) - k,
    {
        proof {
            if k == ceil_log2(n as nat) {
                lemma_ceil_log2(n as nat);
            }
            lemma_pow2_unfold(k + 1);
            lemma_pow2_mono(k + 1, ceil_log2(n as nat));
            lemma_pow2_pos(k);
            k = k + 1;
        }
        r = 2 * r;
    }
    proof {
        if k < ceil_log2(n as nat) {
            lemma_ceil_log2_of_bound(n as nat, k);
        }
    }
    r
}

/// Computes `2^k`.
pub fn power_of_two(k: usize) -> (r: usize)
    requires
        pow2(k as nat) <= usize::MAX,
    ensures
        r == pow2(k as nat),
{
    let mut r: usize = 1;
    proof {
        lemma2_to64();
    }
    for i in 0..k
        invariant
            r == pow2(i as nat),
            pow2(k as nat) <= usize::MAX,
    {
        proof {
            lemma_pow2_unfold((i + 1) as nat);
            lemma_pow2_mono((i + 1) as nat, k as nat);
        }
        r = 2 * r;
    }
    r
}

pub proof fn lemma_pow2_mono(a: nat, b: nat)
    requires
        a <= b,
    ensures
        pow2(a) <= pow2(b),
    decreases b,
{
    if a < b {
        lemma_pow2_mono(a, (b - 1) as nat);
        lemma_pow2_unfold(b);
    }
}

/// A number is a power of two where some power of two equals it.
pub proof fn law_is_pow2(n: nat)
    ensures
        is_pow2(n) <==> exists|k: nat| n == #[trigger] pow2(k),
{
    if is_pow2(n) {
        lemma_is_pow2_log(n);
        assert(n == pow2(ceil_log2(n)));
    }
    if exists|k: nat| n == #[trigger] pow2(k) {
        let k = choose|k: nat| n == #[trigger] pow2(k);
        lemma_pow2_is_pow2(k);
    }
}

/// The rounded-up logarithm of `n` is the least exponent whose power of two is
/// at least `n`, and that power is the next power of two.
pub proof fn law_next_pow2_is_least(n: nat, k: nat)
    ensures
        n <= pow2(k) <==> ceil_log2(n) <= k,
        next_pow2(n) == pow2(ceil_log2(n)),
        n <= next_pow2(n),
        n <= pow2(k) ==> next_pow2(n) <= pow2(k),
{
    lemma_ceil_log2(n);
    if n <= pow2(k) {
        lemma_ceil_log2_of_bound(n, k);
    }
    if ceil_log2(n) <= k {
        lemma_pow2_mono(ceil_log2(n), k);
    }
}

} // verus!
