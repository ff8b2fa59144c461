//! The permutation Keccak-f[1600] on a state of single bits.
//!
//! Bit `z` of lane `(x, y)` stands at index `x + 5 y + 25 z`.

use vstd::arithmetic::power2::{lemma2_to64, lemma_pow2_unfold, pow2};
use vstd::prelude::*;

verus! {

pub const LANE_BITS: usize = 64;

pub const N_LANES: usize = 25;

pub const STATE_BITS: usize = 1600;

pub type State = [bool; 1600];

/// The rotation of lane `x + 5 y`.
pub const ROTATIONS: [usize; 25] = [
    0, 1, 62, 28, 27, 36, 44, 6, 55, 20, 3, 10, 43, 25, 39, 41, 45, 15, 21, 8, 18, 2, 61, 56, 14,
];

pub const ROUND_CONSTANTS: [u64; 24] = [
    0x0000000000000001, 0x0000000000008082, 0x800000000000808a, 0x8000000080008000,
    0x000000000000808b, 0x0000000080000001, 0x8000000080008081, 0x8000000000008009,
    0x000000000000008a, 0x0000000000000088, 0x0000000080008009, 0x000000008000000a,
    0x000000008000808b, 0x800000000000008b, 0x8000000000008089, 0x8000000000008003,
    0x8000000000008002, 0x8000000000000080, 0x000000000000800a, 0x800000008000000a,
    0x8000000080008081, 0x8000000000008080, 0x0000000080000001, 0x8000000080008008,
];

/// The bit of lane `(x, y)` at depth `z`, each coordinate taken modulo its
/// range.
pub open spec fn bit(s: Seq<bool>, x: int, y: int, z: int) -> bool {
    s[x % 5 + 5 * (y % 5) + 25 * (z % 64)]
}

/// The parity of column `(x, z)`.
pub open spec fn column(s: Seq<bool>, x: int, z: int) -> bool {
    bit(s, x, 0, z) ^ bit(s, x, 1, z) ^ bit(s, x, 2, z) ^ bit(s, x, 3, z) ^ bit(s, x, 4, z)
}

pub open spec fn theta(s: Seq<bool>) -> Seq<bool> {
    Seq::new(
        1600,
        |i: int| s[i] ^ column(s, i % 5 + 4, i / 25) ^ column(s, i % 5 + 1, i / 25 + 63),
    )
}

pub open spec fn rho(s: Seq<bool>) -> Seq<bool> {
    Seq::new(1600, |i: int| bit(s, i % 5, i / 5, i / 25 + 64 - ROTATIONS@[i % 25]))
}

pub open spec fn pi(s: Seq<bool>) -> Seq<bool> {
    Seq::new(1600, |i: int| bit(s, i % 5 + 3 * (i / 5 % 5), i % 5, i / 25))
}

pub open spec fn chi(s: Seq<bool>) -> Seq<bool> {
    Seq::new(
        1600,
        |i: int|
            s[i] ^ (!bit(s, i % 5 + 1, i / 5, i / 25) && bit(s, i % 5 + 2, i / 5, i / 25)),
    )
}

pub open spec fn iota(s: Seq<bool>, rc: u64) -> Seq<bool> {
    Seq::new(1600, |i: int| s[i] ^ (i % 25 == 0 && (rc >> ((i / 25) as u64)) & 1 == 1))
}

pub open spec fn round(s: Seq<bool>, rc: u64) -> Seq<bool> {
    iota(chi(pi(rho(theta(s)))), rc)
}

/// The state after the first `n` rounds.
pub open spec fn rounds(s: Seq<bool>, n: nat) -> Seq<bool>
    decreases n,
{
    if n == 0 {
        s
    } else {
        round(rounds(s, (n - 1) as nat), ROUND_CONSTANTS@[n - 1])
    }
}

/// Keccak-f[1600]: 24 rounds.
#[verifier::opaque]
pub open spec fn permute(s: Seq<bool>) -> Seq<bool> {
    rounds(s, 24)
}

fn get(s: &State, x: usize, y: usize, z: usize) -> (b: bool)
    requires
        x < 100,
        y < 1000,
        z < 1000,
    ensures
        b == bit(s@, x as int, y as int, z as int),
{
    s[x % 5 + 5 * (y % 5) + 25 * (z % 64)]
}

fn column_parity(s: &State, x: usize, z: usize) -> (b: bool)
    requires
        x < 100,
        z < 1000,
    ensures
        b == column(s@, x as int, z as int),
{
    get(s, x, 0, z) ^ get(s, x, 1, z) ^ get(s, x, 2, z) ^ get(s, x, 3, z) ^ get(s, x, 4, z)
}

fn theta_step(s: &State) -> (r: State)
    ensures
        r@ == theta(s@),
{
    let mut r: State = [false; 1600];
    for i in 0..1600usize
        invariant
            forall|j: int| 0 <= j < i ==> r@[j] == theta(s@)[j],
    {
        let x: usize = i % 5;
        let z: usize = i / 25;
        r[i] = s[i] ^ column_parity(s, x + 4, z) ^ column_parity(s, x + 1, z + 63);
    }
    assert(r@ =~= theta(s@));
    r
}

fn rho_step(s: &State) -> (r: State)
    ensures
        r@ == rho(s@),
{
    let mut r: State = [false; 1600];
    for i in 0..1600usize
        invariant
            forall|j: int| 0 <= j < i ==> r@[j] == rho(s@)[j],
    {
        let lane: usize = i % 25;
        proof {
            lemma_rotation_bound(lane as int);
        }
        let z: usize = i / 25 + 64 - ROTATIONS[lane];
        r[i] = get(s, i % 5, i / 5, z);
    }
    assert(r@ =~= rho(s@));
    r
}

proof fn lemma_rotation_bound(lane: int)
    requires
        0 <= lane < 25,
    ensures
        ROTATIONS@[lane] < 64,
{
}

fn pi_step(s: &State) -> (r: State)
    ensures
        r@ == pi(s@),
{
    let mut r: State = [false; 1600];
    for i in 0..1600usize
        invariant
            forall|j: int| 0 <= j < i ==> r@[j] == pi(s@)[j],
    {
        let x: usize = i % 5;
        let y: usize = i / 5 % 5;
        r[i] = get(s, x + 3 * y, x, i / 25);
    }
    assert(r@ =~= pi(s@));
    r
}

fn chi_step(s: &State) -> (r: State)
    ensures
        r@ == chi(s@),
{
    let mut r: State = [false; 1600];
    for i in 0..1600usize
        invariant
            forall|j: int| 0 <= j < i ==> r@[j] == chi(s@)[j],
    {
        let x: usize = i % 5;
        let y: usize = i / 5;
        let z: usize = i / 25;
        let near: bool = get(s, x + 1, y, z);
        let far: bool = get(s, x + 2, y, z);
        r[i] = s[i] ^ (!near && far);
    }
    assert(r@ =~= chi(s@));
    r
}

fn iota_step(s: &State, rc: u64) -> (r: State)
    ensures
        r@ == iota(s@, rc),
{
    let mut r: State = [false; 1600];
    for i in 0..1600usize
        invariant
            forall|j: int| 0 <= j < i ==> r@[j] == iota(s@, rc)[j],
    {
        let z: u64 = (i / 25) as u64;
        r[i] = s[i] ^ (i % 25 == 0 && (rc >> z) & 1 == 1);
    }
    assert(r@ =~= iota(s@, rc));
    r
}

/// Applies the permutation in place.
pub fn keccak_f(state: &mut State)
    ensures
        final(state)@ == permute(old(state)@),
{
    for n in 0..24usize
        invariant
            state@ == rounds(old(state)@, n as nat),
    {
        let t = theta_step(state);
        let r = rho_step(&t);
        let p = pi_step(&r);
        let c = chi_step(&p);
        *state = iota_step(&c, ROUND_CONSTANTS[n]);
    }
    reveal(permute);
}

/// The permutation is 24 rounds, each applied to what the one before it left,
/// the first to the state itself.
pub proof fn law_permute_runs_rounds(trace: Seq<Seq<bool>>)
    requires
        trace.len() == 25,
        forall|n: int|
            #![trigger trace[n]]
            0 <= n < 24 ==> trace[n + 1] == iota(
                chi(pi(rho(theta(trace[n])))),
                ROUND_CONSTANTS@[n],
            ),
    ensures
        permute(trace[0]) == trace[24],
{
    reveal(permute);
    lemma_rounds_trace(trace, 24);
}

proof fn lemma_rounds_trace(trace: Seq<Seq<bool>>, n: nat)
    requires
        n <= 24,
        trace.len() == 25,
        forall|k: int|
            #![trigger trace[k]]
            0 <= k < 24 ==> trace[k + 1] == iota(
                chi(pi(rho(theta(trace[k])))),
                ROUND_CONSTANTS@[k],
            ),
    ensures
        rounds(trace[0], n) == trace[n as int],
    decreases n,
{
    if n > 0 {
        lemma_rounds_trace(trace, (n - 1) as nat);
        let _ = trace[n - 1];
    }
}

/// Theta adds to each bit the parities of two neighbouring columns.
#[verifier::rlimit(40)]
pub proof fn law_theta_bit(s: Seq<bool>, x: int, y: int, z: int)
    requires
        s.len() == 1600,
        0 <= x < 5,
        0 <= y < 5,
        0 <= z < 64,
    ensures
        ({
            let (l, r, near, far) = ((x + 4) % 5, (x + 1) % 5, 25 * z, 25 * ((z + 63) % 64));
            theta(s)[x + 5 * y + 25 * z] == s[x + 5 * y + 25 * z] ^ s[l + near] ^ s[l + 5 + near]
                ^ s[l + 10 + near] ^ s[l + 15 + near] ^ s[l + 20 + near] ^ s[r + far] ^ s[r + 5
                + far] ^ s[r + 10 + far] ^ s[r + 15 + far] ^ s[r + 20 + far]
        }),
{
    lemma_theta_bit(s, x, y, z);
}

/// Rho and pi together move lane `(x, y)` to `(y, 2 x + 3 y)` and rotate it.
#[verifier::rlimit(40)]
pub proof fn law_rho_pi_bit(s: Seq<bool>, x: int, y: int, z: int)
    requires
        s.len() == 1600,
        0 <= x < 5,
        0 <= y < 5,
        0 <= z < 64,
    ensures
        pi(rho(s))[y + 5 * ((2 * x + 3 * y) % 5) + 25 * ((z + ROTATIONS@[x + 5 * y]) % 64)] == s[x
            + 5 * y + 25 * z],
{
    lemma_rotation_bound(x + 5 * y);
    let r = ROTATIONS@[x + 5 * y] as int;
    let w = (z + r) % 64;
    let v = (2 * x + 3 * y) % 5;
    let i = y + 5 * v + 25 * w;
    assert(i % 5 == y && i / 5 % 5 == v && i / 25 == w);
    assert((y + 3 * v) % 5 == x);
    let j = x + 5 * y + 25 * w;
    assert((y + 3 * v) % 5 + 5 * (y % 5) + 25 * (w % 64) == j);
    assert(pi(rho(s))[i] == rho(s)[j]);
    assert(j % 5 == x && j / 5 % 5 == y && j / 25 == w && j % 25 == x + 5 * y);
    assert((w + 64 - r) % 64 == z);
}

/// Chi adds to each bit the next but one of its row, where the next is clear.
pub proof fn law_chi_bit(s: Seq<bool>, x: int, y: int, z: int)
    requires
        s.len() == 1600,
        0 <= x < 5,
        0 <= y < 5,
        0 <= z < 64,
    ensures
        ({
            let row = 5 * y + 25 * z;
            chi(s)[x + row] == if s[(x + 1) % 5 + row] {
                s[x + row]
            } else {
                s[x + row] != s[(x + 2) % 5 + row]
            }
        }),
{
    let i = x + 5 * y + 25 * z;
    assert(i % 5 == x && i / 5 % 5 == y && i / 25 == z);
}

/// Iota flips the bits of lane `(0, 0)` that the round constant sets.
pub proof fn law_iota_bit(s: Seq<bool>, rc: u64, i: int)
    requires
        s.len() == 1600,
        0 <= i < 1600,
    ensures
        iota(s, rc)[i] == if i % 25 == 0 && (rc >> ((i / 25) as u64)) & 1 == 1 {
            !s[i]
        } else {
            s[i]
        },
{
}

proof fn lemma_theta_bit(s: Seq<bool>, x: int, y: int, z: int)
    ensures
        bit(theta(s), x, y, z) == bit(s, x, y, z) ^ column(s, x + 4, z) ^ column(
            s,
            x + 1,
            z + 63,
        ),
{
    let (u, v, w) = (x % 5, y % 5, z % 64);
    let i = u + 5 * v + 25 * w;
    assert(i % 5 == u && i / 25 == w);
    assert((u + 4) % 5 == (x + 4) % 5 && (u + 1) % 5 == (x + 1) % 5);
    assert(w % 64 == z % 64 && (w + 63) % 64 == (z + 63) % 64);
    assert(column(s, u + 4, w) == column(s, x + 4, z));
    assert(column(s, u + 1, w + 63) == column(s, x + 1, z + 63));
}

/// Whether two states differ in the parity of column `(x, z)`.
spec fn column_gap(s: Seq<bool>, t: Seq<bool>, x: int, z: int) -> bool {
    column(s, x, z) != column(t, x, z)
}

proof fn lemma_column_theta(s: Seq<bool>, x: int, z: int)
    ensures
        column(theta(s), x, z) == column(s, x, z) ^ column(s, x + 4, z) ^ column(s, x + 1, z + 63),
{
    lemma_theta_bit(s, x, 0, z);
    lemma_theta_bit(s, x, 1, z);
    lemma_theta_bit(s, x, 2, z);
    lemma_theta_bit(s, x, 3, z);
    lemma_theta_bit(s, x, 4, z);
}

/// Squaring the map that theta makes of the columns doubles its distances.
proof fn lemma_gap_doubles(s: Seq<bool>, t: Seq<bool>, k: nat, x: int, z: int)
    requires
        theta(s) == theta(t),
    ensures
        column_gap(s, t, x, z) == (column_gap(s, t, x + 4 * pow2(k), z) != column_gap(
            s,
            t,
            x + pow2(k),
            z + 63 * pow2(k),
        )),
    decreases k,
{
    if k == 0 {
        lemma2_to64();
        lemma_column_theta(s, x, z);
        lemma_column_theta(t, x, z);
    } else {
        let h = (k - 1) as nat;
        lemma_pow2_unfold(k);
        let a = pow2(h);
        lemma_gap_doubles(s, t, h, x, z);
        lemma_gap_doubles(s, t, h, x + 4 * a, z);
        lemma_gap_doubles(s, t, h, x + a, z + 63 * a);
        assert(x + 4 * a + 4 * a == x + 4 * pow2(k));
        assert(x + 4 * a + a == x + a + 4 * a);
        assert(x + a + a == x + pow2(k));
        assert(z + 63 * a + 63 * a == z + 63 * pow2(k));
    }
}

proof fn lemma_gap_row(s: Seq<bool>, t: Seq<bool>, x: int, z: int)
    requires
        theta(s) == theta(t),
    ensures
        column_gap(s, t, x, z) == (column_gap(s, t, x + 1, z) != column_gap(s, t, x + 4, z)),
{
    lemma2_to64();
    lemma_gap_doubles(s, t, 6, x, z);
    assert((x + 256) % 5 == (x + 1) % 5);
    assert((x + 64) % 5 == (x + 4) % 5);
    assert((z + 4032) % 64 == z % 64);
}

#[verifier::rlimit(40)]
proof fn lemma_gap_closes(s: Seq<bool>, t: Seq<bool>, x: int, z: int)
    requires
        theta(s) == theta(t),
    ensures
        !column_gap(s, t, x, z),
{
    lemma_gap_row(s, t, x, z);
    lemma_gap_row(s, t, x + 1, z);
    lemma_gap_row(s, t, x + 2, z);
    lemma_gap_row(s, t, x + 3, z);
    lemma_gap_row(s, t, x + 4, z);
    assert((x + 5) % 5 == x % 5 && (x + 6) % 5 == (x + 1) % 5 && (x + 7) % 5 == (x + 2) % 5);
    assert((x + 8) % 5 == (x + 3) % 5);
}

proof fn lemma_theta_injective(s: Seq<bool>, t: Seq<bool>)
    requires
        s.len() == 1600,
        t.len() == 1600,
        theta(s) == theta(t),
    ensures
        s == t,
{
    assert forall|i: int| 0 <= i < 1600 implies s[i] == t[i] by {
        lemma_gap_closes(s, t, i % 5 + 4, i / 25);
        lemma_gap_closes(s, t, i % 5 + 1, i / 25 + 63);
        let (a, b) = (column(s, i % 5 + 4, i / 25), column(s, i % 5 + 1, i / 25 + 63));
        assert(a == column(t, i % 5 + 4, i / 25) && b == column(t, i % 5 + 1, i / 25 + 63));
        assert(theta(s)[i] == s[i] ^ a ^ b);
        assert(theta(t)[i] == t[i] ^ a ^ b);
    }
    assert(s =~= t);
}

proof fn lemma_rho_pi_injective(s: Seq<bool>, t: Seq<bool>)
    requires
        s.len() == 1600,
        t.len() == 1600,
        pi(rho(s)) == pi(rho(t)),
    ensures
        s == t,
{
    assert forall|i: int| 0 <= i < 1600 implies s[i] == t[i] by {
        let (x, y, z) = (i % 5, i / 5 % 5, i / 25);
        assert(x + 5 * y + 25 * z == i);
        law_rho_pi_bit(s, x, y, z);
        law_rho_pi_bit(t, x, y, z);
    }
    assert(s =~= t);
}

proof fn lemma_chi_injective(s: Seq<bool>, t: Seq<bool>)
    requires
        s.len() == 1600,
        t.len() == 1600,
        chi(s) == chi(t),
    ensures
        s == t,
{
    assert forall|i: int| 0 <= i < 1600 implies s[i] == t[i] by {
        let (x, y, z) = (i % 5, i / 5 % 5, i / 25);
        assert(x + 5 * y + 25 * z == i);
        lemma_chi_row(s, t, x, y, z);
    }
    assert(s =~= t);
}

proof fn lemma_chi_row(s: Seq<bool>, t: Seq<bool>, x: int, y: int, z: int)
    requires
        s.len() == 1600,
        t.len() == 1600,
        chi(s) == chi(t),
        0 <= x < 5,
        0 <= y < 5,
        0 <= z < 64,
    ensures
        s[x + 5 * y + 25 * z] == t[x + 5 * y + 25 * z],
{
    let row = 5 * y + 25 * z;
    law_chi_bit(s, 0, y, z);
    law_chi_bit(s, 1, y, z);
    law_chi_bit(s, 2, y, z);
    law_chi_bit(s, 3, y, z);
    law_chi_bit(s, 4, y, z);
    law_chi_bit(t, 0, y, z);
    law_chi_bit(t, 1, y, z);
    law_chi_bit(t, 2, y, z);
    law_chi_bit(t, 3, y, z);
    law_chi_bit(t, 4, y, z);
    assert(s[row] == t[row] && s[1 + row] == t[1 + row] && s[2 + row] == t[2 + row] && s[3 + row]
        == t[3 + row] && s[4 + row] == t[4 + row]);
    assert(x == 0 || x == 1 || x == 2 || x == 3 || x == 4);
}

proof fn lemma_rounds_injective(s: Seq<bool>, t: Seq<bool>, n: nat)
    requires
        s.len() == 1600,
        t.len() == 1600,
        rounds(s, n) == rounds(t, n),
    ensures
        s == t,
    decreases n,
{
    if n > 0 {
        let (p, q) = (rounds(s, (n - 1) as nat), rounds(t, (n - 1) as nat));
        lemma_rounds_len(s, (n - 1) as nat);
        lemma_rounds_len(t, (n - 1) as nat);
        let rc = ROUND_CONSTANTS@[n - 1];
        let (c, d) = (chi(pi(rho(theta(p)))), chi(pi(rho(theta(q)))));
        assert forall|i: int| 0 <= i < 1600 implies c[i] == d[i] by {
            assert(iota(c, rc)[i] == iota(d, rc)[i]);
        }
        assert(c =~= d);
        lemma_chi_injective(pi(rho(theta(p))), pi(rho(theta(q))));
        lemma_rho_pi_injective(theta(p), theta(q));
        lemma_theta_injective(p, q);
        lemma_rounds_injective(s, t, (n - 1) as nat);
    }
}

proof fn lemma_rounds_len(s: Seq<bool>, n: nat)
    requires
        s.len() == 1600,
    ensures
        rounds(s, n).len() == 1600,
{
}

/// The permutation takes no two states to one: every bit of a state counts.
pub proof fn law_permute_is_injective(s: Seq<bool>, t: Seq<bool>)
    requires
        s.len() == 1600,
        t.len() == 1600,
        permute(s) == permute(t),
    ensures
        s == t,
{
    reveal(permute);
    lemma_rounds_injective(s, t, 24);
}

} // verus!
