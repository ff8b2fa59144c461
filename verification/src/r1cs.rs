//! Constraint systems over single bits: two sparse matrices, applied to every
//! block of an assignment.

use vstd::arithmetic::power2::{lemma_pow2_adds, lemma_pow2_pos, pow2};
use vstd::prelude::*;

use crate::math::{lemma_pow2_mono, power_of_two};
use crate::zk_stub::count_set;

verus! {

/// An element of the field of `2^128` elements, as two words.
#[derive(Clone, Copy, Debug, PartialEq, Eq, Structural)]
pub struct F128 {
    pub lo: u64,
    pub hi: u64,
}

impl F128 {
    /// The field's zero.
    pub fn zero() -> (r: F128)
        ensures
            r == (F128 { lo: 0, hi: 0 }),
    {
        F128 { lo: 0, hi: 0 }
    }

    /// The field's one.
    pub fn one() -> (r: F128)
        ensures
            r == (F128 { lo: 1, hi: 0 }),
    {
        F128 { lo: 1, hi: 0 }
    }
}

/// The base-two logarithm of how many bits one field element packs.
pub const LOG_PACKING: usize = 7;

/// A matrix of bits; row `i` lists the columns that hold a one.
#[derive(Clone, Debug)]
pub struct SparseBinaryMatrix {
    pub num_rows: usize,
    pub num_cols: usize,
    pub rows: Vec<Vec<usize>>,
}

/// A system of `2^m` bits in blocks of `2^k_log`: in every block, each row of
/// `a_0` times the same row of `b_0` is the bit at that row.
#[derive(Clone, Debug)]
pub struct BlockR1cs {
    pub m: usize,
    pub k_log: usize,
    pub k_skip: usize,
    pub useful_bits: usize,
    pub a_0: SparseBinaryMatrix,
    pub b_0: SparseBinaryMatrix,
    /// The position that must hold a one in every block.
    pub const_pin: Option<usize>,
}

/// The columns of a row.
pub open spec fn columns(row: Seq<usize>) -> Seq<int> {
    row.map_values(|c: usize| c as int)
}

/// The rows of a matrix.
pub open spec fn matrix_rows(mat: SparseBinaryMatrix) -> Seq<Seq<int>> {
    mat.rows@.map_values(|r: Vec<usize>| columns(r@))
}

/// The sum, over single bits, of the bits that a row selects from the block at
/// `off`.
pub open spec fn parity(row: Seq<int>, z: Seq<bool>, off: int) -> bool
    decreases row.len(),
{
    if row.len() == 0 {
        false
    } else {
        parity(row.drop_last(), z, off) ^ z[off + row.last()]
    }
}

/// Whether row `r` holds in the block at `off`.
pub open spec fn row_holds(
    a: Seq<Seq<int>>,
    b: Seq<Seq<int>>,
    z: Seq<bool>,
    off: int,
    r: int,
) -> bool {
    (parity(a[r], z, off) && parity(b[r], z, off)) == z[off + r]
}

/// Whether all `k` rows hold in the block at `off`.
pub open spec fn block_holds(
    a: Seq<Seq<int>>,
    b: Seq<Seq<int>>,
    k: int,
    z: Seq<bool>,
    off: int,
) -> bool {
    forall|r: int| 0 <= r < k ==> #[trigger] row_holds(a, b, z, off, r)
}

impl SparseBinaryMatrix {
    /// The matrix is square with `k` rows, and its columns exist.
    pub open spec fn square(self, k: nat) -> bool {
        &&& self.num_rows == k
        &&& self.num_cols == k
        &&& self.rows@.len() == k
        &&& forall|i: int, j: int|
            #![trigger self.rows@[i]@[j]]
            0 <= i < k && 0 <= j < self.rows@[i]@.len() ==> self.rows@[i]@[j] < k
    }
}

impl BlockR1cs {
    pub open spec fn well_formed(self) -> bool {
        &&& self.k_log <= self.m
        &&& pow2(self.m as nat) <= usize::MAX
        &&& self.a_0.square(pow2(self.k_log as nat))
        &&& self.b_0.square(pow2(self.k_log as nat))
        &&& self.const_pin matches Some(pin) ==> pin < pow2(self.k_log as nat)
    }

    /// How many blocks there are.
    pub open spec fn blocks(self) -> nat {
        pow2((self.m - self.k_log) as nat)
    }

    /// Whether an assignment satisfies the rows of every block.
    pub open spec fn holds(self, z: Seq<bool>) -> bool {
        let k = pow2(self.k_log as nat) as int;
        forall|blk: int|
            0 <= blk < self.blocks() ==> #[trigger] block_holds(
                matrix_rows(self.a_0),
                matrix_rows(self.b_0),
                k,
                z,
                blk * k,
            )
    }

    /// Whether an assignment holds a one at the pinned position of every block.
    pub open spec fn pinned(self, z: Seq<bool>) -> bool {
        self.const_pin matches Some(pin) ==> forall|blk: int|
            0 <= blk < self.blocks() ==> #[trigger] z[blk * pow2(self.k_log as nat) + pin]
    }

    /// How many bits an assignment has.
    pub fn n(&self) -> (n: usize)
        requires
            self.well_formed(),
        ensures
            n == pow2(self.m as nat),
    {
        power_of_two(self.m)
    }

    /// How many bits a block has.
    pub fn k(&self) -> (k: usize)
        requires
            self.well_formed(),
        ensures
            k == pow2(self.k_log as nat),
    {
        proof {
            lemma_pow2_mono(self.k_log as nat, self.m as nat);
        }
        power_of_two(self.k_log)
    }

    /// How many blocks there are.
    pub fn n_outer(&self) -> (n: usize)
        requires
            self.well_formed(),
        ensures
            n == self.blocks(),
    {
        proof {
            lemma_pow2_mono((self.m - self.k_log) as nat, self.m as nat);
        }
        power_of_two(self.m - self.k_log)
    }
}

/// Blocks of `k` bits fill the assignment.
proof fn lemma_block_bounds(r: BlockR1cs, blk: int)
    requires
        r.well_formed(),
        0 <= blk < r.blocks(),
    ensures
        0 <= blk * pow2(r.k_log as nat),
        blk * pow2(r.k_log as nat) + pow2(r.k_log as nat) <= pow2(r.m as nat),
{
    let k = pow2(r.k_log as nat);
    let n = r.blocks();
    lemma_pow2_adds((r.m - r.k_log) as nat, r.k_log as nat);
    assert(blk * k + k <= n * k) by (nonlinear_arith)
        requires
            0 <= blk < n,
            k >= 0,
    ;
    assert(0 <= blk * k) by (nonlinear_arith)
        requires
            0 <= blk,
            k >= 0,
    ;
}

/// The sum of the bits that a row selects.
fn row_parity(row: &Vec<usize>, z: &[bool], off: usize) -> (b: bool)
    requires
        forall|i: int| 0 <= i < row@.len() ==> off + #[trigger] row@[i] < z@.len(),
    ensures
        b == parity(columns(row@), z@, off as int),
{
    let mut b: bool = false;
    let total: usize = z.len();
    let ghost cols = columns(row@);
    assert(cols.take(0) =~= Seq::<int>::empty());
    for i in 0..row.len()
        invariant
            total == z@.len(),
            cols == columns(row@),
            forall|j: int| 0 <= j < row@.len() ==> off + #[trigger] row@[j] < z@.len(),
            b == parity(cols.take(i as int), z@, off as int),
    {
        assert(cols.take(i + 1).drop_last() =~= cols.take(i as int));
        assert(cols.take(i + 1).last() == row@[i as int]);
        b = b ^ z[off + row[i]];
    }
    assert(cols.take(row@.len() as int) =~= cols);
    b
}

/// The product of a matrix with every block of an assignment.
fn apply(mat: &SparseBinaryMatrix, z: &[bool], k: usize, n_blocks: usize) -> (out: Vec<bool>)
    requires
        mat.square(k as nat),
        z@.len() == n_blocks * k,
        k >= 1,
    ensures
        out@.len() == z@.len(),
        forall|blk: int, r: int|
            #![trigger out@[blk * k + r]]
            0 <= blk < n_blocks && 0 <= r < k ==> out@[blk * k + r] == parity(
                matrix_rows(*mat)[r],
                z@,
                blk * k,
            ),
{
    let total: usize = z.len();
    let mut out: Vec<bool> = Vec::new();
    for i in 0..total
        invariant
            total == z@.len() == n_blocks * k,
            mat.square(k as nat),
            k >= 1,
            out@.len() == i,
            forall|p: int|
                0 <= p < i ==> #[trigger] out@[p] == parity(
                    matrix_rows(*mat)[p % k as int],
                    z@,
                    p / k as int * k,
                ),
    {
        let r: usize = i % k;
        let blk: usize = i / k;
        proof {
            vstd::arithmetic::div_mod::lemma_fundamental_div_mod(i as int, k as int);
            assert(k * blk == blk * k) by (nonlinear_arith);
            lemma_inside(i as int, k as int, n_blocks as int);
        }
        let off: usize = i - r;
        proof {
            assert forall|j: int| 0 <= j < mat.rows@[r as int]@.len() implies off
                + #[trigger] mat.rows@[r as int]@[j] < z@.len() by {}
        }
        let b = row_parity(&mat.rows[r], z, off);
        out.push(b);
    }
    proof {
        assert forall|blk: int, r: int|
            #![trigger out@[blk * k + r]]
            0 <= blk < n_blocks && 0 <= r < k implies out@[blk * k + r] == parity(
            matrix_rows(*mat)[r],
            z@,
            blk * k,
        ) by {
            let p = blk * k + r;
            vstd::arithmetic::div_mod::lemma_fundamental_div_mod_converse(p, k as int, blk, r);
            assert(blk * k == k * blk) by (nonlinear_arith);
            assert(0 <= blk * k && blk * k + k <= n_blocks * k) by (nonlinear_arith)
                requires
                    0 <= blk < n_blocks,
                    k >= 1,
            ;
        }
    }
    out
}

/// The block of position `i` ends within `n` blocks.
proof fn lemma_inside(i: int, k: int, n: int)
    requires
        0 <= i < n * k,
        k >= 1,
    ensures
        0 <= i / k < n,
        i / k * k + k <= n * k,
        0 <= i % k < k,
        i / k * k == i - i % k,
{
    vstd::arithmetic::div_mod::lemma_fundamental_div_mod(i, k);
    assert(k * (i / k) == i / k * k) by (nonlinear_arith);
    assert(i / k < n) by (nonlinear_arith)
        requires
            i / k * k <= i,
            i < n * k,
            k >= 1,
    ;
    assert(i / k * k + k <= n * k) by (nonlinear_arith)
        requires
            i / k < n,
            k >= 1,
    ;
    assert(0 <= i / k) by (nonlinear_arith)
        requires
            0 <= i,
            k >= 1,
    ;
}

impl BlockR1cs {
    /// The products of the first matrix with every block.
    pub fn apply_a(&self, z: &[bool]) -> (out: Vec<bool>)
        requires
            self.well_formed(),
            z@.len() == pow2(self.m as nat),
        ensures
            out@.len() == z@.len(),
            forall|blk: int, r: int|
                #![trigger out@[blk * pow2(self.k_log as nat) + r]]
                0 <= blk < self.blocks() && 0 <= r < pow2(self.k_log as nat) ==> out@[blk * pow2(
                    self.k_log as nat,
                ) + r] == parity(matrix_rows(self.a_0)[r], z@, blk * pow2(self.k_log as nat)),
    {
        proof {
            lemma_pow2_adds((self.m - self.k_log) as nat, self.k_log as nat);
            lemma_pow2_pos(self.k_log as nat);
        }
        apply(&self.a_0, z, self.k(), self.n_outer())
    }

    /// The products of the second matrix with every block.
    pub fn apply_b(&self, z: &[bool]) -> (out: Vec<bool>)
        requires
            self.well_formed(),
            z@.len() == pow2(self.m as nat),
        ensures
            out@.len() == z@.len(),
            forall|blk: int, r: int|
                #![trigger out@[blk * pow2(self.k_log as nat) + r]]
                0 <= blk < self.blocks() && 0 <= r < pow2(self.k_log as nat) ==> out@[blk * pow2(
                    self.k_log as nat,
                ) + r] == parity(matrix_rows(self.b_0)[r], z@, blk * pow2(self.k_log as nat)),
    {
        proof {
            lemma_pow2_adds((self.m - self.k_log) as nat, self.k_log as nat);
            lemma_pow2_pos(self.k_log as nat);
        }
        apply(&self.b_0, z, self.k(), self.n_outer())
    }

    /// The products of the third matrix, which is the identity.
    pub fn apply_c(&self, z: &[bool]) -> (out: Vec<bool>)
        ensures
            out@ == z@,
    {
        vstd::slice::slice_to_vec(z)
    }

    /// Whether an assignment satisfies the rows of every block. The pinned
    /// position is not looked at.
    pub fn satisfies(&self, z: &[bool]) -> (ok: bool)
        requires
            self.well_formed(),
            z@.len() == pow2(self.m as nat),
        ensures
            ok == self.holds(z@),
    {
        let a = self.apply_a(z);
        let b = self.apply_b(z);
        let ghost k = pow2(self.k_log as nat) as int;
        let ghost ra = matrix_rows(self.a_0);
        let ghost rb = matrix_rows(self.b_0);
        for i in 0..z.len()
            invariant
                self.well_formed(),
                z@.len() == pow2(self.m as nat),
                a@.len() == z@.len(),
                b@.len() == z@.len(),
                k == pow2(self.k_log as nat),
                ra == matrix_rows(self.a_0),
                rb == matrix_rows(self.b_0),
                forall|blk: int, r: int|
                    #![trigger a@[blk * pow2(self.k_log as nat) + r]]
                    0 <= blk < self.blocks() && 0 <= r < pow2(self.k_log as nat) ==> a@[blk * pow2(
                        self.k_log as nat,
                    ) + r] == parity(ra[r], z@, blk * pow2(self.k_log as nat)),
                forall|blk: int, r: int|
                    #![trigger b@[blk * pow2(self.k_log as nat) + r]]
                    0 <= blk < self.blocks() && 0 <= r < pow2(self.k_log as nat) ==> b@[blk * pow2(
                        self.k_log as nat,
                    ) + r] == parity(rb[r], z@, blk * pow2(self.k_log as nat)),
                forall|p: int| 0 <= p < i ==> (a@[p] && b@[p]) == #[trigger] z@[p],
        {
            if (a[i] && b[i]) != z[i] {
                proof {
                    lemma_pow2_adds((self.m - self.k_log) as nat, self.k_log as nat);
                    lemma_pow2_pos(self.k_log as nat);
                    lemma_inside(i as int, k, self.blocks() as int);
                    let blk = i as int / k;
                    let r = i as int % k;
                    assert(blk * k + r == i);
                    assert(a@[blk * pow2(self.k_log as nat) + r] == parity(
                        ra[r],
                        z@,
                        blk * pow2(self.k_log as nat),
                    ));
                    assert(b@[blk * pow2(self.k_log as nat) + r] == parity(
                        rb[r],
                        z@,
                        blk * pow2(self.k_log as nat),
                    ));
                    assert(!row_holds(ra, rb, z@, blk * k, r));
                    assert(!block_holds(ra, rb, k, z@, blk * k));
                }
                return false;
            }
        }
        proof {
            assert forall|blk: int| 0 <= blk < self.blocks() implies #[trigger] block_holds(
                ra,
                rb,
                k,
                z@,
                blk * k,
            ) by {
                lemma_block_bounds(*self, blk);
                assert forall|r: int| 0 <= r < k implies #[trigger] row_holds(
                    ra,
                    rb,
                    z@,
                    blk * k,
                    r,
                ) by {
                    assert(a@[blk * pow2(self.k_log as nat) + r] == parity(
                        ra[r],
                        z@,
                        blk * pow2(self.k_log as nat),
                    ));
                    assert(b@[blk * pow2(self.k_log as nat) + r] == parity(
                        rb[r],
                        z@,
                        blk * pow2(self.k_log as nat),
                    ));
                    assert((a@[blk * k + r] && b@[blk * k + r]) == z@[blk * k + r]);
                }
            }
        }
        true
    }
}

/// A system of `2^n_blocks_log` blocks with the given matrices.
pub fn build_block_r1cs_with_matrices(
    n_blocks_log: usize,
    k_log: usize,
    k_skip: usize,
    useful_bits: usize,
    a_0: SparseBinaryMatrix,
    b_0: SparseBinaryMatrix,
    const_pin: Option<usize>,
) -> (r: BlockR1cs)
    requires
        n_blocks_log + k_log <= usize::MAX,
    ensures
        r.m == n_blocks_log + k_log,
        r.k_log == k_log,
        r.k_skip == k_skip,
        r.useful_bits == useful_bits,
        r.a_0 == a_0,
        r.b_0 == b_0,
        r.const_pin == const_pin,
{
    BlockR1cs { m: n_blocks_log + k_log, k_log, k_skip, useful_bits, a_0, b_0, const_pin }
}

/// The parity of a row with one column more.
pub proof fn lemma_parity_push(row: Seq<int>, c: int, z: Seq<bool>, off: int)
    ensures
        parity(row.push(c), z, off) == parity(row, z, off) ^ z[off + c],
{
    assert(row.push(c).drop_last() =~= row);
}

/// The parity of no column, of one, of two and of three.
pub proof fn lemma_parity_few(a: int, b: int, c: int, z: Seq<bool>, off: int)
    ensures
        parity(Seq::<int>::empty(), z, off) == false,
        parity(seq![a], z, off) == z[off + a],
        parity(seq![a, b], z, off) == z[off + a] ^ z[off + b],
        parity(seq![a, b, c], z, off) == z[off + a] ^ z[off + b] ^ z[off + c],
{
    assert(seq![a] =~= Seq::<int>::empty().push(a));
    assert(seq![a, b] =~= seq![a].push(b));
    assert(seq![a, b, c] =~= seq![a, b].push(c));
    lemma_parity_push(Seq::<int>::empty(), a, z, off);
    lemma_parity_push(seq![a], b, z, off);
    lemma_parity_push(seq![a, b], c, z, off);
}

/// The parity of a row over an empty block.
pub proof fn lemma_parity_zero(row: Seq<int>, z: Seq<bool>, off: int)
    requires
        forall|i: int| 0 <= i < row.len() ==> !z[off + #[trigger] row[i]],
    ensures
        !parity(row, z, off),
    decreases row.len(),
{
    if row.len() > 0 {
        lemma_parity_zero(row.drop_last(), z, off);
    }
}

/// The parity of a row is set where an odd number of its columns hold a set
/// bit.
pub proof fn law_parity_counts(row: Seq<int>, z: Seq<bool>, off: int)
    ensures
        parity(row, z, off) <==> count_set(Seq::new(row.len(), |i: int| z[off + row[i]])) % 2 == 1,
    decreases row.len(),
{
    let bits = Seq::new(row.len(), |i: int| z[off + row[i]]);
    if row.len() > 0 {
        let d = row.drop_last();
        law_parity_counts(d, z, off);
        assert(bits.drop_last() =~= Seq::new(d.len(), |i: int| z[off + d[i]]));
    }
}

/// In a satisfied system the product of the two sums of every row of every
/// block, each a sum modulo two over the columns that the row names, is the
/// bit of that row.
pub proof fn law_satisfied_row(r: BlockR1cs, z: Seq<bool>, blk: int, row: int)
    requires
        r.well_formed(),
        r.holds(z),
        0 <= blk < pow2((r.m - r.k_log) as nat),
        0 <= row < pow2(r.k_log as nat),
    ensures
        ({
            let off = blk * pow2(r.k_log as nat);
            let a = r.a_0.rows@[row]@;
            let b = r.b_0.rows@[row]@;
            z[off + row] <==> count_set(Seq::new(a.len(), |i: int| z[off + a[i]])) % 2 == 1
                && count_set(Seq::new(b.len(), |i: int| z[off + b[i]])) % 2 == 1
        }),
{
    lemma_row_counts(r, z, blk, row);
    let k = pow2(r.k_log as nat) as int;
    assert(block_holds(matrix_rows(r.a_0), matrix_rows(r.b_0), k, z, blk * k));
    assert(row_holds(matrix_rows(r.a_0), matrix_rows(r.b_0), z, blk * k, row));
}

/// In a system that is not satisfied some row of some block fails.
pub proof fn law_unsatisfied_row(r: BlockR1cs, z: Seq<bool>) -> (at: (int, int))
    requires
        r.well_formed(),
        !r.holds(z),
    ensures
        0 <= at.0 < pow2((r.m - r.k_log) as nat),
        0 <= at.1 < pow2(r.k_log as nat),
        ({
            let off = at.0 * pow2(r.k_log as nat);
            let a = r.a_0.rows@[at.1]@;
            let b = r.b_0.rows@[at.1]@;
            z[off + at.1] != (count_set(Seq::new(a.len(), |i: int| z[off + a[i]])) % 2 == 1
                && count_set(Seq::new(b.len(), |i: int| z[off + b[i]])) % 2 == 1)
        }),
{
    let k = pow2(r.k_log as nat) as int;
    let (ra, rb) = (matrix_rows(r.a_0), matrix_rows(r.b_0));
    let blk = choose|blk: int|
        0 <= blk < r.blocks() && !#[trigger] block_holds(ra, rb, k, z, blk * k);
    let row = choose|row: int| 0 <= row < k && !#[trigger] row_holds(ra, rb, z, blk * k, row);
    lemma_row_counts(r, z, blk, row);
    (blk, row)
}

proof fn lemma_row_counts(r: BlockR1cs, z: Seq<bool>, blk: int, row: int)
    requires
        r.well_formed(),
        0 <= row < pow2(r.k_log as nat),
    ensures
        ({
            let off = blk * pow2(r.k_log as nat);
            let a = r.a_0.rows@[row]@;
            let b = r.b_0.rows@[row]@;
            &&& parity(matrix_rows(r.a_0)[row], z, off) <==> count_set(
                Seq::new(a.len(), |i: int| z[off + a[i]]),
            ) % 2 == 1
            &&& parity(matrix_rows(r.b_0)[row], z, off) <==> count_set(
                Seq::new(b.len(), |i: int| z[off + b[i]]),
            ) % 2 == 1
        }),
{
    let off = blk * pow2(r.k_log as nat);
    let a = r.a_0.rows@[row]@;
    let b = r.b_0.rows@[row]@;
    let (ca, cb) = (columns(a), columns(b));
    law_parity_counts(ca, z, off);
    law_parity_counts(cb, z, off);
    assert(Seq::new(ca.len(), |i: int| z[off + ca[i]]) =~= Seq::new(
        a.len(),
        |i: int| z[off + a[i]],
    ));
    assert(Seq::new(cb.len(), |i: int| z[off + cb[i]]) =~= Seq::new(
        b.len(),
        |i: int| z[off + b[i]],
    ));
}

/// A system is pinned where its pinned column, if it has one, is set in every
/// block.
pub proof fn law_pinned_column(r: BlockR1cs, z: Seq<bool>, pin: usize, blk: int)
    requires
        r.const_pin == Some(pin),
        r.pinned(z),
        0 <= blk < pow2((r.m - r.k_log) as nat),
    ensures
        z[blk * pow2(r.k_log as nat) + pin],
{
    let p = r.const_pin->0;
    assert(z[blk * pow2(r.k_log as nat) + p]);
}

} // verus!
