//! The route circuit in single steps: each block compares the key with one
//! child, and hands on whether a child was found and which digest is selected.

use vstd::arithmetic::power2::{lemma2_to64, pow2};
use vstd::prelude::*;

use crate::backend::{
    asks_base, default_params, lone_verdict, make_params, packed_words, BaseQuestion, Commitment,
    LoneQuestion, OpenedCore, PcsParams, R1csClaim, Relation, VerifyError,
};
use crate::bits::{all_bits, bit_at, blank, clear_words, filled, linear, product, set_zab, Zab};
use crate::math::{
    ceil_log2, law_next_pow2_is_least, lemma_pow2_is_pow2, log2_ceil, next_pow2, next_power_of_two,
    power_of_two,
};
use crate::packing::{append_block, blocks_filled, lemma_block_bits, zero_block_words};
use crate::r1cs::{
    block_holds, build_block_r1cs_with_matrices, lemma_parity_few, matrix_rows, parity, row_holds,
    BlockR1cs, SparseBinaryMatrix, F128,
};
use crate::route_f32::{digest_bits, index_bit, spelled_index, Route};
use crate::rows::{
    blank_emit, cols_one, cols_three, cols_two, input_emit, rows_built, set_mul, square_matrix,
};

verus! {

pub const K_LOG: usize = 11;

pub const K: usize = 2048;

pub const K_SKIP: usize = 6;

pub const U64_PER_BLOCK: usize = K / 64;

pub const KEY_BITS: usize = 256;

pub const DIGEST_BITS: usize = 256;

pub const W_MAX: usize = 5;

pub const MATCH_AUX_COUNT: usize = W_MAX - 2;

pub const KEY_BASE: usize = 0;

pub const MASK_BASE: usize = KEY_BASE + KEY_BITS;

pub const Z_CONST_POS: usize = MASK_BASE + KEY_BITS;

pub const CHILD_DIGEST_BASE: usize = Z_CONST_POS + 1;

pub const CHILD_INDEX_BASE: usize = CHILD_DIGEST_BASE + DIGEST_BITS;

pub const EXTRACTED_BASE: usize = CHILD_INDEX_BASE + W_MAX;

pub const MATCH_AUX_BASE: usize = EXTRACTED_BASE + W_MAX;

pub const MATCH_RESULT_POS: usize = MATCH_AUX_BASE + MATCH_AUX_COUNT;

pub const TAKE_POS: usize = MATCH_RESULT_POS + 1;

pub const FOUND_IN_POS: usize = TAKE_POS + 1;

pub const FOUND_OUT_POS: usize = FOUND_IN_POS + 1;

pub const SELECTED_IN_BASE: usize = FOUND_OUT_POS + 1;

pub const MUX_DELTA_BASE: usize = SELECTED_IN_BASE + DIGEST_BITS;

pub const SELECTED_OUT_BASE: usize = MUX_DELTA_BASE + DIGEST_BITS;

pub const USEFUL_BITS: usize = SELECTED_OUT_BASE + DIGEST_BITS;

/// The label that a proof's transcript starts with.
pub const TRANSCRIPT_LABEL: &'static str = "mhot-route-single-v0";

/// The least base-two logarithm of a committed assignment's length.
pub const MIN_LIGERITO_M: usize = 22;

/// The least number of instances that a batch is padded to.
pub const MIN_LIGERITO_INSTANCES: usize = 2048;

/// What one step is given: a key, a mask, one child's digest and the bits of
/// its index, whether a child was found before, and the digest selected so far.
pub struct Step {
    pub key: Seq<bool>,
    pub mask: Seq<bool>,
    pub digest: Seq<bool>,
    pub index: Seq<bool>,
    pub found_in: bool,
    pub selected_in: Seq<bool>,
}

impl Step {
    /// Whether bit `j` of the index that the key spells under the mask is the
    /// child's.
    pub open spec fn bit_eq(self, j: int) -> bool {
        (self.key[j] && self.mask[j]) == self.index[j]
    }

    /// Whether the key spells the child's index.
    pub open spec fn matched(self) -> bool {
        self.bit_eq(0) && self.bit_eq(1) && self.bit_eq(2) && self.bit_eq(3) && self.bit_eq(4)
    }

    /// Whether this child is the first to match.
    pub open spec fn take(self) -> bool {
        self.matched() && !self.found_in
    }

    /// Whether this child or one before it matches.
    pub open spec fn found_out(self) -> bool {
        self.found_in || self.take()
    }

    /// Bit `bit` of the digest selected up to this child.
    pub open spec fn selected_out(self, bit: int) -> bool {
        if self.take() {
            self.digest[bit]
        } else {
            self.selected_in[bit]
        }
    }

    /// What position `p` of a block holds.
    pub open spec fn cell(self, p: int) -> Zab {
        if p < 256 {
            linear(self.key[p])
        } else if p < 512 {
            linear(self.mask[p - 256])
        } else if p == 512 {
            product(true, true)
        } else if p < 769 {
            linear(self.digest[p - 513])
        } else if p < 774 {
            linear(self.index[p - 769])
        } else if p < 779 {
            product(self.key[p - 774], self.mask[p - 774])
        } else if p == 779 {
            product(self.bit_eq(0), self.bit_eq(1))
        } else if p == 780 {
            product(self.bit_eq(0) && self.bit_eq(1), self.bit_eq(2))
        } else if p == 781 {
            product(self.bit_eq(0) && self.bit_eq(1) && self.bit_eq(2), self.bit_eq(3))
        } else if p == 782 {
            product(
                self.bit_eq(0) && self.bit_eq(1) && self.bit_eq(2) && self.bit_eq(3),
                self.bit_eq(4),
            )
        } else if p == 783 {
            product(self.matched(), !self.found_in)
        } else if p == 784 {
            linear(self.found_in)
        } else if p == 785 {
            linear(self.found_out())
        } else if p < 1042 {
            linear(self.selected_in[p - 786])
        } else if p < 1298 {
            product(self.take(), self.digest[p - 1042] ^ self.selected_in[p - 1042])
        } else if p < 1554 {
            linear(self.selected_out(p - 1298))
        } else {
            blank()
        }
    }

    /// All cells of a block.
    pub open spec fn cells(self) -> spec_fn(int) -> Zab {
        |p: int| self.cell(p)
    }
}

/// The columns that say whether bit `j` of the spelled index is the child's.
pub open spec fn eq_cols(j: int) -> Seq<int> {
    seq![512, 774 + j, 769 + j]
}

/// The first factor's row at position `p`.
pub open spec fn row_a(p: int) -> Seq<int> {
    if p < 774 {
        seq![p]
    } else if p < 779 {
        seq![p - 774]
    } else if p == 779 {
        eq_cols(0)
    } else if p < 784 {
        seq![p - 1]
    } else if p == 784 {
        seq![p]
    } else if p == 785 {
        seq![784int, 783]
    } else if p < 1042 {
        seq![p]
    } else if p < 1298 {
        seq![783int]
    } else if p < 1554 {
        seq![p - 512, p - 256]
    } else {
        Seq::empty()
    }
}

/// The second factor's row at position `p`.
pub open spec fn row_b(p: int) -> Seq<int> {
    if p < 774 {
        seq![512int]
    } else if p < 779 {
        seq![p - 518]
    } else if p < 783 {
        eq_cols(p - 778)
    } else if p == 783 {
        seq![512int, 784]
    } else if p < 1042 {
        seq![512int]
    } else if p < 1298 {
        seq![p - 529, p - 256]
    } else if p < 1554 {
        seq![512int]
    } else {
        Seq::empty()
    }
}

fn eq_expr(bit: usize) -> (r: Vec<usize>)
    requires
        bit < 5,
    ensures
        crate::r1cs::columns(r@) == eq_cols(bit as int),
{
    cols_three(Z_CONST_POS, EXTRACTED_BASE + bit, CHILD_INDEX_BASE + bit)
}

/// The columns of all rows exist.
proof fn lemma_rows_in_range(p: int, j: int)
    requires
        0 <= p < 2048,
    ensures
        0 <= j < row_a(p).len() ==> 0 <= row_a(p)[j] < 2048,
        0 <= j < row_b(p).len() ==> 0 <= row_b(p)[j] < 2048,
{
}

/// Whether these are the matrices of the circuit.
pub open spec fn is_route_single(a: SparseBinaryMatrix, b: SparseBinaryMatrix) -> bool {
    &&& a.square(2048)
    &&& b.square(2048)
    &&& matrix_rows(a) == rows_a()
    &&& matrix_rows(b) == rows_b()
}

/// The rows of the first matrix.
pub open spec fn rows_a() -> Seq<Seq<int>> {
    Seq::new(2048, |p: int| row_a(p))
}

/// The rows of the second matrix.
pub open spec fn rows_b() -> Seq<Seq<int>> {
    Seq::new(2048, |p: int| row_b(p))
}

/// Builds the two matrices.
pub fn build_matrices_single() -> (r: (SparseBinaryMatrix, SparseBinaryMatrix))
    ensures
        is_route_single(r.0, r.1),
{
    let ghost ra = |p: int| row_a(p);
    let ghost rb = |p: int| row_b(p);
    let mut a: Vec<Vec<usize>> = Vec::new();
    let mut b: Vec<Vec<usize>> = Vec::new();
    input_emit(&mut a, &mut b, KEY_BASE, EXTRACTED_BASE, Z_CONST_POS, Ghost(ra), Ghost(rb));
    for j in 0..W_MAX
        invariant
            ra == (|p: int| row_a(p)),
            rb == (|p: int| row_b(p)),
            rows_built(a@, b@, 774 + j, ra, rb),
    {
        set_mul(
            &mut a,
            &mut b,
            cols_one(KEY_BASE + j),
            cols_one(MASK_BASE + j),
            Ghost(774 + j),
            Ghost(ra),
            Ghost(rb),
        );
    }
    set_mul(&mut a, &mut b, eq_expr(0), eq_expr(1), Ghost(779), Ghost(ra), Ghost(rb));
    set_mul(&mut a, &mut b, cols_one(MATCH_AUX_BASE), eq_expr(2), Ghost(780), Ghost(ra), Ghost(rb));
    set_mul(
        &mut a,
        &mut b,
        cols_one(MATCH_AUX_BASE + 1),
        eq_expr(3),
        Ghost(781),
        Ghost(ra),
        Ghost(rb),
    );
    set_mul(
        &mut a,
        &mut b,
        cols_one(MATCH_AUX_BASE + 2),
        eq_expr(4),
        Ghost(782),
        Ghost(ra),
        Ghost(rb),
    );
    set_mul(
        &mut a,
        &mut b,
        cols_one(MATCH_RESULT_POS),
        cols_two(Z_CONST_POS, FOUND_IN_POS),
        Ghost(783),
        Ghost(ra),
        Ghost(rb),
    );
    input_emit(&mut a, &mut b, FOUND_IN_POS, FOUND_OUT_POS, Z_CONST_POS, Ghost(ra), Ghost(rb));
    set_mul(
        &mut a,
        &mut b,
        cols_two(FOUND_IN_POS, TAKE_POS),
        cols_one(Z_CONST_POS),
        Ghost(785),
        Ghost(ra),
        Ghost(rb),
    );
    input_emit(&mut a, &mut b, SELECTED_IN_BASE, MUX_DELTA_BASE, Z_CONST_POS, Ghost(ra), Ghost(rb));
    for bit in 0..DIGEST_BITS
        invariant
            ra == (|p: int| row_a(p)),
            rb == (|p: int| row_b(p)),
            rows_built(a@, b@, 1042 + bit, ra, rb),
    {
        set_mul(
            &mut a,
            &mut b,
            cols_one(TAKE_POS),
            cols_two(CHILD_DIGEST_BASE + bit, SELECTED_IN_BASE + bit),
            Ghost(1042 + bit),
            Ghost(ra),
            Ghost(rb),
        );
    }
    for bit in 0..DIGEST_BITS
        invariant
            ra == (|p: int| row_a(p)),
            rb == (|p: int| row_b(p)),
            rows_built(a@, b@, 1298 + bit, ra, rb),
    {
        set_mul(
            &mut a,
            &mut b,
            cols_two(SELECTED_IN_BASE + bit, MUX_DELTA_BASE + bit),
            cols_one(Z_CONST_POS),
            Ghost(1298 + bit),
            Ghost(ra),
            Ghost(rb),
        );
    }
    blank_emit(&mut a, &mut b, USEFUL_BITS, K, Ghost(ra), Ghost(rb));
    proof {
        assert forall|p: int, j: int|
            #![trigger ra(p)[j]]
            0 <= p < K && 0 <= j < ra(p).len() implies 0 <= ra(p)[j] < K by {
            lemma_rows_in_range(p, j);
        }
        assert forall|p: int, j: int|
            #![trigger rb(p)[j]]
            0 <= p < K && 0 <= j < rb(p).len() implies 0 <= rb(p)[j] < K by {
            lemma_rows_in_range(p, j);
        }
    }
    let a_0 = square_matrix(a, K, Ghost(ra));
    let b_0 = square_matrix(b, K, Ghost(rb));
    assert(matrix_rows(a_0) =~= rows_a());
    assert(matrix_rows(b_0) =~= rows_b());
    (a_0, b_0)
}

/// Whether `r` is the system of `2^n_blocks_log` blocks of this circuit.
pub open spec fn is_route_single_system(r: BlockR1cs, n_blocks_log: nat) -> bool {
    &&& r.m == n_blocks_log + 11
    &&& r.k_log == 11
    &&& r.k_skip == 6
    &&& r.useful_bits == 1554
    &&& r.const_pin == Some(512usize)
    &&& is_route_single(r.a_0, r.b_0)
}

/// Builds the system of `2^n_blocks_log` blocks.
pub fn build_block_r1cs(n_blocks_log: usize) -> (r: BlockR1cs)
    requires
        n_blocks_log + 11 <= usize::MAX,
    ensures
        is_route_single_system(r, n_blocks_log as nat),
{
    let (a_0, b_0) = build_matrices_single();
    build_block_r1cs_with_matrices(
        n_blocks_log,
        K_LOG,
        K_SKIP,
        USEFUL_BITS,
        a_0,
        b_0,
        Some(Z_CONST_POS),
    )
}

/// One step of a route.
#[derive(Clone, Debug)]
pub struct RouteSingleWitness {
    pub key: [bool; 256],
    pub mask: [bool; 256],
    pub child_digest: [bool; 256],
    pub child_index: usize,
    pub found_in: bool,
    pub selected_in: [bool; 256],
}

impl RouteSingleWitness {
    /// What the step is given.
    pub open spec fn step(self) -> Step {
        Step {
            key: self.key@,
            mask: self.mask@,
            digest: self.child_digest@,
            index: Seq::new(5, |j: int| index_bit(self.child_index as int, j)),
            found_in: self.found_in,
            selected_in: self.selected_in@,
        }
    }
}

/// Bit `j` of a child's index.
fn child_index_bit(child: usize, j: usize) -> (b: bool)
    requires
        j < 5,
    ensures
        b == index_bit(child as int, j as int),
{
    if j == 0 {
        child % 2 == 1
    } else if j == 1 {
        child / 2 % 2 == 1
    } else if j == 2 {
        child / 4 % 2 == 1
    } else if j == 3 {
        child / 8 % 2 == 1
    } else {
        child / 16 % 2 == 1
    }
}

/// Fills one block: at every position the value, and the values of its two
/// factors.
pub fn fill_block_witness_single(
    witness: &RouteSingleWitness,
    z_u64: &mut [u64],
    a_u64: &mut [u64],
    b_u64: &mut [u64],
)
    requires
        old(z_u64)@.len() == 32,
        old(a_u64)@.len() == 32,
        old(b_u64)@.len() == 32,
    ensures
        filled(
            final(z_u64)@,
            final(a_u64)@,
            final(b_u64)@,
            32,
            2048,
            witness.step().cells(),
        ),
{
    let ghost s = witness.step();
    let ghost cells = s.cells();
    clear_words(z_u64);
    clear_words(a_u64);
    clear_words(b_u64);
    for i in 0..KEY_BITS
        invariant
            cells == s.cells(),
            s == witness.step(),
            filled(z_u64@, a_u64@, b_u64@, 32, i as int, cells),
    {
        let v: bool = witness.key[i];
        set_zab(KEY_BASE + i, v, v, true, z_u64, a_u64, b_u64, Ghost(32), Ghost(cells));
    }
    for i in 0..KEY_BITS
        invariant
            cells == s.cells(),
            s == witness.step(),
            filled(z_u64@, a_u64@, b_u64@, 32, 256 + i, cells),
    {
        let v: bool = witness.mask[i];
        set_zab(MASK_BASE + i, v, v, true, z_u64, a_u64, b_u64, Ghost(32), Ghost(cells));
    }
    set_zab(Z_CONST_POS, true, true, true, z_u64, a_u64, b_u64, Ghost(32), Ghost(cells));
    for i in 0..DIGEST_BITS
        invariant
            cells == s.cells(),
            s == witness.step(),
            filled(z_u64@, a_u64@, b_u64@, 32, 513 + i, cells),
    {
        let v: bool = witness.child_digest[i];
        set_zab(CHILD_DIGEST_BASE + i, v, v, true, z_u64, a_u64, b_u64, Ghost(32), Ghost(cells));
    }
    for j in 0..W_MAX
        invariant
            cells == s.cells(),
            s == witness.step(),
            filled(z_u64@, a_u64@, b_u64@, 32, 769 + j, cells),
    {
        let v: bool = child_index_bit(witness.child_index, j);
        set_zab(CHILD_INDEX_BASE + j, v, v, true, z_u64, a_u64, b_u64, Ghost(32), Ghost(cells));
    }
    for j in 0..W_MAX
        invariant
            cells == s.cells(),
            s == witness.step(),
            filled(z_u64@, a_u64@, b_u64@, 32, 774 + j, cells),
    {
        let k: bool = witness.key[j];
        let m: bool = witness.mask[j];
        set_zab(EXTRACTED_BASE + j, k && m, k, m, z_u64, a_u64, b_u64, Ghost(32), Ghost(cells));
    }
    let e0: bool = step_bit_eq(witness, 0);
    let e1: bool = step_bit_eq(witness, 1);
    let e2: bool = step_bit_eq(witness, 2);
    let e3: bool = step_bit_eq(witness, 3);
    let e4: bool = step_bit_eq(witness, 4);
    let aux0: bool = e0 && e1;
    set_zab(MATCH_AUX_BASE, aux0, e0, e1, z_u64, a_u64, b_u64, Ghost(32), Ghost(cells));
    let aux1: bool = aux0 && e2;
    set_zab(MATCH_AUX_BASE + 1, aux1, aux0, e2, z_u64, a_u64, b_u64, Ghost(32), Ghost(cells));
    let aux2: bool = aux1 && e3;
    set_zab(MATCH_AUX_BASE + 2, aux2, aux1, e3, z_u64, a_u64, b_u64, Ghost(32), Ghost(cells));
    let matched: bool = aux2 && e4;
    set_zab(MATCH_RESULT_POS, matched, aux2, e4, z_u64, a_u64, b_u64, Ghost(32), Ghost(cells));
    let found_in: bool = witness.found_in;
    let take: bool = matched && !found_in;
    set_zab(TAKE_POS, take, matched, !found_in, z_u64, a_u64, b_u64, Ghost(32), Ghost(cells));
    set_zab(FOUND_IN_POS, found_in, found_in, true, z_u64, a_u64, b_u64, Ghost(32), Ghost(cells));
    let found_out: bool = found_in ^ take;
    set_zab(FOUND_OUT_POS, found_out, found_out, true, z_u64, a_u64, b_u64, Ghost(32), Ghost(cells));
    for i in 0..DIGEST_BITS
        invariant
            cells == s.cells(),
            s == witness.step(),
            filled(z_u64@, a_u64@, b_u64@, 32, 786 + i, cells),
    {
        let v: bool = witness.selected_in[i];
        set_zab(SELECTED_IN_BASE + i, v, v, true, z_u64, a_u64, b_u64, Ghost(32), Ghost(cells));
    }
    for i in 0..DIGEST_BITS
        invariant
            cells == s.cells(),
            s == witness.step(),
            take == s.take(),
            filled(z_u64@, a_u64@, b_u64@, 32, 1042 + i, cells),
    {
        let rhs: bool = witness.child_digest[i] ^ witness.selected_in[i];
        set_zab(
            MUX_DELTA_BASE + i,
            take && rhs,
            take,
            rhs,
            z_u64,
            a_u64,
            b_u64,
            Ghost(32),
            Ghost(cells),
        );
    }
    for i in 0..DIGEST_BITS
        invariant
            cells == s.cells(),
            s == witness.step(),
            take == s.take(),
            filled(z_u64@, a_u64@, b_u64@, 32, 1298 + i, cells),
    {
        let rhs: bool = witness.child_digest[i] ^ witness.selected_in[i];
        let v: bool = witness.selected_in[i] ^ (take && rhs);
        set_zab(SELECTED_OUT_BASE + i, v, v, true, z_u64, a_u64, b_u64, Ghost(32), Ghost(cells));
    }
    assert(filled(z_u64@, a_u64@, b_u64@, 32, 2048, cells));
}

fn step_bit_eq(witness: &RouteSingleWitness, j: usize) -> (b: bool)
    requires
        j < 5,
    ensures
        b == witness.step().bit_eq(j as int),
{
    (witness.key[j] && witness.mask[j]) == child_index_bit(witness.child_index, j)
}

/// Whether the block at `off` holds the cells of `s`.
pub open spec fn block_is(s: Step, z: Seq<bool>, off: int) -> bool {
    forall|p: int| 0 <= p < 2048 ==> #[trigger] z[off + p] == s.cell(p).z
}

/// Whether position `p` is an input.
pub open spec fn is_input(p: int) -> bool {
    p < 512 || 513 <= p < 774 || p == 784 || 786 <= p < 1042
}

/// Each row's factors are the cell's, once all inputs and all positions below
/// hold their cells.
proof fn lemma_row_value(s: Step, z: Seq<bool>, off: int, p: int)
    requires
        0 <= p < 2048,
        z[off + 512],
        forall|q: int|
            0 <= q < 2048 && (q < p || is_input(q)) ==> #[trigger] z[off + q] == s.cell(q).z,
    ensures
        parity(row_a(p), z, off) == s.cell(p).a,
        parity(row_b(p), z, off) == s.cell(p).b,
{
    lemma_parity_few(512, 0, 0, z, off);
    lemma_parity_few(p, 0, 0, z, off);
    if 774 <= p < 779 {
        lemma_parity_few(p - 774, 0, 0, z, off);
        lemma_parity_few(p - 518, 0, 0, z, off);
        assert(z[off + (p - 774)] == s.cell(p - 774).z);
        assert(z[off + (p - 518)] == s.cell(p - 518).z);
    } else if 779 <= p < 783 {
        lemma_eq_parity(s, z, off, p - 778);
        if p == 779 {
            lemma_eq_parity(s, z, off, 0);
        } else {
            lemma_parity_few(p - 1, 0, 0, z, off);
            assert(z[off + (p - 1)] == s.cell(p - 1).z);
        }
    } else if p == 783 {
        lemma_parity_few(p - 1, 0, 0, z, off);
        assert(z[off + (p - 1)] == s.cell(p - 1).z);
        lemma_parity_few(512, 784, 0, z, off);
        assert(z[off + 784] == s.cell(784).z);
    } else if p == 785 {
        lemma_parity_few(784, 783, 0, z, off);
        assert(z[off + 784] == s.cell(784).z);
        assert(z[off + 783] == s.cell(783).z);
    } else if 1042 <= p < 1298 {
        lemma_parity_few(783, 0, 0, z, off);
        lemma_parity_few(p - 529, p - 256, 0, z, off);
        assert(z[off + 783] == s.cell(783).z);
        assert(z[off + (p - 529)] == s.cell(p - 529).z);
        assert(z[off + (p - 256)] == s.cell(p - 256).z);
    } else if 1298 <= p < 1554 {
        lemma_parity_few(p - 512, p - 256, 0, z, off);
        assert(z[off + (p - 512)] == s.cell(p - 512).z);
        assert(z[off + (p - 256)] == s.cell(p - 256).z);
    }
}

/// The parity of the columns that compare a bit of the index.
proof fn lemma_eq_parity(s: Step, z: Seq<bool>, off: int, j: int)
    requires
        0 <= j < 5,
        z[off + 512],
        forall|q: int| 0 <= q < 779 && q != 512 ==> #[trigger] z[off + q] == s.cell(q).z,
    ensures
        parity(eq_cols(j), z, off) == s.bit_eq(j),
{
    lemma_parity_few(512, 774 + j, 769 + j, z, off);
    assert(z[off + (774 + j)] == s.cell(774 + j).z);
    assert(z[off + (769 + j)] == s.cell(769 + j).z);
}

/// A filled block satisfies the circuit, whatever the step is given.
pub proof fn law_filled_block_satisfies(s: Step, z: Seq<bool>, off: int)
    requires
        block_is(s, z, off),
    ensures
        block_holds(rows_a(), rows_b(), 2048, z, off),
        z[off + 512],
{
    assert(z[off + 512] == s.cell(512).z);
    assert forall|p: int| 0 <= p < 2048 implies #[trigger] row_holds(
        rows_a(),
        rows_b(),
        z,
        off,
        p,
    ) by {
        lemma_row_value(s, z, off, p);
        assert(z[off + p] == s.cell(p).z);
        lemma_cell_is_product(s, p);
    }
}

/// Every cell is the product of its factors.
proof fn lemma_cell_is_product(s: Step, p: int)
    ensures
        s.cell(p).z == (s.cell(p).a && s.cell(p).b),
{
}

/// The step that a block's inputs spell.
pub open spec fn step_of(z: Seq<bool>, off: int) -> Step {
    Step {
        key: Seq::new(256, |i: int| z[off + i]),
        mask: Seq::new(256, |i: int| z[off + (256 + i)]),
        digest: Seq::new(256, |i: int| z[off + (513 + i)]),
        index: Seq::new(5, |j: int| z[off + (769 + j)]),
        found_in: z[off + 784],
        selected_in: Seq::new(256, |i: int| z[off + (786 + i)]),
    }
}

proof fn lemma_satisfying_prefix(z: Seq<bool>, off: int, n: int)
    requires
        block_holds(rows_a(), rows_b(), 2048, z, off),
        z[off + 512],
        0 <= n <= 2048,
    ensures
        forall|q: int|
            0 <= q < 2048 && (q < n || is_input(q)) ==> #[trigger] z[off + q] == step_of(
                z,
                off,
            ).cell(q).z,
    decreases n,
{
    let s = step_of(z, off);
    if n > 0 {
        let p = n - 1;
        lemma_satisfying_prefix(z, off, p);
        lemma_row_value(s, z, off, p);
        lemma_cell_is_product(s, p);
        assert(row_holds(rows_a(), rows_b(), z, off, p));
        assert(z[off + p] == s.cell(p).z);
    }
}

/// A satisfying block with its pin set is the filled block of its own inputs:
/// what it hands on follows from what it is given.
pub proof fn law_satisfying_block_is_filled(z: Seq<bool>, off: int)
    requires
        block_holds(rows_a(), rows_b(), 2048, z, off),
        z[off + 512],
    ensures
        block_is(step_of(z, off), z, off),
        z[off + 785] == step_of(z, off).found_out(),
        forall|i: int|
            0 <= i < 256 ==> z[off + #[trigger] selected_out_at(i)] == step_of(
                z,
                off,
            ).selected_out(i),
{
    let s = step_of(z, off);
    lemma_satisfying_prefix(z, off, 2048);
    assert(z[off + 785] == s.cell(785).z);
    assert forall|i: int| 0 <= i < 256 implies z[off + #[trigger] selected_out_at(i)]
        == s.selected_out(i) by {
        assert(z[off + selected_out_at(i)] == s.cell(selected_out_at(i)).z);
    }
}

/// The position of a bit of the digest that a block hands on.
pub open spec fn selected_out_at(i: int) -> int {
    1298 + i
}

/// A batch of steps: how many there are, how many it is padded to, and the
/// constraint system.
#[derive(Clone, Debug)]
pub struct RouteSingleSetup {
    pub n_instances: usize,
    pub setup_n_instances: usize,
    pub r1cs: BlockR1cs,
    pub pcs_params: PcsParams,
}

/// How many instances a batch of `n` is padded to.
pub open spec fn padded_instances(n: nat) -> nat {
    next_pow2(if n < 2048 {
        2048
    } else {
        n
    })
}

impl RouteSingleSetup {
    /// Whether this is the setup of a batch of `n`.
    pub open spec fn is_setup_of(self, n: nat) -> bool {
        &&& self.n_instances == n
        &&& self.setup_n_instances == padded_instances(n)
        &&& is_route_single_system(self.r1cs, ceil_log2(padded_instances(n)))
        &&& self.pcs_params == default_params(self.r1cs.m)
    }

    /// The setup of a batch of `n_instances`.
    pub fn new(n_instances: usize) -> (s: Self)
        requires
            n_instances >= 1,
            padded_instances(n_instances as nat) <= usize::MAX,
        ensures
            s.is_setup_of(n_instances as nat),
    {
        let floor: usize = if n_instances < MIN_LIGERITO_INSTANCES {
            MIN_LIGERITO_INSTANCES
        } else {
            n_instances
        };
        let setup_n_instances: usize = next_power_of_two(floor);
        let n_blocks_log: usize = log2_ceil(setup_n_instances);
        let r1cs = build_block_r1cs(n_blocks_log);
        let pcs_params = make_params(r1cs.m);
        RouteSingleSetup { n_instances, setup_n_instances, r1cs, pcs_params }
    }

    /// The base-two logarithm of how many instances the batch is padded to.
    pub fn n_blocks_log(&self) -> (n: usize)
        requires
            self.r1cs.k_log <= self.r1cs.m,
        ensures
            n == self.r1cs.m - self.r1cs.k_log,
    {
        self.r1cs.m - self.r1cs.k_log
    }
}

/// The route of a whole node.
pub open spec fn node_route_of(
    key: Seq<bool>,
    mask: Seq<bool>,
    children: Seq<[bool; 256]>,
) -> Route {
    Route { key, mask, children: digest_bits(children) }
}

/// Whether `w` is the step of child `c` in the route of a whole node: it is
/// handed what the children before it come to.
pub open spec fn is_node_step(w: RouteSingleWitness, r: Route, c: int) -> bool {
    &&& w.key@ == r.key
    &&& w.mask@ == r.mask
    &&& w.child_digest@ == r.children[c]
    &&& w.child_index == c
    &&& w.found_in == r.found(c)
    &&& forall|i: int| 0 <= i < 256 ==> #[trigger] w.selected_in@[i] == r.selected(c, i)
}

/// Builds the steps of a whole node, child by child.
pub fn build_node_witnesses(
    key: [bool; 256],
    mask: [bool; 256],
    children: &[[bool; 256]],
) -> (ws: Vec<RouteSingleWitness>)
    ensures
        ws@.len() == children@.len(),
        forall|c: int|
            0 <= c < children@.len() ==> is_node_step(
                #[trigger] ws@[c],
                node_route_of(key@, mask@, children@),
                c,
            ),
{
    let ghost r = node_route_of(key@, mask@, children@);
    let mut ws: Vec<RouteSingleWitness> = Vec::new();
    let mut found: bool = false;
    let mut selected = [false; 256];
    for c in 0..children.len()
        invariant
            r == node_route_of(key@, mask@, children@),
            ws@.len() == c,
            found == r.found(c as int),
            forall|i: int| 0 <= i < 256 ==> #[trigger] selected@[i] == r.selected(c as int, i),
            forall|d: int| 0 <= d < c ==> is_node_step(#[trigger] ws@[d], r, d),
    {
        let w = RouteSingleWitness {
            key,
            mask,
            child_digest: children[c],
            child_index: c,
            found_in: found,
            selected_in: selected,
        };
        let matched: bool = step_bit_eq(&w, 0) && step_bit_eq(&w, 1) && step_bit_eq(&w, 2)
            && step_bit_eq(&w, 3) && step_bit_eq(&w, 4);
        let take: bool = matched && !found;
        proof {
            lemma_step_of_child(w, r, c as int);
            assert(take == r.take(c as int));
        }
        if take {
            selected = children[c];
        }
        found = found ^ take;
        ws.push(w);
    }
    ws
}

/// A step of a node compares and selects as the route of the whole node does.
proof fn lemma_step_of_child(w: RouteSingleWitness, r: Route, c: int)
    requires
        is_node_step(w, r, c),
    ensures
        w.step().matched() == r.matches_child(c),
        w.step().take() == r.take(c),
        w.step().found_out() == r.found(c + 1),
        c >= 0 ==> forall|i: int|
            0 <= i < 256 ==> #[trigger] w.step().selected_out(i) == r.selected(c + 1, i),
{
    let s = w.step();
    assert(s.bit_eq(0) == r.bit_eq(c, 0));
    assert(s.bit_eq(1) == r.bit_eq(c, 1));
    assert(s.bit_eq(2) == r.bit_eq(c, 2));
    assert(s.bit_eq(3) == r.bit_eq(c, 3));
    assert(s.bit_eq(4) == r.bit_eq(c, 4));
    if c >= 0 {
        assert forall|i: int| 0 <= i < 256 implies #[trigger] s.selected_out(i) == r.selected(
            c + 1,
            i,
        ) by {
            assert(w.selected_in@[i] == r.selected(c, i));
        }
    }
}

/// Each step of a node hands on what the next is handed.
pub proof fn law_steps_chain(ws: Seq<RouteSingleWitness>, r: Route, c: int)
    requires
        forall|d: int| 0 <= d < ws.len() ==> is_node_step(#[trigger] ws[d], r, d),
        0 <= c,
        c + 1 < ws.len(),
    ensures
        ws[c].step().found_out() == ws[c + 1].found_in,
        forall|i: int|
            0 <= i < 256 ==> #[trigger] ws[c].step().selected_out(i) == ws[c + 1].selected_in@[i],
{
    lemma_step_of_child(ws[c], r, c);
    assert(is_node_step(ws[c + 1], r, c + 1));
}

/// The last step of a node with up to 32 children has found a child exactly
/// when the key spells the index of one, and then selects that child's digest.
pub proof fn law_steps_select_spelled_child(ws: Seq<RouteSingleWitness>, r: Route)
    requires
        0 < ws.len() <= 32,
        forall|d: int| 0 <= d < ws.len() ==> is_node_step(#[trigger] ws[d], r, d),
    ensures
        ws.last().step().found_out() <==> spelled_index(r) < ws.len(),
        spelled_index(r) < ws.len() ==> forall|i: int|
            0 <= i < 256 ==> #[trigger] ws.last().step().selected_out(i)
                == r.children[spelled_index(r)][i],
{
    let n = ws.len() as int;
    lemma_step_of_child(ws[n - 1], r, n - 1);
    crate::route_f32::lemma_route_scan(r, n, 0);
    if spelled_index(r) < n {
        assert forall|i: int| 0 <= i < 256 implies #[trigger] ws.last().step().selected_out(i)
            == r.children[spelled_index(r)][i] by {
            crate::route_f32::lemma_route_scan(r, n, i);
        }
    }
}

/// The step that stands in the blocks behind the batch: the first of a node
/// with a zero digest.
pub open spec fn padding_step() -> Step {
    Step {
        key: Seq::new(256, |i: int| false),
        mask: Seq::new(256, |i: int| i < 5),
        digest: Seq::new(256, |i: int| false),
        index: Seq::new(5, |j: int| false),
        found_in: false,
        selected_in: Seq::new(256, |i: int| false),
    }
}

fn padding_witness() -> (w: RouteSingleWitness)
    ensures
        w.step() == padding_step(),
{
    let mut mask: [bool; 256] = [false; 256];
    mask[0] = true;
    mask[1] = true;
    mask[2] = true;
    mask[3] = true;
    mask[4] = true;
    let w = RouteSingleWitness {
        key: [false; 256],
        mask,
        child_digest: [false; 256],
        child_index: 0,
        found_in: false,
        selected_in: [false; 256],
    };
    proof {
        let (s, t) = (w.step(), padding_step());
        assert(s.key =~= t.key);
        assert(s.mask =~= t.mask);
        assert(s.digest =~= t.digest);
        assert(s.index =~= t.index);
        assert(s.selected_in =~= t.selected_in);
    }
    w
}

/// The step in block `i` of a batch.
pub open spec fn batch_step(ws: Seq<RouteSingleWitness>, i: int) -> Step {
    if i < ws.len() {
        ws[i].step()
    } else {
        padding_step()
    }
}

/// The cells of a batch's blocks.
pub open spec fn batch_cells(ws: Seq<RouteSingleWitness>) -> spec_fn(int) -> spec_fn(int) -> Zab {
    |i: int| batch_step(ws, i).cells()
}

/// Packs the blocks of a batch, filled up with padding to `2^n_blocks_log`
/// blocks: the values, and the values of both factors.
pub fn generate_witness_with_ab_packed_and_lincheck(
    witnesses: &[RouteSingleWitness],
    n_blocks_log: usize,
) -> (r: (Vec<F128>, Vec<F128>, Vec<F128>))
    requires
        pow2(n_blocks_log as nat) <= usize::MAX,
        witnesses@.len() <= pow2(n_blocks_log as nat),
    ensures
        blocks_filled(
            r.0@,
            r.1@,
            r.2@,
            32,
            pow2(n_blocks_log as nat) as int,
            batch_cells(witnesses@),
        ),
{
    let n: usize = power_of_two(n_blocks_log);
    let padding = padding_witness();
    let mut z: Vec<F128> = Vec::new();
    let mut a: Vec<F128> = Vec::new();
    let mut b: Vec<F128> = Vec::new();
    let ghost cells = batch_cells(witnesses@);
    for i in 0..n
        invariant
            n == pow2(n_blocks_log as nat),
            padding.step() == padding_step(),
            cells == batch_cells(witnesses@),
            blocks_filled(z@, a@, b@, 32, i as int, cells),
    {
        let mut zw: Vec<u64> = zero_block_words(U64_PER_BLOCK);
        let mut aw: Vec<u64> = zero_block_words(U64_PER_BLOCK);
        let mut bw: Vec<u64> = zero_block_words(U64_PER_BLOCK);
        let w: &RouteSingleWitness = if i < witnesses.len() {
            &witnesses[i]
        } else {
            &padding
        };
        fill_block_witness_single(w, zw.as_mut_slice(), aw.as_mut_slice(), bw.as_mut_slice());
        assert(w.step() == batch_step(witnesses@, i as int));
        append_block(
            &mut z,
            &mut a,
            &mut b,
            &zw,
            &aw,
            &bw,
            Ghost(i as int),
            Ghost(32),
            Ghost(cells),
        );
    }
    (z, a, b)
}

/// The packed assignment of a batch satisfies the constraint system of its
/// setup, pin included.
pub proof fn law_batch_satisfies(
    setup: RouteSingleSetup,
    ws: Seq<RouteSingleWitness>,
    z: Seq<F128>,
    a: Seq<F128>,
    b: Seq<F128>,
    n: nat,
)
    requires
        setup.is_setup_of(n),
        blocks_filled(z, a, b, 32, setup.r1cs.blocks() as int, batch_cells(ws)),
    ensures
        setup.r1cs.holds(all_bits(packed_words(z))),
        setup.r1cs.pinned(all_bits(packed_words(z))),
{
    let bits = all_bits(packed_words(z));
    let blocks = setup.r1cs.blocks() as int;
    assert(pow2(11) == 2048) by {
        lemma2_to64();
    }
    assert forall|blk: int| 0 <= blk < blocks implies #[trigger] block_holds(
        rows_a(),
        rows_b(),
        2048,
        bits,
        blk * 2048,
    ) && bits[blk * 2048 + 512] by {
        let s = batch_step(ws, blk);
        assert forall|p: int| 0 <= p < 2048 implies #[trigger] bits[blk * 2048 + p] == s.cell(
            p,
        ).z by {
            lemma_block_bits(z, a, b, 32, blocks, batch_cells(ws), blk, p);
        }
        law_filled_block_satisfies(s, bits, blk * 2048);
    }
    assert forall|blk: int| 0 <= blk < setup.r1cs.blocks() implies #[trigger] bits[blk * pow2(
        setup.r1cs.k_log as nat,
    ) + 512] by {
        assert(block_holds(rows_a(), rows_b(), 2048, bits, blk * 2048));
    }
}

/// A proof for a batch of steps.
pub struct RouteSingleProof {
    pub zc_proof: Vec<u8>,
    pub lc_proof: Vec<u8>,
    pub pcs_open: Vec<u8>,
    pub commitment: Commitment,
    pub claim: R1csClaim,
    pub n_instances: usize,
    pub setup_n_instances: usize,
}

/// Whether a proof states what the proof system made of a batch, and its size.
pub open spec fn states_batch(proof: RouteSingleProof, setup: RouteSingleSetup, opened: OpenedCore) -> bool {
    &&& proof.zc_proof == opened.zc_proof
    &&& proof.lc_proof == opened.lc_proof
    &&& proof.pcs_open == opened.pcs_open
    &&& proof.commitment == opened.commitment
    &&& proof.claim == opened.claim
    &&& proof.n_instances == setup.n_instances
    &&& proof.setup_n_instances == setup.setup_n_instances
}

/// The proof of a batch, given what the proof system makes of its packed
/// assignment.
pub fn prove_route_single(
    setup: &RouteSingleSetup,
    witnesses: &[RouteSingleWitness],
    opened: OpenedCore,
) -> (proof: RouteSingleProof)
    requires
        witnesses@.len() == setup.n_instances,
    ensures
        states_batch(proof, *setup, opened),
{
    RouteSingleProof {
        zc_proof: opened.zc_proof,
        lc_proof: opened.lc_proof,
        pcs_open: opened.pcs_open,
        commitment: opened.commitment,
        claim: opened.claim,
        n_instances: setup.n_instances,
        setup_n_instances: setup.setup_n_instances,
    }
}

/// Whether this is the question about the proof of a batch.
pub open spec fn is_step_question(q: LoneQuestion, setup: RouteSingleSetup, proof: RouteSingleProof) -> bool {
    &&& q.label@ == "mhot-route-single-v0"@
    &&& asks_base(
        q.base,
        Relation::RouteStep { n: setup.n_instances },
        proof.zc_proof,
        proof.lc_proof,
        proof.pcs_open,
        proof.commitment,
    )
    &&& q.base.claims@.len() == 0
    &&& q.base.fork@.len() == 0
}

/// What the proof system is asked about the proof of a batch.
pub fn step_question<'a>(setup: &RouteSingleSetup, proof: &'a RouteSingleProof) -> (q: LoneQuestion<'a>)
    requires
        proof.n_instances == setup.n_instances,
        proof.setup_n_instances == setup.setup_n_instances,
    ensures
        is_step_question(q, *setup, *proof),
{
    LoneQuestion {
        label: "mhot-route-single-v0",
        base: BaseQuestion {
            relation: Relation::RouteStep { n: setup.n_instances },
            zc: &proof.zc_proof,
            lc: &proof.lc_proof,
            pcs: &proof.pcs_open,
            commitment: proof.commitment,
            claims: Vec::new(),
            fork: Vec::new(),
        },
    }
}

/// Decides on the proof of a batch, given what the proof system says to the
/// core and to the opening of `step_question`. The opening does not matter where
/// the core is rejected.
pub fn verify_route_single(
    setup: &RouteSingleSetup,
    proof: &RouteSingleProof,
    core: Result<R1csClaim, VerifyError>,
    opening_ok: bool,
) -> (r: Result<R1csClaim, VerifyError>)
    requires
        proof.n_instances == setup.n_instances,
        proof.setup_n_instances == setup.setup_n_instances,
    ensures
        r == lone_verdict(core, opening_ok),
{
    match core {
        Err(e) => Err(e),
        Ok(claim) => if opening_ok {
            Ok(claim)
        } else {
            Err(VerifyError::PcsAb)
        },
    }
}

/// The proof of a batch is of its size, what is asked about it is what the
/// proof system made of it, and where that is accepted it verifies with the
/// claim that it states.
pub proof fn law_batch_proof_verifies(
    setup: RouteSingleSetup,
    n: nat,
    proof: RouteSingleProof,
    opened: OpenedCore,
    q: LoneQuestion,
)
    requires
        setup.is_setup_of(n),
        states_batch(proof, setup, opened),
        is_step_question(q, setup, proof),
    ensures
        proof.n_instances == n,
        proof.setup_n_instances == padded_instances(n),
        q.base.relation == (Relation::RouteStep { n: n as usize }),
        *q.base.zc == opened.zc_proof && *q.base.lc == opened.lc_proof && *q.base.pcs
            == opened.pcs_open && q.base.commitment == opened.commitment,
        lone_verdict(Ok(opened.claim), true) == Ok::<R1csClaim, VerifyError>(proof.claim),
{
}

/// A filled block holds, beside its bits, the two sums of every row over those
/// bits, and each bit is the product of the two sums of its row.
pub proof fn law_filled_sums(r: Step, z: Seq<u64>, a: Seq<u64>, b: Seq<u64>, p: int)
    requires
        filled(z, a, b, 32, 2048, r.cells()),
        0 <= p < 2048,
    ensures
        z.len() == 32 && a.len() == 32 && b.len() == 32,
        (a[p / 64] >> ((p % 64) as u64)) & 1 == 1 <==> parity(row_a(p), all_bits(z), 0),
        (b[p / 64] >> ((p % 64) as u64)) & 1 == 1 <==> parity(row_b(p), all_bits(z), 0),
        (z[p / 64] >> ((p % 64) as u64)) & 1 == 1 <==> parity(row_a(p), all_bits(z), 0) && parity(
            row_b(p),
            all_bits(z),
            0,
        ),
{
    let bits = all_bits(z);
    assert forall|q: int| 0 <= q < 2048 implies #[trigger] bits[0int + q] == r.cell(q).z by {
        assert(bit_at(z, q) == r.cells()(q).z);
    }
    assert(bit_at(z, p) == r.cells()(p).z);
    assert(bit_at(a, p) == r.cells()(p).a);
    assert(bit_at(b, p) == r.cells()(p).b);
    assert(bits[0int + 512] == r.cell(512).z);
    lemma_row_value(r, bits, 0, p);
    lemma_cell_is_product(r, p);
}

/// A step of the route through a node takes the child's number in binary.
pub proof fn law_step_index(w: RouteSingleWitness)
    ensures
        w.step().index.len() == 5,
        w.step().index[0] <==> w.child_index as int % 2 == 1,
        w.step().index[1] <==> w.child_index as int / 2 % 2 == 1,
        w.step().index[2] <==> w.child_index as int / 4 % 2 == 1,
        w.step().index[3] <==> w.child_index as int / 8 % 2 == 1,
        w.step().index[4] <==> w.child_index as int / 16 % 2 == 1,
        w.step().key == w.key@ && w.step().mask == w.mask@,
        w.step().digest == w.child_digest@ && w.step().selected_in == w.selected_in@,
        w.step().found_in == w.found_in,
{
}

/// What a step hands on: it takes its child where none was found before and
/// all five digits that the key and the mask spell are the child's; then the
/// child's digest goes on, and else what came in.
pub proof fn law_step_takes(s: Step, bit: int)
    requires
        s.index.len() == 5,
    ensures
        ({
            let takes = !s.found_in && forall|j: int|
                0 <= j < 5 ==> #[trigger] s.index[j] == (s.key[j] && s.mask[j]);
            &&& s.found_out() <==> s.found_in || takes
            &&& s.selected_out(bit) == if takes {
                s.digest[bit]
            } else {
                s.selected_in[bit]
            }
        }),
{
    let _ = (s.index[0], s.index[1], s.index[2], s.index[3], s.index[4]);
    assert(s.matched() == (forall|j: int|
        0 <= j < 5 ==> #[trigger] s.index[j] == (s.key[j] && s.mask[j])));
}

/// The number of steps is padded to the least power of two that is at least
/// 2048 and at least `n`.
pub proof fn law_padded_instances(n: nat, k: nat)
    ensures
        exists|d: nat| padded_instances(n) == #[trigger] pow2(d),
        n <= padded_instances(n) && 2048 <= padded_instances(n),
        n <= pow2(k) && 2048 <= pow2(k) ==> padded_instances(n) <= pow2(k),
{
    let m = if n < 2048 {
        2048
    } else {
        n
    };
    law_next_pow2_is_least(m, k);
    assert(padded_instances(n) == pow2(ceil_log2(m)));
}

/// What is asked about a proof of steps: its parts, for as many steps as the
/// setup is for, and no claim beside.
pub proof fn law_question_asks_proof(
    q: LoneQuestion,
    setup: RouteSingleSetup,
    proof: RouteSingleProof,
)
    requires
        is_step_question(q, setup, proof),
    ensures
        q.label@ == "mhot-route-single-v0"@,
        q.base.relation == (Relation::RouteStep { n: setup.n_instances }),
        *q.base.zc == proof.zc_proof && *q.base.lc == proof.lc_proof,
        *q.base.pcs == proof.pcs_open && q.base.commitment == proof.commitment,
        q.base.claims@.len() == 0 && q.base.fork@.len() == 0,
{
}

/// A setup for `n` steps: blocks of `2^11` bits, as many as the padded number
/// of steps, the bit 512 of each pinned, over the matrices of the step.
pub proof fn law_setup_fields(s: RouteSingleSetup, n: nat)
    requires
        s.is_setup_of(n),
    ensures
        s.n_instances == n,
        pow2((s.r1cs.m - 11) as nat) == s.setup_n_instances,
        s.r1cs.k_log == 11 && s.r1cs.k_skip == 6 && s.r1cs.useful_bits == 1554,
        s.r1cs.const_pin == Some(512usize),
        matrix_rows(s.r1cs.a_0) == rows_a(),
        matrix_rows(s.r1cs.b_0) == rows_b(),
        s.pcs_params.m == s.r1cs.m && s.pcs_params.log_inv_rate == 1
            && s.pcs_params.log_batch_size == 6,
{
    law_padded_instances(n, 0);
    let d = choose|d: nat| padded_instances(n) == #[trigger] pow2(d);
    lemma_pow2_is_pow2(d);
}

/// The bits of a batch: block `i` of 2048 bits holds the cells of step `i`, and
/// past the last step those of a blank step.
pub proof fn law_batch_bit(
    z: Seq<F128>,
    a: Seq<F128>,
    b: Seq<F128>,
    ws: Seq<RouteSingleWitness>,
    n: int,
    i: int,
    p: int,
)
    requires
        blocks_filled(z, a, b, 32, n, batch_cells(ws)),
        0 <= i < n,
        0 <= p < 2048,
    ensures
        ({
            let cell = if i < ws.len() {
                ws[i].step().cell(p)
            } else {
                (Step {
                    key: Seq::new(256, |j: int| false),
                    mask: Seq::new(256, |j: int| j < 5),
                    digest: Seq::new(256, |j: int| false),
                    index: Seq::new(5, |j: int| false),
                    found_in: false,
                    selected_in: Seq::new(256, |j: int| false),
                }).cell(p)
            };
            &&& all_bits(packed_words(z))[2048 * i + p] == cell.z
            &&& all_bits(packed_words(a))[2048 * i + p] == cell.a
            &&& all_bits(packed_words(b))[2048 * i + p] == cell.b
        }),
{
    lemma_block_bits(z, a, b, 32, n, batch_cells(ws), i, p);
    let w: nat = 32;
    assert(i * (64 * w) + p == 2048 * i + p) by (nonlinear_arith)
        requires
            w == 32,
    ;
}

/// The steps through a node: each takes the node's key and mask and its own
/// child, and what the steps before it have found, which is the spelled child
/// once it has come by.
pub proof fn law_node_step_inputs(w: RouteSingleWitness, r: Route, c: int, bit: int)
    requires
        is_node_step(w, r, c),
        0 <= c <= 32,
        0 <= bit < 256,
    ensures
        w.key@ == r.key && w.mask@ == r.mask,
        w.child_digest@ == r.children[c] && w.child_index == c,
        w.found_in <==> spelled_index(r) < c,
        w.selected_in@[bit] == (spelled_index(r) < c && r.children[spelled_index(r)][bit]),
{
    crate::route_f32::lemma_route_scan(r, c, bit);
}

} // verus!
