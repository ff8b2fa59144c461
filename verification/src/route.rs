//! The route circuit for nodes of four children: it selects the child whose
//! index the lowest two bits of the key spell under the mask.

use vstd::prelude::*;

use crate::bits::{all_bits, bit_at, blank, clear_words, filled, linear, product, set_zab, Zab};
use crate::r1cs::{
    block_holds, build_block_r1cs_with_matrices, columns, lemma_parity_few, lemma_parity_push,
    matrix_rows, parity, row_holds, BlockR1cs, SparseBinaryMatrix,
};
use crate::route_f32::digest_bits;
use crate::rows::{
    blank_emit, cols_none, cols_one, cols_two, input_emit, rows_built, set_mul, square_matrix,
};

verus! {

pub const K_LOG: usize = 15;

pub const K: usize = 32768;

pub const K_SKIP: usize = 6;

pub const U64_PER_BLOCK: usize = K / 64;

pub const KEY_BITS: usize = 256;

pub const DIGEST_BITS: usize = 256;

pub const FANOUT: usize = 4;

pub const W_MAX: usize = 2;

pub const KEY_BASE: usize = 0;

pub const Z_CONST_POS: usize = KEY_BASE + KEY_BITS;

pub const SELECTED_IN_BASE: usize = Z_CONST_POS + 1;

pub const MASK_BASE: usize = SELECTED_IN_BASE + DIGEST_BITS;

pub const CHILDREN_BASE: usize = MASK_BASE + KEY_BITS;

pub const CHILD_DIGEST_OFFSET: usize = 0;

pub const EXTRACTED_OFFSET: usize = CHILD_DIGEST_OFFSET + DIGEST_BITS;

pub const MATCH_RESULT_OFFSET: usize = EXTRACTED_OFFSET + W_MAX;

pub const TAKE_OFFSET: usize = MATCH_RESULT_OFFSET + 1;

pub const FOUND_STATE_OFFSET: usize = TAKE_OFFSET + 1;

pub const MUX_DELTA_OFFSET: usize = FOUND_STATE_OFFSET + 1;

pub const CHILD_STRIDE: usize = MUX_DELTA_OFFSET + DIGEST_BITS;

pub const FOUND_OUT_FINAL_POS: usize = CHILDREN_BASE + 4 * CHILD_STRIDE;

pub const SELECTED_OUT_FINAL_BASE: usize = FOUND_OUT_FINAL_POS + 1;

pub const USEFUL_BITS: usize = SELECTED_OUT_FINAL_BASE + DIGEST_BITS;

/// Offset `off` of child `child`.
pub open spec fn at_child(child: int, off: int) -> int {
    769 + 517 * child + off
}

pub fn child_base(child: usize) -> (p: usize)
    requires
        at_child(child as int, 0) <= usize::MAX,
    ensures
        p == at_child(child as int, 0),
{
    CHILDREN_BASE + child * 517
}

pub fn child_digest_pos(child: usize, bit: usize) -> (p: usize)
    requires
        at_child(child as int, bit as int) <= usize::MAX,
    ensures
        p == at_child(child as int, bit as int),
{
    child_base(child) + bit
}

pub fn extracted_pos(child: usize, bit: usize) -> (p: usize)
    requires
        at_child(child as int, 256 + bit) <= usize::MAX,
    ensures
        p == at_child(child as int, 256 + bit),
{
    child_base(child) + EXTRACTED_OFFSET + bit
}

pub fn match_result_pos(child: usize) -> (p: usize)
    requires
        at_child(child as int, 258) <= usize::MAX,
    ensures
        p == at_child(child as int, 258),
{
    child_base(child) + MATCH_RESULT_OFFSET
}

pub fn take_pos(child: usize) -> (p: usize)
    requires
        at_child(child as int, 259) <= usize::MAX,
    ensures
        p == at_child(child as int, 259),
{
    child_base(child) + TAKE_OFFSET
}

pub fn found_state_pos(child: usize) -> (p: usize)
    requires
        at_child(child as int, 260) <= usize::MAX,
    ensures
        p == at_child(child as int, 260),
{
    child_base(child) + FOUND_STATE_OFFSET
}

pub fn mux_delta_pos(child: usize, bit: usize) -> (p: usize)
    requires
        at_child(child as int, 261 + bit) <= usize::MAX,
    ensures
        p == at_child(child as int, 261 + bit),
{
    child_base(child) + MUX_DELTA_OFFSET + bit
}

pub fn selected_in_pos(bit: usize) -> (p: usize)
    requires
        257 + bit <= usize::MAX,
    ensures
        p == 257 + bit,
{
    SELECTED_IN_BASE + bit
}

pub fn mask_pos(bit: usize) -> (p: usize)
    requires
        513 + bit <= usize::MAX,
    ensures
        p == 513 + bit,
{
    MASK_BASE + bit
}

pub fn selected_out_final_pos(bit: usize) -> (p: usize)
    requires
        2838 + bit <= usize::MAX,
    ensures
        p == 2838 + bit,
{
    SELECTED_OUT_FINAL_BASE + bit
}

/// What a route is given: a key, a mask and the digests of four children.
pub struct SmallRoute {
    pub key: Seq<bool>,
    pub mask: Seq<bool>,
    pub children: Seq<Seq<bool>>,
}

/// Bit `j` of a child's index.
pub open spec fn index_bit(child: int, j: int) -> bool {
    if j == 0 {
        child % 2 == 1
    } else {
        child / 2 % 2 == 1
    }
}

impl SmallRoute {
    /// Bit `j` of the index that the key spells under the mask.
    pub open spec fn extracted(self, j: int) -> bool {
        self.key[j] && self.mask[j]
    }

    /// Whether bit `j` of the spelled index is that of `child`.
    pub open spec fn bit_eq(self, child: int, j: int) -> bool {
        self.extracted(j) == index_bit(child, j)
    }

    /// Whether the key spells the index of `child`.
    pub open spec fn matches_child(self, child: int) -> bool {
        self.bit_eq(child, 0) && self.bit_eq(child, 1)
    }

    /// Whether one of the first `n` children matches.
    pub open spec fn found(self, n: int) -> bool
        decreases n,
    {
        n > 0 && (self.found(n - 1) || self.matches_child(n - 1))
    }

    /// Whether `child` is the first to match.
    pub open spec fn take(self, child: int) -> bool {
        self.matches_child(child) && !self.found(child)
    }

    /// Bit `bit` of the digest of the child selected among the first `n`.
    pub open spec fn selected(self, n: int, bit: int) -> bool
        decreases n,
    {
        if n <= 0 {
            false
        } else if self.take(n - 1) {
            self.children[n - 1][bit]
        } else {
            self.selected(n - 1, bit)
        }
    }

    /// What offset `off` of `child` holds.
    pub open spec fn child_cell(self, child: int, off: int) -> Zab {
        if off < 256 {
            linear(self.children[child][off])
        } else if off < 258 {
            product(self.key[off - 256], self.mask[off - 256])
        } else if off == 258 {
            product(self.bit_eq(child, 0), self.bit_eq(child, 1))
        } else if off == 259 {
            product(self.matches_child(child), !self.found(child))
        } else if off == 260 {
            linear(self.found(child + 1))
        } else {
            product(
                self.take(child),
                self.children[child][off - 261] ^ self.selected(child, off - 261),
            )
        }
    }

    /// What position `p` of a block holds. The one at `Z_CONST_POS` always has
    /// a one as its second factor.
    pub open spec fn cell(self, p: int) -> Zab {
        if p < 256 {
            linear(self.key[p])
        } else if p == 256 {
            Zab { z: true, a: self.found(4), b: true }
        } else if p < 513 {
            blank()
        } else if p < 769 {
            linear(self.mask[p - 513])
        } else if p < 2837 {
            self.child_cell((p - 769) / 517, (p - 769) % 517)
        } else if p == 2837 {
            linear(self.found(4))
        } else if p < 3094 {
            linear(self.selected(4, p - 2838))
        } else {
            blank()
        }
    }

    /// All cells of a block.
    pub open spec fn cells(self) -> spec_fn(int) -> Zab {
        |p: int| self.cell(p)
    }
}

/// Positions of children are found by their child and offset.
proof fn lemma_at_child(r: SmallRoute, child: int, off: int)
    requires
        0 <= child < 4,
        0 <= off < 517,
    ensures
        769 <= at_child(child, off) < 2837,
        (at_child(child, off) - 769) / 517 == child,
        (at_child(child, off) - 769) % 517 == off,
        r.cell(at_child(child, off)) == r.child_cell(child, off),
        row_a(at_child(child, off)) == child_row_a(child, off),
        row_b(at_child(child, off)) == child_row_b(child, off),
{
}

/// The columns that say whether bit `j` of the spelled index is the child's.
pub open spec fn eq_cols(child: int, j: int) -> Seq<int> {
    if index_bit(child, j) {
        seq![at_child(child, 256 + j)]
    } else {
        seq![256, at_child(child, 256 + j)]
    }
}

/// The column that says whether a child before this one matches.
pub open spec fn found_cols(child: int) -> Seq<int> {
    if child == 0 {
        Seq::empty()
    } else {
        seq![at_child(child - 1, 260)]
    }
}

/// The columns that sum to a bit of the digest selected before this child.
pub open spec fn selected_cols(child: int, bit: int) -> Seq<int> {
    seq![257 + bit] + Seq::new(child as nat, |c: int| at_child(c, 261 + bit))
}

/// The first factor's row at offset `off` of `child`.
pub open spec fn child_row_a(child: int, off: int) -> Seq<int> {
    if off < 256 {
        seq![at_child(child, off)]
    } else if off < 258 {
        seq![off - 256]
    } else if off == 258 {
        eq_cols(child, 0)
    } else if off == 259 {
        seq![at_child(child, 258)]
    } else if off == 260 {
        found_cols(child).push(at_child(child, 259))
    } else {
        seq![at_child(child, 259)]
    }
}

/// The second factor's row at offset `off` of `child`.
pub open spec fn child_row_b(child: int, off: int) -> Seq<int> {
    if off < 256 {
        seq![256int]
    } else if off < 258 {
        seq![513 + (off - 256)]
    } else if off == 258 {
        eq_cols(child, 1)
    } else if off == 259 {
        seq![256int] + found_cols(child)
    } else if off == 260 {
        seq![256int]
    } else {
        selected_cols(child, off - 261).push(at_child(child, off - 261))
    }
}

/// The first factor's row at position `p`.
pub open spec fn row_a(p: int) -> Seq<int> {
    if p < 256 {
        seq![p]
    } else if p == 256 {
        seq![2837int]
    } else if p < 513 {
        Seq::empty()
    } else if p < 769 {
        seq![p]
    } else if p < 2837 {
        child_row_a((p - 769) / 517, (p - 769) % 517)
    } else if p == 2837 {
        found_cols(4)
    } else if p < 3094 {
        selected_cols(4, p - 2838)
    } else {
        Seq::empty()
    }
}

/// The second factor's row at position `p`.
pub open spec fn row_b(p: int) -> Seq<int> {
    if p <= 256 {
        seq![256int]
    } else if p < 513 {
        Seq::empty()
    } else if p < 769 {
        seq![256int]
    } else if p < 2837 {
        child_row_b((p - 769) / 517, (p - 769) % 517)
    } else if p < 3094 {
        seq![256int]
    } else {
        Seq::empty()
    }
}

/// The rows of the first matrix.
pub open spec fn rows_a() -> Seq<Seq<int>> {
    Seq::new(32768, |p: int| row_a(p))
}

/// The rows of the second matrix.
pub open spec fn rows_b() -> Seq<Seq<int>> {
    Seq::new(32768, |p: int| row_b(p))
}

fn child_index_bit(child: usize, bit: usize) -> (b: bool)
    ensures
        b == index_bit(child as int, bit as int),
{
    if bit == 0 {
        child % 2 == 1
    } else {
        child / 2 % 2 == 1
    }
}

fn eq_expr(child: usize, bit: usize) -> (r: Vec<usize>)
    requires
        child < 4,
        bit < 2,
    ensures
        columns(r@) == eq_cols(child as int, bit as int),
{
    if child_index_bit(child, bit) {
        cols_one(extracted_pos(child, bit))
    } else {
        cols_two(Z_CONST_POS, extracted_pos(child, bit))
    }
}

fn found_in_expr(child: usize) -> (r: Vec<usize>)
    requires
        child <= 4,
    ensures
        columns(r@) == found_cols(child as int),
{
    if child == 0 {
        cols_none()
    } else {
        cols_one(found_state_pos(child - 1))
    }
}

fn not_found_expr(child: usize) -> (r: Vec<usize>)
    requires
        child < 4,
    ensures
        columns(r@) == seq![256int] + found_cols(child as int),
{
    let r = if child == 0 {
        cols_one(Z_CONST_POS)
    } else {
        cols_two(Z_CONST_POS, found_state_pos(child - 1))
    };
    assert(columns(r@) =~= seq![256int] + found_cols(child as int));
    r
}

fn found_out_expr(child: usize) -> (r: Vec<usize>)
    requires
        child < 4,
    ensures
        columns(r@) == found_cols(child as int).push(at_child(child as int, 259)),
{
    let mut r = found_in_expr(child);
    let ghost before = columns(r@);
    r.push(take_pos(child));
    assert(columns(r@) =~= before.push(at_child(child as int, 259)));
    r
}

fn selected_state_expr(child: usize, bit: usize) -> (r: Vec<usize>)
    requires
        child <= 4,
        bit < 256,
    ensures
        columns(r@) == selected_cols(child as int, bit as int),
{
    let mut r = cols_one(selected_in_pos(bit));
    assert(columns(r@) =~= selected_cols(0, bit as int));
    for c in 0..child
        invariant
            child <= 4,
            bit < 256,
            columns(r@) == selected_cols(c as int, bit as int),
    {
        let ghost before = columns(r@);
        r.push(mux_delta_pos(c, bit));
        assert(columns(r@) =~= before.push(at_child(c as int, 261 + bit)));
        assert(columns(r@) =~= selected_cols(c + 1, bit as int));
    }
    r
}

fn mux_expr(child: usize, bit: usize) -> (r: Vec<usize>)
    requires
        child < 4,
        bit < 256,
    ensures
        columns(r@) == selected_cols(child as int, bit as int).push(
            at_child(child as int, bit as int),
        ),
{
    let mut r = selected_state_expr(child, bit);
    let ghost before = columns(r@);
    r.push(child_digest_pos(child, bit));
    assert(columns(r@) =~= before.push(at_child(child as int, bit as int)));
    r
}

/// Appends the rows of one child.
fn child_emit(
    a: &mut Vec<Vec<usize>>,
    b: &mut Vec<Vec<usize>>,
    child: usize,
    Ghost(ra): Ghost<spec_fn(int) -> Seq<int>>,
    Ghost(rb): Ghost<spec_fn(int) -> Seq<int>>,
)
    requires
        child < 4,
        ra == (|p: int| row_a(p)),
        rb == (|p: int| row_b(p)),
        rows_built(old(a)@, old(b)@, at_child(child as int, 0), ra, rb),
    ensures
        rows_built(final(a)@, final(b)@, at_child(child + 1, 0), ra, rb),
{
    let base: usize = child_base(child);
    let ghost r = SmallRoute { key: seq![], mask: seq![], children: seq![] };
    let ghost c = child as int;
    proof {
        assert forall|p: int| base <= p < base + 256 implies #[trigger] ra(p) == seq![p] by {
            lemma_at_child(r, c, p - base);
        }
        assert forall|p: int| base <= p < base + 256 implies #[trigger] rb(p) == seq![256int] by {
            lemma_at_child(r, c, p - base);
        }
    }
    input_emit(a, b, base, base + 256, Z_CONST_POS, Ghost(ra), Ghost(rb));
    for j in 0..W_MAX
        invariant
            child < 4,
            c == child,
            base == at_child(c, 0),
            ra == (|p: int| row_a(p)),
            rb == (|p: int| row_b(p)),
            rows_built(a@, b@, at_child(c, 256 + j), ra, rb),
    {
        proof {
            lemma_at_child(r, c, 256 + j);
        }
        set_mul(
            a,
            b,
            cols_one(KEY_BASE + j),
            cols_one(mask_pos(j)),
            Ghost(at_child(c, 256 + j)),
            Ghost(ra),
            Ghost(rb),
        );
    }
    proof {
        lemma_at_child(r, c, 258);
        lemma_at_child(r, c, 259);
        lemma_at_child(r, c, 260);
    }
    set_mul(
        a,
        b,
        eq_expr(child, 0),
        eq_expr(child, 1),
        Ghost(at_child(c, 258)),
        Ghost(ra),
        Ghost(rb),
    );
    set_mul(
        a,
        b,
        cols_one(match_result_pos(child)),
        not_found_expr(child),
        Ghost(at_child(c, 259)),
        Ghost(ra),
        Ghost(rb),
    );
    set_mul(
        a,
        b,
        found_out_expr(child),
        cols_one(Z_CONST_POS),
        Ghost(at_child(c, 260)),
        Ghost(ra),
        Ghost(rb),
    );
    for bit in 0..DIGEST_BITS
        invariant
            child < 4,
            c == child,
            ra == (|p: int| row_a(p)),
            rb == (|p: int| row_b(p)),
            rows_built(a@, b@, at_child(c, 261 + bit), ra, rb),
    {
        proof {
            lemma_at_child(r, c, 261 + bit);
        }
        set_mul(
            a,
            b,
            cols_one(take_pos(child)),
            mux_expr(child, bit),
            Ghost(at_child(c, 261 + bit)),
            Ghost(ra),
            Ghost(rb),
        );
    }
}

/// The columns of all rows exist.
proof fn lemma_rows_in_range(p: int, j: int)
    requires
        0 <= p < 32768,
    ensures
        0 <= j < row_a(p).len() ==> 0 <= row_a(p)[j] < 32768,
        0 <= j < row_b(p).len() ==> 0 <= row_b(p)[j] < 32768,
{
    if 769 <= p < 2837 {
        let child = (p - 769) / 517;
        let off = (p - 769) % 517;
        assert(0 <= child < 4 && 0 <= off < 517);
    }
}

/// Whether these are the matrices of the circuit.
pub open spec fn is_route(a: SparseBinaryMatrix, b: SparseBinaryMatrix) -> bool {
    &&& a.square(32768)
    &&& b.square(32768)
    &&& matrix_rows(a) == rows_a()
    &&& matrix_rows(b) == rows_b()
}

/// Builds the two matrices.
pub fn build_matrices() -> (r: (SparseBinaryMatrix, SparseBinaryMatrix))
    ensures
        is_route(r.0, r.1),
{
    let ghost ra = |p: int| row_a(p);
    let ghost rb = |p: int| row_b(p);
    let mut a: Vec<Vec<usize>> = Vec::new();
    let mut b: Vec<Vec<usize>> = Vec::new();
    input_emit(&mut a, &mut b, KEY_BASE, Z_CONST_POS, Z_CONST_POS, Ghost(ra), Ghost(rb));
    set_mul(
        &mut a,
        &mut b,
        cols_one(FOUND_OUT_FINAL_POS),
        cols_one(Z_CONST_POS),
        Ghost(256),
        Ghost(ra),
        Ghost(rb),
    );
    blank_emit(&mut a, &mut b, SELECTED_IN_BASE, MASK_BASE, Ghost(ra), Ghost(rb));
    input_emit(&mut a, &mut b, MASK_BASE, CHILDREN_BASE, Z_CONST_POS, Ghost(ra), Ghost(rb));
    for child in 0..FANOUT
        invariant
            ra == (|p: int| row_a(p)),
            rb == (|p: int| row_b(p)),
            rows_built(a@, b@, at_child(child as int, 0), ra, rb),
    {
        child_emit(&mut a, &mut b, child, Ghost(ra), Ghost(rb));
    }
    set_mul(
        &mut a,
        &mut b,
        found_in_expr(FANOUT),
        cols_one(Z_CONST_POS),
        Ghost(2837),
        Ghost(ra),
        Ghost(rb),
    );
    for bit in 0..DIGEST_BITS
        invariant
            ra == (|p: int| row_a(p)),
            rb == (|p: int| row_b(p)),
            rows_built(a@, b@, 2838 + bit, ra, rb),
    {
        set_mul(
            &mut a,
            &mut b,
            selected_state_expr(FANOUT, bit),
            cols_one(Z_CONST_POS),
            Ghost(2838 + bit),
            Ghost(ra),
            Ghost(rb),
        );
    }
    blank_emit(&mut a, &mut b, USEFUL_BITS, K, Ghost(ra), Ghost(rb));
    proof {
        assert forall|p: int, j: int|
            #![trigger ra(p)[j]]
            0 <= p < K && 0 <= j < ra(p).len() implies 0 <= ra(p)[j] < K by {
            lemma_rows_in_range(p, j);
        }
        assert forall|p: int, j: int|
            #![trigger rb(p)[j]]
            0 <= p < K && 0 <= j < rb(p).len() implies 0 <= rb(p)[j] < K by {
            lemma_rows_in_range(p, j);
        }
    }
    let a_0 = square_matrix(a, K, Ghost(ra));
    let b_0 = square_matrix(b, K, Ghost(rb));
    assert(matrix_rows(a_0) =~= rows_a());
    assert(matrix_rows(b_0) =~= rows_b());
    (a_0, b_0)
}

/// Whether `r` is the system of `2^n_blocks_log` blocks of this circuit.
pub open spec fn is_route_system(r: BlockR1cs, n_blocks_log: nat) -> bool {
    &&& r.m == n_blocks_log + 15
    &&& r.k_log == 15
    &&& r.k_skip == 6
    &&& r.useful_bits == 3094
    &&& r.const_pin == Some(256usize)
    &&& is_route(r.a_0, r.b_0)
}

/// Builds the system of `2^n_blocks_log` blocks.
pub fn build_block_r1cs(n_blocks_log: usize) -> (r: BlockR1cs)
    requires
        n_blocks_log + 15 <= usize::MAX,
    ensures
        is_route_system(r, n_blocks_log as nat),
{
    let (a_0, b_0) = build_matrices();
    build_block_r1cs_with_matrices(
        n_blocks_log,
        K_LOG,
        K_SKIP,
        USEFUL_BITS,
        a_0,
        b_0,
        Some(Z_CONST_POS),
    )
}

/// Whether the key spells the index of `child`.
fn matches_index(key: &[bool; 256], mask: &[bool; 256], child: usize, Ghost(r): Ghost<SmallRoute>) -> (m:
    bool)
    requires
        r.key == key@,
        r.mask == mask@,
    ensures
        m == r.matches_child(child as int),
{
    (key[0] && mask[0]) == child_index_bit(child, 0) && (key[1] && mask[1]) == child_index_bit(
        child,
        1,
    )
}

/// Fills the cells of one child. Returns whether this child or one before it
/// matches.
fn fill_child(
    key: &[bool; 256],
    mask: &[bool; 256],
    digest: &[bool; 256],
    child: usize,
    found: bool,
    selected: &mut [bool; 256],
    z_u64: &mut [u64],
    a_u64: &mut [u64],
    b_u64: &mut [u64],
    Ghost(r): Ghost<SmallRoute>,
) -> (found_out: bool)
    requires
        child < 4,
        r.key == key@,
        r.mask == mask@,
        r.children.len() == 4,
        r.children[child as int] == digest@,
        found == r.found(child as int),
        forall|i: int| 0 <= i < 256 ==> old(selected)@[i] == r.selected(child as int, i),
        filled(
            old(z_u64)@,
            old(a_u64)@,
            old(b_u64)@,
            512,
            at_child(child as int, 0),
            r.cells(),
        ),
    ensures
        found_out == r.found(child + 1),
        forall|i: int| 0 <= i < 256 ==> final(selected)@[i] == r.selected(child + 1, i),
        filled(
            final(z_u64)@,
            final(a_u64)@,
            final(b_u64)@,
            512,
            at_child(child + 1, 0),
            r.cells(),
        ),
{
    let base: usize = child_base(child);
    let ghost cells = r.cells();
    for i in 0..256usize
        invariant
            child < 4,
            base == at_child(child as int, 0),
            cells == r.cells(),
            r.children[child as int] == digest@,
            filled(z_u64@, a_u64@, b_u64@, 512, base + i, cells),
    {
        proof {
            lemma_at_child(r, child as int, i as int);
        }
        set_zab(base + i, digest[i], digest[i], true, z_u64, a_u64, b_u64, Ghost(512), Ghost(cells));
    }
    for j in 0..2usize
        invariant
            child < 4,
            base == at_child(child as int, 0),
            cells == r.cells(),
            r.key == key@,
            r.mask == mask@,
            filled(z_u64@, a_u64@, b_u64@, 512, base + 256 + j, cells),
    {
        proof {
            lemma_at_child(r, child as int, 256 + j);
        }
        set_zab(
            base + 256 + j,
            key[j] && mask[j],
            key[j],
            mask[j],
            z_u64,
            a_u64,
            b_u64,
            Ghost(512),
            Ghost(cells),
        );
    }
    let e0: bool = (key[0] && mask[0]) == child_index_bit(child, 0);
    let e1: bool = (key[1] && mask[1]) == child_index_bit(child, 1);
    proof {
        assert(e0 == r.bit_eq(child as int, 0));
        assert(e1 == r.bit_eq(child as int, 1));
        lemma_at_child(r, child as int, 258);
        lemma_at_child(r, child as int, 259);
        lemma_at_child(r, child as int, 260);
    }
    let matched: bool = e0 && e1;
    let take: bool = matched && !found;
    let found_out: bool = found ^ take;
    set_zab(base + 258, matched, e0, e1, z_u64, a_u64, b_u64, Ghost(512), Ghost(cells));
    set_zab(base + 259, take, matched, !found, z_u64, a_u64, b_u64, Ghost(512), Ghost(cells));
    set_zab(base + 260, found_out, found_out, true, z_u64, a_u64, b_u64, Ghost(512), Ghost(cells));
    for i in 0..256usize
        invariant
            child < 4,
            base == at_child(child as int, 0),
            cells == r.cells(),
            r.children[child as int] == digest@,
            take == r.take(child as int),
            forall|k: int|
                0 <= k < 256 ==> #[trigger] selected@[k] == if k < i {
                    r.selected(child + 1, k)
                } else {
                    r.selected(child as int, k)
                },
            filled(z_u64@, a_u64@, b_u64@, 512, base + 261 + i, cells),
    {
        proof {
            lemma_at_child(r, child as int, 261 + i);
        }
        let rhs: bool = digest[i] ^ selected[i];
        let delta: bool = take && rhs;
        set_zab(base + 261 + i, delta, take, rhs, z_u64, a_u64, b_u64, Ghost(512), Ghost(cells));
        selected[i] = selected[i] ^ delta;
    }
    found_out
}

/// Fills one block: at every position the value, and the values of its two
/// factors.
pub fn fill_block_witness(
    key: &[bool; 256],
    mask: &[bool; 256],
    children: &[[bool; 256]],
    z_u64: &mut [u64],
    a_u64: &mut [u64],
    b_u64: &mut [u64],
)
    requires
        children@.len() == 4,
        old(z_u64)@.len() == 512,
        old(a_u64)@.len() == 512,
        old(b_u64)@.len() == 512,
    ensures
        filled(
            final(z_u64)@,
            final(a_u64)@,
            final(b_u64)@,
            512,
            32768,
            (SmallRoute { key: key@, mask: mask@, children: digest_bits(children@) }).cells(),
        ),
{
    let ghost r = SmallRoute { key: key@, mask: mask@, children: digest_bits(children@) };
    let ghost cells = r.cells();
    clear_words(z_u64);
    clear_words(a_u64);
    clear_words(b_u64);
    for i in 0..256usize
        invariant
            cells == r.cells(),
            r.key == key@,
            filled(z_u64@, a_u64@, b_u64@, 512, i as int, cells),
    {
        set_zab(i, key[i], key[i], true, z_u64, a_u64, b_u64, Ghost(512), Ghost(cells));
    }
    let reached: bool = matches_index(key, mask, 0, Ghost(r)) || matches_index(
        key,
        mask,
        1,
        Ghost(r),
    ) || matches_index(key, mask, 2, Ghost(r)) || matches_index(key, mask, 3, Ghost(r));
    proof {
        reveal_with_fuel(SmallRoute::found, 5);
    }
    set_zab(Z_CONST_POS, true, reached, true, z_u64, a_u64, b_u64, Ghost(512), Ghost(cells));
    assert(filled(z_u64@, a_u64@, b_u64@, 512, 513, cells));
    for i in 0..256usize
        invariant
            cells == r.cells(),
            r.mask == mask@,
            filled(z_u64@, a_u64@, b_u64@, 512, 513 + i, cells),
    {
        set_zab(MASK_BASE + i, mask[i], mask[i], true, z_u64, a_u64, b_u64, Ghost(512), Ghost(cells));
    }
    let mut found: bool = false;
    let mut selected: [bool; 256] = [false; 256];
    for child in 0..4usize
        invariant
            r.key == key@,
            r.mask == mask@,
            r.children == digest_bits(children@),
            children@.len() == 4,
            found == r.found(child as int),
            forall|i: int| 0 <= i < 256 ==> selected@[i] == r.selected(child as int, i),
            filled(z_u64@, a_u64@, b_u64@, 512, at_child(child as int, 0), r.cells()),
    {
        found = fill_child(
            key,
            mask,
            &children[child],
            child,
            found,
            &mut selected,
            z_u64,
            a_u64,
            b_u64,
            Ghost(r),
        );
    }
    set_zab(
        FOUND_OUT_FINAL_POS,
        found,
        found,
        true,
        z_u64,
        a_u64,
        b_u64,
        Ghost(512),
        Ghost(cells),
    );
    for i in 0..256usize
        invariant
            cells == r.cells(),
            forall|k: int| 0 <= k < 256 ==> selected@[k] == r.selected(4, k),
            filled(z_u64@, a_u64@, b_u64@, 512, 2838 + i, cells),
    {
        set_zab(
            SELECTED_OUT_FINAL_BASE + i,
            selected[i],
            selected[i],
            true,
            z_u64,
            a_u64,
            b_u64,
            Ghost(512),
            Ghost(cells),
        );
    }
    assert(filled(z_u64@, a_u64@, b_u64@, 512, 32768, cells));
}

/// The mux columns sum to the bit selected so far.
proof fn lemma_selected_parity(r: SmallRoute, z: Seq<bool>, off: int, n: int, bit: int)
    requires
        0 <= n <= 4,
        0 <= bit < 256,
        !z[off + (257 + bit)],
        forall|c: int|
            0 <= c < n ==> z[off + #[trigger] at_child(c, 261 + bit)] == r.child_cell(
                c,
                261 + bit,
            ).z,
    ensures
        parity(selected_cols(n, bit), z, off) == r.selected(n, bit),
    decreases n,
{
    if n == 0 {
        assert(selected_cols(0, bit) =~= seq![257 + bit]);
        lemma_parity_few(257 + bit, 0, 0, z, off);
    } else {
        lemma_selected_parity(r, z, off, n - 1, bit);
        assert(selected_cols(n, bit) =~= selected_cols(n - 1, bit).push(
            at_child(n - 1, 261 + bit),
        ));
        lemma_parity_push(selected_cols(n - 1, bit), at_child(n - 1, 261 + bit), z, off);
        assert(z[off + at_child(n - 1, 261 + bit)] == r.child_cell(n - 1, 261 + bit).z);
    }
}

/// Within a child, each row's factors are the cell's, once all positions below
/// hold their cells.
proof fn lemma_child_row_value(r: SmallRoute, z: Seq<bool>, off: int, child: int, o: int)
    requires
        0 <= child < 4,
        0 <= o < 517,
        z[off + 256],
        forall|q: int|
            0 <= q < at_child(child, o) && q != 256 ==> #[trigger] z[off + q] == r.cell(q).z,
        o < 256 ==> z[off + at_child(child, o)] == r.cell(at_child(child, o)).z,
    ensures
        parity(child_row_a(child, o), z, off) == r.child_cell(child, o).a,
        parity(child_row_b(child, o), z, off) == r.child_cell(child, o).b,
{
    lemma_at_child(r, child, o);
    lemma_parity_few(256, 0, 0, z, off);
    if o < 256 {
        lemma_parity_few(at_child(child, o), 0, 0, z, off);
    } else if o < 258 {
        lemma_parity_few(o - 256, 0, 0, z, off);
        lemma_parity_few(513 + (o - 256), 0, 0, z, off);
        assert(z[off + (o - 256)] == r.cell(o - 256).z);
        assert(z[off + (513 + (o - 256))] == r.cell(513 + (o - 256)).z);
    } else if o == 258 {
        lemma_at_child(r, child, 256);
        lemma_at_child(r, child, 257);
        assert(z[off + at_child(child, 256)] == r.cell(at_child(child, 256)).z);
        assert(z[off + at_child(child, 257)] == r.cell(at_child(child, 257)).z);
        lemma_parity_few(at_child(child, 256), 0, 0, z, off);
        lemma_parity_few(256, at_child(child, 256), 0, z, off);
        lemma_parity_few(at_child(child, 257), 0, 0, z, off);
        lemma_parity_few(256, at_child(child, 257), 0, z, off);
    } else if o <= 260 {
        if child > 0 {
            lemma_at_child(r, child - 1, 260);
            lemma_parity_few(at_child(child - 1, 260), at_child(child, 259), 0, z, off);
            lemma_parity_few(256, at_child(child - 1, 260), 0, z, off);
            assert(z[off + at_child(child - 1, 260)] == r.cell(at_child(child - 1, 260)).z);
        }
        if o == 259 {
            lemma_at_child(r, child, 258);
            lemma_parity_few(at_child(child, 258), 0, 0, z, off);
            assert(z[off + at_child(child, 258)] == r.cell(at_child(child, 258)).z);
            if child == 0 {
                assert(seq![256int] + found_cols(child) =~= seq![256int]);
            } else {
                assert(seq![256int] + found_cols(child) =~= seq![256, at_child(child - 1, 260)]);
            }
        } else {
            lemma_at_child(r, child, 259);
            lemma_parity_few(at_child(child, 259), 0, 0, z, off);
            assert(z[off + at_child(child, 259)] == r.cell(at_child(child, 259)).z);
            if child == 0 {
                assert(found_cols(child).push(at_child(child, 259)) =~= seq![at_child(child, 259)]);
            } else {
                assert(found_cols(child).push(at_child(child, 259)) =~= seq![
                    at_child(child - 1, 260),
                    at_child(child, 259),
                ]);
            }
        }
    } else {
        let bit = o - 261;
        lemma_at_child(r, child, 259);
        lemma_at_child(r, child, bit);
        lemma_parity_few(at_child(child, 259), 0, 0, z, off);
        assert(z[off + at_child(child, 259)] == r.cell(at_child(child, 259)).z);
        assert(z[off + at_child(child, bit)] == r.cell(at_child(child, bit)).z);
        assert(z[off + (257 + bit)] == r.cell(257 + bit).z);
        assert forall|c: int| 0 <= c < child implies z[off + #[trigger] at_child(c, 261 + bit)]
            == r.child_cell(c, 261 + bit).z by {
            lemma_at_child(r, c, 261 + bit);
        }
        lemma_selected_parity(r, z, off, child, bit);
        lemma_parity_push(selected_cols(child, bit), at_child(child, bit), z, off);
    }
}

/// Each row's factors are the cell's, once all positions below hold their
/// cells. The row at `Z_CONST_POS` is apart.
proof fn lemma_row_value(r: SmallRoute, z: Seq<bool>, off: int, p: int)
    requires
        0 <= p < 32768,
        p != 256,
        z[off + 256],
        forall|q: int| 0 <= q < p && q != 256 ==> #[trigger] z[off + q] == r.cell(q).z,
        p < 256 || 513 <= p < 769 || (769 <= p < 2837 && (p - 769) % 517 < 256) ==> z[off + p]
            == r.cell(p).z,
    ensures
        parity(row_a(p), z, off) == r.cell(p).a,
        parity(row_b(p), z, off) == r.cell(p).b,
{
    lemma_parity_few(256, 0, 0, z, off);
    if p < 769 {
        lemma_parity_few(p, 0, 0, z, off);
    } else if p < 2837 {
        let child = (p - 769) / 517;
        let o = (p - 769) % 517;
        assert(p == at_child(child, o));
        lemma_child_row_value(r, z, off, child, o);
    } else if p == 2837 {
        lemma_at_child(r, 3, 260);
        lemma_parity_few(at_child(3, 260), 0, 0, z, off);
        assert(z[off + at_child(3, 260)] == r.cell(at_child(3, 260)).z);
    } else if p < 3094 {
        let bit = p - 2838;
        assert(z[off + (257 + bit)] == r.cell(257 + bit).z);
        assert forall|c: int| 0 <= c < 4 implies z[off + #[trigger] at_child(c, 261 + bit)]
            == r.child_cell(c, 261 + bit).z by {
            lemma_at_child(r, c, 261 + bit);
        }
        lemma_selected_parity(r, z, off, 4, bit);
    }
}

/// Whether the block at `off` holds the cells of `r`.
pub open spec fn block_is(r: SmallRoute, z: Seq<bool>, off: int) -> bool {
    forall|p: int| 0 <= p < 32768 ==> #[trigger] z[off + p] == r.cell(p).z
}

/// Every cell but the one at `Z_CONST_POS` is the product of its factors.
proof fn lemma_cell_is_product(r: SmallRoute, p: int)
    requires
        0 <= p < 32768,
        p != 256,
    ensures
        r.cell(p).z == (r.cell(p).a && r.cell(p).b),
{
}

/// With four children one always matches: the one that the key spells.
proof fn lemma_one_matches(r: SmallRoute, bit: int)
    ensures
        r.found(4),
        0 <= spelled_index(r) < 4,
        r.selected(4, bit) == r.children[spelled_index(r)][bit],
{
    reveal_with_fuel(SmallRoute::found, 5);
    reveal_with_fuel(SmallRoute::selected, 5);
    assert(r.matches_child(0) == (!r.extracted(0) && !r.extracted(1)));
    assert(r.matches_child(1) == (r.extracted(0) && !r.extracted(1)));
    assert(r.matches_child(2) == (!r.extracted(0) && r.extracted(1)));
    assert(r.matches_child(3) == (r.extracted(0) && r.extracted(1)));
}

/// The index that a route's key spells under its mask.
pub open spec fn spelled_index(r: SmallRoute) -> int {
    (if r.extracted(0) {
        1int
    } else {
        0
    }) + (if r.extracted(1) {
        2int
    } else {
        0
    })
}

/// The routed digest is that of the child whose index the key spells under the
/// mask.
pub proof fn law_route_selects_spelled_child(r: SmallRoute, bit: int)
    ensures
        r.found(4),
        0 <= spelled_index(r) < 4,
        r.selected(4, bit) == r.children[spelled_index(r)][bit],
{
    lemma_one_matches(r, bit);
}

/// A filled block satisfies the circuit and sets its pin.
pub proof fn law_filled_block_satisfies(r: SmallRoute, z: Seq<bool>, off: int)
    requires
        block_is(r, z, off),
    ensures
        block_holds(rows_a(), rows_b(), 32768, z, off),
        z[off + 256],
{
    assert(z[off + 256] == r.cell(256).z);
    assert forall|p: int| 0 <= p < 32768 implies #[trigger] row_holds(
        rows_a(),
        rows_b(),
        z,
        off,
        p,
    ) by {
        if p == 256 {
            lemma_one_matches(r, 0);
            lemma_parity_few(2837, 0, 0, z, off);
            lemma_parity_few(256, 0, 0, z, off);
            assert(z[off + 2837] == r.cell(2837).z);
        } else {
            lemma_row_value(r, z, off, p);
            assert(z[off + p] == r.cell(p).z);
            lemma_cell_is_product(r, p);
        }
    }
}

/// The route that a block's inputs spell.
pub open spec fn route_of(z: Seq<bool>, off: int) -> SmallRoute {
    SmallRoute {
        key: Seq::new(256, |i: int| z[off + i]),
        mask: Seq::new(256, |i: int| z[off + (513 + i)]),
        children: Seq::new(4, |c: int| Seq::new(256, |i: int| z[off + at_child(c, i)])),
    }
}

proof fn lemma_satisfying_prefix(z: Seq<bool>, off: int, n: int)
    requires
        block_holds(rows_a(), rows_b(), 32768, z, off),
        z[off + 256],
        0 <= n <= 32768,
    ensures
        forall|q: int|
            0 <= q < n && q != 256 ==> #[trigger] z[off + q] == route_of(z, off).cell(q).z,
    decreases n,
{
    let r = route_of(z, off);
    if n > 0 {
        let p = n - 1;
        lemma_satisfying_prefix(z, off, p);
        if p != 256 {
            if 769 <= p < 2837 && (p - 769) % 517 < 256 {
                let child = (p - 769) / 517;
                let o = (p - 769) % 517;
                assert(p == at_child(child, o));
                lemma_at_child(r, child, o);
                assert(r.children[child][o] == z[off + at_child(child, o)]);
            }
            lemma_row_value(r, z, off, p);
            lemma_cell_is_product(r, p);
            assert(row_holds(rows_a(), rows_b(), z, off, p));
        }
    }
}

/// A satisfying block with its pin set is the filled block of its own inputs.
pub proof fn law_satisfying_block_is_filled(z: Seq<bool>, off: int)
    requires
        block_holds(rows_a(), rows_b(), 32768, z, off),
        z[off + 256],
    ensures
        block_is(route_of(z, off), z, off),
{
    let r = route_of(z, off);
    lemma_satisfying_prefix(z, off, 32768);
    assert forall|p: int| 0 <= p < 32768 implies #[trigger] z[off + p] == r.cell(p).z by {}
}

/// A block of zeros satisfies the rows, but not the pin.
pub proof fn law_zero_block_satisfies_without_pin(z: Seq<bool>, off: int)
    requires
        forall|p: int| 0 <= p < 32768 ==> !#[trigger] z[off + p],
    ensures
        block_holds(rows_a(), rows_b(), 32768, z, off),
        !z[off + 256],
{
    assert forall|p: int| 0 <= p < 32768 implies #[trigger] row_holds(
        rows_a(),
        rows_b(),
        z,
        off,
        p,
    ) by {
        assert forall|j: int| 0 <= j < row_a(p).len() implies !z[off + #[trigger] row_a(p)[j]] by {
            lemma_rows_in_range(p, j);
        }
        crate::r1cs::lemma_parity_zero(row_a(p), z, off);
        assert(!z[off + p]);
    }
    assert(!z[off + 256]);
}

/// A filled block holds, beside its bits, the two sums of every row over those
/// bits, and each bit is the product of the two sums of its row.
pub proof fn law_filled_sums(r: SmallRoute, z: Seq<u64>, a: Seq<u64>, b: Seq<u64>, p: int)
    requires
        filled(z, a, b, 512, 32768, r.cells()),
        0 <= p < 32768,
    ensures
        z.len() == 512 && a.len() == 512 && b.len() == 512,
        (a[p / 64] >> ((p % 64) as u64)) & 1 == 1 <==> parity(row_a(p), all_bits(z), 0),
        (b[p / 64] >> ((p % 64) as u64)) & 1 == 1 <==> parity(row_b(p), all_bits(z), 0),
        (z[p / 64] >> ((p % 64) as u64)) & 1 == 1 <==> parity(row_a(p), all_bits(z), 0) && parity(
            row_b(p),
            all_bits(z),
            0,
        ),
{
    let bits = all_bits(z);
    assert forall|q: int| 0 <= q < 32768 implies #[trigger] bits[0int + q] == r.cell(q).z by {
        assert(bit_at(z, q) == r.cells()(q).z);
    }
    assert(bit_at(z, p) == r.cells()(p).z);
    assert(bit_at(a, p) == r.cells()(p).a);
    assert(bit_at(b, p) == r.cells()(p).b);
    if p == 256 {
        lemma_one_matches(r, 0);
        lemma_parity_few(2837, 0, 0, bits, 0);
        lemma_parity_few(256, 0, 0, bits, 0);
        assert(bits[0int + 2837] == r.cell(2837).z);
        assert(bits[0int + 256] == r.cell(256).z);
    } else {
        assert(bits[0int + 256] == r.cell(256).z);
        lemma_row_value(r, bits, 0, p);
        lemma_cell_is_product(r, p);
    }
}

/// The child that a route spells: two binary digits, each a key bit that the
/// mask lets through.
pub proof fn law_spelled_index(r: SmallRoute)
    ensures
        spelled_index(r) % 2 == 1 <==> r.key[0] && r.mask[0],
        spelled_index(r) / 2 == 1 <==> r.key[1] && r.mask[1],
        0 <= spelled_index(r) < 4,
{
}

/// The system of the route through four children: blocks of `2^15` bits, of
/// which 3094 are used, the bit 256 of each pinned, over the matrices of the
/// route.
pub proof fn law_route_system_fields(r: BlockR1cs, n_blocks_log: nat, p: int)
    requires
        is_route_system(r, n_blocks_log),
        0 <= p < 32768,
    ensures
        r.m == n_blocks_log + 15 && r.k_log == 15 && r.k_skip == 6 && r.useful_bits == 3094,
        r.const_pin == Some(256usize),
        matrix_rows(r.a_0).len() == 32768 && matrix_rows(r.b_0).len() == 32768,
        matrix_rows(r.a_0)[p] == row_a(p),
        matrix_rows(r.b_0)[p] == row_b(p),
{
}

} // verus!
