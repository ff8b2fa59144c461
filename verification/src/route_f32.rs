//! The route circuit for nodes of up to 32 children: it selects the child
//! whose index the key spells under the mask, and checks that the mask is a
//! prefix and the key lies under it.

use vstd::prelude::*;

use crate::bits::{all_bits, bit_at, blank, clear_words, filled, linear, product, set_zab, Zab};
use crate::content::{is_compact, lemma_prefix_mask, mask_bit_fits};
use crate::r1cs::{
    block_holds, build_block_r1cs_with_matrices, columns, lemma_parity_few, lemma_parity_push,
    matrix_rows, parity, row_holds, BlockR1cs, SparseBinaryMatrix,
};
use crate::rows::{
    blank_emit, cols_none, cols_one, cols_two, input_emit, rows_built, set_mul, square_matrix,
};
use crate::zk_stub::count_set;

verus! {

pub const K_LOG: usize = 15;

pub const K: usize = 32768;

pub const K_SKIP: usize = 6;

pub const U64_PER_BLOCK: usize = K / 64;

pub const KEY_BITS: usize = 256;

pub const DIGEST_BITS: usize = 256;

pub const FANOUT: usize = 32;

pub const W_MAX: usize = 5;

pub const KEY_BASE: usize = 0;

pub const Z_CONST_POS: usize = KEY_BASE + KEY_BITS;

pub const SELECTED_IN_BASE: usize = Z_CONST_POS + 1;

pub const MASK_BASE: usize = SELECTED_IN_BASE + DIGEST_BITS;

pub const CHILDREN_BASE: usize = MASK_BASE + KEY_BITS;

pub const CHILD_DIGEST_OFFSET: usize = 0;

pub const EXTRACTED_OFFSET: usize = CHILD_DIGEST_OFFSET + DIGEST_BITS;

pub const MATCH_P01_OFFSET: usize = EXTRACTED_OFFSET + W_MAX;

pub const MATCH_P23_OFFSET: usize = MATCH_P01_OFFSET + 1;

pub const MATCH_P0123_OFFSET: usize = MATCH_P23_OFFSET + 1;

pub const MATCH_RESULT_OFFSET: usize = MATCH_P0123_OFFSET + 1;

pub const TAKE_OFFSET: usize = MATCH_RESULT_OFFSET + 1;

pub const FOUND_STATE_OFFSET: usize = TAKE_OFFSET + 1;

pub const MUX_DELTA_OFFSET: usize = FOUND_STATE_OFFSET + 1;

pub const CHILD_STRIDE: usize = MUX_DELTA_OFFSET + DIGEST_BITS;

pub const FOUND_OUT_FINAL_POS: usize = CHILDREN_BASE + 32 * CHILD_STRIDE;

pub const MASK_CHECK_BASE: usize = FOUND_OUT_FINAL_POS + 1;

pub const N_MASK_CHECKS: usize = KEY_BITS - 1;

pub const MASK_AND_BASE: usize = MASK_CHECK_BASE + N_MASK_CHECKS;

pub const KEY_CHECK_BASE: usize = MASK_AND_BASE + N_MASK_CHECKS;

pub const KEY_AND_BASE: usize = KEY_CHECK_BASE + KEY_BITS;

pub const ALL_OK_POS: usize = KEY_AND_BASE + KEY_BITS;

/// The routed child's digest, at a multiple of the digest's length.
pub const SELECTED_OUT_FINAL_BASE: usize = (ALL_OK_POS + 1 + 255) / 256 * 256;

pub const USEFUL_BITS: usize = SELECTED_OUT_FINAL_BASE + DIGEST_BITS;

/// Offset `off` of child `child`.
pub open spec fn at_child(child: int, off: int) -> int {
    769 + 523 * child + off
}

pub fn child_base(child: usize) -> (p: usize)
    requires
        at_child(child as int, 0) <= usize::MAX,
    ensures
        p == at_child(child as int, 0),
{
    CHILDREN_BASE + child * 523
}

pub fn child_digest_pos(child: usize, bit: usize) -> (p: usize)
    requires
        at_child(child as int, bit as int) <= usize::MAX,
    ensures
        p == at_child(child as int, bit as int),
{
    child_base(child) + bit
}

pub fn extracted_pos(child: usize, bit: usize) -> (p: usize)
    requires
        at_child(child as int, 256 + bit) <= usize::MAX,
    ensures
        p == at_child(child as int, 256 + bit),
{
    child_base(child) + EXTRACTED_OFFSET + bit
}

pub fn match_p01_pos(child: usize) -> (p: usize)
    requires
        at_child(child as int, 261) <= usize::MAX,
    ensures
        p == at_child(child as int, 261),
{
    child_base(child) + MATCH_P01_OFFSET
}

pub fn match_p23_pos(child: usize) -> (p: usize)
    requires
        at_child(child as int, 262) <= usize::MAX,
    ensures
        p == at_child(child as int, 262),
{
    child_base(child) + MATCH_P23_OFFSET
}

pub fn match_p0123_pos(child: usize) -> (p: usize)
    requires
        at_child(child as int, 263) <= usize::MAX,
    ensures
        p == at_child(child as int, 263),
{
    child_base(child) + MATCH_P0123_OFFSET
}

pub fn match_result_pos(child: usize) -> (p: usize)
    requires
        at_child(child as int, 264) <= usize::MAX,
    ensures
        p == at_child(child as int, 264),
{
    child_base(child) + MATCH_RESULT_OFFSET
}

pub fn take_pos(child: usize) -> (p: usize)
    requires
        at_child(child as int, 265) <= usize::MAX,
    ensures
        p == at_child(child as int, 265),
{
    child_base(child) + TAKE_OFFSET
}

pub fn found_state_pos(child: usize) -> (p: usize)
    requires
        at_child(child as int, 266) <= usize::MAX,
    ensures
        p == at_child(child as int, 266),
{
    child_base(child) + FOUND_STATE_OFFSET
}

pub fn mux_delta_pos(child: usize, bit: usize) -> (p: usize)
    requires
        at_child(child as int, 267 + bit) <= usize::MAX,
    ensures
        p == at_child(child as int, 267 + bit),
{
    child_base(child) + MUX_DELTA_OFFSET + bit
}

pub fn selected_in_pos(bit: usize) -> (p: usize)
    requires
        257 + bit <= usize::MAX,
    ensures
        p == 257 + bit,
{
    SELECTED_IN_BASE + bit
}

pub fn mask_pos(bit: usize) -> (p: usize)
    requires
        513 + bit <= usize::MAX,
    ensures
        p == 513 + bit,
{
    MASK_BASE + bit
}

pub fn selected_out_final_pos(bit: usize) -> (p: usize)
    requires
        18688 + bit <= usize::MAX,
    ensures
        p == 18688 + bit,
{
    SELECTED_OUT_FINAL_BASE + bit
}

/// What a route is given: a key, a mask and the digests of the children.
pub struct Route {
    pub key: Seq<bool>,
    pub mask: Seq<bool>,
    pub children: Seq<Seq<bool>>,
}

/// Bit `j` of a child's index.
pub open spec fn index_bit(child: int, j: int) -> bool {
    if j == 0 {
        child % 2 == 1
    } else if j == 1 {
        child / 2 % 2 == 1
    } else if j == 2 {
        child / 4 % 2 == 1
    } else if j == 3 {
        child / 8 % 2 == 1
    } else {
        child / 16 % 2 == 1
    }
}

impl Route {
    /// Bit `j` of the index that the key spells under the mask.
    pub open spec fn extracted(self, j: int) -> bool {
        self.key[j] && self.mask[j]
    }

    /// Whether bit `j` of the spelled index is that of `child`.
    pub open spec fn bit_eq(self, child: int, j: int) -> bool {
        self.extracted(j) == index_bit(child, j)
    }

    /// Whether the key spells the index of `child`.
    pub open spec fn matches_child(self, child: int) -> bool {
        &&& self.bit_eq(child, 0)
        &&& self.bit_eq(child, 1)
        &&& self.bit_eq(child, 2)
        &&& self.bit_eq(child, 3)
        &&& self.bit_eq(child, 4)
    }

    /// Whether one of the first `n` children matches.
    pub open spec fn found(self, n: int) -> bool
        decreases n,
    {
        n > 0 && (self.found(n - 1) || self.matches_child(n - 1))
    }

    /// Whether `child` is the first to match.
    pub open spec fn take(self, child: int) -> bool {
        self.matches_child(child) && !self.found(child)
    }

    /// Bit `bit` of the digest of the child selected among the first `n`.
    pub open spec fn selected(self, n: int, bit: int) -> bool
        decreases n,
    {
        if n <= 0 {
            false
        } else if self.take(n - 1) {
            self.children[n - 1][bit]
        } else {
            self.selected(n - 1, bit)
        }
    }

    /// Whether the mask goes from zero to one behind bit `i`.
    pub open spec fn mask_gap(self, i: int) -> bool {
        !self.mask[i] && self.mask[i + 1]
    }

    /// Whether the mask has no gap up to bit `i`.
    pub open spec fn mask_ok(self, i: int) -> bool
        decreases i,
    {
        if i <= 0 {
            !self.mask_gap(0)
        } else {
            self.mask_ok(i - 1) && !self.mask_gap(i)
        }
    }

    /// Whether bit `i` of the key is set outside the mask.
    pub open spec fn key_stray(self, i: int) -> bool {
        self.key[i] && !self.mask[i]
    }

    /// Whether the key lies under the mask up to bit `i`.
    pub open spec fn key_ok(self, i: int) -> bool
        decreases i,
    {
        if i <= 0 {
            !self.key_stray(0)
        } else {
            self.key_ok(i - 1) && !self.key_stray(i)
        }
    }

    /// Whether mask and key pass all checks.
    pub open spec fn all_ok(self) -> bool {
        self.mask_ok(254) && self.key_ok(255)
    }

    /// What offset `off` of `child` holds.
    pub open spec fn child_cell(self, child: int, off: int) -> Zab {
        if off < 256 {
            linear(self.children[child][off])
        } else if off < 261 {
            product(self.key[off - 256], self.mask[off - 256])
        } else if off == 261 {
            product(self.bit_eq(child, 0), self.bit_eq(child, 1))
        } else if off == 262 {
            product(self.bit_eq(child, 2), self.bit_eq(child, 3))
        } else if off == 263 {
            product(
                self.bit_eq(child, 0) && self.bit_eq(child, 1),
                self.bit_eq(child, 2) && self.bit_eq(child, 3),
            )
        } else if off == 264 {
            product(
                self.bit_eq(child, 0) && self.bit_eq(child, 1) && (self.bit_eq(child, 2)
                    && self.bit_eq(child, 3)),
                self.bit_eq(child, 4),
            )
        } else if off == 265 {
            product(self.matches_child(child), !self.found(child))
        } else if off == 266 {
            linear(self.found(child + 1))
        } else {
            product(
                self.take(child),
                self.children[child][off - 267] ^ self.selected(child, off - 267),
            )
        }
    }

    /// What position `p` of a block holds. The one at `Z_CONST_POS` always has
    /// a one as its second factor.
    pub open spec fn cell(self, p: int) -> Zab {
        if p < 256 {
            linear(self.key[p])
        } else if p == 256 {
            Zab { z: true, a: self.found(32), b: true }
        } else if p < 513 {
            blank()
        } else if p < 769 {
            linear(self.mask[p - 513])
        } else if p < 17505 {
            self.child_cell((p - 769) / 523, (p - 769) % 523)
        } else if p == 17505 {
            linear(self.found(32))
        } else if p < 17761 {
            product(!self.mask[p - 17506], self.mask[p - 17505])
        } else if p == 17761 {
            linear(self.mask_ok(0))
        } else if p < 18016 {
            product(self.mask_ok(p - 17762), !self.mask_gap(p - 17761))
        } else if p < 18272 {
            product(self.key[p - 18016], !self.mask[p - 18016])
        } else if p == 18272 {
            linear(self.key_ok(0))
        } else if p < 18528 {
            product(self.key_ok(p - 18273), !self.key_stray(p - 18272))
        } else if p == 18528 {
            product(self.mask_ok(254), self.key_ok(255))
        } else if p < 18688 {
            blank()
        } else if p < 18944 {
            linear(self.selected(32, p - 18688))
        } else {
            blank()
        }
    }

    /// All cells of a block.
    pub open spec fn cells(self) -> spec_fn(int) -> Zab {
        |p: int| self.cell(p)
    }
}

/// Positions of children are found by their child and offset.
pub proof fn lemma_at_child(r: Route, child: int, off: int)
    requires
        0 <= child < 32,
        0 <= off < 523,
    ensures
        769 <= at_child(child, off) < 17505,
        (at_child(child, off) - 769) / 523 == child,
        (at_child(child, off) - 769) % 523 == off,
        r.cell(at_child(child, off)) == r.child_cell(child, off),
        row_a(at_child(child, off)) == child_row_a(child, off),
        row_b(at_child(child, off)) == child_row_b(child, off),
{
}

/// The columns that say whether bit `j` of the spelled index is the child's.
pub open spec fn eq_cols(child: int, j: int) -> Seq<int> {
    if index_bit(child, j) {
        seq![at_child(child, 256 + j)]
    } else {
        seq![256, at_child(child, 256 + j)]
    }
}

/// The column that says whether a child before this one matches.
pub open spec fn found_cols(child: int) -> Seq<int> {
    if child == 0 {
        Seq::empty()
    } else {
        seq![at_child(child - 1, 266)]
    }
}

/// The columns that sum to a bit of the digest selected before this child.
pub open spec fn selected_cols(child: int, bit: int) -> Seq<int> {
    seq![257 + bit] + Seq::new(child as nat, |c: int| at_child(c, 267 + bit))
}

/// The first factor's row at offset `off` of `child`.
pub open spec fn child_row_a(child: int, off: int) -> Seq<int> {
    if off < 256 {
        seq![at_child(child, off)]
    } else if off < 261 {
        seq![off - 256]
    } else if off == 261 {
        eq_cols(child, 0)
    } else if off == 262 {
        eq_cols(child, 2)
    } else if off == 263 {
        seq![at_child(child, 261)]
    } else if off == 264 {
        seq![at_child(child, 263)]
    } else if off == 265 {
        seq![at_child(child, 264)]
    } else if off == 266 {
        found_cols(child).push(at_child(child, 265))
    } else {
        seq![at_child(child, 265)]
    }
}

/// The second factor's row at offset `off` of `child`.
pub open spec fn child_row_b(child: int, off: int) -> Seq<int> {
    if off < 256 {
        seq![256int]
    } else if off < 261 {
        seq![513 + (off - 256)]
    } else if off == 261 {
        eq_cols(child, 1)
    } else if off == 262 {
        eq_cols(child, 3)
    } else if off == 263 {
        seq![at_child(child, 262)]
    } else if off == 264 {
        eq_cols(child, 4)
    } else if off == 265 {
        seq![256int] + found_cols(child)
    } else if off == 266 {
        seq![256int]
    } else {
        selected_cols(child, off - 267).push(at_child(child, off - 267))
    }
}

/// The first factor's row at position `p`.
pub open spec fn row_a(p: int) -> Seq<int> {
    if p < 256 {
        seq![p]
    } else if p == 256 {
        seq![17505int]
    } else if p < 513 {
        Seq::empty()
    } else if p < 769 {
        seq![p]
    } else if p < 17505 {
        child_row_a((p - 769) / 523, (p - 769) % 523)
    } else if p == 17505 {
        found_cols(32)
    } else if p < 17761 {
        seq![513 + (p - 17506), 256]
    } else if p == 17761 {
        seq![17506int, 256]
    } else if p < 18016 {
        seq![p - 1]
    } else if p < 18272 {
        seq![p - 18016]
    } else if p == 18272 {
        seq![18016int, 256]
    } else if p < 18528 {
        seq![p - 1]
    } else if p == 18528 {
        seq![18015int]
    } else if p < 18688 {
        Seq::empty()
    } else if p < 18944 {
        selected_cols(32, p - 18688)
    } else {
        Seq::empty()
    }
}

/// The second factor's row at position `p`.
pub open spec fn row_b(p: int) -> Seq<int> {
    if p < 256 {
        seq![256int]
    } else if p == 256 {
        seq![18528int]
    } else if p < 513 {
        Seq::empty()
    } else if p < 769 {
        seq![256int]
    } else if p < 17505 {
        child_row_b((p - 769) / 523, (p - 769) % 523)
    } else if p == 17505 {
        seq![256int]
    } else if p < 17761 {
        seq![513 + (p - 17505)]
    } else if p == 17761 {
        seq![256int]
    } else if p < 18016 {
        seq![17506 + (p - 17761), 256]
    } else if p < 18272 {
        seq![513 + (p - 18016), 256]
    } else if p == 18272 {
        seq![256int]
    } else if p < 18528 {
        seq![18016 + (p - 18272), 256]
    } else if p == 18528 {
        seq![18527int]
    } else if p < 18688 {
        Seq::empty()
    } else if p < 18944 {
        seq![256int]
    } else {
        Seq::empty()
    }
}

/// The digests of children, as bit sequences.
pub open spec fn digest_bits(children: Seq<[bool; 256]>) -> Seq<Seq<bool>> {
    children.map_values(|c: [bool; 256]| c@)
}

fn child_index_bit(child: usize, j: usize) -> (b: bool)
    ensures
        b == index_bit(child as int, j as int),
{
    if j == 0 {
        child % 2 == 1
    } else if j == 1 {
        child / 2 % 2 == 1
    } else if j == 2 {
        child / 4 % 2 == 1
    } else if j == 3 {
        child / 8 % 2 == 1
    } else {
        child / 16 % 2 == 1
    }
}

/// Whether bit `j` of the spelled index is that of `child`.
fn bit_matches(key: &[bool; 256], mask: &[bool; 256], child: usize, j: usize) -> (b: bool)
    requires
        j < 5,
    ensures
        forall|children: Seq<Seq<bool>>|
            b == (#[trigger] Route { key: key@, mask: mask@, children }.bit_eq(
                child as int,
                j as int,
            )),
{
    (key[j] && mask[j]) == child_index_bit(child, j)
}

/// Whether one of the 32 children matches.
fn any_match(key: &[bool; 256], mask: &[bool; 256], Ghost(r): Ghost<Route>) -> (b: bool)
    requires
        r.key == key@,
        r.mask == mask@,
    ensures
        b == r.found(32),
{
    let mut b: bool = false;
    for c in 0..32usize
        invariant
            r.key == key@,
            r.mask == mask@,
            b == r.found(c as int),
    {
        let m: bool = bit_matches(key, mask, c, 0) && bit_matches(key, mask, c, 1) && bit_matches(
            key,
            mask,
            c,
            2,
        ) && bit_matches(key, mask, c, 3) && bit_matches(key, mask, c, 4);
        proof {
            assert(r == (Route { key: key@, mask: mask@, children: r.children }));
            assert(m == r.matches_child(c as int));
        }
        b = b || m;
    }
    b
}

/// Fills the cells of one child. Returns whether this child or one before it
/// matches.
fn fill_child(
    key: &[bool; 256],
    mask: &[bool; 256],
    digest: &[bool; 256],
    child: usize,
    found: bool,
    selected: &mut [bool; 256],
    z_u64: &mut [u64],
    a_u64: &mut [u64],
    b_u64: &mut [u64],
    Ghost(r): Ghost<Route>,
) -> (found_out: bool)
    requires
        child < 32,
        r.key == key@,
        r.mask == mask@,
        r.children.len() == 32,
        r.children[child as int] == digest@,
        found == r.found(child as int),
        forall|i: int| 0 <= i < 256 ==> old(selected)@[i] == r.selected(child as int, i),
        filled(
            old(z_u64)@,
            old(a_u64)@,
            old(b_u64)@,
            512,
            at_child(child as int, 0),
            r.cells(),
        ),
    ensures
        found_out == r.found(child + 1),
        forall|i: int| 0 <= i < 256 ==> final(selected)@[i] == r.selected(child + 1, i),
        filled(
            final(z_u64)@,
            final(a_u64)@,
            final(b_u64)@,
            512,
            at_child(child + 1, 0),
            r.cells(),
        ),
{
    let base: usize = child_base(child);
    let ghost cells = r.cells();
    for i in 0..256usize
        invariant
            child < 32,
            base == at_child(child as int, 0),
            cells == r.cells(),
            r.children[child as int] == digest@,
            filled(z_u64@, a_u64@, b_u64@, 512, base + i, cells),
    {
        proof {
            lemma_at_child(r, child as int, i as int);
        }
        set_zab(base + i, digest[i], digest[i], true, z_u64, a_u64, b_u64, Ghost(512), Ghost(cells));
    }
    for j in 0..5usize
        invariant
            child < 32,
            base == at_child(child as int, 0),
            cells == r.cells(),
            r.key == key@,
            r.mask == mask@,
            filled(z_u64@, a_u64@, b_u64@, 512, base + 256 + j, cells),
    {
        proof {
            lemma_at_child(r, child as int, 256 + j);
        }
        set_zab(
            base + 256 + j,
            key[j] && mask[j],
            key[j],
            mask[j],
            z_u64,
            a_u64,
            b_u64,
            Ghost(512),
            Ghost(cells),
        );
    }
    let e0: bool = bit_matches(key, mask, child, 0);
    let e1: bool = bit_matches(key, mask, child, 1);
    let e2: bool = bit_matches(key, mask, child, 2);
    let e3: bool = bit_matches(key, mask, child, 3);
    let e4: bool = bit_matches(key, mask, child, 4);
    proof {
        assert(r == (Route { key: key@, mask: mask@, children: r.children }));
        assert(e0 == r.bit_eq(child as int, 0));
        assert(e1 == r.bit_eq(child as int, 1));
        assert(e2 == r.bit_eq(child as int, 2));
        assert(e3 == r.bit_eq(child as int, 3));
        assert(e4 == r.bit_eq(child as int, 4));
        lemma_at_child(r, child as int, 261);
        lemma_at_child(r, child as int, 262);
        lemma_at_child(r, child as int, 263);
        lemma_at_child(r, child as int, 264);
        lemma_at_child(r, child as int, 265);
        lemma_at_child(r, child as int, 266);
    }
    let p01: bool = e0 && e1;
    let p23: bool = e2 && e3;
    let p0123: bool = p01 && p23;
    let matched: bool = p0123 && e4;
    let take: bool = matched && !found;
    let found_out: bool = found || take;
    set_zab(base + 261, p01, e0, e1, z_u64, a_u64, b_u64, Ghost(512), Ghost(cells));
    set_zab(base + 262, p23, e2, e3, z_u64, a_u64, b_u64, Ghost(512), Ghost(cells));
    set_zab(base + 263, p0123, p01, p23, z_u64, a_u64, b_u64, Ghost(512), Ghost(cells));
    set_zab(base + 264, matched, p0123, e4, z_u64, a_u64, b_u64, Ghost(512), Ghost(cells));
    set_zab(base + 265, take, matched, !found, z_u64, a_u64, b_u64, Ghost(512), Ghost(cells));
    set_zab(base + 266, found_out, found_out, true, z_u64, a_u64, b_u64, Ghost(512), Ghost(cells));
    for i in 0..256usize
        invariant
            child < 32,
            base == at_child(child as int, 0),
            cells == r.cells(),
            r.children[child as int] == digest@,
            take == r.take(child as int),
            forall|k: int|
                0 <= k < 256 ==> #[trigger] selected@[k] == if k < i {
                    r.selected(child + 1, k)
                } else {
                    r.selected(child as int, k)
                },
            filled(z_u64@, a_u64@, b_u64@, 512, base + 267 + i, cells),
    {
        proof {
            lemma_at_child(r, child as int, 267 + i);
        }
        let rhs: bool = digest[i] ^ selected[i];
        let delta: bool = take && rhs;
        set_zab(base + 267 + i, delta, take, rhs, z_u64, a_u64, b_u64, Ghost(512), Ghost(cells));
        selected[i] = selected[i] ^ delta;
    }
    found_out
}

/// Fills the cells behind the children: the checks of mask and key, and the
/// selected digest.
fn fill_tail(
    key: &[bool; 256],
    mask: &[bool; 256],
    found: bool,
    selected: &[bool; 256],
    z_u64: &mut [u64],
    a_u64: &mut [u64],
    b_u64: &mut [u64],
    Ghost(r): Ghost<Route>,
)
    requires
        r.key == key@,
        r.mask == mask@,
        found == r.found(32),
        forall|i: int| 0 <= i < 256 ==> selected@[i] == r.selected(32, i),
        filled(old(z_u64)@, old(a_u64)@, old(b_u64)@, 512, 17505, r.cells()),
    ensures
        filled(final(z_u64)@, final(a_u64)@, final(b_u64)@, 512, 32768, r.cells()),
{
    let ghost cells = r.cells();
    set_zab(17505, found, found, true, z_u64, a_u64, b_u64, Ghost(512), Ghost(cells));
    for i in 0..255usize
        invariant
            cells == r.cells(),
            r.mask == mask@,
            filled(z_u64@, a_u64@, b_u64@, 512, 17506 + i, cells),
    {
        set_zab(
            MASK_CHECK_BASE + i,
            !mask[i] && mask[i + 1],
            !mask[i],
            mask[i + 1],
            z_u64,
            a_u64,
            b_u64,
            Ghost(512),
            Ghost(cells),
        );
    }
    let mut mask_ok: bool = !(!mask[0] && mask[1]);
    set_zab(MASK_AND_BASE, mask_ok, mask_ok, true, z_u64, a_u64, b_u64, Ghost(512), Ghost(cells));
    for i in 1..255usize
        invariant
            cells == r.cells(),
            r.mask == mask@,
            mask_ok == r.mask_ok(i - 1),
            filled(z_u64@, a_u64@, b_u64@, 512, 17761 + i, cells),
    {
        let clean: bool = !(!mask[i] && mask[i + 1]);
        set_zab(
            MASK_AND_BASE + i,
            mask_ok && clean,
            mask_ok,
            clean,
            z_u64,
            a_u64,
            b_u64,
            Ghost(512),
            Ghost(cells),
        );
        mask_ok = mask_ok && clean;
    }
    for i in 0..256usize
        invariant
            cells == r.cells(),
            r.key == key@,
            r.mask == mask@,
            filled(z_u64@, a_u64@, b_u64@, 512, 18016 + i, cells),
    {
        set_zab(
            KEY_CHECK_BASE + i,
            key[i] && !mask[i],
            key[i],
            !mask[i],
            z_u64,
            a_u64,
            b_u64,
            Ghost(512),
            Ghost(cells),
        );
    }
    let mut key_ok: bool = !(key[0] && !mask[0]);
    set_zab(KEY_AND_BASE, key_ok, key_ok, true, z_u64, a_u64, b_u64, Ghost(512), Ghost(cells));
    for i in 1..256usize
        invariant
            cells == r.cells(),
            r.key == key@,
            r.mask == mask@,
            key_ok == r.key_ok(i - 1),
            filled(z_u64@, a_u64@, b_u64@, 512, 18272 + i, cells),
    {
        let clean: bool = !(key[i] && !mask[i]);
        set_zab(
            KEY_AND_BASE + i,
            key_ok && clean,
            key_ok,
            clean,
            z_u64,
            a_u64,
            b_u64,
            Ghost(512),
            Ghost(cells),
        );
        key_ok = key_ok && clean;
    }
    set_zab(
        ALL_OK_POS,
        mask_ok && key_ok,
        mask_ok,
        key_ok,
        z_u64,
        a_u64,
        b_u64,
        Ghost(512),
        Ghost(cells),
    );
    assert(filled(z_u64@, a_u64@, b_u64@, 512, 18688, cells));
    for i in 0..256usize
        invariant
            cells == r.cells(),
            forall|k: int| 0 <= k < 256 ==> selected@[k] == r.selected(32, k),
            filled(z_u64@, a_u64@, b_u64@, 512, 18688 + i, cells),
    {
        set_zab(
            SELECTED_OUT_FINAL_BASE + i,
            selected[i],
            selected[i],
            true,
            z_u64,
            a_u64,
            b_u64,
            Ghost(512),
            Ghost(cells),
        );
    }
    assert(filled(z_u64@, a_u64@, b_u64@, 512, 32768, cells));
}

/// Fills one block: at every position the value, and the values of its two
/// factors.
pub fn fill_block_witness_f32(
    key: &[bool; 256],
    mask: &[bool; 256],
    children: &[[bool; 256]],
    z_u64: &mut [u64],
    a_u64: &mut [u64],
    b_u64: &mut [u64],
)
    requires
        children@.len() == 32,
        old(z_u64)@.len() == 512,
        old(a_u64)@.len() == 512,
        old(b_u64)@.len() == 512,
    ensures
        filled(
            final(z_u64)@,
            final(a_u64)@,
            final(b_u64)@,
            512,
            32768,
            (Route { key: key@, mask: mask@, children: digest_bits(children@) }).cells(),
        ),
{
    let ghost r = Route { key: key@, mask: mask@, children: digest_bits(children@) };
    let ghost cells = r.cells();
    clear_words(z_u64);
    clear_words(a_u64);
    clear_words(b_u64);
    for i in 0..256usize
        invariant
            cells == r.cells(),
            r.key == key@,
            filled(z_u64@, a_u64@, b_u64@, 512, i as int, cells),
    {
        set_zab(i, key[i], key[i], true, z_u64, a_u64, b_u64, Ghost(512), Ghost(cells));
    }
    let reached: bool = any_match(key, mask, Ghost(r));
    set_zab(Z_CONST_POS, true, reached, true, z_u64, a_u64, b_u64, Ghost(512), Ghost(cells));
    assert(filled(z_u64@, a_u64@, b_u64@, 512, 513, cells));
    for i in 0..256usize
        invariant
            cells == r.cells(),
            r.mask == mask@,
            filled(z_u64@, a_u64@, b_u64@, 512, 513 + i, cells),
    {
        set_zab(MASK_BASE + i, mask[i], mask[i], true, z_u64, a_u64, b_u64, Ghost(512), Ghost(cells));
    }
    let mut found: bool = false;
    let mut selected: [bool; 256] = [false; 256];
    for child in 0..32usize
        invariant
            r.key == key@,
            r.mask == mask@,
            r.children == digest_bits(children@),
            children@.len() == 32,
            found == r.found(child as int),
            forall|i: int| 0 <= i < 256 ==> selected@[i] == r.selected(child as int, i),
            filled(z_u64@, a_u64@, b_u64@, 512, at_child(child as int, 0), r.cells()),
    {
        found = fill_child(
            key,
            mask,
            &children[child],
            child,
            found,
            &mut selected,
            z_u64,
            a_u64,
            b_u64,
            Ghost(r),
        );
    }
    fill_tail(key, mask, found, &selected, z_u64, a_u64, b_u64, Ghost(r));
}

fn eq_expr(child: usize, j: usize) -> (r: Vec<usize>)
    requires
        child < 32,
        j < 5,
    ensures
        columns(r@) == eq_cols(child as int, j as int),
{
    if child_index_bit(child, j) {
        cols_one(extracted_pos(child, j))
    } else {
        cols_two(Z_CONST_POS, extracted_pos(child, j))
    }
}

fn found_in_expr(child: usize) -> (r: Vec<usize>)
    requires
        child <= 32,
    ensures
        columns(r@) == found_cols(child as int),
{
    if child == 0 {
        cols_none()
    } else {
        cols_one(found_state_pos(child - 1))
    }
}

fn found_out_expr(child: usize) -> (r: Vec<usize>)
    requires
        child < 32,
    ensures
        columns(r@) == found_cols(child as int).push(at_child(child as int, 265)),
{
    let mut r = found_in_expr(child);
    let ghost before = columns(r@);
    r.push(take_pos(child));
    assert(columns(r@) =~= before.push(at_child(child as int, 265)));
    r
}

fn not_found_expr(child: usize) -> (r: Vec<usize>)
    requires
        child < 32,
    ensures
        columns(r@) == seq![256int] + found_cols(child as int),
{
    if child == 0 {
        let r = cols_one(Z_CONST_POS);
        assert(columns(r@) =~= seq![256int] + found_cols(child as int));
        r
    } else {
        let r = cols_two(Z_CONST_POS, found_state_pos(child - 1));
        assert(columns(r@) =~= seq![256int] + found_cols(child as int));
        r
    }
}

fn selected_state_expr(child: usize, bit: usize) -> (r: Vec<usize>)
    requires
        child <= 32,
        bit < 256,
    ensures
        columns(r@) == selected_cols(child as int, bit as int),
{
    let mut r = cols_one(selected_in_pos(bit));
    assert(columns(r@) =~= selected_cols(0, bit as int));
    for c in 0..child
        invariant
            child <= 32,
            bit < 256,
            columns(r@) == selected_cols(c as int, bit as int),
    {
        let ghost before = columns(r@);
        r.push(mux_delta_pos(c, bit));
        assert(columns(r@) =~= before.push(at_child(c as int, 267 + bit)));
        assert(columns(r@) =~= selected_cols(c + 1, bit as int));
    }
    r
}

fn mux_expr(child: usize, bit: usize) -> (r: Vec<usize>)
    requires
        child < 32,
        bit < 256,
    ensures
        columns(r@) == selected_cols(child as int, bit as int).push(
            at_child(child as int, bit as int),
        ),
{
    let mut r = selected_state_expr(child, bit);
    let ghost before = columns(r@);
    r.push(child_digest_pos(child, bit));
    assert(columns(r@) =~= before.push(at_child(child as int, bit as int)));
    r
}

/// Appends the rows of one child.
fn child_emit(
    a: &mut Vec<Vec<usize>>,
    b: &mut Vec<Vec<usize>>,
    child: usize,
    Ghost(ra): Ghost<spec_fn(int) -> Seq<int>>,
    Ghost(rb): Ghost<spec_fn(int) -> Seq<int>>,
)
    requires
        child < 32,
        ra == (|p: int| row_a(p)),
        rb == (|p: int| row_b(p)),
        rows_built(old(a)@, old(b)@, at_child(child as int, 0), ra, rb),
    ensures
        rows_built(final(a)@, final(b)@, at_child(child + 1, 0), ra, rb),
{
    let base: usize = child_base(child);
    let ghost r = Route { key: seq![], mask: seq![], children: seq![] };
    let ghost c = child as int;
    proof {
        assert forall|p: int| base <= p < base + 256 implies #[trigger] ra(p) == seq![p] by {
            lemma_at_child(r, c, p - base);
        }
        assert forall|p: int| base <= p < base + 256 implies #[trigger] rb(p) == seq![256int] by {
            lemma_at_child(r, c, p - base);
        }
    }
    input_emit(a, b, base, base + 256, Z_CONST_POS, Ghost(ra), Ghost(rb));
    for j in 0..5usize
        invariant
            ra == (|p: int| row_a(p)),
            rb == (|p: int| row_b(p)),
            child < 32,
            c == child,
            base == at_child(c, 0),
            rows_built(a@, b@, at_child(c, 256 + j), ra, rb),
    {
        proof {
            lemma_at_child(r, c, 256 + j);
        }
        set_mul(
            a,
            b,
            cols_one(j),
            cols_one(mask_pos(j)),
            Ghost(at_child(c, 256 + j)),
            Ghost(ra),
            Ghost(rb),
        );
    }
    proof {
        lemma_at_child(r, c, 261);
        lemma_at_child(r, c, 262);
        lemma_at_child(r, c, 263);
        lemma_at_child(r, c, 264);
        lemma_at_child(r, c, 265);
        lemma_at_child(r, c, 266);
    }
    set_mul(
        a,
        b,
        eq_expr(child, 0),
        eq_expr(child, 1),
        Ghost(at_child(c, 261)),
        Ghost(ra),
        Ghost(rb),
    );
    set_mul(
        a,
        b,
        eq_expr(child, 2),
        eq_expr(child, 3),
        Ghost(at_child(c, 262)),
        Ghost(ra),
        Ghost(rb),
    );
    set_mul(
        a,
        b,
        cols_one(match_p01_pos(child)),
        cols_one(match_p23_pos(child)),
        Ghost(at_child(c, 263)),
        Ghost(ra),
        Ghost(rb),
    );
    set_mul(
        a,
        b,
        cols_one(match_p0123_pos(child)),
        eq_expr(child, 4),
        Ghost(at_child(c, 264)),
        Ghost(ra),
        Ghost(rb),
    );
    set_mul(
        a,
        b,
        cols_one(match_result_pos(child)),
        not_found_expr(child),
        Ghost(at_child(c, 265)),
        Ghost(ra),
        Ghost(rb),
    );
    set_mul(
        a,
        b,
        found_out_expr(child),
        cols_one(Z_CONST_POS),
        Ghost(at_child(c, 266)),
        Ghost(ra),
        Ghost(rb),
    );
    for bit in 0..256usize
        invariant
            ra == (|p: int| row_a(p)),
            rb == (|p: int| row_b(p)),
            child < 32,
            c == child,
            rows_built(a@, b@, at_child(c, 267 + bit), ra, rb),
    {
        proof {
            lemma_at_child(r, c, 267 + bit);
        }
        set_mul(
            a,
            b,
            cols_one(take_pos(child)),
            mux_expr(child, bit),
            Ghost(at_child(c, 267 + bit)),
            Ghost(ra),
            Ghost(rb),
        );
    }
}

/// Appends the rows of the checks of mask and key.
fn checks_emit(
    a: &mut Vec<Vec<usize>>,
    b: &mut Vec<Vec<usize>>,
    Ghost(ra): Ghost<spec_fn(int) -> Seq<int>>,
    Ghost(rb): Ghost<spec_fn(int) -> Seq<int>>,
)
    requires
        ra == (|p: int| row_a(p)),
        rb == (|p: int| row_b(p)),
        rows_built(old(a)@, old(b)@, 17506, ra, rb),
    ensures
        rows_built(final(a)@, final(b)@, 18529, ra, rb),
{
    for i in 0..255usize
        invariant
            ra == (|p: int| row_a(p)),
            rb == (|p: int| row_b(p)),
            rows_built(a@, b@, 17506 + i, ra, rb),
    {
        set_mul(
            a,
            b,
            cols_two(mask_pos(i), Z_CONST_POS),
            cols_one(mask_pos(i + 1)),
            Ghost(17506 + i),
            Ghost(ra),
            Ghost(rb),
        );
    }
    set_mul(
        a,
        b,
        cols_two(MASK_CHECK_BASE, Z_CONST_POS),
        cols_one(Z_CONST_POS),
        Ghost(17761),
        Ghost(ra),
        Ghost(rb),
    );
    for i in 1..255usize
        invariant
            ra == (|p: int| row_a(p)),
            rb == (|p: int| row_b(p)),
            rows_built(a@, b@, 17761 + i, ra, rb),
    {
        set_mul(
            a,
            b,
            cols_one(MASK_AND_BASE + i - 1),
            cols_two(MASK_CHECK_BASE + i, Z_CONST_POS),
            Ghost(17761 + i),
            Ghost(ra),
            Ghost(rb),
        );
    }
    for i in 0..256usize
        invariant
            ra == (|p: int| row_a(p)),
            rb == (|p: int| row_b(p)),
            rows_built(a@, b@, 18016 + i, ra, rb),
    {
        set_mul(
            a,
            b,
            cols_one(i),
            cols_two(mask_pos(i), Z_CONST_POS),
            Ghost(18016 + i),
            Ghost(ra),
            Ghost(rb),
        );
    }
    set_mul(
        a,
        b,
        cols_two(KEY_CHECK_BASE, Z_CONST_POS),
        cols_one(Z_CONST_POS),
        Ghost(18272),
        Ghost(ra),
        Ghost(rb),
    );
    for i in 1..256usize
        invariant
            ra == (|p: int| row_a(p)),
            rb == (|p: int| row_b(p)),
            rows_built(a@, b@, 18272 + i, ra, rb),
    {
        set_mul(
            a,
            b,
            cols_one(KEY_AND_BASE + i - 1),
            cols_two(KEY_CHECK_BASE + i, Z_CONST_POS),
            Ghost(18272 + i),
            Ghost(ra),
            Ghost(rb),
        );
    }
    set_mul(
        a,
        b,
        cols_one(MASK_AND_BASE + 254),
        cols_one(KEY_AND_BASE + 255),
        Ghost(18528),
        Ghost(ra),
        Ghost(rb),
    );
}

/// The columns of all rows exist.
proof fn lemma_rows_in_range(p: int, j: int)
    requires
        0 <= p < 32768,
    ensures
        0 <= j < row_a(p).len() ==> 0 <= row_a(p)[j] < 32768,
        0 <= j < row_b(p).len() ==> 0 <= row_b(p)[j] < 32768,
{
    if 769 <= p < 17505 {
        let child = (p - 769) / 523;
        let off = (p - 769) % 523;
        assert(0 <= child < 32 && 0 <= off < 523);
    }
}

/// Whether `mats` are the matrices of the circuit.
pub open spec fn is_route_f32(a: SparseBinaryMatrix, b: SparseBinaryMatrix) -> bool {
    &&& a.square(32768)
    &&& b.square(32768)
    &&& matrix_rows(a) == Seq::new(32768, |p: int| row_a(p))
    &&& matrix_rows(b) == Seq::new(32768, |p: int| row_b(p))
}

/// Builds the two matrices.
pub fn build_matrices_f32() -> (r: (SparseBinaryMatrix, SparseBinaryMatrix))
    ensures
        is_route_f32(r.0, r.1),
{
    let ghost ra = |p: int| row_a(p);
    let ghost rb = |p: int| row_b(p);
    let mut a: Vec<Vec<usize>> = Vec::new();
    let mut b: Vec<Vec<usize>> = Vec::new();
    input_emit(&mut a, &mut b, KEY_BASE, Z_CONST_POS, Z_CONST_POS, Ghost(ra), Ghost(rb));
    set_mul(
        &mut a,
        &mut b,
        cols_one(FOUND_OUT_FINAL_POS),
        cols_one(ALL_OK_POS),
        Ghost(256),
        Ghost(ra),
        Ghost(rb),
    );
    blank_emit(&mut a, &mut b, SELECTED_IN_BASE, MASK_BASE, Ghost(ra), Ghost(rb));
    input_emit(&mut a, &mut b, MASK_BASE, CHILDREN_BASE, Z_CONST_POS, Ghost(ra), Ghost(rb));
    for child in 0..32usize
        invariant
            ra == (|p: int| row_a(p)),
            rb == (|p: int| row_b(p)),
            rows_built(a@, b@, at_child(child as int, 0), ra, rb),
    {
        child_emit(&mut a, &mut b, child, Ghost(ra), Ghost(rb));
    }
    set_mul(
        &mut a,
        &mut b,
        found_in_expr(32),
        cols_one(Z_CONST_POS),
        Ghost(17505),
        Ghost(ra),
        Ghost(rb),
    );
    checks_emit(&mut a, &mut b, Ghost(ra), Ghost(rb));
    blank_emit(&mut a, &mut b, ALL_OK_POS + 1, SELECTED_OUT_FINAL_BASE, Ghost(ra), Ghost(rb));
    for bit in 0..256usize
        invariant
            ra == (|p: int| row_a(p)),
            rb == (|p: int| row_b(p)),
            rows_built(a@, b@, 18688 + bit, ra, rb),
    {
        set_mul(
            &mut a,
            &mut b,
            selected_state_expr(32, bit),
            cols_one(Z_CONST_POS),
            Ghost(18688 + bit),
            Ghost(ra),
            Ghost(rb),
        );
    }
    blank_emit(&mut a, &mut b, USEFUL_BITS, K, Ghost(ra), Ghost(rb));
    proof {
        assert forall|p: int, j: int|
            #![trigger ra(p)[j]]
            0 <= p < K && 0 <= j < ra(p).len() implies 0 <= ra(p)[j] < K by {
            lemma_rows_in_range(p, j);
        }
        assert forall|p: int, j: int|
            #![trigger rb(p)[j]]
            0 <= p < K && 0 <= j < rb(p).len() implies 0 <= rb(p)[j] < K by {
            lemma_rows_in_range(p, j);
        }
    }
    let a_0 = square_matrix(a, K, Ghost(ra));
    let b_0 = square_matrix(b, K, Ghost(rb));
    assert(matrix_rows(a_0) =~= Seq::new(32768, |p: int| row_a(p)));
    assert(matrix_rows(b_0) =~= Seq::new(32768, |p: int| row_b(p)));
    (a_0, b_0)
}

/// Whether `r` is the system of `2^n_blocks_log` blocks of this circuit.
pub open spec fn is_route_f32_system(r: BlockR1cs, n_blocks_log: nat) -> bool {
    &&& r.m == n_blocks_log + 15
    &&& r.k_log == 15
    &&& r.k_skip == 6
    &&& r.useful_bits == 18944
    &&& r.const_pin == Some(256usize)
    &&& is_route_f32(r.a_0, r.b_0)
}

/// Builds the system of `2^n_blocks_log` blocks.
pub fn build_block_r1cs_f32(n_blocks_log: usize) -> (r: BlockR1cs)
    requires
        n_blocks_log + 15 <= usize::MAX,
    ensures
        is_route_f32_system(r, n_blocks_log as nat),
{
    let (a_0, b_0) = build_matrices_f32();
    build_block_r1cs_with_matrices(
        n_blocks_log,
        K_LOG,
        K_SKIP,
        USEFUL_BITS,
        a_0,
        b_0,
        Some(Z_CONST_POS),
    )
}

/// The mux columns sum to the bit selected so far.
proof fn lemma_selected_parity(r: Route, z: Seq<bool>, off: int, n: int, bit: int)
    requires
        0 <= n <= 32,
        0 <= bit < 256,
        !z[off + (257 + bit)],
        forall|c: int|
            0 <= c < n ==> z[off + #[trigger] at_child(c, 267 + bit)] == r.child_cell(
                c,
                267 + bit,
            ).z,
    ensures
        parity(selected_cols(n, bit), z, off) == r.selected(n, bit),
    decreases n,
{
    if n == 0 {
        assert(selected_cols(0, bit) =~= seq![257 + bit]);
        lemma_parity_few(257 + bit, 0, 0, z, off);
    } else {
        lemma_selected_parity(r, z, off, n - 1, bit);
        assert(selected_cols(n, bit) =~= selected_cols(n - 1, bit).push(
            at_child(n - 1, 267 + bit),
        ));
        lemma_parity_push(selected_cols(n - 1, bit), at_child(n - 1, 267 + bit), z, off);
        assert(z[off + at_child(n - 1, 267 + bit)] == r.child_cell(n - 1, 267 + bit).z);
    }
}

/// The parity of the columns that compare a bit of the index.
proof fn lemma_eq_parity(r: Route, z: Seq<bool>, off: int, child: int, j: int)
    requires
        0 <= child < 32,
        0 <= j < 5,
        z[off + 256],
        z[off + at_child(child, 256 + j)] == r.extracted(j),
    ensures
        parity(eq_cols(child, j), z, off) == r.bit_eq(child, j),
{
    lemma_parity_few(at_child(child, 256 + j), 0, 0, z, off);
    lemma_parity_few(256, at_child(child, 256 + j), 0, z, off);
}

/// Within a child, each row's factors are the cell's, once all positions below
/// hold their cells.
proof fn lemma_child_row_value(r: Route, z: Seq<bool>, off: int, child: int, o: int)
    requires
        0 <= child < 32,
        0 <= o < 523,
        z[off + 256],
        forall|q: int|
            0 <= q < at_child(child, o) && q != 256 ==> #[trigger] z[off + q] == r.cell(q).z,
        o < 256 ==> z[off + at_child(child, o)] == r.cell(at_child(child, o)).z,
    ensures
        parity(child_row_a(child, o), z, off) == r.child_cell(child, o).a,
        parity(child_row_b(child, o), z, off) == r.child_cell(child, o).b,
{
    lemma_at_child(r, child, o);
    lemma_parity_few(256, 0, 0, z, off);
    if o < 256 {
        lemma_parity_few(at_child(child, o), 0, 0, z, off);
    } else if o < 261 {
        lemma_parity_few(o - 256, 0, 0, z, off);
        lemma_parity_few(513 + (o - 256), 0, 0, z, off);
        assert(z[off + (o - 256)] == r.cell(o - 256).z);
        assert(z[off + (513 + (o - 256))] == r.cell(513 + (o - 256)).z);
    } else if o <= 264 {
        assert forall|j: int| 0 <= j < 5 implies z[off + #[trigger] at_child(child, 256 + j)]
            == r.extracted(j) by {
            lemma_at_child(r, child, 256 + j);
        }
        if o == 261 {
            lemma_eq_parity(r, z, off, child, 0);
            lemma_eq_parity(r, z, off, child, 1);
        } else if o == 262 {
            lemma_eq_parity(r, z, off, child, 2);
            lemma_eq_parity(r, z, off, child, 3);
        } else if o == 263 {
            lemma_at_child(r, child, 261);
            lemma_at_child(r, child, 262);
            lemma_parity_few(at_child(child, 261), 0, 0, z, off);
            lemma_parity_few(at_child(child, 262), 0, 0, z, off);
            assert(z[off + at_child(child, 261)] == r.cell(at_child(child, 261)).z);
            assert(z[off + at_child(child, 262)] == r.cell(at_child(child, 262)).z);
        } else {
            lemma_at_child(r, child, 263);
            lemma_parity_few(at_child(child, 263), 0, 0, z, off);
            assert(z[off + at_child(child, 263)] == r.cell(at_child(child, 263)).z);
            lemma_eq_parity(r, z, off, child, 4);
        }
    } else if o <= 266 {
        if child > 0 {
            lemma_at_child(r, child - 1, 266);
            lemma_parity_few(at_child(child - 1, 266), at_child(child, 265), 0, z, off);
            lemma_parity_few(256, at_child(child - 1, 266), 0, z, off);
            assert(z[off + at_child(child - 1, 266)] == r.cell(at_child(child - 1, 266)).z);
        }
        if o == 265 {
            lemma_at_child(r, child, 264);
            lemma_parity_few(at_child(child, 264), 0, 0, z, off);
            assert(z[off + at_child(child, 264)] == r.cell(at_child(child, 264)).z);
            if child == 0 {
                assert(seq![256int] + found_cols(child) =~= seq![256int]);
            } else {
                assert(seq![256int] + found_cols(child) =~= seq![256, at_child(child - 1, 266)]);
            }
        } else {
            lemma_at_child(r, child, 265);
            lemma_parity_few(at_child(child, 265), 0, 0, z, off);
            assert(z[off + at_child(child, 265)] == r.cell(at_child(child, 265)).z);
            if child == 0 {
                assert(found_cols(child).push(at_child(child, 265)) =~= seq![at_child(child, 265)]);
            } else {
                assert(found_cols(child).push(at_child(child, 265)) =~= seq![
                    at_child(child - 1, 266),
                    at_child(child, 265),
                ]);
            }
        }
    } else {
        let bit = o - 267;
        lemma_at_child(r, child, 265);
        lemma_at_child(r, child, bit);
        lemma_parity_few(at_child(child, 265), 0, 0, z, off);
        assert(z[off + at_child(child, 265)] == r.cell(at_child(child, 265)).z);
        assert(z[off + at_child(child, bit)] == r.cell(at_child(child, bit)).z);
        assert(z[off + (257 + bit)] == r.cell(257 + bit).z);
        assert forall|c: int| 0 <= c < child implies z[off + #[trigger] at_child(c, 267 + bit)]
            == r.child_cell(c, 267 + bit).z by {
            lemma_at_child(r, c, 267 + bit);
        }
        lemma_selected_parity(r, z, off, child, bit);
        lemma_parity_push(selected_cols(child, bit), at_child(child, bit), z, off);
    }
}

/// Each row's factors are the cell's, once all positions below hold their
/// cells. The row at `Z_CONST_POS` is apart.
proof fn lemma_row_value(r: Route, z: Seq<bool>, off: int, p: int)
    requires
        0 <= p < 32768,
        p != 256,
        z[off + 256],
        forall|q: int| 0 <= q < p && q != 256 ==> #[trigger] z[off + q] == r.cell(q).z,
        p < 256 || 513 <= p < 769 || (769 <= p < 17505 && (p - 769) % 523 < 256) ==> z[off + p]
            == r.cell(p).z,
    ensures
        parity(row_a(p), z, off) == r.cell(p).a,
        parity(row_b(p), z, off) == r.cell(p).b,
{
    lemma_parity_few(256, 0, 0, z, off);
    if p < 769 {
        lemma_parity_few(p, 0, 0, z, off);
    } else if p < 17505 {
        let child = (p - 769) / 523;
        let o = (p - 769) % 523;
        assert(p == at_child(child, o));
        lemma_child_row_value(r, z, off, child, o);
    } else if p == 17505 {
        lemma_at_child(r, 31, 266);
        lemma_parity_few(at_child(31, 266), 0, 0, z, off);
        assert(z[off + at_child(31, 266)] == r.cell(at_child(31, 266)).z);
    } else if p < 17761 {
        let i = p - 17506;
        lemma_parity_few(513 + i, 256, 0, z, off);
        lemma_parity_few(513 + (p - 17505), 0, 0, z, off);
        assert(z[off + (513 + i)] == r.cell(513 + i).z);
        assert(z[off + (513 + (p - 17505))] == r.cell(513 + (p - 17505)).z);
    } else if p == 17761 {
        lemma_parity_few(17506, 256, 0, z, off);
        assert(z[off + 17506] == r.cell(17506).z);
    } else if p < 18016 {
        let i = p - 17761;
        lemma_parity_few(p - 1, 0, 0, z, off);
        lemma_parity_few(17506 + i, 256, 0, z, off);
        assert(z[off + (p - 1)] == r.cell(p - 1).z);
        assert(z[off + (17506 + i)] == r.cell(17506 + i).z);
    } else if p < 18272 {
        let i = p - 18016;
        lemma_parity_few(i, 0, 0, z, off);
        lemma_parity_few(513 + i, 256, 0, z, off);
        assert(z[off + i] == r.cell(i).z);
        assert(z[off + (513 + i)] == r.cell(513 + i).z);
    } else if p == 18272 {
        lemma_parity_few(18016, 256, 0, z, off);
        assert(z[off + 18016] == r.cell(18016).z);
    } else if p < 18528 {
        let i = p - 18272;
        lemma_parity_few(p - 1, 0, 0, z, off);
        lemma_parity_few(18016 + i, 256, 0, z, off);
        assert(z[off + (p - 1)] == r.cell(p - 1).z);
        assert(z[off + (18016 + i)] == r.cell(18016 + i).z);
    } else if p == 18528 {
        lemma_parity_few(18015, 0, 0, z, off);
        lemma_parity_few(18527, 0, 0, z, off);
        assert(z[off + 18015] == r.cell(18015).z);
        assert(z[off + 18527] == r.cell(18527).z);
    } else if 18688 <= p < 18944 {
        let bit = p - 18688;
        assert(z[off + (257 + bit)] == r.cell(257 + bit).z);
        assert forall|c: int| 0 <= c < 32 implies z[off + #[trigger] at_child(c, 267 + bit)]
            == r.child_cell(c, 267 + bit).z by {
            lemma_at_child(r, c, 267 + bit);
        }
        lemma_selected_parity(r, z, off, 32, bit);
    }
}

/// The rows of the first matrix.
pub open spec fn rows_a() -> Seq<Seq<int>> {
    Seq::new(32768, |p: int| row_a(p))
}

/// The rows of the second matrix.
pub open spec fn rows_b() -> Seq<Seq<int>> {
    Seq::new(32768, |p: int| row_b(p))
}

/// Whether the block at `off` holds the cells of `r`.
pub open spec fn block_is(r: Route, z: Seq<bool>, off: int) -> bool {
    forall|p: int| 0 <= p < 32768 ==> #[trigger] z[off + p] == r.cell(p).z
}

/// A filled block satisfies the circuit exactly when some child matches and
/// mask and key pass the checks.
pub proof fn law_filled_block_satisfies(r: Route, z: Seq<bool>, off: int)
    requires
        block_is(r, z, off),
    ensures
        block_holds(rows_a(), rows_b(), 32768, z, off) <==> r.found(32) && r.all_ok(),
        z[off + 256],
{
    assert(z[off + 256] == r.cell(256).z);
    assert forall|p: int| 0 <= p < 32768 && p != 256 implies #[trigger] row_holds(
        rows_a(),
        rows_b(),
        z,
        off,
        p,
    ) by {
        lemma_row_value(r, z, off, p);
        assert(z[off + p] == r.cell(p).z);
        lemma_cell_is_product(r, p);
    }
    lemma_parity_few(17505, 0, 0, z, off);
    lemma_parity_few(18528, 0, 0, z, off);
    assert(z[off + 17505] == r.cell(17505).z);
    assert(z[off + 18528] == r.cell(18528).z);
    assert(row_holds(rows_a(), rows_b(), z, off, 256) == (r.found(32) && r.all_ok()));
}

/// Every cell but the one at `Z_CONST_POS` is the product of its factors.
proof fn lemma_cell_is_product(r: Route, p: int)
    requires
        0 <= p < 32768,
        p != 256,
    ensures
        r.cell(p).z == (r.cell(p).a && r.cell(p).b),
{
}

/// The route that a block's inputs spell.
pub open spec fn route_of(z: Seq<bool>, off: int) -> Route {
    Route {
        key: Seq::new(256, |i: int| z[off + i]),
        mask: Seq::new(256, |i: int| z[off + (513 + i)]),
        children: Seq::new(32, |c: int| Seq::new(256, |i: int| z[off + at_child(c, i)])),
    }
}

proof fn lemma_satisfying_prefix(z: Seq<bool>, off: int, n: int)
    requires
        block_holds(rows_a(), rows_b(), 32768, z, off),
        z[off + 256],
        0 <= n <= 32768,
    ensures
        forall|q: int|
            0 <= q < n && q != 256 ==> #[trigger] z[off + q] == route_of(z, off).cell(q).z,
    decreases n,
{
    let r = route_of(z, off);
    if n > 0 {
        let p = n - 1;
        lemma_satisfying_prefix(z, off, p);
        if p != 256 {
            if 769 <= p < 17505 && (p - 769) % 523 < 256 {
                let child = (p - 769) / 523;
                let o = (p - 769) % 523;
                assert(p == at_child(child, o));
                lemma_at_child(r, child, o);
                assert(r.children[child][o] == z[off + at_child(child, o)]);
            }
            lemma_row_value(r, z, off, p);
            lemma_cell_is_product(r, p);
            assert(row_holds(rows_a(), rows_b(), z, off, p));
        }
    }
}

/// A satisfying block with its pin set is the filled block of its own inputs;
/// some child matches, and mask and key pass the checks.
pub proof fn law_satisfying_block_is_filled(z: Seq<bool>, off: int)
    requires
        block_holds(rows_a(), rows_b(), 32768, z, off),
        z[off + 256],
    ensures
        block_is(route_of(z, off), z, off),
        route_of(z, off).found(32),
        route_of(z, off).all_ok(),
{
    let r = route_of(z, off);
    lemma_satisfying_prefix(z, off, 32768);
    assert(block_is(r, z, off)) by {
        assert forall|p: int| 0 <= p < 32768 implies #[trigger] z[off + p] == r.cell(p).z by {}
    }
    law_filled_block_satisfies(r, z, off);
}

/// A block of zeros satisfies the rows, but not the pin.
pub proof fn law_zero_block_satisfies_without_pin(z: Seq<bool>, off: int)
    requires
        forall|p: int| 0 <= p < 32768 ==> !#[trigger] z[off + p],
    ensures
        block_holds(rows_a(), rows_b(), 32768, z, off),
        !z[off + 256],
{
    assert forall|p: int| 0 <= p < 32768 implies #[trigger] row_holds(
        rows_a(),
        rows_b(),
        z,
        off,
        p,
    ) by {
        assert forall|j: int| 0 <= j < row_a(p).len() implies !z[off + #[trigger] row_a(p)[j]] by {
            lemma_rows_in_range(p, j);
        }
        crate::r1cs::lemma_parity_zero(row_a(p), z, off);
        assert(!z[off + p]);
    }
    assert(!z[off + 256]);
}

/// The index that a route's key spells under its mask.
pub open spec fn spelled_index(r: Route) -> int {
    (if r.extracted(0) {
        1int
    } else {
        0
    }) + (if r.extracted(1) {
        2int
    } else {
        0
    }) + (if r.extracted(2) {
        4int
    } else {
        0
    }) + (if r.extracted(3) {
        8int
    } else {
        0
    }) + (if r.extracted(4) {
        16int
    } else {
        0
    })
}

proof fn lemma_match_is_spelled(r: Route, c: int)
    requires
        0 <= c < 32,
    ensures
        r.matches_child(c) <==> c == spelled_index(r),
{
    assert(c == c % 2 + 2 * (c / 2 % 2) + 4 * (c / 4 % 2) + 8 * (c / 8 % 2) + 16 * (c / 16 % 2));
    if c == spelled_index(r) {
        assert(c % 2 == if r.extracted(0) {
            1int
        } else {
            0
        });
        assert(c / 2 % 2 == if r.extracted(1) {
            1int
        } else {
            0
        });
        assert(c / 4 % 2 == if r.extracted(2) {
            1int
        } else {
            0
        });
        assert(c / 8 % 2 == if r.extracted(3) {
            1int
        } else {
            0
        });
    }
}

/// Scanning the first `n` children finds the spelled one where it is among
/// them.
pub proof fn lemma_route_scan(r: Route, n: int, bit: int)
    requires
        0 <= n <= 32,
    ensures
        r.found(n) == (spelled_index(r) < n),
        spelled_index(r) < n ==> r.selected(n, bit) == r.children[spelled_index(r)][bit],
        spelled_index(r) >= n ==> !r.selected(n, bit),
    decreases n,
{
    if n > 0 {
        lemma_route_scan(r, n - 1, bit);
        lemma_match_is_spelled(r, n - 1);
    }
}

/// The routed digest is that of the child whose index the key spells under the
/// mask; with 32 children there always is one.
pub proof fn law_route_selects_spelled_child(r: Route, bit: int)
    ensures
        0 <= spelled_index(r) < 32,
        r.found(32),
        r.selected(32, bit) == r.children[spelled_index(r)][bit],
{
    lemma_route_scan(r, 32, bit);
}

proof fn lemma_mask_ok(r: Route, n: int)
    requires
        0 <= n,
    ensures
        r.mask_ok(n) <==> forall|i: int| 0 <= i <= n ==> !#[trigger] r.mask_gap(i),
    decreases n,
{
    if n > 0 {
        lemma_mask_ok(r, n - 1);
    }
}

proof fn lemma_key_ok(r: Route, n: int)
    requires
        0 <= n,
    ensures
        r.key_ok(n) <==> forall|i: int| 0 <= i <= n ==> !#[trigger] r.key_stray(i),
    decreases n,
{
    if n > 0 {
        lemma_key_ok(r, n - 1);
    }
}

/// The checks that the circuit makes of mask and key are those of a compact
/// route.
pub proof fn law_checks_are_compactness(r: Route)
    requires
        r.key.len() == 256,
        r.mask.len() == 256,
    ensures
        r.all_ok() <==> is_compact(r.key, r.mask),
{
    lemma_mask_ok(r, 254);
    lemma_key_ok(r, 255);
    let width = count_set(r.mask);
    assert(r.mask.take(256) =~= r.mask);
    if r.all_ok() {
        assert forall|i: int| 0 <= i && i + 1 < 256 && r.mask[i + 1] implies #[trigger] r.mask[i] by {
            assert(!r.mask_gap(i));
        }
        lemma_prefix_mask(r.mask, 256);
        assert forall|i: int| 0 <= i < 256 implies mask_bit_fits(r.mask, width, i) by {
            assert(r.mask[i] == (i < width));
        }
        assert forall|i: int| width <= i < 256 implies !#[trigger] r.key[i] by {
            assert(!r.key_stray(i));
            assert(r.mask[i] == (i < width));
        }
    }
    if is_compact(r.key, r.mask) {
        assert forall|i: int| 0 <= i <= 254 implies !#[trigger] r.mask_gap(i) by {
            assert(mask_bit_fits(r.mask, width, i));
            assert(mask_bit_fits(r.mask, width, i + 1));
        }
        assert forall|i: int| 0 <= i <= 255 implies !#[trigger] r.key_stray(i) by {
            assert(mask_bit_fits(r.mask, width, i));
            if r.key[i] && i >= width {
                assert(!r.key[i]);
            }
        }
    }
}

/// A filled block holds, beside its bits, the two sums of every row over those
/// bits, and each bit is the product of the two sums of its row.
pub proof fn law_filled_sums(r: Route, z: Seq<u64>, a: Seq<u64>, b: Seq<u64>, p: int)
    requires
        filled(z, a, b, 512, 32768, r.cells()),
        0 <= p < 32768,
        p == 256 ==> r.all_ok(),
    ensures
        z.len() == 512 && a.len() == 512 && b.len() == 512,
        (a[p / 64] >> ((p % 64) as u64)) & 1 == 1 <==> parity(row_a(p), all_bits(z), 0),
        (b[p / 64] >> ((p % 64) as u64)) & 1 == 1 <==> parity(row_b(p), all_bits(z), 0),
        (z[p / 64] >> ((p % 64) as u64)) & 1 == 1 <==> parity(row_a(p), all_bits(z), 0) && parity(
            row_b(p),
            all_bits(z),
            0,
        ),
{
    let bits = all_bits(z);
    assert forall|q: int| 0 <= q < 32768 implies #[trigger] bits[0int + q] == r.cell(q).z by {
        assert(bit_at(z, q) == r.cells()(q).z);
    }
    assert(bit_at(z, p) == r.cells()(p).z);
    assert(bit_at(a, p) == r.cells()(p).a);
    assert(bit_at(b, p) == r.cells()(p).b);
    assert(bits[0int + 256] == r.cell(256).z);
    if p == 256 {
        law_route_selects_spelled_child(r, 0);
        lemma_parity_few(17505, 0, 0, bits, 0);
        lemma_parity_few(18528, 0, 0, bits, 0);
        assert(bits[0int + 17505] == r.cell(17505).z);
        assert(bits[0int + 18528] == r.cell(18528).z);
    } else {
        lemma_row_value(r, bits, 0, p);
        lemma_cell_is_product(r, p);
    }
}

/// The child that a route spells: five binary digits, each a key bit that the
/// mask lets through.
pub proof fn law_spelled_index(r: Route)
    ensures
        0 <= spelled_index(r) < 32,
        spelled_index(r) % 2 == 1 <==> r.key[0] && r.mask[0],
        spelled_index(r) / 2 % 2 == 1 <==> r.key[1] && r.mask[1],
        spelled_index(r) / 4 % 2 == 1 <==> r.key[2] && r.mask[2],
        spelled_index(r) / 8 % 2 == 1 <==> r.key[3] && r.mask[3],
        spelled_index(r) / 16 == 1 <==> r.key[4] && r.mask[4],
{
}

/// The system of the route through 32 children: blocks of `2^15` bits, of which
/// 18944 are used, the bit 256 of each pinned, over the matrices of the route.
pub proof fn law_route_system_fields(r: BlockR1cs, n_blocks_log: nat, p: int)
    requires
        is_route_f32_system(r, n_blocks_log),
        0 <= p < 32768,
    ensures
        r.m == n_blocks_log + 15 && r.k_log == 15 && r.k_skip == 6 && r.useful_bits == 18944,
        r.const_pin == Some(256usize),
        matrix_rows(r.a_0).len() == 32768 && matrix_rows(r.b_0).len() == 32768,
        matrix_rows(r.a_0)[p] == row_a(p),
        matrix_rows(r.b_0)[p] == row_b(p),
{
}

/// The bits of many digests, one after another.
pub proof fn law_digest_bits(children: Seq<[bool; 256]>, c: int)
    requires
        0 <= c < children.len(),
    ensures
        digest_bits(children).len() == children.len(),
        digest_bits(children)[c] == children[c]@,
{
}

} // verus!
