//! Building the rows of a circuit's two matrices, position by position.

use vstd::prelude::*;

use crate::r1cs::{columns, matrix_rows, SparseBinaryMatrix};

verus! {

/// Whether the rows of the first `n` positions stand.
pub open spec fn rows_built(
    a: Seq<Vec<usize>>,
    b: Seq<Vec<usize>>,
    n: int,
    row_a: spec_fn(int) -> Seq<int>,
    row_b: spec_fn(int) -> Seq<int>,
) -> bool {
    &&& a.len() == n
    &&& b.len() == n
    &&& forall|p: int| 0 <= p < n ==> columns((#[trigger] a[p])@) == row_a(p)
    &&& forall|p: int| 0 <= p < n ==> columns((#[trigger] b[p])@) == row_b(p)
}

/// A row without columns.
pub(crate) fn cols_none() -> (r: Vec<usize>)
    ensures
        columns(r@) == Seq::<int>::empty(),
{
    let r: Vec<usize> = Vec::new();
    assert(columns(r@) =~= Seq::<int>::empty());
    r
}

/// A row of one column.
pub(crate) fn cols_one(x: usize) -> (r: Vec<usize>)
    ensures
        columns(r@) == seq![x as int],
{
    let mut r: Vec<usize> = Vec::new();
    r.push(x);
    assert(columns(r@) =~= seq![x as int]);
    r
}

/// A row of two columns.
pub(crate) fn cols_two(x: usize, y: usize) -> (r: Vec<usize>)
    ensures
        columns(r@) == seq![x as int, y as int],
{
    let mut r: Vec<usize> = Vec::new();
    r.push(x);
    r.push(y);
    assert(columns(r@) =~= seq![x as int, y as int]);
    r
}

/// A row of three columns.
pub(crate) fn cols_three(x: usize, y: usize, w: usize) -> (r: Vec<usize>)
    ensures
        columns(r@) == seq![x as int, y as int, w as int],
{
    let mut r: Vec<usize> = Vec::new();
    r.push(x);
    r.push(y);
    r.push(w);
    assert(columns(r@) =~= seq![x as int, y as int, w as int]);
    r
}

/// Appends the rows of the next position.
pub(crate) fn set_mul(
    a_rows: &mut Vec<Vec<usize>>,
    b_rows: &mut Vec<Vec<usize>>,
    a: Vec<usize>,
    b: Vec<usize>,
    Ghost(p): Ghost<int>,
    Ghost(row_a): Ghost<spec_fn(int) -> Seq<int>>,
    Ghost(row_b): Ghost<spec_fn(int) -> Seq<int>>,
)
    requires
        rows_built(old(a_rows)@, old(b_rows)@, p, row_a, row_b),
        columns(a@) == row_a(p),
        columns(b@) == row_b(p),
    ensures
        rows_built(final(a_rows)@, final(b_rows)@, p + 1, row_a, row_b),
{
    a_rows.push(a);
    b_rows.push(b);
}

/// Appends the rows of inputs up to position `to`.
pub(crate) fn input_emit(
    a_rows: &mut Vec<Vec<usize>>,
    b_rows: &mut Vec<Vec<usize>>,
    from: usize,
    to: usize,
    one: usize,
    Ghost(row_a): Ghost<spec_fn(int) -> Seq<int>>,
    Ghost(row_b): Ghost<spec_fn(int) -> Seq<int>>,
)
    requires
        from <= to,
        rows_built(old(a_rows)@, old(b_rows)@, from as int, row_a, row_b),
        forall|p: int| from <= p < to ==> #[trigger] row_a(p) == seq![p],
        forall|p: int| from <= p < to ==> #[trigger] row_b(p) == seq![one as int],
    ensures
        rows_built(final(a_rows)@, final(b_rows)@, to as int, row_a, row_b),
{
    for p in from..to
        invariant
            from <= to,
            rows_built(a_rows@, b_rows@, p as int, row_a, row_b),
            forall|q: int| from <= q < to ==> #[trigger] row_a(q) == seq![q],
            forall|q: int| from <= q < to ==> #[trigger] row_b(q) == seq![one as int],
    {
        set_mul(
            a_rows,
            b_rows,
            cols_one(p),
            cols_one(one),
            Ghost(p as int),
            Ghost(row_a),
            Ghost(row_b),
        );
    }
}

/// Appends empty rows up to position `to`.
pub(crate) fn blank_emit(
    a_rows: &mut Vec<Vec<usize>>,
    b_rows: &mut Vec<Vec<usize>>,
    from: usize,
    to: usize,
    Ghost(row_a): Ghost<spec_fn(int) -> Seq<int>>,
    Ghost(row_b): Ghost<spec_fn(int) -> Seq<int>>,
)
    requires
        from <= to,
        rows_built(old(a_rows)@, old(b_rows)@, from as int, row_a, row_b),
        forall|p: int| from <= p < to ==> #[trigger] row_a(p) == Seq::<int>::empty(),
        forall|p: int| from <= p < to ==> #[trigger] row_b(p) == Seq::<int>::empty(),
    ensures
        rows_built(final(a_rows)@, final(b_rows)@, to as int, row_a, row_b),
{
    for p in from..to
        invariant
            from <= to,
            rows_built(a_rows@, b_rows@, p as int, row_a, row_b),
            forall|q: int| from <= q < to ==> #[trigger] row_a(q) == Seq::<int>::empty(),
            forall|q: int| from <= q < to ==> #[trigger] row_b(q) == Seq::<int>::empty(),
    {
        set_mul(
            a_rows,
            b_rows,
            cols_none(),
            cols_none(),
            Ghost(p as int),
            Ghost(row_a),
            Ghost(row_b),
        );
    }
}

/// Makes a square matrix of rows whose columns exist.
pub(crate) fn square_matrix(
    rows: Vec<Vec<usize>>,
    k: usize,
    Ghost(row): Ghost<spec_fn(int) -> Seq<int>>,
) -> (m: SparseBinaryMatrix)
    requires
        rows@.len() == k,
        forall|p: int| 0 <= p < k ==> columns((#[trigger] rows@[p])@) == row(p),
        forall|p: int, j: int|
            #![trigger row(p)[j]]
            0 <= p < k && 0 <= j < row(p).len() ==> 0 <= row(p)[j] < k,
    ensures
        m.square(k as nat),
        matrix_rows(m) == Seq::new(k as nat, |p: int| row(p)),
{
    let m = SparseBinaryMatrix { num_rows: k, num_cols: k, rows };
    proof {
        assert forall|i: int, j: int|
            #![trigger m.rows@[i]@[j]]
            0 <= i < k && 0 <= j < m.rows@[i]@.len() implies m.rows@[i]@[j] < k by {
            assert(columns(m.rows@[i]@)[j] == m.rows@[i]@[j]);
            assert(row(i)[j] == m.rows@[i]@[j]);
        }
        assert(matrix_rows(m) =~= Seq::new(k as nat, |p: int| row(p)));
    }
    m
}

} // verus!
