//! Square matrices of numbers, held by `ndarray`.
use vstd::prelude::*;
use ndarray::Array2;

verus! {

/// A square matrix of numbers: an `Array2<usize>` of `ndarray`.
#[verifier::external_body]
pub struct Matrix {
    inner: Array2<usize>,
}

/// The numbers that a matrix holds, row by row.
pub uninterp spec fn cells(m: Matrix) -> Seq<usize>;

/// The number of rows, and of columns, of a matrix.
pub uninterp spec fn side(m: Matrix) -> nat;

/// The number at row `i` and column `j`.
pub open spec fn at(m: Matrix, i: int, j: int) -> int {
    cells(m)[i * side(m) + j] as int
}

/// The sum of the products of the first `k` numbers of row `i` of `a` with
/// the first `k` numbers of column `j` of `b`.
pub open spec fn dot_upto(a: Matrix, b: Matrix, i: int, j: int, k: int) -> int
    decreases k,
{
    if k <= 0 {
        0
    } else {
        dot_upto(a, b, i, j, k - 1) + at(a, i, k - 1) * at(b, k - 1, j)
    }
}

/// `Array2::from_shape_vec` with the shape `(n, n)` makes the matrix of `n`
/// rows and `n` columns that holds `v`, row by row.
#[verifier::external_body]
pub(crate) fn square(n: usize, v: Vec<usize>) -> (m: Matrix)
    requires
        v.len() == n * n,
    ensures
        side(m) == n,
        cells(m) == v@,
{
    Matrix { inner: Array2::from_shape_vec((n, n), v).unwrap() }
}

/// `ArrayBase::nrows` returns the number of rows.
#[verifier::external_body]
pub(crate) fn rows(m: &Matrix) -> (n: usize)
    ensures
        n == side(*m),
{
    m.inner.nrows()
}

/// Indexing an array with `[[i, j]]` reads the number at row `i` and
/// column `j`.
#[verifier::external_body]
pub(crate) fn cell(m: &Matrix, i: usize, j: usize) -> (c: usize)
    requires
        i < side(*m),
        j < side(*m),
    ensures
        c == at(*m, i as int, j as int),
{
    m.inner[[i, j]]
}

/// `ArrayBase::dot` of two matrices is their product: the number at row
/// `i` and column `j` is the sum over `k` of the products of the number at
/// row `i` and column `k` of the first with the number at row `k` and
/// column `j` of the second. No sum may leave `usize`.
#[verifier::external_body]
pub(crate) fn product(a: &Matrix, b: &Matrix) -> (c: Matrix)
    requires
        side(*a) == side(*b),
        cells(*a).len() == side(*a) * side(*a),
        cells(*b).len() == side(*b) * side(*b),
        forall|i: int, j: int|
            0 <= i < side(*a) && 0 <= j < side(*a) ==> #[trigger] dot_upto(
                *a,
                *b,
                i,
                j,
                side(*a) as int,
            ) <= usize::MAX,
    ensures
        side(c) == side(*a),
        cells(c).len() == side(c) * side(c),
        forall|i: int, j: int|
            0 <= i < side(c) && 0 <= j < side(c) ==> #[trigger] at(c, i, j) == dot_upto(
                *a,
                *b,
                i,
                j,
                side(*a) as int,
            ),
{
    Matrix { inner: a.inner.dot(&b.inner) }
}

} // verus!
