use nalgebra::DMatrix;
use vstd::prelude::*;

verus! {

/// A square matrix of wide integers, kept in a `nalgebra::DMatrix<i128>`.
///
/// Verus does not look inside: what the matrix holds is named by
/// `matrix_order` and `matrix_cells`, and the three functions below are the
/// only code that touches the nalgebra value.
#[verifier::external_body]
pub struct SquareMatrix {
    cells: DMatrix<i128>,
}

/// The number of rows, which is also the number of columns.
pub uninterp spec fn matrix_order(m: SquareMatrix) -> nat;

/// The entries, keyed by `(row, column)`.
pub uninterp spec fn matrix_cells(m: SquareMatrix) -> Map<(int, int), int>;

/// The positions of a square matrix of the given order.
pub open spec fn in_square(order: nat, position: (int, int)) -> bool {
    0 <= position.0 < order && 0 <= position.1 < order
}

/// Calls `DMatrix::zeros(order, order)`: nalgebra allocates `order * order`
/// entries, each `i128::zero()`. The product must fit in `usize`, which
/// nalgebra multiplies out unchecked.
#[verifier::external_body]
pub(crate) fn matrix_zeros(order: usize) -> (m: SquareMatrix)
    requires
        order * order <= usize::MAX,
    ensures
        matrix_order(m) == order,
        matrix_cells(m) == Map::new(|p: (int, int)| in_square(order as nat, p), |p: (int, int)| 0int),
{
    SquareMatrix { cells: DMatrix::zeros(order, order) }
}

/// Reads `m[(row, col)]` through nalgebra's `Index<(usize, usize)>`, which
/// panics outside the matrix.
#[verifier::external_body]
pub(crate) fn matrix_get(m: &SquareMatrix, row: usize, col: usize) -> (value: i128)
    requires
        in_square(matrix_order(*m), (row as int, col as int)),
    ensures
        value == matrix_cells(*m)[(row as int, col as int)],
{
    m.cells[(row, col)]
}

/// Writes `m[(row, col)]` through nalgebra's `IndexMut<(usize, usize)>`, which
/// panics outside the matrix. One entry changes; the shape does not.
#[verifier::external_body]
pub(crate) fn matrix_set(m: &mut SquareMatrix, row: usize, col: usize, value: i128)
    requires
        in_square(matrix_order(*old(m)), (row as int, col as int)),
    ensures
        matrix_order(*final(m)) == matrix_order(*old(m)),
        matrix_cells(*final(m)) == matrix_cells(*old(m)).insert((row as int, col as int), value as int),
{
    m.cells[(row, col)] = value;
}

} // verus!
