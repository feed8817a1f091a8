//! The pixel store: a dynamically sized `nalgebra` matrix of intensity
//! values, held opaquely and reached through a small set of trusted
//! wrappers that speak of its contents as a sequence of rows.

use vstd::prelude::*;

verus! {

/// An intensity matrix, backed by an `nalgebra::DMatrix`.
#[verifier::external_body]
pub struct PixMatrix {
    m: nalgebra::DMatrix<u32>,
}

/// What an intensity matrix holds: its rows, each a sequence of values.
pub uninterp spec fn mat_cells(m: PixMatrix) -> Seq<Seq<u32>>;

/// Relies on nalgebra's `DMatrix::from_row_slice`: it builds an
/// `h` by `w` matrix whose entry at row `i`, column `j` is element
/// `i * w + j` of the given row-major slice.
#[verifier::external_body]
pub(crate) fn mat_from_rows(h: usize, w: usize, data: &Vec<u32>) -> (m: PixMatrix)
    requires
        data@.len() == h * w,
    ensures
        mat_cells(m).len() == h,
        forall|i: int| 0 <= i < h ==> (#[trigger] mat_cells(m)[i]).len() == w,
        forall|i: int, j: int| 0 <= i < h && 0 <= j < w ==> mat_cells(m)[i][j] == data@[i * w + j],
{
    PixMatrix { m: nalgebra::DMatrix::from_row_slice(h, w, data.as_slice()) }
}

/// Relies on nalgebra's `Index<(usize, usize)>` for matrices: it returns
/// the entry at the given row and column.
#[verifier::external_body]
pub(crate) fn mat_get(m: &PixMatrix, i: usize, j: usize) -> (r: u32)
    requires
        i < mat_cells(*m).len(),
        j < mat_cells(*m)[i as int].len(),
    ensures
        r == mat_cells(*m)[i as int][j as int],
{
    m.m[(i, j)]
}

} // verus!
