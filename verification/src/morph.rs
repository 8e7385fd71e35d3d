//! Morphological opening of the soma mask, done by `scirs2_ndimage`.

use vstd::prelude::*;
use crate::types::{bool_cells, bool_dims, flat, in_bounds, Cells, Matrix, Pnt};

verus! {

/// What the binary opening returns for a mask of the given shape and
/// iteration count; a function of its arguments alone.
pub uninterp spec fn opened(v: Seq<bool>, rows: usize, cols: usize, iterations: usize) -> Seq<bool>;

/// Relies on `scirs2_ndimage::morphology::binary_opening`: erosion then
/// dilation, each applied `iterations` times with the default 3 × 3 box
/// structuring element. The result keeps the input's shape, and an
/// all-background mask stays all-background (nothing fits an empty mask and
/// nothing dilates from one). On 2-D input with the remaining arguments
/// defaulted its source has no error path, so the result is unwrapped.
#[verifier::external_body]
fn opening_cells(c: &Cells<bool>, iterations: usize) -> (r: Cells<bool>)
    ensures
        bool_dims(r) == bool_dims(*c),
        bool_cells(r).len() == bool_cells(*c).len(),
        bool_cells(r) == opened(bool_cells(*c), bool_dims(*c).0, bool_dims(*c).1, iterations),
        (forall|t: int| 0 <= t < bool_cells(*c).len() ==> !bool_cells(*c)[t])
            ==> (forall|t: int| 0 <= t < bool_cells(r).len() ==> !bool_cells(r)[t]),
{
    Cells {
        inner: scirs2_ndimage::morphology::binary_opening(
            &c.inner,
            None,
            Some(iterations),
            None,
            None,
            None,
            None,
        ).unwrap(),
    }
}

/// Opens a mask: erosion then dilation, `iterations` times each, removing
/// speckle smaller than the structuring element while keeping larger
/// shapes.
pub fn binary_opening_mask(m: &Matrix<bool>, iterations: usize) -> (r: Matrix<bool>)
    requires
        m.wf(),
    ensures
        r.wf(),
        r.rows == m.rows,
        r.cols == m.cols,
        r@ == opened(m@, m.rows, m.cols, iterations),
        (forall|t: int| 0 <= t < m@.len() ==> !m@[t])
            ==> (forall|t: int| 0 <= t < r@.len() ==> !r@[t]),
{
    let cells = opening_cells(&m.cells, iterations);
    Matrix { rows: m.rows, cols: m.cols, cells }
}

} // verus!
