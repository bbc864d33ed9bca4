//! The 2-D array of the `array2d` crate, as the board's storage.
use vstd::prelude::*;
use array2d::Array2D;

verus! {

#[verifier::external_type_specification]
#[verifier::external_body]
#[verifier::reject_recursive_types(T)]
pub struct ExArray2D<T>(Array2D<T>);

/// What a grid of bytes holds: the value at each `(row, column)` that lies
/// inside its bounds. The domain is exactly the set of in-bounds positions.
pub uninterp spec fn grid_cells(grid: Array2D<u8>) -> Map<(usize, usize), u8>;

/// The in-bounds positions of a grid with `rows` rows and `cols` columns.
pub open spec fn grid_domain(rows: nat, cols: nat) -> Set<(usize, usize)> {
    Set::new(|p: (usize, usize)| p.0 < rows && p.1 < cols)
}

/// `Array2D::filled_with`: a `rows` x `cols` grid whose every cell holds
/// `value`. Its source multiplies the two dimensions, so the product must fit.
#[verifier::external_body]
pub(crate) fn grid_filled(value: u8, rows: usize, cols: usize) -> (grid: Array2D<u8>)
    requires
        rows * cols <= usize::MAX,
    ensures
        grid_cells(grid).dom() == grid_domain(rows as nat, cols as nat),
        forall|p: (usize, usize)|
            #[trigger] grid_cells(grid).dom().contains(p) ==> grid_cells(grid)[p] == value,
{
    Array2D::filled_with(value, rows, cols)
}

/// `Index<(usize, usize)>` of `Array2D`: the value at `(row, col)`; it panics
/// out of bounds, so the position must be in the grid.
#[verifier::external_body]
pub(crate) fn grid_get(grid: &Array2D<u8>, row: usize, col: usize) -> (v: u8)
    requires
        grid_cells(*grid).dom().contains((row, col)),
    ensures
        v == grid_cells(*grid)[(row, col)],
{
    grid[(row, col)]
}

/// `IndexMut<(usize, usize)>` of `Array2D`, used to store `v` at `(row, col)`;
/// only that cell changes. It panics out of bounds.
#[verifier::external_body]
pub(crate) fn grid_set(grid: &mut Array2D<u8>, row: usize, col: usize, v: u8)
    requires
        grid_cells(*old(grid)).dom().contains((row, col)),
    ensures
        grid_cells(*final(grid)) == grid_cells(*old(grid)).insert((row, col), v),
{
    grid[(row, col)] = v;
}

/// The derived `Clone` of `Array2D`: a grid with the same cells.
#[verifier::external_body]
pub(crate) fn grid_clone(grid: &Array2D<u8>) -> (copy: Array2D<u8>)
    ensures
        grid_cells(copy) == grid_cells(*grid),
{
    grid.clone()
}

} // verus!
