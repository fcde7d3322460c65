//! The grid of cells, held in an `ndarray` two-dimensional array.
use crate::lane::Square;
use vstd::prelude::*;

verus! {

/// An `n` by `n` array of cells, held in an `ndarray::Array2`. Verus sees
/// none of its fields: what it holds is given by `cells_of`, and it is made,
/// read and written only through the functions below.
#[verifier::external_body]
pub struct Grid {
    array: ndarray::Array2<Square>,
}

/// The cells that an array holds, row by row.
pub uninterp spec fn cells_of(g: Grid) -> Seq<Seq<Square>>;

/// Relies on `ndarray::Array::from_elem`: an `n` by `n` array with every cell
/// set to `elem`; it panics when the number of cells overflows `isize`.
#[verifier::external_body]
pub(crate) fn grid_filled(n: usize, elem: Square) -> (r: Grid)
    requires
        n * n <= isize::MAX,
    ensures
        cells_of(r) == Seq::new(n as nat, |i: int| Seq::new(n as nat, |j: int| elem)),
{
    Grid { array: ndarray::Array2::<Square>::from_elem((n, n), elem) }
}

/// Relies on `Index<(usize, usize)>` of `ndarray::Array2`: the cell at row
/// `i`, column `j`; it panics outside the array.
#[verifier::external_body]
pub(crate) fn grid_get(g: &Grid, i: usize, j: usize) -> (r: Square)
    requires
        i < cells_of(*g).len(),
        j < cells_of(*g)[i as int].len(),
    ensures
        r == cells_of(*g)[i as int][j as int],
{
    g.array[(i, j)]
}

/// Relies on `IndexMut<(usize, usize)>` of `ndarray::Array2`: the cell at
/// row `i`, column `j` is overwritten and no other; it panics outside the array.
#[verifier::external_body]
pub(crate) fn grid_set(g: &mut Grid, i: usize, j: usize, v: Square)
    requires
        i < cells_of(*old(g)).len(),
        j < cells_of(*old(g))[i as int].len(),
    ensures
        cells_of(*final(g)) == cells_of(*old(g)).update(
            i as int,
            cells_of(*old(g))[i as int].update(j as int, v),
        ),
{
    g.array[(i, j)] = v;
}

} // verus!
