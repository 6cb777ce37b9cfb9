//! The board as a mathematical value: rows of cells, addressed by column `x` and row `y`.

use vstd::prelude::*;
use crate::maze_types::MazeElement;

verus! {

/// A board: `grid[y][x]` is the cell in column `x` of row `y`.
pub type Grid = Seq<Seq<MazeElement>>;

/// The cell at `(x, y)`, or `None` where the coordinate lies outside the board.
pub open spec fn cell_at(grid: Grid, x: int, y: int) -> Option<MazeElement> {
    if 0 <= y < grid.len() && 0 <= x < grid[y].len() {
        Some(grid[y][x])
    } else {
        None
    }
}

/// The board with the cell at `(x, y)` replaced.
pub open spec fn with_cell(grid: Grid, x: int, y: int, cell: MazeElement) -> Grid {
    grid.update(y, grid[y].update(x, cell))
}

/// Two boards have the same number of rows, and row by row the same number of cells.
pub open spec fn same_shape(a: Grid, b: Grid) -> bool {
    &&& a.len() == b.len()
    &&& forall|y: int| 0 <= y < a.len() ==> (#[trigger] a[y]).len() == b[y].len()
}

/// Every row has as many cells as the first one.
pub open spec fn is_rectangular(grid: Grid) -> bool {
    forall|y: int| 0 <= y < grid.len() ==> (#[trigger] grid[y]).len() == grid[0].len()
}

/// How many cells of a row hold a bomb.
pub open spec fn bombs_in_row(row: Seq<MazeElement>) -> nat
    decreases row.len(),
{
    if row.len() == 0 {
        0
    } else {
        bombs_in_row(row.drop_last()) + if row.last() is Bomb {
            1nat
        } else {
            0nat
        }
    }
}

/// How many cells of the board hold a bomb.
pub open spec fn bomb_count(grid: Grid) -> nat
    decreases grid.len(),
{
    if grid.len() == 0 {
        0
    } else {
        bomb_count(grid.drop_last()) + bombs_in_row(grid.last())
    }
}

/// Replacing one cell of a row changes its number of bombs by what the cell lost and gained.
pub proof fn lemma_bombs_in_updated_row(row: Seq<MazeElement>, x: int, cell: MazeElement)
    requires
        0 <= x < row.len(),
    ensures
        bombs_in_row(row.update(x, cell)) + (if row[x] is Bomb { 1nat } else { 0nat })
            == bombs_in_row(row) + (if cell is Bomb { 1nat } else { 0nat }),
    decreases row.len(),
{
    let updated = row.update(x, cell);
    if x == row.len() - 1 {
        assert(updated.drop_last() =~= row.drop_last());
    } else {
        assert(updated.drop_last() =~= row.drop_last().update(x, cell));
        lemma_bombs_in_updated_row(row.drop_last(), x, cell);
    }
}

/// Replacing one row of a board changes its number of bombs by what the row lost and gained.
pub proof fn lemma_bombs_with_updated_row(grid: Grid, y: int, row: Seq<MazeElement>)
    requires
        0 <= y < grid.len(),
    ensures
        bomb_count(grid.update(y, row)) + bombs_in_row(grid[y]) == bomb_count(grid) + bombs_in_row(
            row,
        ),
    decreases grid.len(),
{
    let updated = grid.update(y, row);
    if y == grid.len() - 1 {
        assert(updated.drop_last() =~= grid.drop_last());
    } else {
        assert(updated.drop_last() =~= grid.drop_last().update(y, row));
        lemma_bombs_with_updated_row(grid.drop_last(), y, row);
    }
}

/// Replacing one cell of a board changes its number of bombs by what the cell lost and gained.
pub proof fn lemma_bombs_with_cell(grid: Grid, x: int, y: int, cell: MazeElement)
    requires
        cell_at(grid, x, y) is Some,
    ensures
        bomb_count(with_cell(grid, x, y, cell)) + (if grid[y][x] is Bomb { 1nat } else { 0nat })
            == bomb_count(grid) + (if cell is Bomb { 1nat } else { 0nat }),
{
    lemma_bombs_in_updated_row(grid[y], x, cell);
    lemma_bombs_with_updated_row(grid, y, grid[y].update(x, cell));
}

/// A board of the same shape as a rectangular board is rectangular.
pub proof fn lemma_same_shape_keeps_rectangular(after: Grid, before: Grid)
    requires
        same_shape(after, before),
        is_rectangular(before),
    ensures
        is_rectangular(after),
{
    assert forall|y: int| 0 <= y < after.len() implies (#[trigger] after[y]).len()
        == after[0].len() by {
        assert(before[y].len() == before[0].len());
    }
}

} // verus!
