//! The two measures of a grid: the bits that its links count for, and the
//! bits that its cells take.
//!
//! A link between two filled cells counts for two bits, one at each end. A
//! cell takes a bit for each of its links, but only where it has two links
//! or more: a filled cell with a single filled neighbour takes none. So the
//! cells take no more than the links count for, and as much where no filled
//! cell has a single filled neighbour.

use crate::codec::{bits_from, cell_bits, grid_symbol_bits, next_x, next_y};
use crate::connections::neighbor_count;
use crate::layout::{
    cell_links, grid_capacity, grid_class, grid_filled, grid_height, grid_well_formed,
    grid_width, row_links, rows_links, Cell,
};
use vstd::prelude::*;

verus! {

/// One where the cell at column `x` of row `y` and the cell `dx` columns
/// and `dy` rows from it are both filled, zero elsewhere.
pub open spec fn link(grid: Seq<Seq<Cell>>, x: int, y: int, dx: int, dy: int) -> nat {
    if grid_filled(grid, x, y) && grid_filled(grid, x + dx, y + dy) {
        1
    } else {
        0
    }
}

/// The number of filled neighbours of a filled cell; zero for any other cell.
pub open spec fn degree(grid: Seq<Seq<Cell>>, x: int, y: int) -> nat {
    link(grid, x, y, 1, 0) + link(grid, x, y, -1, 0) + link(grid, x, y, 0, 1) + link(
        grid,
        x,
        y,
        0,
        -1,
    )
}

/// Whether no filled cell has exactly one filled neighbour.
pub open spec fn no_loose_ends(grid: Seq<Seq<Cell>>) -> bool {
    forall|x: int, y: int|
        0 <= y < grid_height(grid) && 0 <= x < grid_width(grid) ==> #[trigger] degree(grid, x, y)
            != 1
}

/// The links in one direction of the first `n` cells of row `y`.
pub open spec fn row_count(grid: Seq<Seq<Cell>>, y: int, n: nat, dx: int, dy: int) -> nat
    decreases n,
{
    if n == 0 {
        0
    } else {
        row_count(grid, y, (n - 1) as nat, dx, dy) + link(grid, n - 1, y, dx, dy)
    }
}

/// The links in one direction of the first `m` rows.
pub open spec fn rows_count(grid: Seq<Seq<Cell>>, m: nat, dx: int, dy: int) -> nat
    decreases m,
{
    if m == 0 {
        0
    } else {
        rows_count(grid, (m - 1) as nat, dx, dy) + row_count(grid, m - 1, grid_width(grid), dx, dy)
    }
}

/// The bits that the first `n` cells of row `y` take.
pub open spec fn row_bits(grid: Seq<Seq<Cell>>, y: int, n: nat) -> nat
    decreases n,
{
    if n == 0 {
        0
    } else {
        row_bits(grid, y, (n - 1) as nat) + cell_bits(grid, (n - 1) as nat, y as nat)
    }
}

/// The bits that the cells of the first `m` rows take.
pub open spec fn rows_bits(grid: Seq<Seq<Cell>>, m: nat) -> nat
    decreases m,
{
    if m == 0 {
        0
    } else {
        rows_bits(grid, (m - 1) as nat) + row_bits(grid, m - 1, grid_width(grid))
    }
}

/// A cell takes a bit for each of its links where it has two or more, and
/// none where it has fewer.
pub proof fn lemma_cell_bits_degree(grid: Seq<Seq<Cell>>, x: int, y: int)
    requires
        0 <= x,
        0 <= y,
    ensures
        cell_bits(grid, x as nat, y as nat) == if degree(grid, x, y) >= 2 {
            degree(grid, x, y)
        } else {
            0
        },
        cell_links(grid, x, y) == 2 * link(grid, x, y, 1, 0) + 2 * link(grid, x, y, 0, 1),
{
    if grid_filled(grid, x, y) {
        assert(degree(grid, x, y) == neighbor_count(
            grid_filled(grid, x + 1, y),
            grid_filled(grid, x - 1, y),
            grid_filled(grid, x, y + 1),
            grid_filled(grid, x, y - 1),
        ));
    }
}

/// The links of a row to the left are its links to the right, and its
/// links upwards are the links downwards of the row above.
proof fn lemma_row_counts(grid: Seq<Seq<Cell>>, y: int, n: nat)
    requires
        grid_well_formed(grid),
        0 <= y < grid_height(grid),
        n <= grid_width(grid),
    ensures
        row_count(grid, y, n, -1, 0) + link(grid, n - 1, y, 1, 0) == row_count(grid, y, n, 1, 0),
        row_count(grid, y, n, 0, -1) == if y == 0 {
            0
        } else {
            row_count(grid, y - 1, n, 0, 1)
        },
        y == grid_height(grid) - 1 ==> row_count(grid, y, n, 0, 1) == 0,
        row_links(grid, y, n) == 2 * row_count(grid, y, n, 1, 0) + 2 * row_count(grid, y, n, 0, 1),
        row_bits(grid, y, n) <= row_count(grid, y, n, 1, 0) + row_count(grid, y, n, -1, 0)
            + row_count(grid, y, n, 0, 1) + row_count(grid, y, n, 0, -1),
        no_loose_ends(grid) ==> row_bits(grid, y, n) == row_count(grid, y, n, 1, 0) + row_count(
            grid,
            y,
            n,
            -1,
            0,
        ) + row_count(grid, y, n, 0, 1) + row_count(grid, y, n, 0, -1),
    decreases n,
{
    if n > 0 {
        lemma_row_counts(grid, y, (n - 1) as nat);
        lemma_cell_bits_degree(grid, n - 1, y);
        if no_loose_ends(grid) {
            assert(degree(grid, n - 1, y) != 1);
        }
        assert(link(grid, n - 1, y, -1, 0) == link(grid, n - 2, y, 1, 0));
        if y > 0 {
            assert(link(grid, n - 1, y, 0, -1) == link(grid, n - 1, y - 1, 0, 1));
        }
    } else {
        assert(link(grid, -1, y, 1, 0) == 0);
    }
}

/// The same, over the rows.
proof fn lemma_rows_counts(grid: Seq<Seq<Cell>>, m: nat)
    requires
        grid_well_formed(grid),
        m <= grid_height(grid),
    ensures
        rows_count(grid, m, -1, 0) == rows_count(grid, m, 1, 0),
        rows_count(grid, m, 0, -1) + (if m == 0 {
            0
        } else {
            row_count(grid, m - 1, grid_width(grid), 0, 1)
        }) == rows_count(grid, m, 0, 1),
        rows_links(grid, m) == 2 * rows_count(grid, m, 1, 0) + 2 * rows_count(grid, m, 0, 1),
        rows_bits(grid, m) <= rows_count(grid, m, 1, 0) + rows_count(grid, m, -1, 0) + rows_count(
            grid,
            m,
            0,
            1,
        ) + rows_count(grid, m, 0, -1),
        no_loose_ends(grid) ==> rows_bits(grid, m) == rows_count(grid, m, 1, 0) + rows_count(
            grid,
            m,
            -1,
            0,
        ) + rows_count(grid, m, 0, 1) + rows_count(grid, m, 0, -1),
    decreases m,
{
    if m > 0 {
        let width = grid_width(grid);
        lemma_rows_counts(grid, (m - 1) as nat);
        lemma_row_counts(grid, m - 1, width);
        assert(link(grid, width - 1, m - 1, 1, 0) == 0);
        if m > 1 {
            lemma_row_counts(grid, m - 2, width);
        }
    }
}

/// The bits that the cells before a cell take and those that the cells from
/// it on take are the bits that all cells take.
proof fn lemma_bits_split(grid: Seq<Seq<Cell>>, x: nat, y: nat)
    requires
        grid_well_formed(grid),
        x < grid_width(grid),
        y <= grid_height(grid),
        y == grid_height(grid) ==> x == 0,
    ensures
        rows_bits(grid, y) + row_bits(grid, y as int, x) + bits_from(grid, x, y) == rows_bits(
            grid,
            grid_height(grid),
        ),
    decreases grid_height(grid) - y, grid_width(grid) - x,
{
    if y < grid_height(grid) {
        lemma_bits_split(grid, next_x(grid, x), next_y(grid, x, y));
        assert(row_bits(grid, y as int, x + 1) == row_bits(grid, y as int, x) + cell_bits(
            grid,
            x,
            y,
        ));
        if x + 1 >= grid_width(grid) {
            assert(rows_bits(grid, y + 1) == rows_bits(grid, y) + row_bits(
                grid,
                y as int,
                grid_width(grid),
            ));
        }
    }
}

/// The cells of a grid take no more bits than its links count for, and as
/// many where no filled cell has a single filled neighbour.
pub proof fn lemma_symbol_bits_within_capacity(grid: Seq<Seq<Cell>>)
    requires
        grid_well_formed(grid),
    ensures
        grid_symbol_bits(grid) <= grid_capacity(grid),
        no_loose_ends(grid) ==> grid_symbol_bits(grid) == grid_capacity(grid),
{
    let height = grid_height(grid);
    lemma_bits_split(grid, 0, 0);
    lemma_rows_counts(grid, height);
    lemma_row_counts(grid, height - 1, grid_width(grid));
}

} // verus!
