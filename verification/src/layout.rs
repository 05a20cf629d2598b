//! The grid of cells that a payload is drawn on.

use crate::connections::{spec_classify, Connections};
use crate::text::{is_whitespace, spec_is_whitespace};
use vstd::prelude::*;

verus! {

/// One cell of a layout: it carries payload, or shows a fixed character.
#[derive(Clone, Copy, Debug, PartialEq, Eq, Structural)]
pub enum Cell {
    Filled,
    Blackout(char),
}

/// A 2d layout of cells, row by row.
pub struct BoxLayout(pub Vec<Vec<Cell>>);

impl View for BoxLayout {
    type V = Seq<Seq<Cell>>;

    open spec fn view(&self) -> Seq<Seq<Cell>> {
        Seq::new(self.0.len() as nat, |y: int| self.0[y]@)
    }
}

/// A grid is well formed when it is a rectangle with at least one cell.
pub open spec fn grid_well_formed(grid: Seq<Seq<Cell>>) -> bool {
    &&& grid.len() >= 1
    &&& grid[0].len() >= 1
    &&& forall|y: int| 0 <= y < grid.len() ==> #[trigger] grid[y].len() == grid[0].len()
}

/// The number of columns of a grid: the length of its first row.
pub open spec fn grid_width(grid: Seq<Seq<Cell>>) -> nat {
    grid[0].len()
}

/// The number of rows of a grid.
pub open spec fn grid_height(grid: Seq<Seq<Cell>>) -> nat {
    grid.len()
}

/// Whether the cell at column `x` of row `y` is filled. A place outside the
/// grid is not.
pub open spec fn grid_filled(grid: Seq<Seq<Cell>>, x: int, y: int) -> bool {
    &&& 0 <= y < grid.len()
    &&& 0 <= x < grid[y].len()
    &&& grid[y][x] is Filled
}

/// The character of the blackout cell at column `x` of row `y`, if there is
/// such a cell.
pub open spec fn grid_blackout(grid: Seq<Seq<Cell>>, x: int, y: int) -> Option<char> {
    if 0 <= y < grid.len() && 0 <= x < grid[y].len() {
        match grid[y][x] {
            Cell::Filled => None,
            Cell::Blackout(c) => Some(c),
        }
    } else {
        None
    }
}

/// The connectivity class of the cell at column `x` of row `y`: that of its
/// filled neighbours if the cell is filled, none otherwise.
pub open spec fn grid_class(grid: Seq<Seq<Cell>>, x: int, y: int) -> Option<Connections> {
    if grid_filled(grid, x, y) {
        spec_classify(
            grid_filled(grid, x + 1, y),
            grid_filled(grid, x - 1, y),
            grid_filled(grid, x, y + 1),
            grid_filled(grid, x, y - 1),
        )
    } else {
        None
    }
}

/// The bits that the links from a filled cell to its right and lower
/// neighbours count for: two for each that is filled.
pub open spec fn cell_links(grid: Seq<Seq<Cell>>, x: int, y: int) -> nat {
    if grid_filled(grid, x, y) {
        (if grid_filled(grid, x + 1, y) { 2nat } else { 0 }) + (if grid_filled(grid, x, y + 1) {
            2nat
        } else {
            0
        })
    } else {
        0
    }
}

/// The link bits of the first `n` cells of row `y`.
pub open spec fn row_links(grid: Seq<Seq<Cell>>, y: int, n: nat) -> nat
    decreases n,
{
    if n == 0 {
        0
    } else {
        row_links(grid, y, (n - 1) as nat) + cell_links(grid, n - 1, y)
    }
}

/// The link bits of the first `m` rows.
pub open spec fn rows_links(grid: Seq<Seq<Cell>>, m: nat) -> nat
    decreases m,
{
    if m == 0 {
        0
    } else {
        rows_links(grid, (m - 1) as nat) + row_links(grid, m - 1, grid_width(grid))
    }
}

/// The capacity of a grid in bits: two for every pair of adjacent filled cells.
pub open spec fn grid_capacity(grid: Seq<Seq<Cell>>) -> nat {
    rows_links(grid, grid.len())
}

/// The capacity of a grid of `width` by `height` cells that are all filled.
pub open spec fn spec_estimate_bits(width: nat, height: nat) -> int {
    2 * (width - 1) * height + 2 * (height - 1) * width
}

/// A row of `width` filled cells.
pub open spec fn filled_row(width: nat) -> Seq<Cell> {
    Seq::new(width, |x: int| Cell::Filled)
}

/// The grid of `width` by `height` cells that are all filled.
pub open spec fn filled_grid(width: nat, height: nat) -> Seq<Seq<Cell>> {
    Seq::new(height, |y: int| filled_row(width))
}

/// The cell that a character of a layout picture stands for.
pub open spec fn picture_cell(c: char) -> Cell {
    if c == '#' {
        Cell::Filled
    } else {
        Cell::Blackout(c)
    }
}

/// The rows that a layout picture describes, each character given with
/// whether it is white space: a line feed ends a row, other white space is
/// skipped, `#` is a filled cell and any other character a blackout cell
/// that shows it.
pub open spec fn spec_marked_layout(picture: Seq<(char, bool)>) -> Seq<Seq<Cell>>
    decreases picture.len(),
{
    if picture.len() == 0 {
        seq![Seq::<Cell>::empty()]
    } else {
        let before = spec_marked_layout(picture.drop_last());
        let (c, white) = picture.last();
        if c == '\n' {
            before.push(Seq::<Cell>::empty())
        } else if white {
            before
        } else {
            before.update(before.len() - 1, before.last().push(picture_cell(c)))
        }
    }
}

/// The characters of a text, each with whether it is white space.
pub open spec fn marked(picture: Seq<char>) -> Seq<(char, bool)> {
    Seq::new(picture.len(), |i: int| (picture[i], spec_is_whitespace(picture[i])))
}

/// The rows that a layout picture describes.
pub open spec fn spec_gen_layout(picture: Seq<char>) -> Seq<Seq<Cell>> {
    spec_marked_layout(marked(picture))
}

/// The grid with one more row of filled cells below.
pub open spec fn with_row(grid: Seq<Seq<Cell>>) -> Seq<Seq<Cell>> {
    grid.push(filled_row(grid_width(grid)))
}

/// The grid with one more column of filled cells at the right.
pub open spec fn with_column(grid: Seq<Seq<Cell>>) -> Seq<Seq<Cell>> {
    Seq::new(grid.len(), |y: int| grid[y].push(Cell::Filled))
}

/// The grid with the cell at column `x` of row `y` replaced.
pub open spec fn with_cell(grid: Seq<Seq<Cell>>, x: int, y: int, cell: Cell) -> Seq<Seq<Cell>> {
    grid.update(y, grid[y].update(x, cell))
}

/// The smaller of two numbers.
pub open spec fn min_nat(a: nat, b: nat) -> nat {
    if a <= b {
        a
    } else {
        b
    }
}

impl BoxLayout {
    /// The layout is a rectangle with at least one cell.
    pub open spec fn well_formed(&self) -> bool {
        grid_well_formed(self@)
    }

    /// Whether the layout is a rectangle with at least one cell.
    pub fn is_well_formed(&self) -> (well_formed: bool)
        ensures
            well_formed == self.well_formed(),
    {
        if self.0.len() == 0 || self.0[0].len() == 0 {
            return false;
        }
        let width = self.0[0].len();
        let mut y: usize = 1;
        while y < self.0.len()
            invariant
                1 <= y <= self.0.len(),
                width == self.0[0].len(),
                width >= 1,
                forall|j: int| 0 <= j < y ==> (#[trigger] self@[j]).len() == width,
            decreases self.0.len() - y,
        {
            if self.0[y].len() != width {
                assert(self@[y as int].len() != self@[0].len());
                return false;
            }
            y += 1;
        }
        true
    }

    /// A layout of `width` by `height` filled cells.
    pub fn new(width: usize, height: usize) -> (layout: Self)
        ensures
            layout@ == filled_grid(width as nat, height as nat),
            width >= 1 && height >= 1 ==> layout.well_formed(),
    {
        let mut rows: Vec<Vec<Cell>> = Vec::new();
        let mut y: usize = 0;
        while y < height
            invariant
                y <= height,
                rows.len() == y,
                forall|j: int| 0 <= j < y ==> (#[trigger] rows[j])@ == filled_row(width as nat),
            decreases height - y,
        {
            let mut row: Vec<Cell> = Vec::new();
            let mut x: usize = 0;
            while x < width
                invariant
                    x <= width,
                    row.len() == x,
                    forall|i: int| 0 <= i < x ==> #[trigger] row[i] == Cell::Filled,
                decreases width - x,
            {
                row.push(Cell::Filled);
                x += 1;
            }
            assert(row@ =~= filled_row(width as nat));
            rows.push(row);
            y += 1;
        }
        let layout = BoxLayout(rows);
        assert(layout@ =~= filled_grid(width as nat, height as nat));
        layout
    }

    /// The number of columns.
    pub fn width(&self) -> (width: usize)
        requires
            self@.len() > 0,
        ensures
            width == grid_width(self@),
    {
        self.0[0].len()
    }

    /// The number of rows.
    pub fn height(&self) -> (height: usize)
        ensures
            height == grid_height(self@),
    {
        self.0.len()
    }

    /// Whether the cell at column `x` of row `y` is filled.
    pub fn is_filled(&self, x: usize, y: usize) -> (filled: bool)
        requires
            y < self@.len(),
            x < self@[y as int].len(),
        ensures
            filled == grid_filled(self@, x as int, y as int),
    {
        match self.0[y][x] {
            Cell::Filled => true,
            Cell::Blackout(_) => false,
        }
    }

    /// The character of the blackout cell at column `x` of row `y`. None for
    /// a filled cell and for a place outside the layout.
    pub fn get_blackout_at(&self, x: usize, y: usize) -> (blackout: Option<char>)
        ensures
            blackout == grid_blackout(self@, x as int, y as int),
    {
        if y < self.0.len() && x < self.0[y].len() {
            match self.0[y][x] {
                Cell::Filled => None,
                Cell::Blackout(c) => Some(c),
            }
        } else {
            None
        }
    }

    /// The connectivity class of the cell at column `x` of row `y`.
    pub fn get_connections_at(&self, x: usize, y: usize) -> (class: Option<Connections>)
        requires
            self.well_formed(),
            x < grid_width(self@),
            y < grid_height(self@),
        ensures
            class == grid_class(self@, x as int, y as int),
    {
        if !self.is_filled(x, y) {
            return None;
        }
        let right = x < self.width() - 1 && self.is_filled(x + 1, y);
        let left = x > 0 && self.is_filled(x - 1, y);
        let down = y < self.height() - 1 && self.is_filled(x, y + 1);
        let up = y > 0 && self.is_filled(x, y - 1);
        Connections::classify(right, left, down, up)
    }

    /// Replaces the cell at column `x` of row `y`.
    pub(crate) fn set_cell(&mut self, x: usize, y: usize, cell: Cell)
        requires
            y < old(self)@.len(),
            x < old(self)@[y as int].len(),
        ensures
            final(self)@ == with_cell(old(self)@, x as int, y as int, cell),
    {
        self.0[y].set(x, cell);
        assert(self@ =~= with_cell(old(self)@, x as int, y as int, cell));
    }

    /// Adds a row of filled cells below.
    pub(crate) fn push_row(&mut self)
        requires
            old(self).well_formed(),
        ensures
            final(self)@ == with_row(old(self)@),
            final(self).well_formed(),
    {
        let width = self.width();
        let mut row: Vec<Cell> = Vec::new();
        let mut x: usize = 0;
        while x < width
            invariant
                x <= width,
                row.len() == x,
                forall|i: int| 0 <= i < x ==> #[trigger] row[i] == Cell::Filled,
            decreases width - x,
        {
            row.push(Cell::Filled);
            x += 1;
        }
        assert(row@ =~= filled_row(width as nat));
        self.0.push(row);
        assert(self@ =~= with_row(old(self)@));
    }

    /// Adds a column of filled cells at the right.
    pub(crate) fn push_column(&mut self)
        requires
            old(self).well_formed(),
        ensures
            final(self)@ == with_column(old(self)@),
            final(self).well_formed(),
    {
        let height = self.height();
        let mut y: usize = 0;
        while y < height
            invariant
                y <= height,
                height == old(self)@.len(),
                self.0.len() == height,
                forall|j: int| 0 <= j < y ==> (#[trigger] self.0[j])@ == old(self)@[j].push(Cell::Filled),
                forall|j: int| y <= j < height ==> (#[trigger] self.0[j])@ == old(self)@[j],
            decreases height - y,
        {
            self.0[y].push(Cell::Filled);
            y += 1;
        }
        assert(self@ =~= with_column(old(self)@));
    }

    /// The capacity in bits, or `limit` where the capacity is larger.
    pub(crate) fn capacity_up_to(&self, limit: usize) -> (bits: usize)
        requires
            self.well_formed(),
        ensures
            bits == min_nat(grid_capacity(self@), limit as nat),
    {
        let height = self.height();
        let width = self.width();
        let mut bits: usize = 0;
        let mut y: usize = 0;
        while y < height
            invariant
                self.well_formed(),
                height == grid_height(self@),
                width == grid_width(self@),
                y <= height,
                bits == min_nat(rows_links(self@, y as nat), limit as nat),
            decreases height - y,
        {
            let mut x: usize = 0;
            while x < width
                invariant
                    self.well_formed(),
                    height == grid_height(self@),
                    width == grid_width(self@),
                    y < height,
                    x <= width,
                    bits == min_nat(
                        rows_links(self@, y as nat) + row_links(self@, y as int, x as nat),
                        limit as nat,
                    ),
                decreases width - x,
            {
                if self.is_filled(x, y) {
                    let mut links: usize = 0;
                    if x < width - 1 && self.is_filled(x + 1, y) {
                        links += 2;
                    }
                    if y < height - 1 && self.is_filled(x, y + 1) {
                        links += 2;
                    }
                    if limit - bits <= links {
                        bits = limit;
                    } else {
                        bits += links;
                    }
                }
                x += 1;
            }
            y += 1;
        }
        bits
    }

    /// The capacity of the layout in bits.
    pub fn calculate_bits(&self) -> (bits: usize)
        requires
            self.well_formed(),
            grid_capacity(self@) <= usize::MAX,
        ensures
            bits == grid_capacity(self@),
    {
        self.capacity_up_to(usize::MAX)
    }

    /// The capacity of a layout of `width` by `height` filled cells.
    pub fn estimate_bits(width: usize, height: usize) -> (bits: usize)
        requires
            width >= 1,
            height >= 1,
            spec_estimate_bits(width as nat, height as nat) <= usize::MAX,
        ensures
            bits == spec_estimate_bits(width as nat, height as nat),
    {
        proof {
            lemma_estimate_parts(width as nat, height as nat);
        }
        let length_wise = (width - 1) * 2 * height;
        let height_wise = (height - 1) * 2 * width;
        length_wise + height_wise
    }
}

/// The two parts of the closed form, and their bounds.
proof fn lemma_estimate_parts(width: nat, height: nat)
    requires
        width >= 1,
        height >= 1,
    ensures
        0 <= (width - 1) * 2 <= (width - 1) * 2 * height <= spec_estimate_bits(width, height),
        0 <= (height - 1) * 2 <= (height - 1) * 2 * width <= spec_estimate_bits(width, height),
        (width - 1) * 2 * height + (height - 1) * 2 * width == spec_estimate_bits(width, height),
{
    assert((width - 1) * 2 * height == 2 * (width - 1) * height) by (nonlinear_arith);
    assert((height - 1) * 2 * width == 2 * (height - 1) * width) by (nonlinear_arith);
    assert((width - 1) * 2 <= (width - 1) * 2 * height) by (nonlinear_arith)
        requires
            width >= 1,
            height >= 1,
    ;
    assert((height - 1) * 2 <= (height - 1) * 2 * width) by (nonlinear_arith)
        requires
            width >= 1,
            height >= 1,
    ;
    assert(0 <= (height - 1) * 2 * width) by (nonlinear_arith)
        requires
            width >= 1,
            height >= 1,
    ;
    assert(0 <= (width - 1) * 2 * height) by (nonlinear_arith)
        requires
            width >= 1,
            height >= 1,
    ;
}

/// Reads a layout from a picture of it, one line for each row, where
/// each character comes with whether it is white space.
pub fn marked_layout(picture: &Vec<(char, bool)>) -> (layout: BoxLayout)
    ensures
        layout@ == spec_marked_layout(picture@),
{
    let mut rows: Vec<Vec<Cell>> = Vec::new();
    let mut row: Vec<Cell> = Vec::new();
    let mut i: usize = 0;
    while i < picture.len()
        invariant
            i <= picture@.len(),
            Seq::new(rows.len() as nat, |y: int| rows[y]@).push(row@) == spec_marked_layout(
                picture@.take(i as int),
            ),
        decreases picture@.len() - i,
    {
        proof {
            assert(picture@.take(i + 1).drop_last() == picture@.take(i as int));
        }
        let (c, white) = picture[i];
        if c == '\n' {
            rows.push(row);
            row = Vec::new();
        } else if !white {
            row.push(if c == '#' { Cell::Filled } else { Cell::Blackout(c) });
        }
        i += 1;
    }
    proof {
        assert(picture@.take(i as int) == picture@);
    }
    rows.push(row);
    let layout = BoxLayout(rows);
    assert(layout@ =~= spec_marked_layout(picture@));
    layout
}

/// Reads a layout from a picture of it, one line for each row.
pub fn gen_layout(value: &str) -> (layout: BoxLayout)
    ensures
        layout@ == spec_gen_layout(value@),
{
    let mut picture: Vec<(char, bool)> = Vec::new();
    for c in it: value.chars()
        invariant
            it.seq() == value@,
            picture@ == marked(value@).take(it.index()),
    {
        picture.push((c, is_whitespace(c)));
        assert(picture@ =~= marked(value@).take(it.index() + 1));
    }
    assert(picture@ =~= marked(value@));
    marked_layout(&picture)
}

/// The link bits of the first `n` cells of a row of a grid of filled cells.
proof fn lemma_filled_row_links(width: nat, height: nat, y: int, n: nat)
    requires
        width >= 1,
        0 <= y < height,
        n <= width,
    ensures
        row_links(filled_grid(width, height), y, n) == 2 * min_nat(n, (width - 1) as nat) + (if y
            + 1 < height {
            2 * n
        } else {
            0
        }),
    decreases n,
{
    if n > 0 {
        lemma_filled_row_links(width, height, y, (n - 1) as nat);
    }
}

/// The link bits of the first `m` rows of a grid of filled cells.
proof fn lemma_filled_rows_links(width: nat, height: nat, m: nat)
    requires
        width >= 1,
        m <= height,
    ensures
        rows_links(filled_grid(width, height), m) == m * (2 * (width - 1)) + min_nat(
            m,
            (height - 1) as nat,
        ) * (2 * width),
    decreases m,
{
    if m > 0 {
        lemma_filled_rows_links(width, height, (m - 1) as nat);
        lemma_filled_row_links(width, height, m - 1, width);
        let grid = filled_grid(width, height);
        assert(grid_width(grid) == width);
        assert(rows_links(grid, m) == rows_links(grid, (m - 1) as nat) + row_links(
            grid,
            m - 1,
            width,
        ));
        assert(m * (2 * (width - 1)) == (m - 1) * (2 * (width - 1)) + 2 * (width - 1))
            by (nonlinear_arith);
        let a = min_nat(m, (height - 1) as nat);
        let b = min_nat((m - 1) as nat, (height - 1) as nat);
        if m < height {
            assert(a * (2 * width) == b * (2 * width) + 2 * width) by (nonlinear_arith)
                requires
                    a == b + 1,
            ;
        } else {
            assert(a == b);
        }
    } else {
        let a = min_nat(m, (height - 1) as nat);
        assert(m * (2 * (width - 1)) + a * (2 * width) == 0) by (nonlinear_arith)
            requires
                m == 0,
                a == 0,
        ;
    }
}

/// The closed form gives the capacity of a grid of filled cells.
pub proof fn lemma_estimate_is_capacity(width: nat, height: nat)
    requires
        width >= 1,
        height >= 1,
    ensures
        grid_capacity(filled_grid(width, height)) == spec_estimate_bits(width, height),
{
    lemma_filled_rows_links(width, height, height);
    assert(height * (2 * (width - 1)) == 2 * (width - 1) * height) by (nonlinear_arith);
    assert((height - 1) * (2 * width) == 2 * (height - 1) * width) by (nonlinear_arith);
}

/// A row has at most the link bits of a row of filled cells.
proof fn lemma_row_links_bounded(grid: Seq<Seq<Cell>>, y: int, n: nat)
    requires
        grid_well_formed(grid),
        0 <= y < grid.len(),
        n <= grid_width(grid),
    ensures
        row_links(grid, y, n) <= row_links(filled_grid(grid_width(grid), grid_height(grid)), y, n),
    decreases n,
{
    if n > 0 {
        lemma_row_links_bounded(grid, y, (n - 1) as nat);
    }
}

/// The rows have at most the link bits of rows of filled cells.
proof fn lemma_rows_links_bounded(grid: Seq<Seq<Cell>>, m: nat)
    requires
        grid_well_formed(grid),
        m <= grid.len(),
    ensures
        rows_links(grid, m) <= rows_links(filled_grid(grid_width(grid), grid_height(grid)), m),
    decreases m,
{
    if m > 0 {
        lemma_rows_links_bounded(grid, (m - 1) as nat);
        lemma_row_links_bounded(grid, m - 1, grid_width(grid));
    }
}

/// No grid holds more than the grid of filled cells of its size.
pub proof fn lemma_capacity_bounded(grid: Seq<Seq<Cell>>)
    requires
        grid_well_formed(grid),
    ensures
        grid_capacity(grid) <= spec_estimate_bits(grid_width(grid), grid_height(grid)),
{
    lemma_rows_links_bounded(grid, grid.len());
    lemma_estimate_is_capacity(grid_width(grid), grid_height(grid));
}

/// Replacing a cell changes that cell and no other.
pub proof fn lemma_with_cell(grid: Seq<Seq<Cell>>, x: int, y: int, cell: Cell)
    requires
        0 <= y < grid.len(),
        0 <= x < grid[y].len(),
    ensures
        with_cell(grid, x, y, cell).len() == grid.len(),
        forall|j: int|
            0 <= j < grid.len() ==> (#[trigger] with_cell(grid, x, y, cell)[j]).len()
                == grid[j].len(),
        forall|i: int, j: int|
            0 <= j < grid.len() && 0 <= i < grid[j].len() ==> #[trigger] with_cell(
                grid,
                x,
                y,
                cell,
            )[j][i] == if i == x && j == y {
                cell
            } else {
                grid[j][i]
            },
{
}

/// Whether `big` holds `small` in its upper left corner, cell for cell.
pub open spec fn extends(small: Seq<Seq<Cell>>, big: Seq<Seq<Cell>>) -> bool {
    &&& grid_well_formed(small)
    &&& grid_well_formed(big)
    &&& grid_width(small) <= grid_width(big)
    &&& grid_height(small) <= grid_height(big)
    &&& forall|x: int, y: int|
        0 <= y < grid_height(small) && 0 <= x < grid_width(small) ==> #[trigger] big[y][x]
            == small[y][x]
}

/// The link bits of a row grow with the number of cells counted.
proof fn lemma_row_links_monotone(grid: Seq<Seq<Cell>>, y: int, n: nat, m: nat)
    requires
        n <= m,
    ensures
        row_links(grid, y, n) <= row_links(grid, y, m),
    decreases m,
{
    if n < m {
        lemma_row_links_monotone(grid, y, n, (m - 1) as nat);
    }
}

/// The link bits of the rows grow with the number of rows counted.
proof fn lemma_rows_links_monotone(grid: Seq<Seq<Cell>>, n: nat, m: nat)
    requires
        n <= m,
    ensures
        rows_links(grid, n) <= rows_links(grid, m),
    decreases m,
{
    if n < m {
        lemma_rows_links_monotone(grid, n, (m - 1) as nat);
    }
}

/// A cell of the smaller grid has at least its links in the larger one.
proof fn lemma_cell_links_extend(small: Seq<Seq<Cell>>, big: Seq<Seq<Cell>>, x: int, y: int)
    requires
        extends(small, big),
        0 <= y < grid_height(small),
        0 <= x < grid_width(small),
    ensures
        cell_links(small, x, y) <= cell_links(big, x, y),
{
    assert(big[y][x] == small[y][x]);
    if x + 1 < grid_width(small) {
        assert(big[y][x + 1] == small[y][x + 1]);
    }
    if y + 1 < grid_height(small) {
        assert(big[y + 1][x] == small[y + 1][x]);
    }
}

/// The link bits of a row of the smaller grid, with the gain where the
/// row holds it, are within those of the larger.
proof fn lemma_row_links_extend(
    small: Seq<Seq<Cell>>,
    big: Seq<Seq<Cell>>,
    y: int,
    n: nat,
    gain_x: int,
    gain_y: int,
)
    requires
        extends(small, big),
        0 <= y < grid_height(small),
        n <= grid_width(small),
        0 <= gain_x < grid_width(small),
        0 <= gain_y < grid_height(small),
        cell_links(small, gain_x, gain_y) + 2 <= cell_links(big, gain_x, gain_y),
    ensures
        row_links(small, y, n) + (if y == gain_y && gain_x < n {
            2nat
        } else {
            0
        }) <= row_links(big, y, n),
    decreases n,
{
    if n > 0 {
        lemma_row_links_extend(small, big, y, (n - 1) as nat, gain_x, gain_y);
        lemma_cell_links_extend(small, big, n - 1, y);
    }
}

/// The same, over the rows.
proof fn lemma_rows_links_extend(
    small: Seq<Seq<Cell>>,
    big: Seq<Seq<Cell>>,
    m: nat,
    gain_x: int,
    gain_y: int,
)
    requires
        extends(small, big),
        m <= grid_height(small),
        0 <= gain_x < grid_width(small),
        0 <= gain_y < grid_height(small),
        cell_links(small, gain_x, gain_y) + 2 <= cell_links(big, gain_x, gain_y),
    ensures
        rows_links(small, m) + (if gain_y < m {
            2nat
        } else {
            0
        }) <= rows_links(big, m),
    decreases m,
{
    if m > 0 {
        lemma_rows_links_extend(small, big, (m - 1) as nat, gain_x, gain_y);
        lemma_row_links_extend(small, big, m - 1, grid_width(small), gain_x, gain_y);
        lemma_row_links_monotone(big, m - 1, grid_width(small), grid_width(big));
    }
}

/// A grid that holds another and adds a link to one of its cells has more
/// capacity.
pub proof fn lemma_capacity_extends(
    small: Seq<Seq<Cell>>,
    big: Seq<Seq<Cell>>,
    gain_x: int,
    gain_y: int,
)
    requires
        extends(small, big),
        0 <= gain_x < grid_width(small),
        0 <= gain_y < grid_height(small),
        cell_links(small, gain_x, gain_y) + 2 <= cell_links(big, gain_x, gain_y),
    ensures
        grid_capacity(small) < grid_capacity(big),
{
    lemma_rows_links_extend(small, big, grid_height(small), gain_x, gain_y);
    lemma_rows_links_monotone(big, grid_height(small), grid_height(big));
}

} // verus!
