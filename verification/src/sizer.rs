//! Sizing of a layout for a payload under bounds on its width and height.

use crate::layout::{
    cell_links, extends, grid_filled, lemma_capacity_extends, lemma_with_cell, filled_row, grid_capacity, grid_height, grid_well_formed, grid_width, with_column, with_row,
    BoxLayout, Cell,
};
use vstd::prelude::*;
use vstd::utf8::encode_utf8;

verus! {

/// A target shape of a layout: `rows` to `columns` is its height to its width.
#[derive(Clone, Copy, Debug)]
pub struct AspectRatio {
    pub rows: usize,
    pub columns: usize,
}

/// The bounds of a layout, and the text to show in it. A blackout is the
/// column and the row where its text starts, and the text.
#[derive(Debug)]
pub struct BoxLayoutConfig {
    pub min_width: Option<usize>,
    pub max_width: Option<usize>,
    pub min_height: Option<usize>,
    pub max_height: Option<usize>,
    pub aspect_ratio: Option<AspectRatio>,
    pub blackouts: Vec<(usize, usize, String)>,
}

impl Default for BoxLayoutConfig {
    fn default() -> (config: Self)
        ensures
            config.min_width is None,
            config.max_width is None,
            config.min_height is None,
            config.max_height is None,
            config.aspect_ratio is None,
            config.blackouts@.len() == 0,
    {
        BoxLayoutConfig {
            min_width: None,
            max_width: None,
            min_height: None,
            max_height: None,
            aspect_ratio: None,
            blackouts: Vec::new(),
        }
    }
}

/// The larger of two numbers.
pub open spec fn max_nat(a: nat, b: nat) -> nat {
    if a >= b {
        a
    } else {
        b
    }
}

/// The blackouts of a configuration; none where there is no configuration.
pub open spec fn config_blackouts(config: Option<BoxLayoutConfig>) -> Seq<(usize, usize, String)> {
    match config {
        Some(c) => c.blackouts@,
        None => Seq::empty(),
    }
}

/// The width that a blackout asks for: its text, counted in bytes of UTF-8,
/// and one column to the right of it.
pub open spec fn blackout_width(blackout: (usize, usize, String)) -> nat {
    blackout.0 as nat + encode_utf8(blackout.2@).len() + 1
}

/// The height that a blackout asks for: its row.
pub open spec fn blackout_height(blackout: (usize, usize, String)) -> nat {
    blackout.1 as nat + 1
}

/// The larger of `floor` and the widths that the first `n` blackouts ask for.
pub open spec fn width_floor(blackouts: Seq<(usize, usize, String)>, n: nat, floor: nat) -> nat
    decreases n,
{
    if n == 0 {
        floor
    } else {
        max_nat(width_floor(blackouts, (n - 1) as nat, floor), blackout_width(blackouts[n - 1]))
    }
}

/// The larger of `floor` and the heights that the first `n` blackouts ask for.
pub open spec fn height_floor(blackouts: Seq<(usize, usize, String)>, n: nat, floor: nat) -> nat
    decreases n,
{
    if n == 0 {
        floor
    } else {
        max_nat(height_floor(blackouts, (n - 1) as nat, floor), blackout_height(blackouts[n - 1]))
    }
}

/// The width that sizing starts from.
pub open spec fn spec_min_width(config: Option<BoxLayoutConfig>) -> nat {
    let floor = match config {
        Some(c) => match c.min_width {
            Some(w) => w as nat,
            None => 2,
        },
        None => 2,
    };
    let blackouts = config_blackouts(config);
    width_floor(blackouts, blackouts.len(), floor)
}

/// The height that sizing starts from.
pub open spec fn spec_min_height(config: Option<BoxLayoutConfig>) -> nat {
    let floor = match config {
        Some(c) => match c.min_height {
            Some(h) => h as nat,
            None => 2,
        },
        None => 2,
    };
    let blackouts = config_blackouts(config);
    height_floor(blackouts, blackouts.len(), floor)
}

/// The largest width allowed: the number of payload bits where none is given.
pub open spec fn spec_max_width(config: Option<BoxLayoutConfig>, bit_length: nat) -> nat {
    match config {
        Some(c) => match c.max_width {
            Some(w) => w as nat,
            None => bit_length,
        },
        None => bit_length,
    }
}

/// The largest height allowed: the number of payload bits where none is given.
pub open spec fn spec_max_height(config: Option<BoxLayoutConfig>, bit_length: nat) -> nat {
    match config {
        Some(c) => match c.max_height {
            Some(h) => h as nat,
            None => bit_length,
        },
        None => bit_length,
    }
}

/// The target shape: a square where none is given.
pub open spec fn spec_aspect_ratio(config: Option<BoxLayoutConfig>) -> AspectRatio {
    match config {
        Some(c) => match c.aspect_ratio {
            Some(ratio) => ratio,
            None => AspectRatio { rows: 1, columns: 1 },
        },
        None => AspectRatio { rows: 1, columns: 1 },
    }
}

/// Whether the text of a blackout lies over the cell at column `x` of row `y`.
pub open spec fn covers(blackout: (usize, usize, String), x: int, y: int) -> bool {
    y == blackout.1 && blackout.0 <= x < blackout.0 + blackout.2@.len()
}

/// The character that the first `n` blackouts put on the cell at column `x`
/// of row `y`: that of the last of them that covers it.
pub open spec fn blackout_char(
    blackouts: Seq<(usize, usize, String)>,
    n: nat,
    x: int,
    y: int,
) -> Option<char>
    decreases n,
{
    if n == 0 {
        None
    } else if covers(blackouts[n - 1], x, y) {
        Some(blackouts[n - 1].2@[x - blackouts[n - 1].0])
    } else {
        blackout_char(blackouts, (n - 1) as nat, x, y)
    }
}

/// The cell at column `x` of row `y` once the first `n` blackouts, and the
/// first `k` characters of the next, lie over filled cells.
pub open spec fn overlaid_cell(
    blackouts: Seq<(usize, usize, String)>,
    n: nat,
    k: nat,
    x: int,
    y: int,
) -> Cell {
    if n < blackouts.len() && y == blackouts[n as int].1 && blackouts[n as int].0 <= x
        < blackouts[n as int].0 + k {
        Cell::Blackout(blackouts[n as int].2@[x - blackouts[n as int].0])
    } else {
        match blackout_char(blackouts, n, x, y) {
            Some(c) => Cell::Blackout(c),
            None => Cell::Filled,
        }
    }
}

/// The grid of `width` by `height` cells once the first `n` blackouts, and
/// the first `k` characters of the next, lie over filled cells.
pub open spec fn overlaid_grid(
    blackouts: Seq<(usize, usize, String)>,
    n: nat,
    k: nat,
    width: nat,
    height: nat,
) -> Seq<Seq<Cell>> {
    Seq::new(height, |y: int| Seq::new(width, |x: int| overlaid_cell(blackouts, n, k, x, y)))
}

/// The grid that sizing starts from: the smallest allowed, filled, with the
/// text of every blackout laid over it.
pub open spec fn initial_grid(config: Option<BoxLayoutConfig>) -> Seq<Seq<Cell>> {
    let blackouts = config_blackouts(config);
    overlaid_grid(blackouts, blackouts.len(), 0, spec_min_width(config), spec_min_height(config))
}

/// Whether a grid of `width` by `height` grows by a row rather than by a
/// column: it does while it is flatter than the target shape and may still
/// grow in height, and whenever it may not grow in width.
pub open spec fn grows_by_row(
    width: nat,
    height: nat,
    ratio: AspectRatio,
    max_width: nat,
    max_height: nat,
) -> bool {
    (height * ratio.columns < ratio.rows * width && height < max_height) || width >= max_width
}

/// The grid after one step of growth.
pub open spec fn grow_once(
    grid: Seq<Seq<Cell>>,
    ratio: AspectRatio,
    max_width: nat,
    max_height: nat,
) -> Seq<Seq<Cell>> {
    if grows_by_row(grid_width(grid), grid_height(grid), ratio, max_width, max_height) {
        with_row(grid)
    } else {
        with_column(grid)
    }
}

/// Whether a grid still grows: it holds too little, and is not at both of
/// its bounds.
pub open spec fn still_grows(
    grid: Seq<Seq<Cell>>,
    bit_length: nat,
    max_width: nat,
    max_height: nat,
) -> bool {
    grid_capacity(grid) < bit_length && !(grid_height(grid) >= max_height && grid_width(grid)
        >= max_width)
}

/// How far a size is below its bound.
pub open spec fn slack(size: nat, max: nat) -> nat {
    if size < max {
        (max - size) as nat
    } else {
        0
    }
}

/// The grid at which growth stops.
pub open spec fn grow(
    grid: Seq<Seq<Cell>>,
    bit_length: nat,
    ratio: AspectRatio,
    max_width: nat,
    max_height: nat,
) -> Seq<Seq<Cell>>
    decreases slack(grid_width(grid), max_width) + slack(grid_height(grid), max_height),
{
    if grid_well_formed(grid) && still_grows(grid, bit_length, max_width, max_height) {
        grow(grow_once(grid, ratio, max_width, max_height), bit_length, ratio, max_width, max_height)
    } else {
        grid
    }
}

/// The layout for a payload of `bit_length` bits: the grid at which growth
/// stops, if it holds the payload within the bounds.
pub open spec fn spec_layout(bit_length: nat, config: Option<BoxLayoutConfig>) -> Option<
    Seq<Seq<Cell>>,
> {
    let max_width = spec_max_width(config, bit_length);
    let max_height = spec_max_height(config, bit_length);
    let grid = grow(
        initial_grid(config),
        bit_length,
        spec_aspect_ratio(config),
        max_width,
        max_height,
    );
    if grid_capacity(grid) >= bit_length && grid_height(grid) <= max_height && grid_width(grid)
        <= max_width {
        Some(grid)
    } else {
        None
    }
}

/// What sizing asks of a configuration: lower bounds, where given, of at
/// least one cell, and blackouts whose extent fits the machine's integers.
pub open spec fn config_valid(config: Option<BoxLayoutConfig>) -> bool {
    match config {
        Some(c) => {
            &&& c.min_width matches Some(w) ==> w >= 1
            &&& c.min_height matches Some(h) ==> h >= 1
            &&& forall|j: int|
                0 <= j < c.blackouts@.len() ==> blackout_width(#[trigger] c.blackouts@[j])
                    <= usize::MAX && blackout_height(c.blackouts@[j]) <= usize::MAX
        },
        None => true,
    }
}

/// A text has at least as many bytes of UTF-8 as characters.
pub proof fn lemma_chars_within_bytes(text: Seq<char>)
    ensures
        text.len() <= encode_utf8(text).len(),
    decreases text.len(),
{
    if text.len() > 0 {
        lemma_chars_within_bytes(text.drop_first());
    }
}

/// The floors are at least what they started from and what each blackout
/// asks for.
pub proof fn lemma_floors(blackouts: Seq<(usize, usize, String)>, n: nat, floor: nat)
    requires
        n <= blackouts.len(),
    ensures
        width_floor(blackouts, n, floor) >= floor,
        height_floor(blackouts, n, floor) >= floor,
        forall|j: int|
            0 <= j < n ==> width_floor(blackouts, n, floor) >= blackout_width(
                #[trigger] blackouts[j],
            ) && height_floor(blackouts, n, floor) >= blackout_height(blackouts[j]),
    decreases n,
{
    if n > 0 {
        lemma_floors(blackouts, (n - 1) as nat, floor);
    }
}

/// Raises a width and a height to what the blackouts ask for.
fn blackout_floors(blackouts: &Vec<(usize, usize, String)>, width: usize, height: usize) -> (floors:
    (usize, usize))
    requires
        forall|j: int|
            0 <= j < blackouts@.len() ==> blackout_width(#[trigger] blackouts@[j]) <= usize::MAX
                && blackout_height(blackouts@[j]) <= usize::MAX,
    ensures
        floors.0 == width_floor(blackouts@, blackouts@.len(), width as nat),
        floors.1 == height_floor(blackouts@, blackouts@.len(), height as nat),
{
    let mut min_width = width;
    let mut min_height = height;
    let mut j: usize = 0;
    while j < blackouts.len()
        invariant
            j <= blackouts@.len(),
            min_width == width_floor(blackouts@, j as nat, width as nat),
            min_height == height_floor(blackouts@, j as nat, height as nat),
            forall|j: int|
                0 <= j < blackouts@.len() ==> blackout_width(#[trigger] blackouts@[j])
                    <= usize::MAX && blackout_height(blackouts@[j]) <= usize::MAX,
        decreases blackouts@.len() - j,
    {
        let left = blackouts[j].0;
        let top = blackouts[j].1;
        let bytes = blackouts[j].2.as_str().len();
        assert(left + bytes + 1 == blackout_width(blackouts@[j as int]));
        // The text is boxed in, so it needs one column more than its length.
        let needed_width = left + bytes + 1;
        if needed_width > min_width {
            min_width = needed_width;
        }
        let needed_height = top + 1;
        if needed_height > min_height {
            min_height = needed_height;
        }
        j += 1;
    }
    (min_width, min_height)
}

/// Putting the next character of a blackout on its cell gives the next
/// overlaid grid.
proof fn lemma_overlay_step(
    blackouts: Seq<(usize, usize, String)>,
    n: nat,
    k: nat,
    width: nat,
    height: nat,
    before: Seq<Seq<Cell>>,
    after: Seq<Seq<Cell>>,
)
    requires
        n < blackouts.len(),
        k < blackouts[n as int].2@.len(),
        blackouts[n as int].0 + blackouts[n as int].2@.len() < width,
        blackouts[n as int].1 < height,
        before == overlaid_grid(blackouts, n, k, width, height),
        after.len() == height,
        forall|y: int| 0 <= y < height ==> (#[trigger] after[y]).len() == width,
        forall|x: int, y: int|
            0 <= y < height && 0 <= x < width ==> #[trigger] after[y][x] == if y
                == blackouts[n as int].1 && x == blackouts[n as int].0 + k {
                Cell::Blackout(blackouts[n as int].2@[k as int])
            } else {
                before[y][x]
            },
    ensures
        after == overlaid_grid(blackouts, n, k + 1, width, height),
{
    let target = overlaid_grid(blackouts, n, k + 1, width, height);
    assert forall|y: int| 0 <= y < height implies after[y] == target[y] by {
        assert forall|x: int| 0 <= x < width implies after[y][x] == target[y][x] by {
            assert(before[y][x] == overlaid_cell(blackouts, n, k, x, y));
            assert(target[y][x] == overlaid_cell(blackouts, n, k + 1, x, y));
        }
        assert(after[y] =~= target[y]);
    }
    assert(after =~= target);
}

/// Lays the text of every blackout over a layout of filled cells.
fn overlay(layout: &mut BoxLayout, blackouts: &Vec<(usize, usize, String)>)
    requires
        old(layout).well_formed(),
        old(layout)@ == overlaid_grid(
            blackouts@,
            0,
            0,
            grid_width(old(layout)@),
            grid_height(old(layout)@),
        ),
        forall|j: int|
            0 <= j < blackouts@.len() ==> grid_width(old(layout)@) >= blackout_width(
                #[trigger] blackouts@[j],
            ) && grid_height(old(layout)@) >= blackout_height(blackouts@[j]),
    ensures
        final(layout)@ == overlaid_grid(
            blackouts@,
            blackouts@.len(),
            0,
            grid_width(old(layout)@),
            grid_height(old(layout)@),
        ),
{
    let ghost width = grid_width(layout@);
    let ghost height = grid_height(layout@);
    assert(width == layout.0[0].len() && height == layout.0.len());
    let mut j: usize = 0;
    while j < blackouts.len()
        invariant
            j <= blackouts@.len(),
            1 <= width <= usize::MAX,
            1 <= height <= usize::MAX,
            layout@ == overlaid_grid(blackouts@, j as nat, 0, width, height),
            forall|j: int|
                0 <= j < blackouts@.len() ==> width >= blackout_width(#[trigger] blackouts@[j])
                    && height >= blackout_height(blackouts@[j]),
        decreases blackouts@.len() - j,
    {
        let left = blackouts[j].0;
        let top = blackouts[j].1;
        let text = blackouts[j].2.as_str();
        proof {
            lemma_chars_within_bytes(text@);
            assert(width >= blackout_width(blackouts@[j as int]));
        }
        let mut i: usize = 0;
        for c in it: text.chars()
            invariant
                it.seq() == text@,
                i == it.index(),
                j < blackouts@.len(),
                left == blackouts@[j as int].0,
                top == blackouts@[j as int].1,
                text@ == blackouts@[j as int].2@,
                left + text@.len() < width <= usize::MAX,
                top < height,
                layout@ == overlaid_grid(blackouts@, j as nat, i as nat, width, height),
        {
            let ghost before = layout@;
            assert(before.len() == height && before[top as int].len() == width);
            layout.set_cell(left + i, top, Cell::Blackout(c));
            proof {
                lemma_with_cell(before, left + i, top as int, Cell::Blackout(c));
                lemma_overlay_step(blackouts@, j as nat, i as nat, width, height, before, layout@);
            }
            i += 1;
        }
        j += 1;
        assert(layout@ =~~= overlaid_grid(blackouts@, j as nat, 0, width, height));
    }
}

/// Grows a layout by rows and columns until it holds `bit_length` bits or is
/// at both of its bounds.
fn grow_layout(
    layout: &mut BoxLayout,
    bit_length: usize,
    ratio: AspectRatio,
    max_width: usize,
    max_height: usize,
)
    requires
        old(layout).well_formed(),
    ensures
        final(layout).well_formed(),
        final(layout)@ == grow(
            old(layout)@,
            bit_length as nat,
            ratio,
            max_width as nat,
            max_height as nat,
        ),
        !still_grows(final(layout)@, bit_length as nat, max_width as nat, max_height as nat),
{
    while layout.capacity_up_to(bit_length) < bit_length && !(layout.height() >= max_height
        && layout.width() >= max_width)
        invariant
            layout.well_formed(),
            grow(layout@, bit_length as nat, ratio, max_width as nat, max_height as nat) == grow(
                old(layout)@,
                bit_length as nat,
                ratio,
                max_width as nat,
                max_height as nat,
            ),
        decreases
            slack(grid_width(layout@), max_width as nat) + slack(
                grid_height(layout@),
                max_height as nat,
            ),
    {
        let width = layout.width();
        let height = layout.height();
        assert((height as u128) * (ratio.columns as u128) <= u128::MAX && (ratio.rows as u128) * (
        width as u128) <= u128::MAX) by (nonlinear_arith)
            requires
                height <= 0xffff_ffff_ffff_ffff,
                width <= 0xffff_ffff_ffff_ffff,
                ratio.columns <= 0xffff_ffff_ffff_ffff,
                ratio.rows <= 0xffff_ffff_ffff_ffff,
        ;
        let flatter = (height as u128) * (ratio.columns as u128) < (ratio.rows as u128) * (
        width as u128);
        let new_row = (flatter && height < max_height) || width >= max_width;
        if new_row {
            layout.push_row();
        } else {
            layout.push_column();
        }
    }
}

/// Whether sizing accepts a configuration.
pub fn check_config(config: &Option<BoxLayoutConfig>) -> (valid: bool)
    ensures
        valid == config_valid(*config),
{
    match config {
        None => true,
        Some(c) => {
            if let Some(width) = c.min_width {
                if width < 1 {
                    return false;
                }
            }
            if let Some(height) = c.min_height {
                if height < 1 {
                    return false;
                }
            }
            let mut j: usize = 0;
            while j < c.blackouts.len()
                invariant
                    j <= c.blackouts@.len(),
                    *config == Some(*c),
                    forall|k: int|
                        0 <= k < j ==> blackout_width(#[trigger] c.blackouts@[k]) <= usize::MAX
                            && blackout_height(c.blackouts@[k]) <= usize::MAX,
                decreases c.blackouts@.len() - j,
            {
                let left = c.blackouts[j].0;
                let top = c.blackouts[j].1;
                let bytes = c.blackouts[j].2.as_str().as_bytes().len();
                if top > usize::MAX - 1 || left > usize::MAX - 1 || bytes > usize::MAX - 1 - left {
                    assert(!(blackout_width(c.blackouts@[j as int]) <= usize::MAX
                        && blackout_height(c.blackouts@[j as int]) <= usize::MAX));
                    return false;
                }
                j += 1;
            }
            true
        },
    }
}

/// Sizes a layout for `length` bytes of payload: the smallest grid that the
/// configuration allows, grown until it holds the payload. None where the
/// bounds of the configuration are reached first.
pub fn layout_byte_length(length: usize, config: Option<BoxLayoutConfig>) -> (layout: Option<
    BoxLayout,
>)
    requires
        length * 8 <= usize::MAX,
        config_valid(config),
    ensures
        match layout {
            Some(sized) => spec_layout((length * 8) as nat, config) == Some(sized@),
            None => spec_layout((length * 8) as nat, config) is None,
        },
        layout matches Some(sized) ==> sized.well_formed() && grid_capacity(sized@) >= length * 8,
{
    let bit_length = length * 8;
    let mut min_width: usize = 2;
    let mut min_height: usize = 2;
    let mut max_width: usize = bit_length;
    let mut max_height: usize = bit_length;
    let mut ratio = AspectRatio { rows: 1, columns: 1 };
    let none: Vec<(usize, usize, String)> = Vec::new();
    let blackouts = match &config {
        Some(c) => {
            if let Some(width) = c.min_width {
                min_width = width;
            }
            if let Some(height) = c.min_height {
                min_height = height;
            }
            if let Some(width) = c.max_width {
                max_width = width;
            }
            if let Some(height) = c.max_height {
                max_height = height;
            }
            if let Some(given) = c.aspect_ratio {
                ratio = given;
            }
            &c.blackouts
        },
        None => &none,
    };
    assert(blackouts@ == config_blackouts(config));
    proof {
        lemma_floors(blackouts@, blackouts@.len(), min_width as nat);
        lemma_floors(blackouts@, blackouts@.len(), min_height as nat);
    }
    let (width, height) = blackout_floors(blackouts, min_width, min_height);
    // The base layout has every cell filled; the text goes over it.
    let mut layout = BoxLayout::new(width, height);
    assert(layout@ =~~= overlaid_grid(blackouts@, 0, 0, width as nat, height as nat));
    overlay(&mut layout, blackouts);
    assert(layout@ == initial_grid(config));
    assert(grid_well_formed(layout@));
    grow_layout(&mut layout, bit_length, ratio, max_width, max_height);
    if layout.capacity_up_to(bit_length) >= bit_length && layout.height() <= max_height
        && layout.width() <= max_width {
        Some(layout)
    } else {
        None
    }
}

/// Whether every cell of the last column is filled.
pub open spec fn last_column_filled(grid: Seq<Seq<Cell>>) -> bool {
    forall|y: int| 0 <= y < grid_height(grid) ==> (#[trigger] grid[y])[grid_width(grid) - 1] is Filled
}

/// What the first `n` blackouts put on a cell: nothing where none of them
/// covers it, and the character of the blackout `j` where that one covers it
/// and none after it does.
pub proof fn lemma_blackout_char(
    blackouts: Seq<(usize, usize, String)>,
    n: nat,
    x: int,
    y: int,
    j: int,
)
    requires
        n <= blackouts.len(),
    ensures
        (forall|k: int| 0 <= k < n ==> !covers(#[trigger] blackouts[k], x, y)) ==> blackout_char(
            blackouts,
            n,
            x,
            y,
        ) is None,
        0 <= j < n && covers(blackouts[j], x, y) ==> blackout_char(blackouts, n, x, y) is Some,
        0 <= j < n && covers(blackouts[j], x, y) && (forall|k: int|
            j < k < n ==> !covers(#[trigger] blackouts[k], x, y)) ==> blackout_char(
            blackouts,
            n,
            x,
            y,
        ) == Some(blackouts[j].2@[x - blackouts[j].0]),
    decreases n,
{
    if n > 0 {
        lemma_blackout_char(blackouts, (n - 1) as nat, x, y, j);
    }
}

/// The grid that sizing starts from is well formed, and no text lies on
/// its last column.
pub proof fn lemma_initial_grid(config: Option<BoxLayoutConfig>)
    requires
        config_valid(config),
    ensures
        grid_well_formed(initial_grid(config)),
        grid_width(initial_grid(config)) == spec_min_width(config),
        grid_height(initial_grid(config)) == spec_min_height(config),
        last_column_filled(initial_grid(config)),
{
    let blackouts = config_blackouts(config);
    let grid = initial_grid(config);
    let width = spec_min_width(config);
    let height = spec_min_height(config);
    let floor_width: nat = match config {
        Some(c) => match c.min_width {
            Some(w) => w as nat,
            None => 2,
        },
        None => 2,
    };
    let floor_height: nat = match config {
        Some(c) => match c.min_height {
            Some(h) => h as nat,
            None => 2,
        },
        None => 2,
    };
    lemma_floors(blackouts, blackouts.len(), floor_width);
    lemma_floors(blackouts, blackouts.len(), floor_height);
    assert(width >= 1 && height >= 1);
    assert(grid.len() == height);
    assert(grid[0].len() == width);
    assert forall|y: int| 0 <= y < height implies (#[trigger] grid[y])[width - 1] is Filled by {
        assert forall|k: int| 0 <= k < blackouts.len() implies !covers(
            #[trigger] blackouts[k],
            width - 1,
            y,
        ) by {
            lemma_chars_within_bytes(blackouts[k].2@);
            assert(width >= blackout_width(blackouts[k]));
        }
        lemma_blackout_char(blackouts, blackouts.len(), width - 1, y, 0);
        assert(grid[y][width - 1] == overlaid_cell(blackouts, blackouts.len(), 0, width - 1, y));
    }
}

/// A step of growth: the grid keeps its cells, loses neither width nor
/// height, and gains capacity.
pub proof fn lemma_growth_step(
    grid: Seq<Seq<Cell>>,
    ratio: AspectRatio,
    max_width: nat,
    max_height: nat,
)
    requires
        grid_well_formed(grid),
        last_column_filled(grid),
    ensures
        extends(grid, grow_once(grid, ratio, max_width, max_height)),
        last_column_filled(grow_once(grid, ratio, max_width, max_height)),
        grid_width(grow_once(grid, ratio, max_width, max_height)) >= grid_width(grid),
        grid_height(grow_once(grid, ratio, max_width, max_height)) >= grid_height(grid),
        grid_width(grow_once(grid, ratio, max_width, max_height)) + grid_height(
            grow_once(grid, ratio, max_width, max_height),
        ) == grid_width(grid) + grid_height(grid) + 1,
        grid_capacity(grow_once(grid, ratio, max_width, max_height)) > grid_capacity(grid),
{
    let next = grow_once(grid, ratio, max_width, max_height);
    let width = grid_width(grid) as int;
    let height = grid_height(grid) as int;
    if grows_by_row(grid_width(grid), grid_height(grid), ratio, max_width, max_height) {
        assert(next == with_row(grid));
        assert(next.len() == height + 1);
        assert(next[height] == filled_row(width as nat));
        assert forall|y: int| 0 <= y < height implies #[trigger] next[y] == grid[y] by {}
        assert(grid_well_formed(next));
        assert(extends(grid, next));
        assert(last_column_filled(next)) by {
            assert forall|y: int| 0 <= y < height + 1 implies (#[trigger] next[y])[width - 1]
                is Filled by {
                if y < height {
                    assert(grid[y][width - 1] is Filled);
                }
            }
        }
        assert(grid[height - 1][width - 1] is Filled);
        assert(next[height][width - 1] is Filled);
        assert(cell_links(grid, width - 1, height - 1) == 0);
        assert(cell_links(next, width - 1, height - 1) >= 2);
        lemma_capacity_extends(grid, next, width - 1, height - 1);
    } else {
        assert(next == with_column(grid));
        assert(next.len() == height);
        assert forall|y: int| 0 <= y < height implies (#[trigger] next[y]).len() == width + 1 by {
            assert(next[y] == grid[y].push(Cell::Filled));
        }
        assert(grid_well_formed(next));
        assert forall|x: int, y: int| 0 <= y < height && 0 <= x < width implies #[trigger] next[y][x]
            == grid[y][x] by {
            assert(next[y] == grid[y].push(Cell::Filled));
        }
        assert(extends(grid, next));
        assert(last_column_filled(next)) by {
            assert forall|y: int| 0 <= y < height implies (#[trigger] next[y])[width] is Filled by {
                assert(next[y] == grid[y].push(Cell::Filled));
            }
        }
        assert(grid[0][width - 1] is Filled);
        assert(next[0] == grid[0].push(Cell::Filled));
        assert(next[0][width] is Filled);
        assert(next[0][width - 1] is Filled);
        assert(!grid_filled(grid, width, 0));
        assert(grid_filled(next, width, 0));
        assert(grid_filled(next, width - 1, 0));
        if height > 1 {
            assert(next[1] == grid[1].push(Cell::Filled));
            assert(next[1][width - 1] == grid[1][width - 1]);
        }
        assert(cell_links(grid, width - 1, 0) + 2 <= cell_links(next, width - 1, 0));
        lemma_capacity_extends(grid, next, width - 1, 0);
    }
}

/// Growth keeps every cell of the grid it starts from.
pub proof fn lemma_grow_extends(
    grid: Seq<Seq<Cell>>,
    bit_length: nat,
    ratio: AspectRatio,
    max_width: nat,
    max_height: nat,
)
    requires
        grid_well_formed(grid),
        last_column_filled(grid),
    ensures
        extends(grid, grow(grid, bit_length, ratio, max_width, max_height)),
        grid_capacity(grow(grid, bit_length, ratio, max_width, max_height)) >= grid_capacity(grid),
    decreases slack(grid_width(grid), max_width) + slack(grid_height(grid), max_height),
{
    if still_grows(grid, bit_length, max_width, max_height) {
        let next = grow_once(grid, ratio, max_width, max_height);
        lemma_growth_step(grid, ratio, max_width, max_height);
        lemma_grow_extends(next, bit_length, ratio, max_width, max_height);
        let last = grow(next, bit_length, ratio, max_width, max_height);
        assert forall|x: int, y: int|
            0 <= y < grid_height(grid) && 0 <= x < grid_width(grid) implies #[trigger] last[y][x]
            == grid[y][x] by {
            assert(next[y][x] == grid[y][x]);
        }
    }
}

/// The sized layout keeps the text of every blackout: under each of its
/// characters lies a blackout cell, whatever the payload, and it shows that
/// character unless a later blackout lies over it.
pub proof fn lemma_blackouts_preserved(
    bit_length: nat,
    config: Option<BoxLayoutConfig>,
    j: int,
    i: int,
)
    requires
        config_valid(config),
        spec_layout(bit_length, config) is Some,
        0 <= j < config_blackouts(config).len(),
        0 <= i < config_blackouts(config)[j].2@.len(),
    ensures
        ({
            let grid = spec_layout(bit_length, config)->0;
            let blackouts = config_blackouts(config);
            let x = blackouts[j].0 + i;
            let y = blackouts[j].1 as int;
            &&& grid_well_formed(grid)
            &&& y < grid_height(grid)
            &&& x < grid_width(grid)
            &&& grid[y][x] is Blackout
            &&& grid[y][x] == initial_grid(config)[y][x]
            &&& (forall|k: int| j < k < blackouts.len() ==> !covers(#[trigger] blackouts[k], x, y))
                ==> grid[y][x] == Cell::Blackout(blackouts[j].2@[i])
        }),
{
    let blackouts = config_blackouts(config);
    let start = initial_grid(config);
    let x = blackouts[j].0 + i;
    let y = blackouts[j].1 as int;
    let floor_width: nat = match config {
        Some(c) => match c.min_width {
            Some(w) => w as nat,
            None => 2,
        },
        None => 2,
    };
    let floor_height: nat = match config {
        Some(c) => match c.min_height {
            Some(h) => h as nat,
            None => 2,
        },
        None => 2,
    };
    lemma_initial_grid(config);
    lemma_floors(blackouts, blackouts.len(), floor_width);
    lemma_floors(blackouts, blackouts.len(), floor_height);
    lemma_chars_within_bytes(blackouts[j].2@);
    assert(grid_width(start) >= blackout_width(blackouts[j]));
    assert(grid_height(start) >= blackout_height(blackouts[j]));
    assert(covers(blackouts[j], x, y));
    lemma_blackout_char(blackouts, blackouts.len(), x, y, j);
    assert(start[y][x] == overlaid_cell(blackouts, blackouts.len(), 0, x, y));
    lemma_grow_extends(
        start,
        bit_length,
        spec_aspect_ratio(config),
        spec_max_width(config, bit_length),
        spec_max_height(config, bit_length),
    );
    let grid = spec_layout(bit_length, config)->0;
    assert(grid[y][x] == start[y][x]);
}

/// Whether every cell of `big` outside `small` is filled.
pub open spec fn filled_around(small: Seq<Seq<Cell>>, big: Seq<Seq<Cell>>) -> bool {
    forall|x: int, y: int|
        0 <= y < grid_height(big) && 0 <= x < grid_width(big) && !(y < grid_height(small) && x
            < grid_width(small)) ==> #[trigger] big[y][x] is Filled
}

/// Growth adds filled cells only.
pub proof fn lemma_grow_adds_filled(
    grid: Seq<Seq<Cell>>,
    bit_length: nat,
    ratio: AspectRatio,
    max_width: nat,
    max_height: nat,
)
    requires
        grid_well_formed(grid),
        last_column_filled(grid),
    ensures
        extends(grid, grow(grid, bit_length, ratio, max_width, max_height)),
        filled_around(grid, grow(grid, bit_length, ratio, max_width, max_height)),
    decreases slack(grid_width(grid), max_width) + slack(grid_height(grid), max_height),
{
    lemma_grow_extends(grid, bit_length, ratio, max_width, max_height);
    if still_grows(grid, bit_length, max_width, max_height) {
        let next = grow_once(grid, ratio, max_width, max_height);
        let last = grow(next, bit_length, ratio, max_width, max_height);
        lemma_growth_step(grid, ratio, max_width, max_height);
        lemma_grow_adds_filled(next, bit_length, ratio, max_width, max_height);
        assert forall|x: int, y: int|
            0 <= y < grid_height(last) && 0 <= x < grid_width(last) && !(y < grid_height(grid)
                && x < grid_width(grid)) implies #[trigger] last[y][x] is Filled by {
            if y < grid_height(next) && x < grid_width(next) {
                assert(last[y][x] == next[y][x]);
                if grows_by_row(
                    grid_width(grid),
                    grid_height(grid),
                    ratio,
                    max_width,
                    max_height,
                ) {
                    assert(next[y] == filled_row(grid_width(grid)));
                } else {
                    assert(next[y] == grid[y].push(Cell::Filled));
                }
            }
        }
    }
}

/// Every blackout cell of the sized layout shows a character of the text
/// of a blackout.
pub proof fn lemma_blackout_cells_from_text(
    bit_length: nat,
    config: Option<BoxLayoutConfig>,
    x: int,
    y: int,
)
    requires
        config_valid(config),
        spec_layout(bit_length, config) is Some,
        0 <= y < grid_height(spec_layout(bit_length, config)->0),
        0 <= x < grid_width(spec_layout(bit_length, config)->0),
        spec_layout(bit_length, config)->0[y][x] is Blackout,
    ensures
        exists|j: int, i: int|
            0 <= j < config_blackouts(config).len() && 0 <= i < config_blackouts(config)[j].2@.len()
                && spec_layout(bit_length, config)->0[y][x] == Cell::Blackout(
                #[trigger] config_blackouts(config)[j].2@[i],
            ),
{
    let blackouts = config_blackouts(config);
    let start = initial_grid(config);
    let grid = spec_layout(bit_length, config)->0;
    lemma_initial_grid(config);
    lemma_grow_adds_filled(
        start,
        bit_length,
        spec_aspect_ratio(config),
        spec_max_width(config, bit_length),
        spec_max_height(config, bit_length),
    );
    assert(y < grid_height(start) && x < grid_width(start));
    assert(grid[y][x] == start[y][x]);
    assert(start[y][x] == overlaid_cell(blackouts, blackouts.len(), 0, x, y));
    lemma_covering_blackout(blackouts, blackouts.len(), x, y);
    let j = choose|j: int|
        0 <= j < blackouts.len() && covers(blackouts[j], x, y) && blackout_char(
            blackouts,
            blackouts.len(),
            x,
            y,
        ) == Some(#[trigger] blackouts[j].2@[x - blackouts[j].0]);
    let i = x - blackouts[j].0;
    assert(grid[y][x] == Cell::Blackout(config_blackouts(config)[j].2@[i]));
}

/// A character that blackouts put on a cell is that of one that covers it.
proof fn lemma_covering_blackout(blackouts: Seq<(usize, usize, String)>, n: nat, x: int, y: int)
    requires
        n <= blackouts.len(),
        blackout_char(blackouts, n, x, y) is Some,
    ensures
        exists|j: int|
            0 <= j < n && covers(blackouts[j], x, y) && blackout_char(blackouts, n, x, y) == Some(
                #[trigger] blackouts[j].2@[x - blackouts[j].0],
            ),
    decreases n,
{
    if n > 0 {
        if covers(blackouts[n - 1], x, y) {
            let j = n - 1;
            assert(0 <= j < n && covers(blackouts[j], x, y) && blackout_char(blackouts, n, x, y)
                == Some(blackouts[j].2@[x - blackouts[j].0]));
        } else {
            lemma_covering_blackout(blackouts, (n - 1) as nat, x, y);
            let j = choose|j: int|
                0 <= j < n - 1 && covers(blackouts[j], x, y) && blackout_char(
                    blackouts,
                    (n - 1) as nat,
                    x,
                    y,
                ) == Some(#[trigger] blackouts[j].2@[x - blackouts[j].0]);
            assert(0 <= j < n && covers(blackouts[j], x, y) && blackout_char(blackouts, n, x, y)
                == Some(blackouts[j].2@[x - blackouts[j].0]));
        }
    }
}

/// The sized layout is well formed.
pub proof fn lemma_layout_well_formed(bit_length: nat, config: Option<BoxLayoutConfig>)
    requires
        config_valid(config),
        spec_layout(bit_length, config) is Some,
    ensures
        grid_well_formed(spec_layout(bit_length, config)->0),
        grid_capacity(spec_layout(bit_length, config)->0) >= bit_length,
        grid_width(spec_layout(bit_length, config)->0) <= spec_max_width(config, bit_length),
        grid_height(spec_layout(bit_length, config)->0) <= spec_max_height(config, bit_length),
        grid_width(spec_layout(bit_length, config)->0) >= spec_min_width(config),
        grid_height(spec_layout(bit_length, config)->0) >= spec_min_height(config),
{
    lemma_initial_grid(config);
    lemma_grow_extends(
        initial_grid(config),
        bit_length,
        spec_aspect_ratio(config),
        spec_max_width(config, bit_length),
        spec_max_height(config, bit_length),
    );
}

} // verus!
