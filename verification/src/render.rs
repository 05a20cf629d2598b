//! Drawing a layout as text, and reading the symbols of a text back.

use crate::codec::{
    box_points_to_bytes, cell_bits, grid_symbol_bits, lemma_points_step, next_x, next_y,
    points_from, spec_box_points_to_bytes, spec_bytes_to_points,
};
use crate::connections::{
    glyph_symbol, lemma_family_size, lemma_glyph_symbol_sound, draws, spec_glyph_symbol,
};
use crate::layout::{
    grid_class, grid_height, grid_well_formed, grid_width, BoxLayout, Cell,
};
use crate::pack::{le_value, lemma_pow2_mod_bound, symbols_well_formed};
use crate::sizer::{
    config_blackouts, config_valid, covers, layout_byte_length, lemma_blackouts_preserved,
    spec_layout, BoxLayoutConfig,
};
use crate::text::{graphemes, push_char, spec_graphemes};
use vstd::arithmetic::power2::{lemma2_to64, pow2};
use vstd::prelude::*;

verus! {

/// Why a payload could not be drawn.
#[derive(Clone, Copy, Debug, PartialEq, Eq, Structural)]
pub enum EncodeError {
    /// No layout within the bounds of the configuration holds the payload.
    LayoutUnsatisfiable,
    /// The layout was sized, but its cells cannot take the payload: too many
    /// of its filled cells have a single filled neighbour.
    CapacityExceeded,
}

/// The point that the cell of the given rank draws: the point of that rank,
/// or zero once the points have run out.
pub open spec fn point_at(points: Seq<u8>, rank: nat) -> u8 {
    if rank < points.len() {
        points[rank as int]
    } else {
        0
    }
}

/// The number of cells with a class among the first `n` cells of row `y`.
pub open spec fn row_rank(grid: Seq<Seq<Cell>>, y: int, n: nat) -> nat
    decreases n,
{
    if n == 0 {
        0
    } else {
        row_rank(grid, y, (n - 1) as nat) + if grid_class(grid, n - 1, y) is Some {
            1nat
        } else {
            0
        }
    }
}

/// The number of cells with a class in the first `m` rows.
pub open spec fn rows_rank(grid: Seq<Seq<Cell>>, m: nat) -> nat
    decreases m,
{
    if m == 0 {
        0
    } else {
        rows_rank(grid, (m - 1) as nat) + row_rank(grid, m - 1, grid_width(grid))
    }
}

/// The number of cells with a class before the cell at column `x` of row
/// `y`, in reading order.
pub open spec fn cell_rank(grid: Seq<Seq<Cell>>, x: int, y: int) -> nat {
    rows_rank(grid, y as nat) + row_rank(grid, y, x as nat)
}

/// The character that draws the cell at column `x` of row `y`: the text of
/// a blackout cell, the glyph of its point for a cell with a class, and a
/// space for any other cell.
pub open spec fn cell_glyph(grid: Seq<Seq<Cell>>, points: Seq<u8>, x: int, y: int) -> char {
    match grid[y][x] {
        Cell::Blackout(c) => c,
        Cell::Filled => match grid_class(grid, x, y) {
            Some(class) => class.glyphs()[point_at(points, cell_rank(grid, x, y)) as int],
            None => ' ',
        },
    }
}

/// The characters that draw row `y`.
pub open spec fn render_row(grid: Seq<Seq<Cell>>, points: Seq<u8>, y: int) -> Seq<char> {
    Seq::new(grid_width(grid), |x: int| cell_glyph(grid, points, x, y))
}

/// The text that draws the first `m` rows: a line for each, with a line
/// feed between two rows.
pub open spec fn render_rows(grid: Seq<Seq<Cell>>, points: Seq<u8>, m: nat) -> Seq<char>
    decreases m,
{
    if m == 0 {
        Seq::empty()
    } else if m == 1 {
        render_row(grid, points, 0)
    } else {
        render_rows(grid, points, (m - 1) as nat) + seq!['\n'] + render_row(grid, points, m - 1)
    }
}

/// The text that draws a grid with the given points.
pub open spec fn spec_render(grid: Seq<Seq<Cell>>, points: Seq<u8>) -> Seq<char> {
    render_rows(grid, points, grid_height(grid))
}

/// The text that draws a byte buffer on a grid.
pub open spec fn spec_display_bytes(grid: Seq<Seq<Cell>>, bytes: Seq<u8>) -> Seq<char> {
    spec_render(grid, spec_bytes_to_points(grid, bytes))
}

/// The symbol that a grapheme cluster stands for: that of its character, if
/// it is a single glyph.
pub open spec fn cluster_symbol(cluster: Seq<char>) -> Option<(u8, usize)> {
    if cluster.len() == 1 {
        spec_glyph_symbol(cluster[0])
    } else {
        None
    }
}

/// The symbols of the clusters that stand for one, in order.
pub open spec fn spec_parse_clusters(clusters: Seq<Seq<char>>) -> Seq<(u8, usize)>
    decreases clusters.len(),
{
    if clusters.len() == 0 {
        Seq::empty()
    } else {
        let before = spec_parse_clusters(clusters.drop_last());
        match cluster_symbol(clusters.last()) {
            Some(symbol) => before.push(symbol),
            None => before,
        }
    }
}

/// The symbols that a text holds: those of its grapheme clusters.
pub open spec fn spec_parse_boxes_to_points(text: Seq<char>) -> Seq<(u8, usize)> {
    spec_parse_clusters(spec_graphemes(text))
}

/// The bytes that a text decodes to.
pub open spec fn spec_decode_to_bytes(text: Seq<char>) -> Seq<u8> {
    spec_box_points_to_bytes(spec_parse_boxes_to_points(text))
}

/// The symbols of clusters have the width of a class and a point that fits it.
pub proof fn lemma_parsed_symbols_well_formed(clusters: Seq<Seq<char>>)
    ensures
        symbols_well_formed(spec_parse_clusters(clusters)),
        forall|i: int|
            0 <= i < spec_parse_clusters(clusters).len() ==> 2 <= (#[trigger] spec_parse_clusters(
                clusters,
            )[i]).1 <= 4,
    decreases clusters.len(),
{
    if clusters.len() > 0 {
        lemma_parsed_symbols_well_formed(clusters.drop_last());
        if let Some(symbol) = cluster_symbol(clusters.last()) {
            lemma_glyph_symbol_sound(clusters.last()[0]);
            let class = choose|class: crate::connections::Connections| #[trigger]
                draws(class, symbol, clusters.last()[0]);
            lemma_family_size(class);
        }
    }
}

impl BoxLayout {
    /// Draws a byte buffer on the layout: a line of text for each row, with
    /// a line feed between two rows.
    pub fn display_bytes(&self, bytes: &[u8]) -> (text: String)
        requires
            self.well_formed(),
            8 * bytes@.len() <= grid_symbol_bits(self@),
        ensures
            text@ == spec_display_bytes(self@, bytes@),
    {
        let width = self.width();
        let height = self.height();
        let points = self.bytes_to_points(bytes);
        let mut result = String::new();
        let mut index: usize = 0;
        let ghost mut value = le_value(bytes@);
        let ghost mut available = 8 * bytes@.len();
        let mut y: usize = 0;
        assert(points@.skip(0) == points@);
        while y < height
            invariant
                self.well_formed(),
                width == grid_width(self@),
                height == grid_height(self@),
                y <= height,
                result@ == render_rows(self@, points@, y as nat),
                index <= points@.len(),
                index < points@.len() ==> index == rows_rank(self@, y as nat),
                index == points@.len() ==> rows_rank(self@, y as nat) >= points@.len(),
                index < points@.len() ==> points@.skip(index as int) == points_from(
                    self@,
                    0,
                    y as nat,
                    value,
                    available,
                ),
            decreases height - y,
        {
            if y > 0 {
                push_char(&mut result, '\n');
            }
            let ghost prefix = result@;
            let mut x: usize = 0;
            while x < width
                invariant
                    self.well_formed(),
                    width == grid_width(self@),
                    height == grid_height(self@),
                    y < height,
                    x <= width,
                    result@ == prefix + render_row(self@, points@, y as int).take(x as int),
                    index <= points@.len(),
                    index < points@.len() ==> index == cell_rank(self@, x as int, y as int),
                    index == points@.len() ==> cell_rank(self@, x as int, y as int)
                        >= points@.len(),
                    index < points@.len() ==> points@.skip(index as int) == points_from(
                        self@,
                        if x < width {
                            x as nat
                        } else {
                            0
                        },
                        if x < width {
                            y as nat
                        } else {
                            (y + 1) as nat
                        },
                        value,
                        available,
                    ),
                decreases width - x,
            {
                let ghost row = render_row(self@, points@, y as int);
                proof {
                    lemma_points_step(self@, x as nat, y as nat, value, available);
                    assert(self@[y as int][x as int] == self.0[y as int][x as int]);
                }
                let glyph = match self.0[y][x] {
                    Cell::Blackout(c) => c,
                    Cell::Filled => match self.get_connections_at(x, y) {
                        Some(class) => {
                            proof {
                                lemma_family_size(class);
                                lemma2_to64();
                            }
                            let point = if index < points.len() {
                                proof {
                                    let rest = points@.skip(index as int);
                                    let bits = cell_bits(self@, x as nat, y as nat);
                                    assert(rest.len() > 0);
                                    assert(rest[0] == points@[index as int]);
                                    lemma_pow2_mod_bound(value, bits);
                                    assert(points@.skip(index + 1) =~= rest.drop_first());
                                    let tail = points_from(
                                        self@,
                                        next_x(self@, x as nat),
                                        next_y(self@, x as nat, y as nat),
                                        value / pow2(bits),
                                        (available - bits) as nat,
                                    );
                                    assert((seq![(value % pow2(bits)) as u8] + tail).drop_first()
                                        =~= tail);
                                    value = value / pow2(bits);
                                    available = (available - bits) as nat;
                                }
                                let point = points[index];
                                index += 1;
                                point
                            } else {
                                0
                            };
                            class.get_character(point)
                        },
                        None => ' ',
                    },
                };
                assert(glyph == cell_glyph(self@, points@, x as int, y as int));
                push_char(&mut result, glyph);
                x += 1;
                assert(row.take(x as int) =~= row.take(x - 1).push(glyph));
                assert(result@ =~= prefix + row.take(x as int));
            }
            assert(render_row(self@, points@, y as int).take(width as int) =~= render_row(
                self@,
                points@,
                y as int,
            ));
            y += 1;
            assert(result@ =~= render_rows(self@, points@, y as nat));
        }
        result
    }
}

/// The symbols of the clusters that are a single glyph, in order.
pub fn parse_clusters(clusters: &Vec<Vec<char>>) -> (points: Vec<(u8, usize)>)
    ensures
        points@ == spec_parse_clusters(clusters.deep_view()),
{
    let mut points: Vec<(u8, usize)> = Vec::new();
    let mut i: usize = 0;
    while i < clusters.len()
        invariant
            i <= clusters@.len(),
            points@ == spec_parse_clusters(clusters.deep_view().take(i as int)),
        decreases clusters@.len() - i,
    {
        proof {
            let views = clusters.deep_view();
            assert(views.take(i + 1).drop_last() =~= views.take(i as int));
            assert(views.take(i + 1).last() == clusters@[i as int]@);
        }
        if clusters[i].len() == 1 {
            if let Some(symbol) = glyph_symbol(clusters[i][0]) {
                points.push(symbol);
            }
        }
        i += 1;
    }
    assert(clusters.deep_view().take(i as int) =~= clusters.deep_view());
    points
}

/// Reads the symbols of a text: the point and the width of every grapheme
/// cluster that is a glyph. Anything else in the text is passed over.
pub fn parse_boxes_to_points(s: &str) -> (points: Vec<(u8, usize)>)
    ensures
        points@ == spec_parse_boxes_to_points(s@),
        symbols_well_formed(points@),
{
    let clusters = graphemes(s);
    proof {
        lemma_parsed_symbols_well_formed(clusters.deep_view());
    }
    parse_clusters(&clusters)
}

/// Decodes a text to the bytes that its glyphs hold.
pub fn decode_to_bytes(text: &str) -> (bytes: Vec<u8>)
    ensures
        bytes@ == spec_decode_to_bytes(text@),
{
    let points = parse_boxes_to_points(text);
    box_points_to_bytes(points.as_slice())
}

/// Draws a byte buffer on a layout sized for it.
pub fn generate_boxes(bytes: &[u8], config: Option<BoxLayoutConfig>) -> (drawn: Result<
    String,
    EncodeError,
>)
    requires
        bytes@.len() * 8 <= usize::MAX,
        config_valid(config),
    ensures
        match drawn {
            Ok(text) => spec_layout((bytes@.len() * 8) as nat, config) matches Some(grid) && 8
                * bytes@.len() <= grid_symbol_bits(grid) && text@ == spec_display_bytes(
                grid,
                bytes@,
            ),
            Err(EncodeError::LayoutUnsatisfiable) => spec_layout(
                (bytes@.len() * 8) as nat,
                config,
            ) is None,
            Err(EncodeError::CapacityExceeded) => spec_layout(
                (bytes@.len() * 8) as nat,
                config,
            ) matches Some(grid) && 8 * bytes@.len() > grid_symbol_bits(grid),
        },
{
    match layout_byte_length(bytes.len(), config) {
        None => Err(EncodeError::LayoutUnsatisfiable),
        Some(layout) => {
            if layout.holds_bytes(bytes.len()) {
                Ok(layout.display_bytes(bytes))
            } else {
                Err(EncodeError::CapacityExceeded)
            }
        },
    }
}

/// The length of the drawing of the first `m` rows, and where each of them
/// stands in it.
proof fn lemma_render_rows_layout(grid: Seq<Seq<Cell>>, points: Seq<u8>, m: nat, y: int)
    requires
        grid_well_formed(grid),
        0 <= y < m,
    ensures
        render_rows(grid, points, m).len() == m * (grid_width(grid) + 1) - 1,
        render_rows(grid, points, m).subrange(
            y * (grid_width(grid) + 1),
            y * (grid_width(grid) + 1) + grid_width(grid),
        ) == render_row(grid, points, y),
    decreases m,
{
    let width = grid_width(grid) as int;
    let text = render_rows(grid, points, m);
    let row = render_row(grid, points, m - 1);
    assert(m * (width + 1) == (m - 1) * (width + 1) + (width + 1)) by (nonlinear_arith);
    assert(0 <= y * (width + 1) <= (m - 1) * (width + 1)) by (nonlinear_arith)
        requires
            0 <= y <= m - 1,
            width >= 0,
    ;
    if m == 1 {
        assert(text.subrange(0, width) =~= row);
    } else {
        let above = render_rows(grid, points, (m - 1) as nat);
        lemma_render_rows_layout(grid, points, (m - 1) as nat, if y < m - 1 {
            y
        } else {
            0
        });
        assert(text == above + seq!['\n'] + row);
        if y < m - 1 {
            assert((y + 1) * (width + 1) <= (m - 1) * (width + 1)) by (nonlinear_arith)
                requires
                    0 <= y + 1 <= m - 1,
                    width >= 0,
            ;
            assert((y + 1) * (width + 1) == y * (width + 1) + width + 1) by (nonlinear_arith);
            assert(text.subrange(y * (width + 1), y * (width + 1) + width) =~= above.subrange(
                y * (width + 1),
                y * (width + 1) + width,
            ));
        } else {
            assert(text.subrange(y * (width + 1), y * (width + 1) + width) =~= row);
        }
    }
}

/// The drawing of a grid has a line of as many characters as the grid is
/// wide for each row, and the rows stand in it in order, a line feed between
/// two of them.
pub proof fn lemma_render_row_position(grid: Seq<Seq<Cell>>, points: Seq<u8>, y: int)
    requires
        grid_well_formed(grid),
        0 <= y < grid_height(grid),
    ensures
        spec_render(grid, points).len() == grid_height(grid) * (grid_width(grid) + 1) - 1,
        spec_render(grid, points).subrange(
            y * (grid_width(grid) + 1),
            y * (grid_width(grid) + 1) + grid_width(grid),
        ) == render_row(grid, points, y),
{
    lemma_render_rows_layout(grid, points, grid_height(grid), y);
}

/// The text of a blackout shows in the drawing of the sized layout as it
/// was given, whatever the payload, unless a later blackout lies over it.
pub proof fn lemma_blackout_text_renders(
    bit_length: nat,
    config: Option<BoxLayoutConfig>,
    j: int,
    points: Seq<u8>,
)
    requires
        config_valid(config),
        spec_layout(bit_length, config) is Some,
        0 <= j < config_blackouts(config).len(),
        forall|k: int, x: int|
            j < k < config_blackouts(config).len() && covers(
                config_blackouts(config)[j],
                x,
                config_blackouts(config)[j].1 as int,
            ) ==> !#[trigger] covers(
                config_blackouts(config)[k],
                x,
                config_blackouts(config)[j].1 as int,
            ),
    ensures
        ({
            let grid = spec_layout(bit_length, config)->0;
            let blackout = config_blackouts(config)[j];
            blackout.2@.len() > 0 ==> render_row(grid, points, blackout.1 as int).subrange(
                blackout.0 as int,
                blackout.0 + blackout.2@.len(),
            ) == blackout.2@
        }),
{
    let grid = spec_layout(bit_length, config)->0;
    let blackouts = config_blackouts(config);
    let blackout = blackouts[j];
    let text = blackout.2@;
    let row = render_row(grid, points, blackout.1 as int);
    assert forall|i: int| 0 <= i < text.len() implies blackout.0 + i < grid_width(grid)
        && #[trigger] row[blackout.0 + i] == text[i] by {
        lemma_blackouts_preserved(bit_length, config, j, i);
        assert(covers(blackout, blackout.0 + i, blackout.1 as int));
        assert forall|k: int| j < k < blackouts.len() implies !covers(
            #[trigger] blackouts[k],
            blackout.0 + i,
            blackout.1 as int,
        ) by {
            assert(!covers(config_blackouts(config)[k], blackout.0 + i, blackout.1 as int));
        }
    }
    if text.len() > 0 {
        lemma_blackouts_preserved(bit_length, config, j, text.len() - 1);
        let shown = row.subrange(blackout.0 as int, blackout.0 + text.len());
        assert(row.len() == grid_width(grid));
        assert(blackout.0 + (text.len() - 1) < grid_width(grid));
        assert forall|i: int| 0 <= i < text.len() implies shown[i] == text[i] by {
            assert(row[blackout.0 + i] == text[i]);
        }
        assert(shown =~= text);
    }
}

} // verus!
