//! Reading a drawing back: the symbols of a drawn layout, and the bytes
//! they pack to.

use crate::codec::{
    bits_from, cell_bits, grid_symbol_bits, lemma_points_step, next_x, next_y, points_from,
    spec_box_points_to_bytes, spec_bytes_to_points,
};
use crate::connections::{
    lemma_family_size, lemma_glyph_codes, lemma_glyph_symbol_of_glyph, lemma_glyph_symbol_sound,
    spec_glyph_symbol, Connections,
};
use crate::layout::{grid_class, grid_height, grid_well_formed, grid_width, Cell};
use crate::pack::{
    le_bytes, le_value, lemma_le_bytes_of_value, lemma_pow2_mod_bound, lemma_small,
    lemma_split_mod, packed_bits, packed_value, symbols_well_formed,
};
use crate::sizer::{
    config_blackouts, config_valid, lemma_blackout_cells_from_text, lemma_layout_well_formed,
    spec_layout, BoxLayoutConfig,
};
use crate::render::{
    cell_glyph, cell_rank, cluster_symbol, point_at, render_row, render_rows, row_rank, rows_rank,
    spec_display_bytes, spec_parse_clusters, spec_render,
};
use vstd::arithmetic::power2::{lemma2_to64, lemma_pow2_adds, lemma_pow2_pos, pow2};
use vstd::prelude::*;

verus! {

/// A text as clusters of one character each.
pub open spec fn singletons(text: Seq<char>) -> Seq<Seq<char>> {
    Seq::new(text.len(), |i: int| seq![text[i]])
}

/// Whether no blackout cell of the grid shows a glyph of a family.
pub open spec fn blackouts_plain(grid: Seq<Seq<Cell>>) -> bool {
    forall|x: int, y: int|
        0 <= y < grid_height(grid) && 0 <= x < grid_width(grid) ==> (#[trigger] grid[y][x]
            matches Cell::Blackout(c) ==> spec_glyph_symbol(c) is None)
}

/// Whether every point fits the width of the cell that draws it.
pub open spec fn drawable(grid: Seq<Seq<Cell>>, points: Seq<u8>) -> bool {
    forall|x: int, y: int|
        0 <= y < grid_height(grid) && 0 <= x < grid_width(grid) && grid_class(grid, x, y)
            is Some ==> point_at(points, #[trigger] cell_rank(grid, x, y)) < pow2(
            cell_bits(grid, x as nat, y as nat),
        )
}

/// The symbol that the cell at column `x` of row `y` draws: its point and
/// the width of its class.
pub open spec fn cell_symbol(grid: Seq<Seq<Cell>>, points: Seq<u8>, x: int, y: int) -> Option<
    (u8, usize),
> {
    match grid_class(grid, x, y) {
        Some(class) => Some((point_at(points, cell_rank(grid, x, y)), class.spec_bits() as usize)),
        None => None,
    }
}

/// The symbols that the first `n` cells of row `y` draw.
pub open spec fn row_symbols(grid: Seq<Seq<Cell>>, points: Seq<u8>, y: int, n: nat) -> Seq<
    (u8, usize),
>
    decreases n,
{
    if n == 0 {
        Seq::empty()
    } else {
        let before = row_symbols(grid, points, y, (n - 1) as nat);
        match cell_symbol(grid, points, n - 1, y) {
            Some(symbol) => before.push(symbol),
            None => before,
        }
    }
}

/// The symbols that the first `m` rows draw.
pub open spec fn rows_symbols(grid: Seq<Seq<Cell>>, points: Seq<u8>, m: nat) -> Seq<(u8, usize)>
    decreases m,
{
    if m == 0 {
        Seq::empty()
    } else {
        rows_symbols(grid, points, (m - 1) as nat) + row_symbols(
            grid,
            points,
            m - 1,
            grid_width(grid),
        )
    }
}

/// The symbols that a grid draws with the given points: one for every cell
/// with a class, in reading order.
pub open spec fn grid_symbols(grid: Seq<Seq<Cell>>, points: Seq<u8>) -> Seq<(u8, usize)> {
    rows_symbols(grid, points, grid_height(grid))
}

/// The symbols that the cells from column `x` of row `y` on draw, the first
/// of them with the point of the given rank.
pub open spec fn symbols_from(grid: Seq<Seq<Cell>>, points: Seq<u8>, rank: nat, x: nat, y: nat) -> Seq<
    (u8, usize),
>
    decreases grid_height(grid) - y, grid_width(grid) - x,
{
    if y >= grid_height(grid) || x >= grid_width(grid) {
        Seq::empty()
    } else if cell_bits(grid, x, y) == 0 {
        symbols_from(grid, points, rank, next_x(grid, x), next_y(grid, x, y))
    } else {
        seq![(point_at(points, rank), cell_bits(grid, x, y) as usize)] + symbols_from(
            grid,
            points,
            rank + 1,
            next_x(grid, x),
            next_y(grid, x, y),
        )
    }
}

/// The number of bits that the cells from column `x` of row `y` on take of
/// `available` bits of payload.
pub open spec fn taken_from(grid: Seq<Seq<Cell>>, x: nat, y: nat, available: nat) -> nat
    decreases grid_height(grid) - y, grid_width(grid) - x,
{
    if y >= grid_height(grid) || x >= grid_width(grid) {
        0
    } else if cell_bits(grid, x, y) == 0 {
        taken_from(grid, next_x(grid, x), next_y(grid, x, y), available)
    } else if cell_bits(grid, x, y) <= available {
        cell_bits(grid, x, y) + taken_from(
            grid,
            next_x(grid, x),
            next_y(grid, x, y),
            (available - cell_bits(grid, x, y)) as nat,
        )
    } else {
        0
    }
}

/// The number of bits of a byte buffer that the points of a grid hold: all
/// but the bits at its end that do not fill the next cell.
pub open spec fn spec_encoded_bits(grid: Seq<Seq<Cell>>, bytes: Seq<u8>) -> nat {
    taken_from(grid, 0, 0, 8 * bytes.len())
}

/// A cell has a width exactly when it has a class, and then one of two to
/// four bits.
pub proof fn lemma_cell_bits(grid: Seq<Seq<Cell>>, x: int, y: int)
    requires
        0 <= x,
        0 <= y,
    ensures
        cell_bits(grid, x as nat, y as nat) == 0 <==> grid_class(grid, x, y) is None,
        grid_class(grid, x, y) matches Some(class) ==> cell_bits(grid, x as nat, y as nat)
            == class.spec_bits() && 2 <= class.spec_bits() <= 4,
{
}

/// The symbols of a text in two parts are those of its parts.
pub proof fn lemma_parse_concat(a: Seq<Seq<char>>, b: Seq<Seq<char>>)
    ensures
        spec_parse_clusters(a + b) == spec_parse_clusters(a) + spec_parse_clusters(b),
    decreases b.len(),
{
    if b.len() == 0 {
        assert(a + b =~= a);
        assert(spec_parse_clusters(a) + Seq::<(u8, usize)>::empty() =~= spec_parse_clusters(a));
    } else {
        lemma_parse_concat(a, b.drop_last());
        assert((a + b).drop_last() =~= a + b.drop_last());
        assert((a + b).last() == b.last());
        let front = spec_parse_clusters(a + b.drop_last());
        match cluster_symbol(b.last()) {
            Some(symbol) => {
                assert(spec_parse_clusters(a) + spec_parse_clusters(b.drop_last()).push(symbol)
                    =~= (spec_parse_clusters(a) + spec_parse_clusters(b.drop_last())).push(
                    symbol,
                ));
            },
            None => {},
        }
    }
}

/// A space and a line feed are no glyphs.
pub proof fn lemma_plain_characters()
    ensures
        spec_glyph_symbol(' ') is None,
        spec_glyph_symbol('\n') is None,
{
    lemma_glyph_symbol_sound(' ');
    lemma_glyph_symbol_sound('\n');
    if let Some(symbol) = spec_glyph_symbol(' ') {
        let class = choose|class: Connections| #[trigger]
            crate::connections::draws(class, symbol, ' ');
        lemma_glyph_codes(class, symbol.0 as int);
    }
    if let Some(symbol) = spec_glyph_symbol('\n') {
        let class = choose|class: Connections| #[trigger]
            crate::connections::draws(class, symbol, '\n');
        lemma_glyph_codes(class, symbol.0 as int);
    }
}

/// Reading the drawing of the first `n` cells of a row gives their symbols.
proof fn lemma_parse_row(grid: Seq<Seq<Cell>>, points: Seq<u8>, y: int, n: nat)
    requires
        grid_well_formed(grid),
        blackouts_plain(grid),
        drawable(grid, points),
        0 <= y < grid_height(grid),
        n <= grid_width(grid),
    ensures
        spec_parse_clusters(singletons(render_row(grid, points, y).take(n as int))) == row_symbols(
            grid,
            points,
            y,
            n,
        ),
    decreases n,
{
    let row = render_row(grid, points, y);
    if n == 0 {
        assert(singletons(row.take(0)) =~= Seq::<Seq<char>>::empty());
    } else {
        lemma_parse_row(grid, points, y, (n - 1) as nat);
        let x = n - 1;
        let glyph = cell_glyph(grid, points, x, y);
        let clusters = singletons(row.take(n as int));
        assert(row[x] == glyph);
        assert(clusters.drop_last() =~= singletons(row.take(x)));
        assert(clusters.last() =~= seq![glyph]);
        assert(cluster_symbol(clusters.last()) == spec_glyph_symbol(glyph));
        lemma_plain_characters();
        lemma_cell_bits(grid, x, y);
        match grid[y][x] {
            Cell::Blackout(c) => {
                assert(grid_class(grid, x, y) is None);
            },
            Cell::Filled => {
                match grid_class(grid, x, y) {
                    Some(class) => {
                        let point = point_at(points, cell_rank(grid, x, y));
                        lemma_family_size(class);
                        assert(point < pow2(cell_bits(grid, x as nat, y as nat)));
                        lemma_glyph_symbol_of_glyph(class, point);
                    },
                    None => {},
                }
            },
        }
    }
}

/// Reading the drawing of the first `m` rows gives their symbols.
proof fn lemma_parse_rows(grid: Seq<Seq<Cell>>, points: Seq<u8>, m: nat)
    requires
        grid_well_formed(grid),
        blackouts_plain(grid),
        drawable(grid, points),
        m <= grid_height(grid),
    ensures
        spec_parse_clusters(singletons(render_rows(grid, points, m))) == rows_symbols(
            grid,
            points,
            m,
        ),
    decreases m,
{
    let width = grid_width(grid);
    if m == 0 {
        assert(singletons(render_rows(grid, points, 0)) =~= Seq::<Seq<char>>::empty());
    } else {
        let row = render_row(grid, points, m - 1);
        lemma_parse_rows(grid, points, (m - 1) as nat);
        lemma_parse_row(grid, points, m - 1, width);
        assert(row.take(width as int) =~= row);
        let above = render_rows(grid, points, (m - 1) as nat);
        if m == 1 {
            assert(above =~= Seq::<char>::empty());
            assert(rows_symbols(grid, points, 0) + row_symbols(grid, points, 0, width)
                =~= row_symbols(grid, points, 0, width));
        } else {
            let feed = seq!['\n'];
            lemma_plain_characters();
            assert(singletons(above + feed + row) =~= singletons(above) + singletons(feed)
                + singletons(row));
            lemma_parse_concat(singletons(above) + singletons(feed), singletons(row));
            lemma_parse_concat(singletons(above), singletons(feed));
            assert(singletons(feed) =~= seq![feed]);
            assert(seq![feed].drop_last() =~= Seq::<Seq<char>>::empty());
            assert(spec_parse_clusters(Seq::<Seq<char>>::empty()) =~= Seq::<(u8, usize)>::empty());
            assert(seq![feed].last() == feed);
            assert(cluster_symbol(feed) is None);
            assert(spec_parse_clusters(seq![feed]) =~= Seq::<(u8, usize)>::empty());
            assert(spec_parse_clusters(singletons(above)) + Seq::<(u8, usize)>::empty()
                =~= spec_parse_clusters(singletons(above)));
        }
    }
}

/// The symbols of a grid are those of the cells before any cell and those
/// from that cell on.
proof fn lemma_symbols_split(grid: Seq<Seq<Cell>>, points: Seq<u8>, x: nat, y: nat)
    requires
        grid_well_formed(grid),
        x < grid_width(grid),
        y <= grid_height(grid),
        y == grid_height(grid) ==> x == 0,
    ensures
        rows_symbols(grid, points, y) + row_symbols(grid, points, y as int, x) + symbols_from(
            grid,
            points,
            cell_rank(grid, x as int, y as int),
            x,
            y,
        ) == grid_symbols(grid, points),
    decreases grid_height(grid) - y, grid_width(grid) - x,
{
    let above = rows_symbols(grid, points, y);
    let left = row_symbols(grid, points, y as int, x);
    let rank = cell_rank(grid, x as int, y as int);
    if y == grid_height(grid) {
        assert(above + left + symbols_from(grid, points, rank, x, y) =~= above);
    } else {
        let ahead_x = next_x(grid, x);
        let ahead_y = next_y(grid, x, y);
        lemma_symbols_split(grid, points, ahead_x, ahead_y);
        lemma_cell_bits(grid, x as int, y as int);
        let ahead_rank = cell_rank(grid, ahead_x as int, ahead_y as int);
        let ahead = symbols_from(grid, points, ahead_rank, ahead_x, ahead_y);
        let here = row_symbols(grid, points, y as int, x + 1);
        assert(row_rank(grid, y as int, x + 1) == row_rank(grid, y as int, x) + if grid_class(
            grid,
            x as int,
            y as int,
        ) is Some {
            1nat
        } else {
            0
        });
        if x + 1 < grid_width(grid) {
            assert(ahead_x == x + 1 && ahead_y == y);
        } else {
            assert(ahead_x == 0 && ahead_y == y + 1);
            assert(rows_symbols(grid, points, y + 1) == above + here);
            assert(row_symbols(grid, points, (y + 1) as int, 0) =~= Seq::<(u8, usize)>::empty());
            assert(rows_rank(grid, y + 1) == rows_rank(grid, y) + row_rank(
                grid,
                y as int,
                grid_width(grid),
            ));
            assert(rows_symbols(grid, points, y + 1) + row_symbols(
                grid,
                points,
                (y + 1) as int,
                0,
            ) =~= above + here);
        }
        match grid_class(grid, x as int, y as int) {
            Some(class) => {
                let symbol = (point_at(points, rank), cell_bits(grid, x, y) as usize);
                assert(here == left.push(symbol));
                assert(ahead_rank == rank + 1);
                assert(above + left + (seq![symbol] + ahead) =~= above + left.push(symbol)
                    + ahead);
            },
            None => {
                assert(here == left);
                assert(ahead_rank == rank);
            },
        }
    }
}

/// What the symbols are, front to back: the bits and the number of a
/// symbol followed by more symbols.
proof fn lemma_packed_cons(symbol: (u8, usize), rest: Seq<(u8, usize)>)
    ensures
        packed_bits(seq![symbol] + rest) == symbol.1 + packed_bits(rest),
        packed_value(seq![symbol] + rest) == symbol.0 + pow2(symbol.1 as nat) * packed_value(rest),
        symbols_well_formed(seq![symbol] + rest) <==> symbol.1 <= 8 && symbol.0 < pow2(
            symbol.1 as nat,
        ) && symbols_well_formed(rest),
    decreases rest.len(),
{
    let all = seq![symbol] + rest;
    lemma2_to64();
    if rest.len() == 0 {
        assert(all =~= seq![symbol]);
        assert(all.drop_last() =~= Seq::<(u8, usize)>::empty());
        assert(packed_bits(all.drop_last()) == 0);
        assert(packed_value(all.drop_last()) == 0);
        assert(all.last() == symbol);
        assert(packed_value(all) == symbol.0 * pow2(0));
        assert(symbol.0 * pow2(0) == symbol.0) by (nonlinear_arith)
            requires
                pow2(0) == 1,
        ;
        assert(pow2(symbol.1 as nat) * packed_value(rest) == 0) by (nonlinear_arith)
            requires
                packed_value(rest) == 0,
        ;
        assert(all[0] == symbol);
    } else {
        let front = rest.drop_last();
        let last = rest.last();
        lemma_packed_cons(symbol, front);
        assert(all.drop_last() =~= seq![symbol] + front);
        assert(all.last() == last);
        let low = pow2(symbol.1 as nat);
        lemma_pow2_adds(symbol.1 as nat, packed_bits(front));
        assert(low * (packed_value(front) + last.0 * pow2(packed_bits(front))) == low
            * packed_value(front) + last.0 * (low * pow2(packed_bits(front)))) by (nonlinear_arith);
        assert forall|i: int| 0 <= i < rest.len() implies #[trigger] rest[i] == all[i + 1] by {}
        assert(all[0] == symbol);
        if symbols_well_formed(all) {
            assert forall|i: int| 0 <= i < rest.len() implies (#[trigger] rest[i]).1 <= 8
                && rest[i].0 < pow2(rest[i].1 as nat) by {
                assert(rest[i] == all[i + 1]);
            }
        }
        if symbol.1 <= 8 && symbol.0 < pow2(symbol.1 as nat) && symbols_well_formed(rest) {
            assert forall|i: int| 0 <= i < all.len() implies (#[trigger] all[i]).1 <= 8
                && all[i].0 < pow2(all[i].1 as nat) by {
                if i > 0 {
                    assert(all[i] == rest[i - 1]);
                }
            }
        }
    }
}

/// Once the points have run out, the cells draw nothing but zeros.
proof fn lemma_zero_symbols(grid: Seq<Seq<Cell>>, points: Seq<u8>, rank: nat, x: nat, y: nat)
    requires
        rank >= points.len(),
    ensures
        symbols_well_formed(symbols_from(grid, points, rank, x, y)),
        packed_bits(symbols_from(grid, points, rank, x, y)) == bits_from(grid, x, y),
        packed_value(symbols_from(grid, points, rank, x, y)) == 0,
    decreases grid_height(grid) - y, grid_width(grid) - x,
{
    if !(y >= grid_height(grid) || x >= grid_width(grid)) {
        let bits = cell_bits(grid, x, y);
        lemma_cell_bits(grid, x as int, y as int);
        if bits == 0 {
            lemma_zero_symbols(grid, points, rank, next_x(grid, x), next_y(grid, x, y));
        } else {
            let rest = symbols_from(grid, points, rank + 1, next_x(grid, x), next_y(grid, x, y));
            lemma_zero_symbols(grid, points, rank + 1, next_x(grid, x), next_y(grid, x, y));
            lemma_packed_cons((0u8, bits as usize), rest);
            lemma_pow2_pos(bits);
            assert(pow2(bits) * packed_value(rest) == 0) by (nonlinear_arith)
                requires
                    packed_value(rest) == 0,
            ;
        }
    }
}

/// A point put before the points moves every rank by one.
proof fn lemma_symbols_shift(
    grid: Seq<Seq<Cell>>,
    first: u8,
    points: Seq<u8>,
    rank: nat,
    x: nat,
    y: nat,
)
    ensures
        symbols_from(grid, seq![first] + points, rank + 1, x, y) == symbols_from(
            grid,
            points,
            rank,
            x,
            y,
        ),
    decreases grid_height(grid) - y, grid_width(grid) - x,
{
    if !(y >= grid_height(grid) || x >= grid_width(grid)) {
        let longer = seq![first] + points;
        assert(point_at(longer, rank + 1) == point_at(points, rank)) by {
            if rank < points.len() {
                assert(longer[rank as int + 1] == points[rank as int]);
            }
        }
        if cell_bits(grid, x, y) == 0 {
            lemma_symbols_shift(grid, first, points, rank, next_x(grid, x), next_y(grid, x, y));
        } else {
            lemma_symbols_shift(
                grid,
                first,
                points,
                rank + 1,
                next_x(grid, x),
                next_y(grid, x, y),
            );
        }
    }
}

/// The symbols that the cells from a cell on draw for the points they take
/// of a number spell the bits of the number that they take.
proof fn lemma_symbols_value(grid: Seq<Seq<Cell>>, x: nat, y: nat, value: nat, available: nat)
    ensures
        symbols_well_formed(
            symbols_from(grid, points_from(grid, x, y, value, available), 0, x, y),
        ),
        packed_bits(symbols_from(grid, points_from(grid, x, y, value, available), 0, x, y))
            == bits_from(grid, x, y),
        packed_value(symbols_from(grid, points_from(grid, x, y, value, available), 0, x, y))
            == value % pow2(taken_from(grid, x, y, available)),
    decreases grid_height(grid) - y, grid_width(grid) - x,
{
    lemma2_to64();
    let points = points_from(grid, x, y, value, available);
    if y >= grid_height(grid) || x >= grid_width(grid) {
        assert(value % pow2(0) == 0);
    } else {
        let bits = cell_bits(grid, x, y);
        let ahead_x = next_x(grid, x);
        let ahead_y = next_y(grid, x, y);
        lemma_points_step(grid, x, y, value, available);
        lemma_cell_bits(grid, x as int, y as int);
        if bits == 0 {
            lemma_symbols_value(grid, ahead_x, ahead_y, value, available);
        } else if bits <= available {
            lemma_pow2_mod_bound(value, bits);
            lemma_pow2_pos(bits);
            vstd::arithmetic::div_mod::lemma_div_pos_is_pos(value as int, pow2(bits) as int);
            let shifted = value / pow2(bits);
            let left = (available - bits) as nat;
            let point = (value % pow2(bits)) as u8;
            let tail = points_from(grid, ahead_x, ahead_y, shifted, left);
            assert(points == seq![point] + tail);
            lemma_symbols_value(grid, ahead_x, ahead_y, shifted, left);
            lemma_symbols_shift(grid, point, tail, 0, ahead_x, ahead_y);
            let rest = symbols_from(grid, tail, 0, ahead_x, ahead_y);
            assert(point_at(points, 0) == point);
            assert(symbols_from(grid, points, 0, x, y) == seq![(point, bits as usize)] + rest);
            lemma_packed_cons((point, bits as usize), rest);
            lemma_split_mod(value, bits, taken_from(grid, ahead_x, ahead_y, left));
        } else {
            assert(points =~= Seq::<u8>::empty());
            let rest = symbols_from(grid, points, 1, ahead_x, ahead_y);
            lemma_zero_symbols(grid, points, 1, ahead_x, ahead_y);
            lemma_packed_cons((0u8, bits as usize), rest);
            lemma_pow2_pos(bits);
            assert(pow2(bits) * packed_value(rest) == 0) by (nonlinear_arith)
                requires
                    packed_value(rest) == 0,
            ;
            assert(value % pow2(0) == 0);
        }
    }
}

/// The points of a byte buffer fit the cells that draw them.
pub proof fn lemma_points_drawable(grid: Seq<Seq<Cell>>, bytes: Seq<u8>)
    requires
        grid_well_formed(grid),
    ensures
        drawable(grid, spec_bytes_to_points(grid, bytes)),
{
    let points = spec_bytes_to_points(grid, bytes);
    let all = grid_symbols(grid, points);
    lemma2_to64();
    lemma_symbols_value(grid, 0, 0, le_value(bytes), 8 * bytes.len());
    lemma_symbols_split(grid, points, 0, 0);
    assert(rows_symbols(grid, points, 0) + row_symbols(grid, points, 0, 0) + symbols_from(
        grid,
        points,
        0,
        0,
        0,
    ) =~= symbols_from(grid, points, 0, 0, 0));
    assert forall|x: int, y: int|
        0 <= y < grid_height(grid) && 0 <= x < grid_width(grid) && grid_class(grid, x, y)
            is Some implies point_at(points, #[trigger] cell_rank(grid, x, y)) < pow2(
        cell_bits(grid, x as nat, y as nat),
    ) by {
        let bits = cell_bits(grid, x as nat, y as nat);
        let rank = cell_rank(grid, x, y);
        lemma_cell_bits(grid, x, y);
        lemma_symbols_split(grid, points, x as nat, y as nat);
        let before = rows_symbols(grid, points, y as nat) + row_symbols(grid, points, y, x as nat);
        let after = symbols_from(grid, points, rank, x as nat, y as nat);
        assert(after[0] == (point_at(points, rank), bits as usize));
        assert(all[before.len() as int] == after[0]);
    }
}

/// Reading a drawing back gives the symbols that the grid draws, where no
/// blackout cell shows a glyph and every character of the drawing is a
/// cluster of its own.
pub proof fn lemma_parse_of_render(grid: Seq<Seq<Cell>>, points: Seq<u8>)
    requires
        grid_well_formed(grid),
        blackouts_plain(grid),
        drawable(grid, points),
    ensures
        spec_parse_clusters(singletons(spec_render(grid, points))) == grid_symbols(grid, points),
{
    lemma_parse_rows(grid, points, grid_height(grid));
}

/// Round trip: a byte buffer drawn on a grid and read back is the buffer
/// again, in the first bytes of what is read. It holds where the cells of
/// the grid can take the buffer, the bits at the end of the buffer that fill
/// no cell are zero, no blackout cell shows a glyph, and every character of
/// the drawing is a cluster of its own.
pub proof fn lemma_round_trip(grid: Seq<Seq<Cell>>, bytes: Seq<u8>)
    requires
        grid_well_formed(grid),
        8 * bytes.len() <= grid_symbol_bits(grid),
        le_value(bytes) < pow2(spec_encoded_bits(grid, bytes)),
        blackouts_plain(grid),
    ensures
        spec_box_points_to_bytes(
            spec_parse_clusters(singletons(spec_display_bytes(grid, bytes))),
        ).len() >= bytes.len(),
        spec_box_points_to_bytes(
            spec_parse_clusters(singletons(spec_display_bytes(grid, bytes))),
        ).take(bytes.len() as int) == bytes,
{
    let points = spec_bytes_to_points(grid, bytes);
    let value = le_value(bytes);
    let symbols = grid_symbols(grid, points);
    lemma_points_drawable(grid, bytes);
    lemma_parse_of_render(grid, points);
    lemma_symbols_value(grid, 0, 0, value, 8 * bytes.len());
    lemma_symbols_split(grid, points, 0, 0);
    assert(rows_symbols(grid, points, 0) + row_symbols(grid, points, 0, 0) + symbols_from(
        grid,
        points,
        0,
        0,
        0,
    ) =~= symbols_from(grid, points, 0, 0, 0));
    lemma_small(value, spec_encoded_bits(grid, bytes));
    lemma_le_bytes_of_value(bytes);
    let decoded = spec_box_points_to_bytes(symbols);
    assert(decoded == le_bytes(value, packed_bits(symbols) / 8));
    assert(decoded.take(bytes.len() as int) =~= le_bytes(value, bytes.len()));
}

/// Whether no text of a blackout holds a glyph of a family.
pub open spec fn texts_plain(config: Option<BoxLayoutConfig>) -> bool {
    forall|j: int, i: int|
        0 <= j < config_blackouts(config).len() && 0 <= i < config_blackouts(config)[j].2@.len()
            ==> spec_glyph_symbol(#[trigger] config_blackouts(config)[j].2@[i]) is None
}

/// Round trip on a sized layout: a byte buffer drawn on the layout that is
/// sized for it and read back is the buffer again, in the first bytes of
/// what is read. It holds where the cells of the layout can take the buffer,
/// the bits at the end of the buffer that fill no cell are zero, no text of
/// a blackout holds a glyph, and every character of the drawing is a cluster
/// of its own.
pub proof fn lemma_sized_round_trip(bytes: Seq<u8>, config: Option<BoxLayoutConfig>)
    requires
        config_valid(config),
        texts_plain(config),
        spec_layout(8 * bytes.len(), config) is Some,
        8 * bytes.len() <= grid_symbol_bits(spec_layout(8 * bytes.len(), config)->0),
        le_value(bytes) < pow2(
            spec_encoded_bits(spec_layout(8 * bytes.len(), config)->0, bytes),
        ),
    ensures
        spec_box_points_to_bytes(
            spec_parse_clusters(
                singletons(spec_display_bytes(spec_layout(8 * bytes.len(), config)->0, bytes)),
            ),
        ).take(bytes.len() as int) == bytes,
{
    let grid = spec_layout(8 * bytes.len(), config)->0;
    lemma_layout_well_formed(8 * bytes.len(), config);
    assert forall|x: int, y: int|
        0 <= y < grid_height(grid) && 0 <= x < grid_width(grid) implies (#[trigger] grid[y][x]
        matches Cell::Blackout(c) ==> spec_glyph_symbol(c) is None) by {
        if grid[y][x] is Blackout {
            lemma_blackout_cells_from_text(8 * bytes.len(), config, x, y);
        }
    }
    lemma_round_trip(grid, bytes);
}

} // verus!
