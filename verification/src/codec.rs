//! The grid codec: bytes to the points of a layout's cells, and points back
//! to bytes.
//!
//! The cells are walked row by row. A cell with a connectivity class takes
//! the next bits of the payload, as many as its class is wide; a cell
//! without one takes none.

use crate::connections::class_bits;
use crate::layout::{grid_class, grid_height, grid_width, BoxLayout};
use crate::pack::{
    le_bytes, le_value, lemma_add_high, lemma_div_div, lemma_le_value_byte, lemma_low_byte_unchanged,
    lemma_mod_div, lemma_mod_mod, lemma_packed_value_bound, lemma_pow2_mod_bound, lemma_small,
    lemma_split_mod, packed_bits, packed_value, symbols_well_formed,
};
use vstd::arithmetic::power2::{lemma2_to64, lemma_pow2_adds, lemma_pow2_pos, pow2};
use vstd::bits::{lemma_u32_shl_is_mul, lemma_u32_shr_is_div};
use vstd::prelude::*;

verus! {

/// The column of the cell after the one at column `x`.
pub open spec fn next_x(grid: Seq<Seq<crate::layout::Cell>>, x: nat) -> nat {
    if x + 1 < grid_width(grid) {
        x + 1
    } else {
        0
    }
}

/// The row of the cell after the one at column `x` of row `y`.
pub open spec fn next_y(grid: Seq<Seq<crate::layout::Cell>>, x: nat, y: nat) -> nat {
    if x + 1 < grid_width(grid) {
        y
    } else {
        y + 1
    }
}

/// The width in bits of the cell at column `x` of row `y`: that of its
/// class, or nothing for a cell without one.
pub open spec fn cell_bits(grid: Seq<Seq<crate::layout::Cell>>, x: nat, y: nat) -> nat {
    class_bits(grid_class(grid, x as int, y as int))
}

/// The points that the cells from column `x` of row `y` on take from
/// `value`, of which `available` bits are payload: each cell with a class
/// takes the lowest bits that are left, until a cell asks for more bits than
/// are left.
pub open spec fn points_from(
    grid: Seq<Seq<crate::layout::Cell>>,
    x: nat,
    y: nat,
    value: nat,
    available: nat,
) -> Seq<u8>
    decreases grid_height(grid) - y, grid_width(grid) - x,
{
    if y >= grid_height(grid) || x >= grid_width(grid) {
        Seq::empty()
    } else if cell_bits(grid, x, y) == 0 {
        points_from(grid, next_x(grid, x), next_y(grid, x, y), value, available)
    } else if cell_bits(grid, x, y) <= available {
        seq![(value % pow2(cell_bits(grid, x, y))) as u8] + points_from(
            grid,
            next_x(grid, x),
            next_y(grid, x, y),
            value / pow2(cell_bits(grid, x, y)),
            (available - cell_bits(grid, x, y)) as nat,
        )
    } else {
        Seq::empty()
    }
}

/// The points that a grid draws for a byte buffer.
pub open spec fn spec_bytes_to_points(grid: Seq<Seq<crate::layout::Cell>>, bytes: Seq<u8>) -> Seq<
    u8,
> {
    points_from(grid, 0, 0, le_value(bytes), 8 * bytes.len())
}

/// The bits that the cells from column `x` of row `y` on can take.
pub open spec fn bits_from(grid: Seq<Seq<crate::layout::Cell>>, x: nat, y: nat) -> nat
    decreases grid_height(grid) - y, grid_width(grid) - x,
{
    if y >= grid_height(grid) || x >= grid_width(grid) {
        0
    } else {
        cell_bits(grid, x, y) + bits_from(
            grid,
            next_x(grid, x),
            next_y(grid, x, y),
        )
    }
}

/// The bits that the cells of a grid can take: the widths of the classes of
/// all its cells.
pub open spec fn grid_symbol_bits(grid: Seq<Seq<crate::layout::Cell>>) -> nat {
    bits_from(grid, 0, 0)
}

/// The bytes that a sequence of points with their widths packs to: the
/// whole bytes of the number that the points spell.
pub open spec fn spec_box_points_to_bytes(points: Seq<(u8, usize)>) -> Seq<u8> {
    le_bytes(packed_value(points), packed_bits(points) / 8)
}

/// With no bits left, no cell takes a point.
pub proof fn lemma_no_bits_no_points(
    grid: Seq<Seq<crate::layout::Cell>>,
    x: nat,
    y: nat,
    value: nat,
)
    ensures
        points_from(grid, x, y, value, 0) == Seq::<u8>::empty(),
    decreases grid_height(grid) - y, grid_width(grid) - x,
{
    if !(y >= grid_height(grid) || x >= grid_width(grid)) {
        lemma_no_bits_no_points(grid, next_x(grid, x), next_y(grid, x, y), value);
    }
}

/// How the points from a cell on unfold into the point of that cell, if
/// it takes one, and the points from the next cell on.
pub proof fn lemma_points_step(
    grid: Seq<Seq<crate::layout::Cell>>,
    x: nat,
    y: nat,
    value: nat,
    available: nat,
)
    requires
        y < grid_height(grid),
        x < grid_width(grid),
    ensures
        points_from(grid, x, y, value, available) == if cell_bits(grid, x, y) == 0 {
            points_from(grid, next_x(grid, x), next_y(grid, x, y), value, available)
        } else if cell_bits(grid, x, y) <= available {
            seq![(value % pow2(cell_bits(grid, x, y))) as u8] + points_from(
                grid,
                next_x(grid, x),
                next_y(grid, x, y),
                value / pow2(cell_bits(grid, x, y)),
                (available - cell_bits(grid, x, y)) as nat,
            )
        } else {
            Seq::<u8>::empty()
        },
{
    let bits = cell_bits(grid, x, y);
    lemma_pow2_pos(bits);
    vstd::arithmetic::div_mod::lemma_div_pos_is_pos(value as int, pow2(bits) as int);
}

/// Bits loaded above those that the accumulator holds add to it.
pub(crate) proof fn lemma_load(acc: u32, byte: u32, shift: u32)
    by (bit_vector)
    requires
        shift <= 7,
        acc < (1u32 << shift),
        byte < 256,
    ensures
        acc | (byte << shift) == acc + (byte << shift),
        (byte << shift) <= 0x7f80,
{
}

/// A shift of a byte by less than eight bits is a multiplication.
pub(crate) proof fn lemma_shifted(byte: u32, shift: u32)
    requires
        byte < 256,
        shift <= 7,
    ensures
        byte << shift == byte * pow2(shift as nat),
        (1u32 << shift) == pow2(shift as nat),
{
    lemma2_to64();
    vstd::arithmetic::power2::lemma_pow2_strictly_increases(shift as nat, 8);
    assert(byte * pow2(shift as nat) <= 255 * 256) by (nonlinear_arith)
        requires
            byte <= 255,
            pow2(shift as nat) <= 256,
    ;
    lemma_u32_shl_is_mul(byte, shift);
    lemma_u32_shl_is_mul(1, shift);
}

/// The mask of the low `width` bits takes a number modulo two to the `width`.
proof fn lemma_low_bits(acc: u32, width: u32)
    by (bit_vector)
    requires
        width <= 8,
    ensures
        1 <= (1u32 << width) <= 256,
        acc & (((1u32 << width) - 1) as u32) == acc % (1u32 << width),
{
}

/// What the accumulator holds once a byte is loaded above its `offset` bits.
pub(crate) proof fn lemma_loaded(acc: u32, byte: u8, offset: u32, rest: nat)
    requires
        offset <= 7,
        acc == rest % pow2(offset as nat),
        byte == (rest / pow2(offset as nat)) % 256,
    ensures
        acc | ((byte as u32) << offset) == rest % pow2((offset + 8) as nat),
        (acc | ((byte as u32) << offset)) < 0x8000,
{
    lemma2_to64();
    lemma_pow2_mod_bound(rest, offset as nat);
    lemma_shifted(byte as u32, offset);
    lemma_load(acc, byte as u32, offset);
    lemma_split_mod(rest, offset as nat, 8);
    assert(byte * pow2(offset as nat) == pow2(offset as nat) * byte) by (nonlinear_arith);
}

/// What taking the low `width` bits of the accumulator gives, and leaves.
pub(crate) proof fn lemma_taken(acc: u32, width: u32, offset: u32, rest: nat)
    requires
        width <= 8,
        width <= offset <= 16,
        acc == rest % pow2(offset as nat),
    ensures
        1 <= (1u32 << width) <= 256,
        acc & (((1u32 << width) - 1) as u32) == rest % pow2(width as nat),
        acc >> width == (rest / pow2(width as nat)) % pow2((offset - width) as nat),
        rest % pow2(width as nat) < 256,
{
    lemma2_to64();
    lemma_low_bits(acc, width);
    lemma_u32_shl_is_mul(1, width);
    lemma_u32_shr_is_div(acc, width);
    lemma_mod_mod(rest, offset as nat, width as nat);
    lemma_mod_div(rest, offset as nat, width as nat);
    lemma_pow2_mod_bound(rest, width as nat);
}

impl BoxLayout {
    /// Whether the cells of the layout can take `length` bytes.
    pub fn holds_bytes(&self, length: usize) -> (holds: bool)
        requires
            self.well_formed(),
        ensures
            holds == (8 * length <= grid_symbol_bits(self@)),
    {
        let width = self.width();
        let height = self.height();
        let limit: u128 = (length as u128) * 8;
        let mut bits: u128 = 0;
        let mut x: usize = 0;
        let mut y: usize = height;
        while !(x == 0 && y == 0)
            invariant
                self.well_formed(),
                width == grid_width(self@),
                height == grid_height(self@),
                limit == 8 * length,
                x < width,
                y <= height,
                y == height ==> x == 0,
                bits <= limit,
                bits == limit || bits == bits_from(self@, x as nat, y as nat),
                bits == limit ==> limit <= bits_from(self@, x as nat, y as nat),
            decreases y, x,
        {
            let ghost after = bits_from(self@, x as nat, y as nat);
            if x > 0 {
                x -= 1;
            } else {
                y -= 1;
                x = width - 1;
            }
            assert(bits_from(self@, x as nat, y as nat) == cell_bits(self@, x as nat, y as nat)
                + after);
            if let Some(connection) = self.get_connections_at(x, y) {
                let taken = connection.get_bits() as u128;
                if limit - bits <= taken {
                    bits = limit;
                } else {
                    bits += taken;
                }
            }
        }
        bits >= limit
    }

    /// The points that the cells of the layout draw for a byte buffer: each
    /// cell with a class, in reading order, takes the next bits of the
    /// buffer, as many as its class is wide. Bits at the end that do not
    /// fill the next cell are left out.
    pub fn bytes_to_points(&self, bytes: &[u8]) -> (points: Vec<u8>)
        requires
            self.well_formed(),
            8 * bytes@.len() <= grid_symbol_bits(self@),
        ensures
            points@ == spec_bytes_to_points(self@, bytes@),
    {
        let width = self.width();
        let height = self.height();
        let mut results: Vec<u8> = Vec::new();
        let mut bits: u32 = 0;
        let mut offset: u32 = 0;
        let mut x: usize = 0;
        let mut y: usize = 0;
        let ghost value = le_value(bytes@);
        let ghost total = 8 * bytes@.len();
        let ghost mut consumed: nat = 0;
        let mut j: usize = 0;
        proof {
            lemma2_to64();
            lemma_small(0, 0);
            assert(value / pow2(0) == value);
        }
        while j < bytes.len()
            invariant
                self.well_formed(),
                width == grid_width(self@),
                height == grid_height(self@),
                value == le_value(bytes@),
                total == 8 * bytes@.len(),
                j <= bytes@.len(),
                offset <= 3,
                consumed + offset == 8 * j,
                bits == (value / pow2(consumed)) % pow2(offset as nat),
                x < width,
                y <= height,
                y == height ==> x == 0,
                total - consumed <= bits_from(self@, x as nat, y as nat),
                results@ + points_from(
                    self@,
                    x as nat,
                    y as nat,
                    value / pow2(consumed),
                    (total - consumed) as nat,
                ) == spec_bytes_to_points(self@, bytes@),
                offset == 0 || (y < height && offset < cell_bits(self@, x as nat, y as nat)),
            decreases bytes@.len() - j,
        {
            let byte = bytes[j];
            proof {
                let rest = value / pow2(consumed);
                lemma_div_div(value, consumed, offset as nat);
                lemma_le_value_byte(bytes@, j as int);
                lemma_loaded(bits, byte, offset, rest);
            }
            bits = bits | ((byte as u32) << offset);
            offset = offset + 8;
            j = j + 1;
            loop
                invariant_except_break
                    0 < offset,
                invariant
                    self.well_formed(),
                    width == grid_width(self@),
                    height == grid_height(self@),
                    value == le_value(bytes@),
                    total == 8 * bytes@.len(),
                    j <= bytes@.len(),
                    offset <= 11,
                    consumed + offset == 8 * j,
                    bits == (value / pow2(consumed)) % pow2(offset as nat),
                    x < width,
                    y <= height,
                    y == height ==> x == 0,
                    total - consumed <= bits_from(self@, x as nat, y as nat),
                    results@ + points_from(
                        self@,
                        x as nat,
                        y as nat,
                        value / pow2(consumed),
                        (total - consumed) as nat,
                    ) == spec_bytes_to_points(self@, bytes@),
                ensures
                    offset <= 3,
                    offset == 0 || (y < height && offset < cell_bits(self@, x as nat, y as nat)),
                decreases height - y, width - x,
            {
                assert(y < height);
                proof {
                    lemma_points_step(
                        self@,
                        x as nat,
                        y as nat,
                        value / pow2(consumed),
                        (total - consumed) as nat,
                    );
                }
                let ghost rest = value / pow2(consumed);
                let ghost before = results@;
                let ghost left = (total - consumed) as nat;
                let ghost ahead_x = next_x(self@, x as nat);
                let ghost ahead_y = next_y(self@, x as nat, y as nat);
                if let Some(connection) = self.get_connections_at(x, y) {
                    let connection_bits = connection.get_bits() as u32;
                    if offset >= connection_bits {
                        proof {
                            lemma_taken(bits, connection_bits, offset, rest);
                            lemma_div_div(value, consumed, connection_bits as nat);
                        }
                        results.push((bits & ((1u32 << connection_bits) - 1)) as u8);
                        bits = bits >> connection_bits;
                        offset = offset - connection_bits;
                        proof {
                            consumed = consumed + connection_bits as nat;
                            let point = results@.last();
                            let tail = points_from(
                                self@,
                                ahead_x,
                                ahead_y,
                                rest / pow2(connection_bits as nat),
                                (left - connection_bits) as nat,
                            );
                            assert(cell_bits(self@, x as nat, y as nat) == connection_bits);
                            assert(connection_bits <= left);
                            assert(point == (rest % pow2(connection_bits as nat)) as u8);
                            assert(points_from(self@, x as nat, y as nat, rest, left) == seq![
                                point,
                            ] + tail);
                            assert(value / pow2(consumed) == rest / pow2(connection_bits as nat));
                            assert(results@ == before.push(point));
                            assert(before.push(point) + tail =~= before + (seq![point] + tail));
                        }
                    } else {
                        break ;
                    }
                } else {
                    assert(cell_bits(self@, x as nat, y as nat) == 0);
                    assert(points_from(self@, x as nat, y as nat, rest, left) == points_from(
                        self@,
                        ahead_x,
                        ahead_y,
                        rest,
                        left,
                    ));
                }
                if x < width - 1 {
                    x += 1;
                } else {
                    x = 0;
                    y += 1;
                }
                if offset == 0 {
                    break ;
                }
            }
        }
        proof {
            let rest = value / pow2(consumed);
            assert(total - consumed == offset);
            if y < height {
                lemma_points_step(self@, x as nat, y as nat, rest, offset as nat);
            }
            if offset == 0 {
                lemma_no_bits_no_points(self@, x as nat, y as nat, rest);
            } else {
                assert(points_from(self@, x as nat, y as nat, rest, offset as nat) == Seq::<
                    u8,
                >::empty());
            }
            assert(results@ + Seq::<u8>::empty() =~= results@);
        }
        results
    }
}

/// Packs points, each with its width in bits, into bytes: the points are
/// laid end to end, the first lowest, and every whole byte is given out.
pub fn box_points_to_bytes(points: &[(u8, usize)]) -> (bytes: Vec<u8>)
    requires
        symbols_well_formed(points@),
    ensures
        bytes@ == spec_box_points_to_bytes(points@),
{
    let mut bytes: Vec<u8> = Vec::new();
    let mut bits: u32 = 0;
    let mut offset: u32 = 0;
    let mut i: usize = 0;
    proof {
        lemma2_to64();
        assert(points@.take(0).len() == 0);
        lemma_small(0, 0);
    }
    while i < points.len()
        invariant
            i <= points@.len(),
            symbols_well_formed(points@),
            offset < 8,
            packed_bits(points@.take(i as int)) == 8 * bytes@.len() + offset,
            bits == packed_value(points@.take(i as int)) / pow2(8 * bytes@.len()),
            bytes@ == le_bytes(packed_value(points@.take(i as int)), bytes@.len()),
        decreases points@.len() - i,
    {
        let point = points[i].0;
        let width = points[i].1 as u32;
        let ghost front = points@.take(i as int);
        let ghost next = points@.take(i + 1);
        let ghost whole = 8 * bytes@.len();
        proof {
            lemma2_to64();
            assert(next.drop_last() == front);
            assert(next.last() == points@[i as int]);
            assert(symbols_well_formed(front));
            lemma_packed_value_bound(front);
            lemma_small(packed_value(front), packed_bits(front));
            lemma_mod_div(packed_value(front), packed_bits(front), whole);
            lemma_pow2_mod_bound(packed_value(front) / pow2(whole), offset as nat);
            lemma_pow2_adds(whole, offset as nat);
            assert(point * pow2(packed_bits(front)) == (point * pow2(offset as nat)) * pow2(whole))
                by (nonlinear_arith)
                requires
                    pow2(packed_bits(front)) == pow2(whole) * pow2(offset as nat),
            ;
            lemma_add_high(packed_value(front), point as nat * pow2(offset as nat), whole);
            lemma_shifted(point as u32, offset);
            lemma_load(bits, point as u32, offset);
            assert forall|j: int| 0 <= j < bytes@.len() implies le_bytes(
                packed_value(next),
                bytes@.len(),
            )[j] == bytes@[j] by {
                lemma_low_byte_unchanged(
                    packed_value(front),
                    point as nat,
                    packed_bits(front),
                    j as nat,
                );
            }
            assert(le_bytes(packed_value(next), bytes@.len()) =~= bytes@);
        }
        assert(packed_value(next) / pow2(whole) == packed_value(front) / pow2(whole) + point
            * pow2(offset as nat));
        assert(offset == 0 ==> bits == 0);
        assert(offset == 0 ==> point * pow2(offset as nat) == point) by (nonlinear_arith)
            requires
                offset == 0 ==> pow2(offset as nat) == 1,
        ;
        if offset == 0 {
            bits = point as u32;
            offset = width;
        } else {
            bits = bits | ((point as u32) << offset);
            offset = offset + width;
        }
        while offset >= 8
            invariant
                offset < 16,
                next == points@.take(i + 1),
                packed_bits(next) == 8 * bytes@.len() + offset,
                bits == packed_value(next) / pow2(8 * bytes@.len()),
                bytes@ == le_bytes(packed_value(next), bytes@.len()),
            decreases offset,
        {
            proof {
                lemma2_to64();
                lemma_div_div(packed_value(next), 8 * bytes@.len(), 8);
                assert(bits & 0xff == bits % 256) by (bit_vector);
                assert(bits >> 8 == bits / 256) by (bit_vector);
            }
            let ghost before = bytes@;
            bytes.push((bits & 0xff) as u8);
            bits = bits >> 8;
            offset = offset - 8;
            assert(bytes@ =~= le_bytes(packed_value(next), bytes@.len()));
        }
        i += 1;
    }
    assert(points@.take(i as int) == points@);
    bytes
}

} // verus!
