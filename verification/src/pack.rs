//! Bytes and symbols as numbers: the arithmetic of packing bits.
//!
//! A byte buffer is read as one number, its first byte lowest. A sequence of
//! symbols, each a point and the number of bits it takes, is the number
//! whose digits are the points, the first point lowest.

use vstd::arithmetic::div_mod::{
    lemma_breakdown, lemma_div_denominator, lemma_div_multiples_vanish_fancy,
    lemma_hoist_over_denominator, lemma_mod_bound, lemma_mod_multiples_vanish, lemma_small_mod,
    lemma_basic_div,
};
use vstd::arithmetic::power2::{lemma2_to64, lemma_pow2_adds, lemma_pow2_pos, pow2};
use vstd::prelude::*;

verus! {

/// The number that a byte buffer holds, its first byte lowest.
pub open spec fn le_value(bytes: Seq<u8>) -> nat
    decreases bytes.len(),
{
    if bytes.len() == 0 {
        0
    } else {
        bytes[0] as nat + 256 * le_value(bytes.drop_first())
    }
}

/// The lowest `count` bytes of a number, the lowest first.
pub open spec fn le_bytes(value: nat, count: nat) -> Seq<u8> {
    Seq::new(count, |j: int| ((value / pow2((8 * j) as nat)) % 256) as u8)
}

/// Whether every symbol has a width of at most eight bits and a point that
/// fits its width.
pub open spec fn symbols_well_formed(symbols: Seq<(u8, usize)>) -> bool {
    forall|i: int|
        0 <= i < symbols.len() ==> (#[trigger] symbols[i]).1 <= 8 && symbols[i].0 < pow2(
            symbols[i].1 as nat,
        )
}

/// The number of bits that the symbols take together.
pub open spec fn packed_bits(symbols: Seq<(u8, usize)>) -> nat
    decreases symbols.len(),
{
    if symbols.len() == 0 {
        0
    } else {
        packed_bits(symbols.drop_last()) + symbols.last().1 as nat
    }
}

/// The number that the symbols spell, the first point lowest.
pub open spec fn packed_value(symbols: Seq<(u8, usize)>) -> nat
    decreases symbols.len(),
{
    if symbols.len() == 0 {
        0
    } else {
        packed_value(symbols.drop_last()) + symbols.last().0 as nat * pow2(
            packed_bits(symbols.drop_last()),
        )
    }
}

/// A remainder modulo a power of two is below it.
pub proof fn lemma_pow2_mod_bound(x: nat, a: nat)
    ensures
        pow2(a) > 0,
        x % pow2(a) < pow2(a),
{
    lemma_pow2_pos(a);
    lemma_mod_bound(x as int, pow2(a) as int);
}

/// The low `a + b` bits of a number are its low `a` bits and, above them,
/// the `b` bits that follow.
pub proof fn lemma_split_mod(x: nat, a: nat, b: nat)
    ensures
        x % pow2(a + b) == x % pow2(a) + pow2(a) * ((x / pow2(a)) % pow2(b)),
{
    lemma_pow2_adds(a, b);
    lemma_pow2_pos(a);
    lemma_pow2_pos(b);
    lemma_breakdown(x as int, pow2(a) as int, pow2(b) as int);
}

/// Of the low `a` bits of a number, the low `b` are the low `b` bits of the number.
pub proof fn lemma_mod_mod(x: nat, a: nat, b: nat)
    requires
        b <= a,
    ensures
        (x % pow2(a)) % pow2(b) == x % pow2(b),
{
    let d = (a - b) as nat;
    let y = pow2(b) as int;
    let z = pow2(d) as int;
    lemma_pow2_pos(b);
    lemma_pow2_pos(d);
    lemma_pow2_adds(b, d);
    assert(pow2(a) == y * z);
    vstd::arithmetic::div_mod::lemma_mod_mod(x as int, y, z);
}

/// Dropping the low `b` of the low `a` bits of a number leaves the low
/// `a - b` bits of the number without its low `b` bits.
pub proof fn lemma_mod_div(x: nat, a: nat, b: nat)
    requires
        b <= a,
    ensures
        (x % pow2(a)) / pow2(b) == (x / pow2(b)) % pow2((a - b) as nat),
{
    let d = (a - b) as nat;
    let xi = x as int;
    let y = pow2(b) as int;
    let z = pow2(d) as int;
    lemma_pow2_pos(b);
    lemma_pow2_pos(d);
    lemma_pow2_adds(b, d);
    assert(pow2(a) == y * z);
    lemma_breakdown(xi, y, z);
    lemma_mod_bound(xi, y);
    lemma_div_multiples_vanish_fancy((xi / y) % z, xi % y, y);
}

/// Dropping `a` bits and then `b` bits drops `a + b` bits.
pub proof fn lemma_div_div(x: nat, a: nat, b: nat)
    ensures
        (x / pow2(a)) / pow2(b) == x / pow2(a + b),
{
    lemma_pow2_adds(a, b);
    lemma_pow2_pos(a);
    lemma_pow2_pos(b);
    lemma_div_denominator(x as int, pow2(a) as int, pow2(b) as int);
}

/// Adding a multiple of `pow2(a)` adds nothing to the low `a` bits, and its
/// factor to the rest.
pub proof fn lemma_add_high(x: nat, k: nat, a: nat)
    ensures
        (x + k * pow2(a)) / pow2(a) == x / pow2(a) + k,
        (x + k * pow2(a)) % pow2(a) == x % pow2(a),
{
    lemma_pow2_pos(a);
    lemma_hoist_over_denominator(x as int, k as int, pow2(a));
    assert(k * pow2(a) == pow2(a) * k) by (nonlinear_arith);
    lemma_mod_multiples_vanish(k as int, x as int, pow2(a) as int);
}

/// A number below `pow2(a)` has nothing above its low `a` bits.
pub proof fn lemma_small(x: nat, a: nat)
    requires
        x < pow2(a),
    ensures
        x / pow2(a) == 0,
        x % pow2(a) == x,
{
    lemma_basic_div(x as int, pow2(a) as int);
    lemma_small_mod(x, pow2(a));
}

/// A buffer of `n` bytes holds a number below `pow2(8 * n)`.
pub proof fn lemma_le_value_bound(bytes: Seq<u8>)
    ensures
        le_value(bytes) < pow2(8 * bytes.len()),
    decreases bytes.len(),
{
    lemma2_to64();
    if bytes.len() > 0 {
        let rest = bytes.drop_first();
        lemma_le_value_bound(rest);
        lemma_pow2_adds(8, 8 * rest.len());
        assert(bytes[0] + 256 * le_value(rest) < 256 * pow2(8 * rest.len())) by (nonlinear_arith)
            requires
                bytes[0] < 256,
                le_value(rest) < pow2(8 * rest.len()),
        ;
    }
}

/// The byte at index `j` of a buffer is the `j`-th byte of its number.
pub proof fn lemma_le_value_byte(bytes: Seq<u8>, j: int)
    requires
        0 <= j < bytes.len(),
    ensures
        (le_value(bytes) / pow2((8 * j) as nat)) % 256 == bytes[j],
    decreases j,
{
    lemma2_to64();
    let rest = bytes.drop_first();
    let value = le_value(bytes);
    assert(value == bytes[0] + 256 * le_value(rest));
    lemma_div_multiples_vanish_fancy(le_value(rest) as int, bytes[0] as int, 256);
    lemma_mod_multiples_vanish(le_value(rest) as int, bytes[0] as int, 256);
    assert(value / 256 == le_value(rest));
    if j == 0 {
        lemma_small_mod(bytes[0] as nat, 256);
        assert(value / pow2(0) == value);
    } else {
        lemma_le_value_byte(rest, j - 1);
        lemma_div_div(value, 8, (8 * (j - 1)) as nat);
        assert(rest[j - 1] == bytes[j]);
    }
}

/// The bytes of the number of a buffer are the buffer.
pub proof fn lemma_le_bytes_of_value(bytes: Seq<u8>)
    ensures
        le_bytes(le_value(bytes), bytes.len()) == bytes,
{
    assert forall|j: int| 0 <= j < bytes.len() implies le_bytes(le_value(bytes), bytes.len())[j]
        == bytes[j] by {
        lemma_le_value_byte(bytes, j);
    }
    assert(le_bytes(le_value(bytes), bytes.len()) =~= bytes);
}

/// What lies above bit `t` of a number does not show in its bytes below.
pub proof fn lemma_low_byte_unchanged(x: nat, k: nat, t: nat, j: nat)
    requires
        8 * j + 8 <= t,
    ensures
        ((x + k * pow2(t)) / pow2(8 * j)) % 256 == (x / pow2(8 * j)) % 256,
{
    lemma2_to64();
    let s = 8 * j;
    let d = (t - (s + 8)) as nat;
    let y = x + k * pow2(t);
    lemma_pow2_adds(s + 8, d);
    assert(k * pow2(t) == (k * pow2(d)) * pow2(s + 8)) by (nonlinear_arith)
        requires
            pow2(t) == pow2(s + 8) * pow2(d),
    ;
    lemma_add_high(x, k * pow2(d), s + 8);
    lemma_mod_div(y, s + 8, s);
    lemma_mod_div(x, s + 8, s);
}

/// Well-formed symbols spell a number that fits their bits.
pub proof fn lemma_packed_value_bound(symbols: Seq<(u8, usize)>)
    requires
        symbols_well_formed(symbols),
    ensures
        packed_value(symbols) < pow2(packed_bits(symbols)),
    decreases symbols.len(),
{
    lemma2_to64();
    if symbols.len() > 0 {
        let front = symbols.drop_last();
        let last = symbols.last();
        lemma_packed_value_bound(front);
        lemma_pow2_adds(packed_bits(front), last.1 as nat);
        assert(packed_value(front) + last.0 * pow2(packed_bits(front)) < pow2(packed_bits(front))
            * pow2(last.1 as nat)) by (nonlinear_arith)
            requires
                packed_value(front) < pow2(packed_bits(front)),
                last.0 < pow2(last.1 as nat),
        ;
    }
}

} // verus!
