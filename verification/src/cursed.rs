//! The diacritics codec: bytes as combining marks over the letters of a text.
//!
//! Four bytes are read as one number, the first byte highest, and written
//! as five digits to the base 112, the lowest first. Each digit is one of
//! the 112 combining marks from U+0300 on.

use crate::text::{char_from_u32, push_char};
use vstd::arithmetic::div_mod::{
    lemma_breakdown, lemma_div_denominator, lemma_div_multiples_vanish_fancy, lemma_mod_bound,
    lemma_mod_multiples_vanish, lemma_small_mod,
};
use vstd::arithmetic::power2::{lemma2_to64, lemma_pow2_adds, pow2};
use vstd::prelude::*;
use vstd::utf8::encode_utf8;

verus! {

/// The code of the first combining mark that stands for a digit.
pub const BASE_DIACTRICS_START: u32 = 0x0300;

/// The code of the last combining mark that stands for a digit.
pub const BASE_DIACTRICS_END: u32 = 0x036F;

/// The base of the digits: the number of combining marks.
pub const DIACTRICS_BASE: u32 = 0x70;

/// The zero width space.
pub const ZWSP: char = '\u{200B}';

/// The zero width non-joiner.
pub const ZWNJ: char = '\u{200C}';

/// The zero width joiner.
pub const ZWJ: char = '\u{200D}';

/// The Mongolian vowel separator.
pub const MVS: char = '\u{180E}';

/// Whether a character is one of the combining marks that stand for digits.
pub open spec fn spec_is_diactric(c: char) -> bool {
    0x0300 <= c as u32 <= 0x036F
}

/// The power of the base 112 with exponent `k`.
pub open spec fn base_power(k: nat) -> nat
    decreases k,
{
    if k == 0 {
        1
    } else {
        112 * base_power((k - 1) as nat)
    }
}

/// The number that bytes hold, the first byte highest.
pub open spec fn be_value(bytes: Seq<u8>) -> nat
    decreases bytes.len(),
{
    if bytes.len() == 0 {
        0
    } else {
        256 * be_value(bytes.drop_last()) + bytes.last() as nat
    }
}

/// The lowest `count` bytes of a number, the highest of them first.
pub open spec fn be_bytes(value: nat, count: nat) -> Seq<u8> {
    Seq::new(count, |i: int| ((value / pow2((8 * (count - 1 - i)) as nat)) % 256) as u8)
}

/// The lowest `count` digits of a number to the base 112, the lowest first.
pub open spec fn digits(value: nat, count: nat) -> Seq<u8> {
    Seq::new(count, |k: int| ((value / base_power(k as nat)) % 112) as u8)
}

/// The number that digits to the base 112 spell, the lowest first.
pub open spec fn digits_value(points: Seq<u8>) -> nat
    decreases points.len(),
{
    if points.len() == 0 {
        0
    } else {
        digits_value(points.drop_last()) + points.last() as nat * base_power(
            (points.len() - 1) as nat,
        )
    }
}

/// The points of a byte buffer: five digits for every four bytes, and for
/// the one to three bytes that are left at the end one digit more than bytes.
pub open spec fn spec_bytes_to_diactrics_points(bytes: Seq<u8>) -> Seq<u8>
    decreases bytes.len(),
{
    if bytes.len() == 0 {
        Seq::empty()
    } else if bytes.len() >= 4 {
        digits(be_value(bytes.take(4)), 5) + spec_bytes_to_diactrics_points(bytes.skip(4))
    } else {
        digits(be_value(bytes), bytes.len() + 1)
    }
}

/// The bytes of points: four bytes for every five digits, and for the two
/// to four digits that are left at the end one byte less than digits. Of
/// the number that the digits spell only the bits of those bytes count.
pub open spec fn spec_diatric_points_to_bytes(points: Seq<u8>) -> Seq<u8>
    decreases points.len(),
{
    if points.len() == 0 {
        Seq::empty()
    } else if points.len() >= 5 {
        be_bytes(digits_value(points.take(5)), 4) + spec_diatric_points_to_bytes(points.skip(5))
    } else {
        be_bytes(digits_value(points), (points.len() - 1) as nat)
    }
}

/// The points of the combining marks of a text, in order.
pub open spec fn spec_parse_curse_to_points(text: Seq<char>) -> Seq<u8>
    decreases text.len(),
{
    if text.len() == 0 {
        Seq::empty()
    } else if spec_is_diactric(text.last()) {
        spec_parse_curse_to_points(text.drop_last()).push((text.last() as u32 - 0x0300) as u8)
    } else {
        spec_parse_curse_to_points(text.drop_last())
    }
}

/// Whether a character is one of the combining marks that stand for digits.
pub fn is_diactric(c: char) -> (diactric: bool)
    ensures
        diactric == spec_is_diactric(c),
{
    let c = c as u32;
    c >= BASE_DIACTRICS_START && c <= BASE_DIACTRICS_END
}

/// The powers of the base that fit five digits.
proof fn lemma_base_powers()
    ensures
        base_power(0) == 1,
        base_power(1) == 112,
        base_power(2) == 12544,
        base_power(3) == 1404928,
        base_power(4) == 157351936,
        base_power(5) == 17623416832,
{
    reveal_with_fuel(base_power, 6);
}

/// The next power of the base, for the powers that fit five digits.
proof fn lemma_base_step(k: nat)
    requires
        k < 5,
    ensures
        base_power(k + 1) == base_power(k) * 112,
        1 <= base_power(k) <= 157351936,
{
    lemma_base_powers();
    if k == 0 {
    } else if k == 1 {
    } else if k == 2 {
    } else if k == 3 {
    } else {
    }
}

/// A digit added above a number of `k` digits gives a number of `k + 1` digits.
proof fn lemma_digit_step(value: nat, point: u8, k: nat)
    requires
        k < 5,
        value < 3 * base_power(k),
    ensures
        value + point * base_power(k) < 3 * base_power(k + 1),
        value + point * base_power(k) < 0x1_0000_0000_0000,
        point * base_power(k) < 0x1_0000_0000_0000,
{
    lemma_base_step(k);
    let weight = base_power(k);
    assert(point * weight <= 255 * weight) by (nonlinear_arith)
        requires
            point <= 255,
            weight >= 0,
    ;
}

/// The byte of a number that stands `shift` bits up.
proof fn lemma_byte_at(value: u64, shift: u64)
    requires
        shift == 0 || shift == 8 || shift == 16 || shift == 24,
    ensures
        (value >> shift) & 0xff == (value as nat / pow2(shift as nat)) % 256,
{
    lemma2_to64();
    if shift == 0 {
        assert((value >> 0) & 0xff == (value / 1) % 256) by (bit_vector);
    } else if shift == 8 {
        assert((value >> 8) & 0xff == (value / 0x100) % 256) by (bit_vector);
    } else if shift == 16 {
        assert((value >> 16) & 0xff == (value / 0x10000) % 256) by (bit_vector);
    } else {
        assert((value >> 24) & 0xff == (value / 0x1000000) % 256) by (bit_vector);
    }
}

/// A buffer of `n` bytes holds a number below `pow2(8 * n)`.
proof fn lemma_be_value_bound(bytes: Seq<u8>)
    ensures
        be_value(bytes) < pow2(8 * bytes.len()),
    decreases bytes.len(),
{
    lemma2_to64();
    if bytes.len() > 0 {
        let front = bytes.drop_last();
        lemma_be_value_bound(front);
        lemma_pow2_adds(8 * front.len(), 8);
        assert(256 * be_value(front) + bytes.last() < pow2(8 * front.len()) * 256)
            by (nonlinear_arith)
            requires
                be_value(front) < pow2(8 * front.len()),
                bytes.last() < 256,
        ;
    }
}

/// Appends the lowest `count` digits of a number.
fn push_digits(results: &mut Vec<u8>, value: u32, count: usize)
    requires
        count <= 5,
    ensures
        final(results)@ == old(results)@ + digits(value as nat, count as nat),
{
    let mut rest = value;
    let mut k: usize = 0;
    proof {
        lemma_base_powers();
    }
    assert(results@ =~= old(results)@ + digits(value as nat, 0));
    while k < count
        invariant
            k <= count <= 5,
            rest == value as nat / base_power(k as nat),
            results@ == old(results)@ + digits(value as nat, k as nat),
        decreases count - k,
    {
        proof {
            lemma_base_step(k as nat);
            lemma_div_denominator(value as int, base_power(k as nat) as int, 112);
        }
        results.push((rest % DIACTRICS_BASE) as u8);
        rest = rest / DIACTRICS_BASE;
        k += 1;
        assert(results@ =~= old(results)@ + digits(value as nat, k as nat));
    }
}

/// Writes a byte buffer as digits to the base 112.
pub fn bytes_to_diactrics_points(bytes: &[u8]) -> (points: Vec<u8>)
    ensures
        points@ == spec_bytes_to_diactrics_points(bytes@),
{
    let mut results: Vec<u8> = Vec::new();
    let mut my_u32: u32 = 0;
    let mut held: usize = 0;
    let mut j: usize = 0;
    assert(bytes@.skip(0) =~= bytes@);
    assert(bytes@.subrange(0, 0) =~= Seq::<u8>::empty());
    while j < bytes.len()
        invariant
            j <= bytes@.len(),
            held < 4,
            held <= j,
            my_u32 == be_value(bytes@.subrange(j - held, j as int)),
            results@ + spec_bytes_to_diactrics_points(bytes@.skip(j - held))
                == spec_bytes_to_diactrics_points(bytes@),
        decreases bytes@.len() - j,
    {
        let byte = bytes[j];
        let ghost start = j - held;
        proof {
            lemma2_to64();
            let group = bytes@.subrange(start, j + 1);
            assert(group.drop_last() =~= bytes@.subrange(start, j as int));
            assert(group.last() == byte);
            lemma_be_value_bound(bytes@.subrange(start, j as int));
            let low = byte as u32;
            assert(my_u32 < 0x1000000);
            assert((my_u32 << 8) | low == my_u32 * 256 + low) by (bit_vector)
                requires
                    my_u32 < 0x1000000,
                    low < 256,
            ;
        }
        my_u32 = (my_u32 << 8) | (byte as u32);
        held += 1;
        j += 1;
        if held == 4 {
            proof {
                let rest = bytes@.skip(start);
                assert(rest.take(4) =~= bytes@.subrange(start, j as int));
                assert(rest.skip(4) =~= bytes@.skip(j as int));
                assert(results@ + (digits(my_u32 as nat, 5) + spec_bytes_to_diactrics_points(
                    bytes@.skip(j as int),
                )) =~= results@ + digits(my_u32 as nat, 5) + spec_bytes_to_diactrics_points(
                    bytes@.skip(j as int),
                ));
            }
            push_digits(&mut results, my_u32, 5);
            my_u32 = 0;
            held = 0;
            assert(bytes@.subrange(j as int, j as int) =~= Seq::<u8>::empty());
        }
    }
    proof {
        let rest = bytes@.skip(j - held);
        assert(rest =~= bytes@.subrange(j - held, j as int));
        assert(rest.len() == held);
        if held == 0 {
            assert(results@ + Seq::<u8>::empty() =~= results@);
        }
    }
    if held == 3 {
        push_digits(&mut results, my_u32, 4);
    } else if held == 2 {
        push_digits(&mut results, my_u32, 3);
    } else if held == 1 {
        push_digits(&mut results, my_u32, 2);
    }
    results
}

/// Appends the lowest `count` bytes of a number, the highest of them first.
fn push_be_bytes(results: &mut Vec<u8>, value: u64, count: usize)
    requires
        count <= 4,
    ensures
        final(results)@ == old(results)@ + be_bytes(value as nat, count as nat),
{
    let mut i: usize = 0;
    assert(results@ =~= old(results)@ + be_bytes(value as nat, count as nat).take(0));
    while i < count
        invariant
            i <= count <= 4,
            results@ == old(results)@ + be_bytes(value as nat, count as nat).take(i as int),
        decreases count - i,
    {
        let shift: u64 = 8 * ((count - 1 - i) as u64);
        proof {
            lemma_byte_at(value, shift);
        }
        results.push(((value >> shift) & 0xff) as u8);
        i += 1;
        assert(results@ =~= old(results)@ + be_bytes(value as nat, count as nat).take(i as int));
    }
    assert(be_bytes(value as nat, count as nat).take(count as int) =~= be_bytes(
        value as nat,
        count as nat,
    ));
}

/// Reads digits to the base 112 back to bytes.
pub fn diatric_points_to_bytes(points: Vec<u8>) -> (bytes: Vec<u8>)
    requires
        points@.len() % 5 != 1,
    ensures
        bytes@ == spec_diatric_points_to_bytes(points@),
{
    let mut results: Vec<u8> = Vec::new();
    let mut value: u64 = 0;
    let mut weight: u64 = 1;
    let mut significance: usize = 0;
    let mut j: usize = 0;
    assert(points@.skip(0) =~= points@);
    assert(points@.subrange(0, 0) =~= Seq::<u8>::empty());
    while j < points.len()
        invariant
            j <= points@.len(),
            significance < 5,
            significance <= j,
            weight == base_power(significance as nat),
            value == digits_value(points@.subrange(j - significance, j as int)),
            value < 3 * base_power(significance as nat),
            results@ + spec_diatric_points_to_bytes(points@.skip(j - significance))
                == spec_diatric_points_to_bytes(points@),
        decreases points@.len() - j,
    {
        let point = points[j];
        let ghost start = j - significance;
        proof {
            let group = points@.subrange(start, j + 1);
            assert(group.drop_last() =~= points@.subrange(start, j as int));
            assert(group.last() == point);
            assert(group.len() - 1 == significance);
            lemma_digit_step(value as nat, point, significance as nat);
            lemma_base_step(significance as nat);
        }
        value = value + (point as u64) * weight;
        significance += 1;
        j += 1;
        if significance == 5 {
            proof {
                let rest = points@.skip(start);
                assert(rest.take(5) =~= points@.subrange(start, j as int));
                assert(rest.skip(5) =~= points@.skip(j as int));
                assert(results@ + (be_bytes(value as nat, 4) + spec_diatric_points_to_bytes(
                    points@.skip(j as int),
                )) =~= results@ + be_bytes(value as nat, 4) + spec_diatric_points_to_bytes(
                    points@.skip(j as int),
                ));
            }
            push_be_bytes(&mut results, value, 4);
            value = 0;
            weight = 1;
            significance = 0;
            assert(points@.subrange(j as int, j as int) =~= Seq::<u8>::empty());
        } else {
            weight = weight * (DIACTRICS_BASE as u64);
        }
    }
    proof {
        let rest = points@.skip(j - significance);
        assert(rest =~= points@.subrange(j - significance, j as int));
        assert(rest.len() == significance);
        if significance == 0 {
            assert(results@ + Seq::<u8>::empty() =~= results@);
        }
    }
    if significance == 4 {
        push_be_bytes(&mut results, value, 3);
    } else if significance == 3 {
        push_be_bytes(&mut results, value, 2);
    } else if significance == 2 {
        push_be_bytes(&mut results, value, 1);
    }
    results
}

/// Reads the points of the combining marks of a text. Anything else in the
/// text is passed over.
pub fn parse_curse_to_points(text: &str) -> (points: Vec<u8>)
    ensures
        points@ == spec_parse_curse_to_points(text@),
{
    let mut points: Vec<u8> = Vec::new();
    for c in it: text.chars()
        invariant
            it.seq() == text@,
            points@ == spec_parse_curse_to_points(text@.take(it.index())),
    {
        proof {
            assert(text@.take(it.index() + 1).drop_last() =~= text@.take(it.index()));
        }
        if is_diactric(c) {
            let point = c as u32 - BASE_DIACTRICS_START;
            points.push(point as u8);
        }
    }
    assert(text@.take(text@.len() as int) =~= text@);
    points
}

/// Why a text could not be cursed.
#[derive(Clone, Copy, Debug, PartialEq, Eq, Structural)]
pub enum CurseError {
    /// The configuration does not let the text carry that much data.
    CannotCurse,
    /// A letter would carry as many marks as a break is due after, and the
    /// configuration has no break.
    TooManyDiactrics,
}

/// How the marks are spread over a text: what to put after a run of marks,
/// how long a run may be, and how many marks a text may carry.
pub struct CursedConfig {
    diatrics_break: Option<String>,
    max_diactrics_per_letter: Option<usize>,
    max_diatrics: Option<usize>,
}

/// The quotient of `points` by `letters`, rounded up.
pub open spec fn share(points: nat, letters: nat) -> nat {
    if letters == 0 {
        0
    } else if points % letters == 0 {
        points / letters
    } else {
        points / letters + 1
    }
}

/// The combining mark that stands for a point.
pub open spec fn mark_char(point: u8) -> char {
    ((0x0300 + point) as u32) as char
}

/// The break that is due after the `n`-th mark of a letter, if any.
pub open spec fn break_after(n: nat, per_letter: Option<usize>, pause: Option<Seq<char>>) -> Seq<
    char,
> {
    match (per_letter, pause) {
        (Some(run), Some(text)) => if run != 0 && n % (run as nat) == 0 {
            text
        } else {
            Seq::empty()
        },
        _ => Seq::empty(),
    }
}

/// The first `n` marks of a letter whose marks start at the point `start`,
/// with the breaks between them. Past the last point there are no marks.
pub open spec fn marks(
    points: Seq<u8>,
    start: nat,
    n: nat,
    per_letter: Option<usize>,
    pause: Option<Seq<char>>,
) -> Seq<char>
    decreases n,
{
    if n == 0 {
        Seq::empty()
    } else {
        marks(points, start, (n - 1) as nat, per_letter, pause) + (if start + n - 1
            < points.len() {
            seq![mark_char(points[start + n - 1])]
        } else {
            Seq::empty()
        }) + break_after(n, per_letter, pause)
    }
}

/// Whether a letter can carry `count` marks: it cannot where a break
/// would be due and there is none.
pub open spec fn letter_fits(count: nat, per_letter: Option<usize>, pause: Option<Seq<char>>) -> bool {
    match (per_letter, pause) {
        (Some(run), None) => count < run,
        _ => true,
    }
}

/// The smaller of two numbers.
pub open spec fn min_len(a: nat, b: nat) -> nat {
    if a <= b {
        a
    } else {
        b
    }
}

/// Whether every letter from the `k`-th on can carry its share of the
/// points from `index` on.
pub open spec fn letters_fit(
    letters: nat,
    points: nat,
    k: nat,
    index: nat,
    per_letter: Option<usize>,
    pause: Option<Seq<char>>,
) -> bool
    decreases letters - k,
{
    if k >= letters {
        true
    } else {
        let count = share((points - index) as nat, (letters - k) as nat);
        letter_fits(count, per_letter, pause) && letters_fit(
            letters,
            points,
            k + 1,
            min_len(index + count, points),
            per_letter,
            pause,
        )
    }
}

/// The text from its `k`-th letter on, each letter followed by its share
/// of the points from `index` on: the points that are left, divided by the
/// letters that are left and rounded up.
pub open spec fn cursed_from(
    text: Seq<char>,
    points: Seq<u8>,
    k: nat,
    index: nat,
    per_letter: Option<usize>,
    pause: Option<Seq<char>>,
) -> Seq<char>
    decreases text.len() - k,
{
    if k >= text.len() {
        Seq::empty()
    } else {
        let count = share((points.len() - index) as nat, (text.len() - k) as nat);
        seq![text[k as int]] + marks(points, index, count, per_letter, pause) + cursed_from(
            text,
            points,
            k + 1,
            min_len(index + count, points.len()),
            per_letter,
            pause,
        )
    }
}

/// A text of the one character.
fn char_string(c: char) -> (text: String)
    ensures
        text@ == seq![c],
{
    let mut text = String::new();
    push_char(&mut text, c);
    assert(text@ =~= seq![c]);
    text
}

/// The quotient of `a` by `b`, rounded up.
fn div_ceil(a: usize, b: usize) -> (quotient: usize)
    requires
        b > 0,
    ensures
        quotient == share(a as nat, b as nat),
        quotient <= a,
{
    proof {
        if b >= 2 {
            vstd::arithmetic::div_mod::lemma_div_is_ordered_by_denominator(a as int, 2, b as int);
        }
        vstd::arithmetic::div_mod::lemma_fundamental_div_mod(a as int, b as int);
        vstd::arithmetic::div_mod::lemma_div_pos_is_pos(a as int, b as int);
        assert(b * (a / b) >= a / b) by (nonlinear_arith)
            requires
                b >= 1,
                a / b >= 0,
        ;
    }
    if a % b == 0 {
        a / b
    } else {
        a / b + 1
    }
}

impl Default for CursedConfig {
    fn default() -> (config: Self)
        ensures
            config.break_text() is None,
            config.per_letter() is None,
            config.max_total() is None,
    {
        Self { diatrics_break: None, max_diactrics_per_letter: None, max_diatrics: None }
    }
}

impl CursedConfig {
    /// What is put after a full run of marks, if anything.
    pub closed spec fn break_text(&self) -> Option<Seq<char>> {
        match self.diatrics_break {
            Some(text) => Some(text@),
            None => None,
        }
    }

    /// The number of marks after which a break is due, if any.
    pub closed spec fn per_letter(&self) -> Option<usize> {
        self.max_diactrics_per_letter
    }

    /// The number of marks that a text may carry, if bounded.
    pub closed spec fn max_total(&self) -> Option<usize> {
        self.max_diatrics
    }

    /// A run of marks, where one is set, has at least one mark.
    pub open spec fn well_formed(&self) -> bool {
        self.per_letter() != Some(0usize)
    }

    /// Whether a text of `text_length` bytes can carry `data_length` bytes
    /// of data: the marks of the whole groups of data do not exceed the
    /// bound on marks, and where runs are bounded and there is no break,
    /// the text has more bytes than the data has runs.
    pub open spec fn spec_can_curse(&self, text_length: nat, data_length: nat) -> bool {
        let diatrics_for_data = (data_length / 4) * 5;
        if (self.max_total() matches Some(max) && diatrics_for_data > max) {
            false
        } else if self.break_text() is Some {
            true
        } else {
            match self.per_letter() {
                Some(run) => text_length > share(diatrics_for_data, run as nat),
                None => true,
            }
        }
    }

    /// Whether a run of marks, where one is set, has at least one mark.
    pub fn is_well_formed(&self) -> (well_formed: bool)
        ensures
            well_formed == self.well_formed(),
    {
        match self.max_diactrics_per_letter {
            Some(run) => run != 0,
            None => true,
        }
    }

    /// A configuration without a break and without bounds.
    pub fn new() -> (config: Self)
        ensures
            config.break_text() is None,
            config.per_letter() is None,
            config.max_total() is None,
            config.well_formed(),
    {
        Self { diatrics_break: None, max_diactrics_per_letter: None, max_diatrics: None }
    }

    /// Runs of three marks with a zero width joiner between them, and at
    /// most twenty marks.
    pub fn discord() -> (config: Self)
        ensures
            config.break_text() == Some(seq![ZWJ]),
            config.per_letter() == Some(3usize),
            config.max_total() == Some(20usize),
            config.well_formed(),
    {
        Self::new().max_diactrics_per_letter(3).with_zwj_break().max_diactrics(20)
    }

    /// Puts a zero width space after every full run of marks.
    pub fn with_zwsp_break(self) -> (config: Self)
        ensures
            config.break_text() == Some(seq![ZWSP]),
            config.per_letter() == self.per_letter(),
            config.max_total() == self.max_total(),
    {
        Self {
            diatrics_break: Some(char_string(ZWSP)),
            max_diactrics_per_letter: self.max_diactrics_per_letter,
            max_diatrics: self.max_diatrics,
        }
    }

    /// Puts a zero width non-joiner after every full run of marks.
    pub fn with_zwnj_break(self) -> (config: Self)
        ensures
            config.break_text() == Some(seq![ZWNJ]),
            config.per_letter() == self.per_letter(),
            config.max_total() == self.max_total(),
    {
        Self {
            diatrics_break: Some(char_string(ZWNJ)),
            max_diactrics_per_letter: self.max_diactrics_per_letter,
            max_diatrics: self.max_diatrics,
        }
    }

    /// Puts a zero width joiner after every full run of marks.
    pub fn with_zwj_break(self) -> (config: Self)
        ensures
            config.break_text() == Some(seq![ZWJ]),
            config.per_letter() == self.per_letter(),
            config.max_total() == self.max_total(),
    {
        Self {
            diatrics_break: Some(char_string(ZWJ)),
            max_diactrics_per_letter: self.max_diactrics_per_letter,
            max_diatrics: self.max_diatrics,
        }
    }

    /// Puts a Mongolian vowel separator after every full run of marks.
    pub fn with_mvs_break(self) -> (config: Self)
        ensures
            config.break_text() == Some(seq![MVS]),
            config.per_letter() == self.per_letter(),
            config.max_total() == self.max_total(),
    {
        Self {
            diatrics_break: Some(char_string(MVS)),
            max_diactrics_per_letter: self.max_diactrics_per_letter,
            max_diatrics: self.max_diatrics,
        }
    }

    /// Puts nothing after a run of marks.
    pub fn with_no_break(self) -> (config: Self)
        ensures
            config.break_text() is None,
            config.per_letter() == self.per_letter(),
            config.max_total() == self.max_total(),
    {
        Self {
            diatrics_break: None,
            max_diactrics_per_letter: self.max_diactrics_per_letter,
            max_diatrics: self.max_diatrics,
        }
    }

    /// Bounds a run of marks.
    pub fn max_diactrics_per_letter(self, max_diactrics_per_letter: usize) -> (config: Self)
        ensures
            config.break_text() == self.break_text(),
            config.per_letter() == Some(max_diactrics_per_letter),
            config.max_total() == self.max_total(),
    {
        Self {
            diatrics_break: self.diatrics_break,
            max_diactrics_per_letter: Some(max_diactrics_per_letter),
            max_diatrics: self.max_diatrics,
        }
    }

    /// Bounds the marks that a text may carry.
    pub fn max_diactrics(self, max_diactrics: usize) -> (config: Self)
        ensures
            config.break_text() == self.break_text(),
            config.per_letter() == self.per_letter(),
            config.max_total() == Some(max_diactrics),
    {
        Self {
            diatrics_break: self.diatrics_break,
            max_diactrics_per_letter: self.max_diactrics_per_letter,
            max_diatrics: Some(max_diactrics),
        }
    }

    /// Lifts the bound on the marks that a text may carry.
    pub fn with_no_max_diactrics(self) -> (config: Self)
        ensures
            config.break_text() == self.break_text(),
            config.per_letter() == self.per_letter(),
            config.max_total() is None,
    {
        Self {
            diatrics_break: self.diatrics_break,
            max_diactrics_per_letter: self.max_diactrics_per_letter,
            max_diatrics: None,
        }
    }

    /// Whether a text of `text_length` bytes can carry `data_length` bytes of
    /// data.
    pub fn can_curse(&self, text_length: usize, data_length: usize) -> (can: bool)
        requires
            self.well_formed(),
            (data_length / 4) * 5 <= usize::MAX,
        ensures
            can == self.spec_can_curse(text_length as nat, data_length as nat),
    {
        let diatrics_for_data = (data_length / 4) * 5;
        let within = match self.max_diatrics {
            Some(max) => diatrics_for_data <= max,
            None => true,
        };
        if !within {
            false
        } else if self.diatrics_break.is_some() {
            true
        } else if let Some(max_diactrics_per_letter) = self.max_diactrics_per_letter {
            text_length > div_ceil(diatrics_for_data, max_diactrics_per_letter)
        } else {
            true
        }
    }

    /// Spreads the data over the letters of the text as combining marks.
    pub fn generate_curse(&self, text: &str, data: &[u8]) -> (cursed: Result<String, CurseError>)
        requires
            self.well_formed(),
            (data@.len() / 4) * 5 <= usize::MAX,
        ensures
            match cursed {
                Ok(curse) => self.spec_can_curse(encode_utf8(text@).len(), data@.len())
                    && letters_fit(
                    text@.len(),
                    spec_bytes_to_diactrics_points(data@).len(),
                    0,
                    0,
                    self.per_letter(),
                    self.break_text(),
                ) && curse@ == cursed_from(
                    text@,
                    spec_bytes_to_diactrics_points(data@),
                    0,
                    0,
                    self.per_letter(),
                    self.break_text(),
                ),
                Err(CurseError::CannotCurse) => !self.spec_can_curse(
                    encode_utf8(text@).len(),
                    data@.len(),
                ),
                Err(CurseError::TooManyDiactrics) => self.spec_can_curse(
                    encode_utf8(text@).len(),
                    data@.len(),
                ) && !letters_fit(
                    text@.len(),
                    spec_bytes_to_diactrics_points(data@).len(),
                    0,
                    0,
                    self.per_letter(),
                    self.break_text(),
                ),
            },
    {
        if !self.can_curse(text.as_bytes().len(), data.len()) {
            return Err(CurseError::CannotCurse);
        }
        let points = bytes_to_diactrics_points(data);
        let mut cursed_text = String::new();
        let mut point_index: usize = 0;
        let letters = text.unicode_len();
        let mut characters_left = letters;
        let ghost per_letter = self.per_letter();
        let ghost pause = self.break_text();
        for c in it: text.chars()
            invariant
                it.seq() == text@,
                self.well_formed(),
                self.spec_can_curse(encode_utf8(text@).len(), data@.len()),
                points@ == spec_bytes_to_diactrics_points(data@),
                per_letter == self.per_letter(),
                pause == self.break_text(),
                letters == text@.len(),
                characters_left == text@.len() - it.index(),
                point_index <= points@.len(),
                cursed_text@ + cursed_from(
                    text@,
                    points@,
                    it.index() as nat,
                    point_index as nat,
                    per_letter,
                    pause,
                ) == cursed_from(text@, points@, 0, 0, per_letter, pause),
                letters_fit(
                    text@.len(),
                    points@.len(),
                    it.index() as nat,
                    point_index as nat,
                    per_letter,
                    pause,
                ) == letters_fit(text@.len(), points@.len(), 0, 0, per_letter, pause),
        {
            let ghost k = it.index() as nat;
            let ghost before = cursed_text@;
            let ghost start = point_index as nat;
            push_char(&mut cursed_text, c);
            let points_left = points.len() - point_index;
            let diatrics_per_letter = div_ceil(points_left, characters_left);
            let ghost count = diatrics_per_letter as nat;
            let ghost lettered = cursed_text@;
            let mut dia_idx: usize = 0;
            while dia_idx < diatrics_per_letter
                invariant
                    self.well_formed(),
                    self.spec_can_curse(encode_utf8(text@).len(), data@.len()),
                    points@ == spec_bytes_to_diactrics_points(data@),
                    per_letter == self.per_letter(),
                    pause == self.break_text(),
                    dia_idx <= diatrics_per_letter,
                    diatrics_per_letter <= points@.len() - start,
                    point_index == start + dia_idx,
                    cursed_text@ == lettered + marks(
                        points@,
                        start,
                        dia_idx as nat,
                        per_letter,
                        pause,
                    ),
                    pause is None && per_letter is Some ==> dia_idx < per_letter->0,
                    count == diatrics_per_letter,
                    k < text@.len(),
                    count == share((points@.len() - start) as nat, (text@.len() - k) as nat),
                    letters_fit(text@.len(), points@.len(), k, start, per_letter, pause)
                        == letters_fit(text@.len(), points@.len(), 0, 0, per_letter, pause),
                decreases diatrics_per_letter - dia_idx,
            {
                let ghost marked = cursed_text@;
                if point_index < points.len() {
                    let mark = char_from_u32(BASE_DIACTRICS_START + points[point_index] as u32);
                    push_char(&mut cursed_text, mark.unwrap());
                    point_index += 1;
                }
                let ghost with_mark = cursed_text@;
                if let Some(max_diactrics_per_letter) = self.max_diactrics_per_letter {
                    proof {
                        let run = max_diactrics_per_letter as int;
                        vstd::arithmetic::div_mod::lemma_mod_self_0(run);
                        if dia_idx + 1 < run {
                            vstd::arithmetic::div_mod::lemma_small_mod(
                                (dia_idx + 1) as nat,
                                run as nat,
                            );
                        }
                    }
                    if (dia_idx + 1) % max_diactrics_per_letter == 0 {
                        match &self.diatrics_break {
                            Some(diatrics_break) => {
                                cursed_text.append(diatrics_break.as_str());
                            },
                            None => {
                                assert(!letter_fits(count, per_letter, pause));
                                return Err(CurseError::TooManyDiactrics);
                            },
                        }
                    }
                }
                dia_idx += 1;
                proof {
                    let previous = marks(points@, start, (dia_idx - 1) as nat, per_letter, pause);
                    let mark = seq![mark_char(points@[start + dia_idx - 1])];
                    let rest = break_after(dia_idx as nat, per_letter, pause);
                    assert(with_mark =~= marked + mark);
                    assert(cursed_text@ =~= with_mark + rest);
                    assert(lettered + previous + mark + rest =~= lettered + (previous + mark
                        + rest));
                }
            }
            characters_left -= 1;
            proof {
                assert(letter_fits(count, per_letter, pause));
                assert(min_len(start + count, points@.len()) == point_index);
                let tail = cursed_from(text@, points@, k + 1, point_index as nat, per_letter, pause);
                let these = marks(points@, start, count, per_letter, pause);
                assert(lettered =~= before + seq![c]);
                assert(before + seq![c] + these + tail =~= before + (seq![c] + these + tail));
            }
        }
        Ok(cursed_text)
    }
}

/// The digits of a number spell what of the number fits that many digits.
pub proof fn lemma_digits_value(value: nat, count: nat)
    requires
        count <= 5,
    ensures
        digits_value(digits(value, count)) == value % base_power(count),
    decreases count,
{
    lemma_base_powers();
    if count == 0 {
        assert(digits(value, 0).len() == 0);
    } else {
        let all = digits(value, count);
        let low = (count - 1) as nat;
        lemma_digits_value(value, low);
        lemma_base_step(low);
        assert(all.drop_last() =~= digits(value, low));
        assert(all.last() == ((value / base_power(low)) % 112) as u8);
        lemma_mod_bound((value / base_power(low)) as int, 112);
        lemma_breakdown(value as int, base_power(low) as int, 112);
        let digit = (value / base_power(low)) % 112;
        assert(digit * base_power(low) == base_power(low) * digit) by (nonlinear_arith);
    }
}

/// The byte at index `i` of a buffer is the byte of its number that
/// stands as many bytes up as come after it.
pub proof fn lemma_be_value_byte(bytes: Seq<u8>, i: int)
    requires
        0 <= i < bytes.len(),
    ensures
        (be_value(bytes) / pow2((8 * (bytes.len() - 1 - i)) as nat)) % 256 == bytes[i],
    decreases bytes.len(),
{
    lemma2_to64();
    let front = bytes.drop_last();
    let last = bytes.last();
    let value = be_value(bytes);
    assert(value == 256 * be_value(front) + last);
    if i == bytes.len() - 1 {
        lemma_mod_multiples_vanish(be_value(front) as int, last as int, 256);
        lemma_small_mod(last as nat, 256);
        assert(value / pow2(0) == value);
    } else {
        let up = (8 * (front.len() - 1 - i)) as nat;
        lemma_be_value_byte(front, i);
        lemma_div_multiples_vanish_fancy(be_value(front) as int, last as int, 256);
        assert(value / 256 == be_value(front));
        crate::pack::lemma_div_div(value, 8, up);
        assert(front[i] == bytes[i]);
    }
}

/// The bytes of the number of a buffer are the buffer.
pub proof fn lemma_be_bytes_of_value(bytes: Seq<u8>)
    ensures
        be_bytes(be_value(bytes), bytes.len()) == bytes,
{
    assert forall|i: int| 0 <= i < bytes.len() implies be_bytes(be_value(bytes), bytes.len())[i]
        == bytes[i] by {
        lemma_be_value_byte(bytes, i);
    }
    assert(be_bytes(be_value(bytes), bytes.len()) =~= bytes);
}

/// Round trip: the digits of a byte buffer read back to the buffer. Their
/// number is never one more than a multiple of five, and each is below the
/// base.
pub proof fn lemma_digits_round_trip(bytes: Seq<u8>)
    ensures
        spec_bytes_to_diactrics_points(bytes).len() % 5 != 1,
        forall|i: int|
            0 <= i < spec_bytes_to_diactrics_points(bytes).len()
                ==> #[trigger] spec_bytes_to_diactrics_points(bytes)[i] < 112,
        spec_diatric_points_to_bytes(spec_bytes_to_diactrics_points(bytes)) == bytes,
    decreases bytes.len(),
{
    lemma2_to64();
    lemma_base_powers();
    let points = spec_bytes_to_diactrics_points(bytes);
    if bytes.len() == 0 {
    } else if bytes.len() >= 4 {
        let group = bytes.take(4);
        let rest = bytes.skip(4);
        let value = be_value(group);
        let rest_points = spec_bytes_to_diactrics_points(rest);
        lemma_digits_round_trip(rest);
        lemma_be_value_bound(group);
        lemma_digits_value(value, 5);
        lemma_small_mod(value, base_power(5));
        lemma_be_bytes_of_value(group);
        assert(points == digits(value, 5) + rest_points);
        assert(points.take(5) =~= digits(value, 5));
        assert(points.skip(5) =~= rest_points);
        assert(group + rest =~= bytes);
        assert forall|i: int| 0 <= i < points.len() implies #[trigger] points[i] < 112 by {
            if i < 5 {
                lemma_mod_bound((value / base_power(i as nat)) as int, 112);
            } else {
                assert(points[i] == rest_points[i - 5]);
            }
        }
    } else {
        let value = be_value(bytes);
        let count = bytes.len() + 1;
        lemma_be_value_bound(bytes);
        lemma_digits_value(value, count);
        lemma_small_mod(value, base_power(count));
        lemma_be_bytes_of_value(bytes);
        assert(points == digits(value, count));
        assert forall|i: int| 0 <= i < points.len() implies #[trigger] points[i] < 112 by {
            lemma_mod_bound((value / base_power(i as nat)) as int, 112);
        }
    }
}

/// Whether no character of a text is a combining mark that stands for a digit.
pub open spec fn unmarked(text: Seq<char>) -> bool {
    forall|i: int| 0 <= i < text.len() ==> !spec_is_diactric(#[trigger] text[i])
}

/// The points of a text in two parts are those of its parts.
pub proof fn lemma_parse_curse_concat(a: Seq<char>, b: Seq<char>)
    ensures
        spec_parse_curse_to_points(a + b) == spec_parse_curse_to_points(a)
            + spec_parse_curse_to_points(b),
    decreases b.len(),
{
    if b.len() == 0 {
        assert(a + b =~= a);
        assert(spec_parse_curse_to_points(a) + Seq::<u8>::empty() =~= spec_parse_curse_to_points(
            a,
        ));
    } else {
        lemma_parse_curse_concat(a, b.drop_last());
        assert((a + b).drop_last() =~= a + b.drop_last());
        assert((a + b).last() == b.last());
        if spec_is_diactric(b.last()) {
            let point = (b.last() as u32 - 0x0300) as u8;
            assert(spec_parse_curse_to_points(a) + spec_parse_curse_to_points(
                b.drop_last(),
            ).push(point) =~= (spec_parse_curse_to_points(a) + spec_parse_curse_to_points(
                b.drop_last(),
            )).push(point));
        }
    }
}

/// A text without marks has no points.
pub proof fn lemma_parse_unmarked(text: Seq<char>)
    requires
        unmarked(text),
    ensures
        spec_parse_curse_to_points(text) == Seq::<u8>::empty(),
    decreases text.len(),
{
    if text.len() > 0 {
        assert(!spec_is_diactric(text[text.len() - 1]));
        assert forall|i: int| 0 <= i < text.len() - 1 implies !spec_is_diactric(
            #[trigger] text.drop_last()[i],
        ) by {
            assert(text.drop_last()[i] == text[i]);
        }
        lemma_parse_unmarked(text.drop_last());
    }
}

/// A share of the points is no more than the points.
pub proof fn lemma_share_bound(points: nat, letters: nat)
    ensures
        share(points, letters) <= points,
        letters == 1 ==> share(points, letters) == points,
{
    if letters > 0 {
        vstd::arithmetic::div_mod::lemma_fundamental_div_mod(points as int, letters as int);
        vstd::arithmetic::div_mod::lemma_div_pos_is_pos(points as int, letters as int);
        vstd::arithmetic::div_mod::lemma_mod_bound(points as int, letters as int);
        let q = points as int / letters as int;
        assert(letters * q >= q) by (nonlinear_arith)
            requires
                letters >= 1,
                q >= 0,
        ;
        if letters >= 2 && points % letters != 0 {
            assert(letters * q >= 2 * q) by (nonlinear_arith)
                requires
                    letters >= 2,
                    q >= 0,
            ;
        }
        if letters == 1 {
            assert(letters * q == q) by (nonlinear_arith)
                requires
                    letters == 1,
            ;
        }
    }
}

/// The marks of a letter read back to the points that they stand for.
proof fn lemma_parse_marks(
    points: Seq<u8>,
    start: nat,
    n: nat,
    per_letter: Option<usize>,
    pause: Option<Seq<char>>,
)
    requires
        forall|i: int| 0 <= i < points.len() ==> #[trigger] points[i] < 112,
        pause matches Some(text) ==> unmarked(text),
        start + n <= points.len(),
    ensures
        spec_parse_curse_to_points(marks(points, start, n, per_letter, pause)) == points.subrange(
            start as int,
            (start + n) as int,
        ),
    decreases n,
{
    if n == 0 {
        assert(points.subrange(start as int, start as int) =~= Seq::<u8>::empty());
    } else {
        let before = marks(points, start, (n - 1) as nat, per_letter, pause);
        let point = points[start + n - 1];
        let mark = seq![mark_char(point)];
        let rest = break_after(n, per_letter, pause);
        lemma_parse_marks(points, start, (n - 1) as nat, per_letter, pause);
        lemma_parse_curse_concat(before + mark, rest);
        lemma_parse_curse_concat(before, mark);
        lemma_parse_unmarked(rest);
        assert(point < 112);
        assert(mark_char(point) as u32 == 0x0300 + point);
        assert(mark.drop_last() =~= Seq::<char>::empty());
        assert(mark.last() == mark_char(point));
        assert(spec_is_diactric(mark.last()));
        assert(spec_parse_curse_to_points(Seq::<char>::empty()) =~= Seq::<u8>::empty());
        assert(spec_parse_curse_to_points(mark) =~= seq![point]);
        assert(points.subrange(start as int, (start + n - 1) as int) + seq![point] =~= points.subrange(
            start as int,
            (start + n) as int,
        ));
        assert(spec_parse_curse_to_points(before) + seq![point] + Seq::<u8>::empty()
            =~= spec_parse_curse_to_points(before) + seq![point]);
    }
}

/// A cursed text reads back to the points from its first mark on.
proof fn lemma_parse_cursed_from(
    text: Seq<char>,
    points: Seq<u8>,
    k: nat,
    index: nat,
    per_letter: Option<usize>,
    pause: Option<Seq<char>>,
)
    requires
        forall|i: int| 0 <= i < points.len() ==> #[trigger] points[i] < 112,
        pause matches Some(text) ==> unmarked(text),
        unmarked(text),
        k < text.len(),
        index <= points.len(),
    ensures
        spec_parse_curse_to_points(cursed_from(text, points, k, index, per_letter, pause))
            == points.skip(index as int),
    decreases text.len() - k,
{
    let left = (points.len() - index) as nat;
    let count = share(left, (text.len() - k) as nat);
    let letter = seq![text[k as int]];
    let these = marks(points, index, count, per_letter, pause);
    let ahead = min_len(index + count, points.len());
    let tail = cursed_from(text, points, k + 1, ahead, per_letter, pause);
    lemma_share_bound(left, (text.len() - k) as nat);
    lemma_parse_marks(points, index, count, per_letter, pause);
    lemma_parse_curse_concat(letter + these, tail);
    lemma_parse_curse_concat(letter, these);
    assert(unmarked(letter)) by {
        assert(!spec_is_diactric(text[k as int]));
    }
    lemma_parse_unmarked(letter);
    assert(Seq::<u8>::empty() + points.subrange(index as int, (index + count) as int) =~= points.subrange(
        index as int,
        (index + count) as int,
    ));
    if k + 1 < text.len() {
        lemma_parse_cursed_from(text, points, k + 1, ahead, per_letter, pause);
        assert(points.subrange(index as int, (index + count) as int) + points.skip(ahead as int)
            =~= points.skip(index as int));
    } else {
        assert(tail =~= Seq::<char>::empty());
        assert(points.subrange(index as int, (index + count) as int) + Seq::<u8>::empty() =~= points.skip(
            index as int,
        ));
    }
}

/// Round trip: the marks of a cursed text read back to the data. It holds
/// where the text has a letter, and neither the text nor the break holds a
/// combining mark that stands for a digit.
pub proof fn lemma_curse_round_trip(
    text: Seq<char>,
    data: Seq<u8>,
    per_letter: Option<usize>,
    pause: Option<Seq<char>>,
)
    requires
        text.len() > 0,
        unmarked(text),
        pause matches Some(between) ==> unmarked(between),
    ensures
        spec_parse_curse_to_points(
            cursed_from(text, spec_bytes_to_diactrics_points(data), 0, 0, per_letter, pause),
        ) == spec_bytes_to_diactrics_points(data),
        spec_diatric_points_to_bytes(
            spec_parse_curse_to_points(
                cursed_from(text, spec_bytes_to_diactrics_points(data), 0, 0, per_letter, pause),
            ),
        ) == data,
{
    let points = spec_bytes_to_diactrics_points(data);
    lemma_digits_round_trip(data);
    lemma_parse_cursed_from(text, points, 0, 0, per_letter, pause);
    assert(points.skip(0) =~= points);
}

} // verus!
