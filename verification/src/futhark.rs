//! The rune codec: bytes as letters of an alphabet of 32 grapheme clusters,
//! five bits to the letter.

use crate::codec::{lemma_load, lemma_loaded, lemma_shifted, lemma_taken};
use crate::pack::{
    le_bytes, le_value, lemma_add_high, lemma_div_div, lemma_le_bytes_of_value,
    lemma_le_value_bound, lemma_le_value_byte, lemma_low_byte_unchanged, lemma_mod_div,
    lemma_packed_value_bound, lemma_pow2_mod_bound, lemma_small, lemma_split_mod, packed_bits,
    packed_value, symbols_well_formed,
};
use crate::text::{graphemes, push_char, spec_graphemes};
use vstd::arithmetic::power2::{lemma2_to64, lemma_pow2_adds, lemma_pow2_pos, pow2};
use vstd::prelude::*;

verus! {

/// The runes of the elder futhark and eight more, and the line feed that
/// ends a text of runes.
pub const FUTHARK: &'static str = "\u{16A0}\u{16A2}\u{16A6}\u{16A8}\u{16B1}\u{16B2}\u{16B7}\u{16B9}\u{16BA}\u{16BE}\u{16C1}\u{16C3}\u{16C7}\u{16C8}\u{16C9}\u{16CA}\u{16CF}\u{16D2}\u{16D6}\u{16D7}\u{16DA}\u{16DC}\u{16DE}\u{16DF}\u{16A1}\u{16A3}\u{16A4}\u{16A5}\u{16A7}\u{16A9}\u{16AA}\u{16AB}\n";

/// The capital letters and the digits from one to six.
pub const ALPHA_NUM: &'static str = "ABCDEFGHIJKLMNOPQRSTUVWXYZ123456";

/// The first index at which `cluster` stands in `alphabet`, if it does.
pub open spec fn cluster_position(alphabet: Seq<Seq<char>>, cluster: Seq<char>) -> Option<nat>
    decreases alphabet.len(),
{
    if alphabet.len() == 0 {
        None
    } else if alphabet.last() == cluster && cluster_position(alphabet.drop_last(), cluster)
        is None {
        Some((alphabet.len() - 1) as nat)
    } else {
        cluster_position(alphabet.drop_last(), cluster)
    }
}

/// The points of the clusters that are letters of the alphabet, in order:
/// the position of each, as a byte. The letter at position 32 ends the text
/// and is its last point.
pub open spec fn spec_rune_points(runes: Seq<Seq<char>>, alphabet: Seq<Seq<char>>) -> Seq<u8>
    decreases runes.len(),
{
    if runes.len() == 0 {
        Seq::empty()
    } else {
        match cluster_position(alphabet, runes[0]) {
            None => spec_rune_points(runes.drop_first(), alphabet),
            Some(position) => if position == 32 {
                seq![32u8]
            } else {
                seq![(position % 256) as u8] + spec_rune_points(runes.drop_first(), alphabet)
            },
        }
    }
}

/// The points that a text of runes holds.
pub open spec fn spec_parse_runes_to_points(runes: Seq<char>, alphabet: Seq<char>) -> Seq<u8> {
    spec_rune_points(spec_graphemes(runes), spec_graphemes(alphabet))
}

/// The accumulator once a point is loaded above its `offset` bits. An
/// empty accumulator is overwritten.
pub open spec fn loaded_bits(bits: u32, offset: nat, point: u8) -> u32 {
    if offset == 0 {
        point as u32
    } else {
        bits | ((point as u32) << (offset as u32))
    }
}

/// The accumulator and the number of bits it holds once the points are
/// packed, five bits to the point, and every whole byte is taken out.
pub open spec fn packing_state(points: Seq<u8>) -> (u32, nat)
    decreases points.len(),
{
    if points.len() == 0 {
        (0u32, 0nat)
    } else {
        let (bits, offset) = packing_state(points.drop_last());
        let loaded = loaded_bits(bits, offset, points.last());
        if offset + 5 >= 8 {
            (loaded >> 8u32, (offset + 5 - 8) as nat)
        } else {
            (loaded, offset + 5)
        }
    }
}

/// The bytes that points pack to, five bits to the point, the first point
/// lowest: a byte is given out as soon as eight bits are there. A point
/// above 31 also sets bits of the point that follows it.
pub open spec fn spec_points_to_bytes(points: Seq<u8>) -> Seq<u8>
    decreases points.len(),
{
    if points.len() == 0 {
        Seq::empty()
    } else {
        let (bits, offset) = packing_state(points.drop_last());
        let loaded = loaded_bits(bits, offset, points.last());
        if offset + 5 >= 8 {
            spec_points_to_bytes(points.drop_last()).push((loaded & 0xff) as u8)
        } else {
            spec_points_to_bytes(points.drop_last())
        }
    }
}

/// The bytes that a text of runes decodes to.
pub open spec fn spec_parse_runes(runes: Seq<char>, alphabet: Seq<char>) -> Seq<u8> {
    spec_points_to_bytes(spec_parse_runes_to_points(runes, alphabet))
}

/// The points of a byte buffer, five bits to the point, the lowest bits
/// first. The last point holds the bits that are left.
pub open spec fn spec_bytes_to_points(bytes: Seq<u8>) -> Seq<u8> {
    Seq::new(
        ((8 * bytes.len() + 4) / 5) as nat,
        |i: int| ((le_value(bytes) / pow2((5 * i) as nat)) % 32) as u8,
    )
}

/// The text that spells the points: for each point the letter at its
/// position in the alphabet.
pub open spec fn spec_runes_text(points: Seq<u8>, alphabet: Seq<Seq<char>>) -> Seq<char>
    decreases points.len(),
{
    if points.len() == 0 {
        Seq::empty()
    } else {
        spec_runes_text(points.drop_last(), alphabet) + alphabet[points.last() as int]
    }
}

/// The runes that spell a byte buffer.
pub open spec fn spec_generate_runes(bytes: Seq<u8>, alphabet: Seq<char>) -> Seq<char> {
    spec_runes_text(spec_bytes_to_points(bytes), spec_graphemes(alphabet))
}

/// After every point the accumulator holds fewer than eight bits, and
/// nothing above its fifteenth.
proof fn lemma_packing_state(points: Seq<u8>)
    ensures
        packing_state(points).1 <= 7,
        packing_state(points).0 < 0x8000,
    decreases points.len(),
{
    if points.len() > 0 {
        lemma_packing_state(points.drop_last());
        let (bits, offset) = packing_state(points.drop_last());
        let point = points.last() as u32;
        let shift = offset as u32;
        assert((bits | (point << shift)) < 0x8000 && ((bits | (point << shift)) >> 8) < 0x8000
            && (point >> 8) < 0x8000) by (bit_vector)
            requires
                bits < 0x8000,
                point < 256,
                shift <= 7,
        ;
    }
}

/// Whether two clusters have the same characters.
fn same_cluster(a: &Vec<char>, b: &Vec<char>) -> (same: bool)
    ensures
        same == (a@ == b@),
{
    if a.len() != b.len() {
        return false;
    }
    let mut i: usize = 0;
    while i < a.len()
        invariant
            i <= a@.len(),
            a@.len() == b@.len(),
            forall|j: int| 0 <= j < i ==> a@[j] == b@[j],
        decreases a@.len() - i,
    {
        if a[i] != b[i] {
            return false;
        }
        i += 1;
    }
    assert(a@ =~= b@);
    true
}

/// The position of a cluster in an alphabet of clusters.
pub fn position_in_alphabet(alphabet: &Vec<Vec<char>>, cluster: &Vec<char>) -> (position: Option<
    usize,
>)
    ensures
        match position {
            Some(p) => cluster_position(alphabet.deep_view(), cluster@) == Some(p as nat),
            None => cluster_position(alphabet.deep_view(), cluster@) is None,
        },
{
    let ghost letters = alphabet.deep_view();
    let mut found: Option<usize> = None;
    let mut i: usize = 0;
    while i < alphabet.len()
        invariant
            i <= alphabet@.len(),
            letters == alphabet.deep_view(),
            match found {
                Some(p) => cluster_position(letters.take(i as int), cluster@) == Some(p as nat),
                None => cluster_position(letters.take(i as int), cluster@) is None,
            },
        decreases alphabet@.len() - i,
    {
        proof {
            assert(letters.take(i + 1).drop_last() =~= letters.take(i as int));
            assert(letters.take(i + 1).last() == alphabet@[i as int]@);
        }
        if found.is_none() && same_cluster(&alphabet[i], cluster) {
            found = Some(i);
        }
        i += 1;
    }
    assert(letters.take(i as int) =~= letters);
    found
}

/// The points of the clusters of a text, given the clusters of the alphabet.
pub fn rune_points(runes: &Vec<Vec<char>>, alphabet: &Vec<Vec<char>>) -> (points: Vec<u8>)
    ensures
        points@ == spec_rune_points(runes.deep_view(), alphabet.deep_view()),
{
    let ghost all = runes.deep_view();
    let ghost letters = alphabet.deep_view();
    let mut results: Vec<u8> = Vec::new();
    let mut i: usize = 0;
    assert(all.skip(0) =~= all);
    while i < runes.len()
        invariant
            i <= runes@.len(),
            all == runes.deep_view(),
            letters == alphabet.deep_view(),
            results@ + spec_rune_points(all.skip(i as int), letters) == spec_rune_points(
                all,
                letters,
            ),
        decreases runes@.len() - i,
    {
        let ghost rest = all.skip(i as int);
        let ghost before = results@;
        proof {
            assert(rest[0] == runes@[i as int]@);
            assert(rest.drop_first() =~= all.skip(i + 1));
        }
        if let Some(position) = position_in_alphabet(alphabet, &runes[i]) {
            results.push((position % 256) as u8);
            if position == 32 {
                assert(results@ =~= before + seq![32u8]);
                return results;
            }
            proof {
                let point = (position % 256) as u8;
                let tail = spec_rune_points(all.skip(i + 1), letters);
                assert(before.push(point) + tail =~= before + (seq![point] + tail));
            }
        }
        i += 1;
    }
    assert(results@ + Seq::<u8>::empty() =~= results@);
    results
}

/// Reads the points of a text of runes: the position in the alphabet of
/// every grapheme cluster that is a letter of it.
pub fn parse_runes_to_points(runes: &str, alphabet: &str) -> (points: Vec<u8>)
    ensures
        points@ == spec_parse_runes_to_points(runes@, alphabet@),
{
    let clusters = graphemes(runes);
    let letters = graphemes(alphabet);
    rune_points(&clusters, &letters)
}

/// Packs points of five bits into bytes.
pub fn points_to_bytes(points: Vec<u8>) -> (bytes: Vec<u8>)
    ensures
        bytes@ == spec_points_to_bytes(points@),
{
    let mut results: Vec<u8> = Vec::new();
    let mut bits: u32 = 0;
    let mut offset: u32 = 0;
    let mut i: usize = 0;
    while i < points.len()
        invariant
            i <= points@.len(),
            offset <= 7,
            bits < 0x8000,
            (bits, offset as nat) == packing_state(points@.take(i as int)),
            results@ == spec_points_to_bytes(points@.take(i as int)),
        decreases points@.len() - i,
    {
        let point = points[i];
        proof {
            assert(points@.take(i + 1).drop_last() =~= points@.take(i as int));
            assert(points@.take(i + 1).last() == point);
            lemma_packing_state(points@.take(i + 1));
        }
        if offset == 0 {
            bits = point as u32;
            offset = 5;
        } else {
            bits = bits | ((point as u32) << offset);
            offset = offset + 5;
        }
        if offset >= 8 {
            assert(bits & 0xff < 256) by (bit_vector);
            results.push((bits & 0xff) as u8);
            bits = bits >> 8;
            offset = offset - 8;
        }
        i += 1;
    }
    assert(points@.take(i as int) =~= points@);
    results
}

/// Decodes a text of runes to bytes.
pub fn parse_runes(runes: &str, alphabet: &str) -> (bytes: Vec<u8>)
    ensures
        bytes@ == spec_parse_runes(runes@, alphabet@),
{
    let points = parse_runes_to_points(runes, alphabet);
    points_to_bytes(points)
}

/// Splits a byte buffer into points of five bits.
pub fn bytes_to_points(bytes: &[u8]) -> (points: Vec<u8>)
    ensures
        points@ == spec_bytes_to_points(bytes@),
        forall|i: int| 0 <= i < points@.len() ==> points@[i] < 32,
{
    let mut results: Vec<u8> = Vec::new();
    let mut bits: u32 = 0;
    let mut offset: u32 = 0;
    let ghost value = le_value(bytes@);
    let mut j: usize = 0;
    proof {
        lemma2_to64();
        lemma_small(0, 0);
        assert(value / pow2(0) == value);
    }
    while j < bytes.len()
        invariant
            j <= bytes@.len(),
            value == le_value(bytes@),
            offset < 5,
            5 * results@.len() + offset == 8 * j,
            bits == (value / pow2(5 * results@.len())) % pow2(offset as nat),
            forall|i: int|
                0 <= i < results@.len() ==> results@[i] == (value / pow2((5 * i) as nat)) % 32,
        decreases bytes@.len() - j,
    {
        let byte = bytes[j];
        proof {
            let rest = value / pow2(5 * results@.len());
            lemma_div_div(value, 5 * results@.len(), offset as nat);
            lemma_le_value_byte(bytes@, j as int);
            lemma_loaded(bits, byte, offset, rest);
        }
        bits = bits | ((byte as u32) << offset);
        offset = offset + 8;
        j = j + 1;
        while offset >= 5
            invariant
                value == le_value(bytes@),
                offset < 13,
                5 * results@.len() + offset == 8 * j,
                bits == (value / pow2(5 * results@.len())) % pow2(offset as nat),
                forall|i: int|
                    0 <= i < results@.len() ==> results@[i] == (value / pow2((5 * i) as nat))
                        % 32,
            decreases offset,
        {
            proof {
                lemma2_to64();
                let rest = value / pow2(5 * results@.len());
                lemma_taken(bits, 5, offset, rest);
                lemma_div_div(value, 5 * results@.len(), 5);
                assert(bits & 0x1f == bits & (((1u32 << 5u32) - 1) as u32)) by (bit_vector);
            }
            results.push((bits & 0x1f) as u8);
            bits = bits >> 5;
            offset = offset - 5;
        }
    }
    if offset != 0 {
        proof {
            lemma2_to64();
            let done = 5 * results@.len();
            lemma_le_value_bound(bytes@);
            lemma_small(value, 8 * bytes@.len());
            lemma_mod_div(value, 8 * bytes@.len(), done);
            lemma_pow2_pos(offset as nat);
            vstd::arithmetic::power2::lemma_pow2_strictly_increases(offset as nat, 5);
            lemma_small(value / pow2(done), 5);
            lemma_small(value / pow2(done), offset as nat);
        }
        results.push(bits as u8);
    }
    assert(results@ =~= spec_bytes_to_points(bytes@));
    results
}

/// Appends the characters of a cluster to a text.
fn push_cluster(text: &mut String, cluster: &Vec<char>)
    ensures
        final(text)@ == old(text)@ + cluster@,
{
    let mut i: usize = 0;
    while i < cluster.len()
        invariant
            i <= cluster@.len(),
            text@ == old(text)@ + cluster@.take(i as int),
        decreases cluster@.len() - i,
    {
        push_char(text, cluster[i]);
        i += 1;
        assert(text@ =~= old(text)@ + cluster@.take(i as int));
    }
    assert(cluster@.take(i as int) =~= cluster@);
}

/// Spells points with the letters of an alphabet of clusters.
pub fn runes_of_points(points: &Vec<u8>, alphabet: &Vec<Vec<char>>) -> (text: String)
    requires
        forall|i: int| 0 <= i < points@.len() ==> points@[i] < alphabet@.len(),
    ensures
        text@ == spec_runes_text(points@, alphabet.deep_view()),
{
    let mut text = String::new();
    let mut i: usize = 0;
    while i < points.len()
        invariant
            i <= points@.len(),
            forall|i: int| 0 <= i < points@.len() ==> points@[i] < alphabet@.len(),
            text@ == spec_runes_text(points@.take(i as int), alphabet.deep_view()),
        decreases points@.len() - i,
    {
        proof {
            assert(points@.take(i + 1).drop_last() =~= points@.take(i as int));
            assert(points@.take(i + 1).last() == points@[i as int]);
            assert(alphabet.deep_view()[points@[i as int] as int] == alphabet@[points@[i as int] as int]@);
        }
        push_cluster(&mut text, &alphabet[points[i] as usize]);
        i += 1;
    }
    assert(points@.take(i as int) =~= points@);
    text
}

/// Spells a byte buffer in runes. The alphabet has a letter for every point
/// of the buffer.
pub fn generate_runes(bytes: &[u8], alphabet: &str) -> (runes: String)
    requires
        forall|i: int|
            0 <= i < spec_bytes_to_points(bytes@).len() ==> spec_bytes_to_points(bytes@)[i]
                < spec_graphemes(alphabet@).len(),
    ensures
        runes@ == spec_generate_runes(bytes@, alphabet@),
{
    let points = bytes_to_points(bytes);
    let letters = graphemes(alphabet);
    assert(letters@.len() == letters.deep_view().len());
    runes_of_points(&points, &letters)
}

/// Spells a byte buffer in runes, if the alphabet has a letter for every
/// point of the buffer.
pub fn try_generate_runes(bytes: &[u8], alphabet: &str) -> (runes: Option<String>)
    ensures
        match runes {
            Some(text) => text@ == spec_generate_runes(bytes@, alphabet@),
            None => exists|i: int|
                0 <= i < spec_bytes_to_points(bytes@).len() && spec_bytes_to_points(bytes@)[i]
                    >= spec_graphemes(alphabet@).len(),
        },
{
    let points = bytes_to_points(bytes);
    let letters = graphemes(alphabet);
    assert(letters@.len() == letters.deep_view().len());
    let mut i: usize = 0;
    while i < points.len()
        invariant
            i <= points@.len(),
            points@ == spec_bytes_to_points(bytes@),
            letters.deep_view() == spec_graphemes(alphabet@),
            letters@.len() == letters.deep_view().len(),
            forall|k: int| 0 <= k < i ==> points@[k] < letters@.len(),
        decreases points@.len() - i,
    {
        if points[i] as usize >= letters.len() {
            proof {
                let all = spec_bytes_to_points(bytes@);
                assert(0 <= i < all.len() && all[i as int] >= spec_graphemes(alphabet@).len());
            }
            return None;
        }
        i += 1;
    }
    Some(generate_runes(bytes, alphabet))
}

/// Points as symbols of five bits each.
pub open spec fn five_bit_symbols(points: Seq<u8>) -> Seq<(u8, usize)> {
    Seq::new(points.len(), |i: int| (points[i], 5usize))
}

/// The symbols of points below 32 take five bits each and are well formed.
proof fn lemma_five_bit_symbols(points: Seq<u8>)
    requires
        forall|i: int| 0 <= i < points.len() ==> points[i] < 32,
    ensures
        symbols_well_formed(five_bit_symbols(points)),
        packed_bits(five_bit_symbols(points)) == 5 * points.len(),
    decreases points.len(),
{
    lemma2_to64();
    if points.len() > 0 {
        lemma_five_bit_symbols(points.drop_last());
        assert(five_bit_symbols(points).drop_last() =~= five_bit_symbols(points.drop_last()));
    }
}

/// Points below 32 pack to the whole bytes of the number that they spell,
/// five bits to the point.
pub proof fn lemma_five_bit_packing(points: Seq<u8>)
    requires
        forall|i: int| 0 <= i < points.len() ==> points[i] < 32,
    ensures
        spec_points_to_bytes(points) == le_bytes(
            packed_value(five_bit_symbols(points)),
            (5 * points.len() / 8) as nat,
        ),
        packing_state(points).1 == 5 * points.len() % 8,
        packing_state(points).0 == packed_value(five_bit_symbols(points)) / pow2(
            (8 * (5 * points.len() / 8)) as nat,
        ),
    decreases points.len(),
{
    lemma2_to64();
    let symbols = five_bit_symbols(points);
    if points.len() == 0 {
        assert(symbols.len() == 0);
        lemma_small(0, 0);
        assert(spec_points_to_bytes(points) =~= le_bytes(0, 0));
    } else {
        let front = points.drop_last();
        let point = points.last();
        let front_symbols = five_bit_symbols(front);
        let front_value = packed_value(front_symbols);
        let front_bits = 5 * front.len();
        let whole = (front_bits / 8) as nat;
        let offset = (front_bits % 8) as nat;
        let value = packed_value(symbols);
        lemma_five_bit_packing(front);
        lemma_five_bit_symbols(front);
        assert(symbols.drop_last() =~= front_symbols);
        assert(symbols.last() == (point, 5usize));
        assert(value == front_value + point * pow2(front_bits as nat));
        let (bits, held) = packing_state(front);
        assert(held == offset);
        lemma_packed_value_bound(front_symbols);
        lemma_small(front_value, front_bits as nat);
        lemma_mod_div(front_value, front_bits as nat, 8 * whole);
        lemma_pow2_mod_bound(front_value / pow2(8 * whole), offset);
        lemma_pow2_adds(8 * whole, offset);
        assert(point * pow2(front_bits as nat) == (point * pow2(offset)) * pow2(8 * whole))
            by (nonlinear_arith)
            requires
                pow2(front_bits as nat) == pow2(8 * whole) * pow2(offset),
        ;
        lemma_add_high(front_value, point as nat * pow2(offset), 8 * whole);
        lemma_shifted(point as u32, offset as u32);
        lemma_load(bits, point as u32, offset as u32);
        let loaded = loaded_bits(bits, offset, point);
        assert(offset == 0 ==> point * pow2(offset) == point) by (nonlinear_arith)
            requires
                offset == 0 ==> pow2(offset) == 1,
        ;
        assert(loaded == value / pow2(8 * whole));
        assert forall|j: int| 0 <= j < whole implies le_bytes(value, whole)[j] == le_bytes(
            front_value,
            whole,
        )[j] by {
            lemma_low_byte_unchanged(front_value, point as nat, front_bits as nat, j as nat);
        }
        assert(le_bytes(value, whole) =~= le_bytes(front_value, whole));
        if offset + 5 >= 8 {
            lemma_div_div(value, 8 * whole, 8);
            assert(loaded & 0xff == loaded % 256) by (bit_vector);
            assert(loaded >> 8 == loaded / 256) by (bit_vector);
            assert(le_bytes(value, whole + 1) =~= le_bytes(value, whole).push(
                ((value / pow2(8 * whole)) % 256) as u8,
            ));
        }
    }
}

/// The first `k` points of a byte buffer spell the low `5 * k` bits of its
/// number.
proof fn lemma_points_value(bytes: Seq<u8>, k: nat)
    requires
        k <= spec_bytes_to_points(bytes).len(),
    ensures
        packed_value(five_bit_symbols(spec_bytes_to_points(bytes).take(k as int))) == le_value(
            bytes,
        ) % pow2(5 * k),
    decreases k,
{
    lemma2_to64();
    let value = le_value(bytes);
    let points = spec_bytes_to_points(bytes).take(k as int);
    let symbols = five_bit_symbols(points);
    if k == 0 {
        assert(symbols.len() == 0);
    } else {
        let low = (k - 1) as nat;
        let front = spec_bytes_to_points(bytes).take(low as int);
        lemma_points_value(bytes, low);
        assert(points.drop_last() =~= front);
        assert(symbols.drop_last() =~= five_bit_symbols(front));
        assert forall|i: int| 0 <= i < front.len() implies front[i] < 32 by {
            lemma_pow2_mod_bound(value / pow2((5 * i) as nat), 5);
        }
        lemma_five_bit_symbols(front);
        lemma_pow2_mod_bound(value / pow2(5 * low), 5);
        lemma_split_mod(value, 5 * low, 5);
        let digit = (value / pow2(5 * low)) % 32;
        assert(symbols.last().0 == digit);
        assert(digit * pow2(5 * low) == pow2(5 * low) * digit) by (nonlinear_arith);
    }
}

/// Round trip: the points of a byte buffer pack to the buffer again.
pub proof fn lemma_points_round_trip(bytes: Seq<u8>)
    ensures
        spec_points_to_bytes(spec_bytes_to_points(bytes)) == bytes,
{
    lemma2_to64();
    let value = le_value(bytes);
    let points = spec_bytes_to_points(bytes);
    assert forall|i: int| 0 <= i < points.len() implies points[i] < 32 by {
        lemma_pow2_mod_bound(value / pow2((5 * i) as nat), 5);
    }
    lemma_five_bit_packing(points);
    lemma_points_value(bytes, points.len());
    assert(points.take(points.len() as int) =~= points);
    lemma_le_value_bound(bytes);
    if 5 * points.len() > 8 * bytes.len() {
        vstd::arithmetic::power2::lemma_pow2_strictly_increases(
            8 * bytes.len(),
            5 * points.len(),
        );
    }
    lemma_small(value, 5 * points.len());
    lemma_le_bytes_of_value(bytes);
}

/// The letters that spell points, one cluster for each point.
pub open spec fn letters_of(points: Seq<u8>, alphabet: Seq<Seq<char>>) -> Seq<Seq<char>> {
    Seq::new(points.len(), |i: int| alphabet[points[i] as int])
}

/// Whether no letter stands twice in the alphabet.
pub open spec fn distinct_letters(alphabet: Seq<Seq<char>>) -> bool {
    forall|i: int, j: int| 0 <= i < j < alphabet.len() ==> alphabet[i] != alphabet[j]
}

/// What `cluster_position` finds is the first occurrence, and it finds
/// nothing only where there is none.
pub proof fn lemma_cluster_position(alphabet: Seq<Seq<char>>, cluster: Seq<char>)
    ensures
        match cluster_position(alphabet, cluster) {
            Some(p) => p < alphabet.len() && alphabet[p as int] == cluster && forall|j: int|
                0 <= j < p ==> alphabet[j] != cluster,
            None => forall|j: int| 0 <= j < alphabet.len() ==> alphabet[j] != cluster,
        },
    decreases alphabet.len(),
{
    if alphabet.len() > 0 {
        let front = alphabet.drop_last();
        lemma_cluster_position(front, cluster);
        assert(forall|j: int| 0 <= j < front.len() ==> front[j] == alphabet[j]);
        match cluster_position(front, cluster) {
            Some(p) => {
                assert(front[p as int] == cluster);
            },
            None => {
                assert forall|j: int| 0 <= j < alphabet.len() - 1 implies alphabet[j]
                    != cluster by {
                    assert(front[j] != cluster);
                }
            },
        }
    }
}

/// Reading the letters that spell points gives the points, where no letter
/// stands twice in the alphabet and no point is the one that ends a text.
pub proof fn lemma_runes_read_back(points: Seq<u8>, alphabet: Seq<Seq<char>>)
    requires
        distinct_letters(alphabet),
        forall|i: int| 0 <= i < points.len() ==> points[i] < alphabet.len() && points[i] != 32,
    ensures
        spec_rune_points(letters_of(points, alphabet), alphabet) == points,
    decreases points.len(),
{
    let letters = letters_of(points, alphabet);
    if points.len() == 0 {
        assert(points =~= Seq::<u8>::empty());
    } else {
        let rest = points.drop_first();
        lemma_runes_read_back(rest, alphabet);
        assert(letters.drop_first() =~= letters_of(rest, alphabet));
        assert(letters[0] == alphabet[points[0] as int]);
        lemma_cluster_position(alphabet, letters[0]);
        assert(cluster_position(alphabet, letters[0]) == Some(points[0] as nat));
        assert(seq![points[0]] + rest =~= points);
    }
}

/// Round trip: a byte buffer spelled in an alphabet of at least 32 letters,
/// none of them twice, and read back is the buffer again, where the
/// clusters of the spelled text are its letters.
pub proof fn lemma_runes_round_trip(bytes: Seq<u8>, alphabet: Seq<Seq<char>>)
    requires
        alphabet.len() >= 32,
        distinct_letters(alphabet),
    ensures
        spec_points_to_bytes(
            spec_rune_points(letters_of(spec_bytes_to_points(bytes), alphabet), alphabet),
        ) == bytes,
{
    lemma2_to64();
    let points = spec_bytes_to_points(bytes);
    assert forall|i: int| 0 <= i < points.len() implies points[i] < alphabet.len() && points[i]
        != 32 by {
        lemma_pow2_mod_bound(le_value(bytes) / pow2((5 * i) as nat), 5);
    }
    lemma_runes_read_back(points, alphabet);
    lemma_points_round_trip(bytes);
}

} // verus!
