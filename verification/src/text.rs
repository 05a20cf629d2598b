//! The text operations that the codecs take from outside this library.

use unicode_segmentation::UnicodeSegmentation;
use vstd::prelude::*;
use vstd::utf8::is_scalar;

verus! {

/// Whether a character has the Unicode property `White_Space`, as
/// `char::is_whitespace` reports it.
pub uninterp spec fn spec_is_whitespace(c: char) -> bool;

/// Calls `char::is_whitespace`. The contract only names the answer: it is a
/// fixed property of the character.
#[verifier::external_body]
pub(crate) fn is_whitespace(c: char) -> (white: bool)
    ensures
        white == spec_is_whitespace(c),
{
    c.is_whitespace()
}

/// Calls `String::push`, which appends one character to the string.
#[verifier::external_body]
pub(crate) fn push_char(text: &mut String, c: char)
    ensures
        final(text)@ == old(text)@.push(c),
{
    text.push(c)
}

/// The extended grapheme clusters of a text, in order, as the Unicode text
/// segmentation rules split it.
pub uninterp spec fn spec_graphemes(text: Seq<char>) -> Seq<Seq<char>>;

/// Calls `UnicodeSegmentation::graphemes` for extended clusters and hands
/// each cluster out as its characters. The contract only names the result:
/// the clusters are a function of the text alone.
#[verifier::external_body]
pub(crate) fn graphemes(text: &str) -> (clusters: Vec<Vec<char>>)
    ensures
        clusters.deep_view() == spec_graphemes(text@),
{
    text.graphemes(true).map(|cluster| cluster.chars().collect()).collect()
}

/// Calls `char::from_u32`, which gives the character of a code exactly
/// when the code is a Unicode scalar value.
#[verifier::external_body]
pub(crate) fn char_from_u32(code: u32) -> (c: Option<char>)
    ensures
        c == if is_scalar(code) {
            Some(code as char)
        } else {
            None::<char>
        },
{
    char::from_u32(code)
}

} // verus!
