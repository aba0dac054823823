//! Counting and rewriting of text that follows the Unicode standard or an
//! HTML dialect, done by the crates and std functions that know the tables.

use vstd::prelude::*;

verus! {

/// The number of extended grapheme clusters in a text.
pub uninterp spec fn grapheme_count(text: Seq<char>) -> nat;

/// The lower-case form of a text.
pub uninterp spec fn lowercased(text: Seq<char>) -> Seq<char>;

/// A text without its leading and trailing white space.
pub uninterp spec fn trimmed(text: Seq<char>) -> Seq<char>;

/// A text without the HTML tags in it.
pub uninterp spec fn without_tags(text: Seq<char>) -> Seq<char>;

/// A text with its HTML entities replaced by the characters they stand for.
pub uninterp spec fn entities_decoded(text: Seq<char>) -> Seq<char>;

/// `text` with every occurrence of the non-empty `from` replaced by `to`,
/// found from left to right without overlap.
pub open spec fn replaced(text: Seq<char>, from: Seq<char>, to: Seq<char>) -> Seq<char>
    recommends
        from.len() > 0,
    decreases text.len(),
{
    if from.len() == 0 || text.len() < from.len() {
        text
    } else if text.subrange(0, from.len() as int) == from {
        to + replaced(text.subrange(from.len() as int, text.len() as int), from, to)
    } else {
        seq![text[0]] + replaced(text.subrange(1, text.len() as int), from, to)
    }
}

/// Whether `part` occurs somewhere in `text`.
pub open spec fn occurs_in(part: Seq<char>, text: Seq<char>) -> bool {
    exists|i: int|
        0 <= i && i + part.len() <= text.len() && #[trigger] text.subrange(i, i + part.len())
            == part
}

/// Counts with `unicode_segmentation::UnicodeSegmentation::graphemes` in its
/// extended mode.
///
/// Taken on trust: the count depends on the text alone.
#[verifier::external_body]
pub(crate) fn count_graphemes(text: &str) -> (count: usize)
    ensures
        count == grapheme_count(text@),
{
    unicode_segmentation::UnicodeSegmentation::graphemes(text, true).count()
}

/// Calls `str::to_lowercase`. Taken on trust: the result depends on the text
/// alone.
#[verifier::external_body]
pub(crate) fn to_lowercase(text: &str) -> (lower: String)
    ensures
        lower@ == lowercased(text@),
{
    text.to_lowercase()
}

/// Calls `str::trim`. Taken on trust: the result depends on the text alone.
#[verifier::external_body]
pub(crate) fn trim(text: &str) -> (inner: String)
    ensures
        inner@ == trimmed(text@),
{
    text.trim().to_string()
}

/// Calls `str::replace` with a non-empty pattern. Taken on trust: every
/// occurrence of `from`, found from left to right without overlap, is
/// replaced by `to`, and nothing else changes.
#[verifier::external_body]
pub(crate) fn replace(text: &str, from: &str, to: &str) -> (changed: String)
    requires
        from@.len() > 0,
    ensures
        changed@ == replaced(text@, from@, to@),
{
    text.replace(from, to)
}

/// Calls `str::contains` with a string pattern. Taken on trust: the result
/// says whether the pattern is a substring of the text.
#[verifier::external_body]
pub(crate) fn contains(text: &str, part: &str) -> (found: bool)
    ensures
        found == occurs_in(part@, text@),
{
    text.contains(part)
}

/// Calls `voca_rs::strip::strip_tags`. Taken on trust: the result depends on
/// the text alone.
#[verifier::external_body]
pub(crate) fn strip_tags(text: &str) -> (plain: String)
    ensures
        plain@ == without_tags(text@),
{
    voca_rs::strip::strip_tags(text)
}

/// Calls `html_escape::decode_html_entities`. Taken on trust: the result
/// depends on the text alone.
#[verifier::external_body]
pub(crate) fn decode_html_entities(text: &str) -> (decoded: String)
    ensures
        decoded@ == entities_decoded(text@),
{
    html_escape::decode_html_entities(text).into_owned()
}

} // verus!
