//! Regular-expression searches, as far as the library relies on them.
//!
//! The expressions themselves are evaluated by the `regex` crate. What a
//! search returns is named here, so that the rest of the library can say
//! exactly what it does with the matches.

use vstd::prelude::*;
use vstd::utf8::*;

verus! {

/// The matches of `pattern` in `haystack`, in the order of the search, each as
/// its start and end byte offset; `None` where `pattern` is no valid
/// expression.
pub uninterp spec fn pattern_matches(pattern: Seq<char>, haystack: Seq<char>) -> Option<
    Seq<(usize, usize)>,
>;

/// For every match of `pattern` in `haystack`, the byte spans of the capture
/// groups numbered `first` and `second`, each `None` where the group took no
/// part in the match; `None` as a whole where `pattern` is no valid
/// expression.
pub uninterp spec fn pattern_groups(
    pattern: Seq<char>,
    haystack: Seq<char>,
    first: usize,
    second: usize,
) -> Option<Seq<(Option<(usize, usize)>, Option<(usize, usize)>)>>;

/// The matches that a replacement takes: the first `limit` of them, or all
/// where `limit` is 0.
pub open spec fn first_matches(found: Seq<(usize, usize)>, limit: usize) -> Seq<(usize, usize)> {
    if limit == 0 || limit >= found.len() {
        found
    } else {
        found.subrange(0, limit as int)
    }
}

/// The bytes of a text from `last` on, with every span of `found` replaced
/// by `replacement`.
pub open spec fn spans_replaced(
    bytes: Seq<u8>,
    found: Seq<(usize, usize)>,
    replacement: Seq<u8>,
    last: int,
) -> Seq<u8>
    decreases found.len(),
{
    if found.len() == 0 {
        bytes.subrange(last, bytes.len() as int)
    } else {
        bytes.subrange(last, found[0].0 as int) + replacement + spans_replaced(
            bytes,
            found.drop_first(),
            replacement,
            found[0].1 as int,
        )
    }
}

/// `haystack` with the first `limit` matches of `pattern` replaced by
/// `replacement` (all of them where `limit` is 0); `None` where `pattern` is
/// no valid expression.
pub open spec fn pattern_replaced(
    pattern: Seq<char>,
    haystack: Seq<char>,
    limit: usize,
    replacement: Seq<char>,
) -> Option<Seq<char>> {
    match pattern_matches(pattern, haystack) {
        Some(found) => Some(
            decode_utf8(
                spans_replaced(
                    encode_utf8(haystack),
                    first_matches(found, limit),
                    encode_utf8(replacement),
                    0,
                ),
            ),
        ),
        None => None,
    }
}

/// What the span of a match is known to satisfy: it lies within the haystack,
/// on character boundaries, and does not end before it starts.
pub open spec fn span_in_text(span: (usize, usize), haystack: Seq<char>) -> bool {
    &&& span.0 <= span.1 <= encode_utf8(haystack).len()
    &&& is_char_boundary(encode_utf8(haystack), span.0 as int)
    &&& is_char_boundary(encode_utf8(haystack), span.1 as int)
}

/// Whether the spans follow one another without overlap.
pub open spec fn spans_in_order(spans: Seq<(usize, usize)>) -> bool {
    forall|i: int, j: int| 0 <= i < j < spans.len() ==> (#[trigger] spans[i]).1 <= (#[trigger] spans[j]).0
}

/// Whether a group span, where there is one, lies within the haystack.
pub open spec fn group_in_text(group: Option<(usize, usize)>, haystack: Seq<char>) -> bool {
    group is Some ==> span_in_text(group->0, haystack)
}

/// Whether the span `earlier`, where there is one, ends before the span
/// `later`, where there is one, starts.
pub open spec fn group_before(earlier: Option<(usize, usize)>, later: Option<(usize, usize)>) -> bool {
    match (earlier, later) {
        (Some(a), Some(b)) => a.1 <= b.0,
        _ => true,
    }
}

/// Whether the group spans of every match lie before those of the matches
/// that follow it.
pub open spec fn groups_in_order(
    found: Seq<(Option<(usize, usize)>, Option<(usize, usize)>)>,
) -> bool {
    forall|i: int, j: int|
        0 <= i < j < found.len() ==> {
            &&& group_before((#[trigger] found[i]).0, (#[trigger] found[j]).0)
            &&& group_before(found[i].0, found[j].1)
            &&& group_before(found[i].1, found[j].0)
            &&& group_before(found[i].1, found[j].1)
        }
}

/// Compiles `pattern` with `regex::Regex::new` and collects the matches that
/// `Regex::find_iter` yields on `haystack`.
///
/// Taken on trust: the result depends on the two arguments alone; every match
/// has `start <= end` with both offsets on UTF-8 boundaries of the haystack
/// (the guarantee documented for `regex::Match`); and the matches are
/// successive and do not overlap (documented for `find_iter`).
#[verifier::external_body]
pub(crate) fn find_matches(pattern: &str, haystack: &str) -> (found: Option<Vec<(usize, usize)>>)
    ensures
        found is Some == pattern_matches(pattern@, haystack@) is Some,
        found is Some ==> found->0@ == pattern_matches(pattern@, haystack@)->0,
        found is Some ==> forall|i: int|
            0 <= i < found->0@.len() ==> span_in_text(#[trigger] found->0@[i], haystack@),
        found is Some ==> spans_in_order(found->0@),
{
    match regex::Regex::new(pattern) {
        Ok(re) => Some(re.find_iter(haystack).map(|m| (m.start(), m.end())).collect()),
        Err(_) => None,
    }
}

/// Compiles `pattern` with `regex::Regex::new`, runs `Regex::captures_iter` on
/// `haystack` and reads two groups of every match with `Captures::get`.
///
/// Taken on trust: the result depends on the arguments alone; every group
/// span is the span of a `regex::Match`, so it has `start <= end` with both
/// offsets on UTF-8 boundaries of the haystack; and since `captures_iter`
/// yields successive matches that do not overlap, and a group is a part of
/// its match, the groups of a match end before those of the next start.
#[verifier::external_body]
pub(crate) fn capture_groups(pattern: &str, haystack: &str, first: usize, second: usize) -> (found:
    Option<Vec<(Option<(usize, usize)>, Option<(usize, usize)>)>>)
    ensures
        found is Some == pattern_groups(pattern@, haystack@, first, second) is Some,
        found is Some ==> found->0@ == pattern_groups(pattern@, haystack@, first, second)->0,
        found is Some ==> forall|i: int|
            0 <= i < found->0@.len() ==> group_in_text((#[trigger] found->0@[i]).0, haystack@)
                && group_in_text(found->0@[i].1, haystack@),
        found is Some ==> groups_in_order(found->0@),
{
    match regex::Regex::new(pattern) {
        Ok(re) => Some(
            re.captures_iter(haystack).map(
                |c|
                    (
                        c.get(first).map(|m| (m.start(), m.end())),
                        c.get(second).map(|m| (m.start(), m.end())),
                    ),
            ).collect(),
        ),
        Err(_) => None,
    }
}

/// Compiles `pattern` with `regex::Regex::new` and calls `Regex::replacen` on
/// `haystack`, with a replacement that holds no `$`.
///
/// Taken on trust: such a replacement is put in as it stands, and the result
/// is the haystack with the first `limit` matches that `find_iter` yields
/// (all of them where `limit` is 0) replaced by it, as the source of
/// `replacen` shows.
#[verifier::external_body]
pub(crate) fn replace_matches(pattern: &str, haystack: &str, limit: usize, replacement: &str) -> (replaced:
    Option<String>)
    requires
        !replacement@.contains('$'),
    ensures
        replaced is Some == pattern_replaced(pattern@, haystack@, limit, replacement@) is Some,
        replaced is Some ==> replaced->0@ == pattern_replaced(
            pattern@,
            haystack@,
            limit,
            replacement@,
        )->0,
{
    match regex::Regex::new(pattern) {
        Ok(re) => Some(re.replacen(haystack, limit, replacement).into_owned()),
        Err(_) => None,
    }
}

} // verus!
