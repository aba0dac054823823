//! Links and hashtags in a text, with the byte spans they cover, and the
//! shortening of over-long links so that a text fits into a Bluesky post.

use crate::budget::{bluesky_budget, bluesky_rule, ShortenBudget, BLUESKY_LIMIT};
use crate::pattern::{
    capture_groups, find_matches, group_before, group_in_text, groups_in_order, pattern_groups,
    pattern_matches, pattern_replaced, replace_matches, span_in_text, spans_in_order,
};
use crate::text::{
    byte_len, byte_slice, lemma_ascii_is_boundary, lemma_boundary_after_prefix,
    lemma_boundary_in_range, lemma_boundary_transfer, lemma_boundaries_after_replacing,
    lemma_decode_concat, lemma_encode_concat, lemma_encode_nonempty, lemma_slice_valid,
    replaced_span,
};
use crate::unicode::{count_graphemes, grapheme_count};
use bsky_sdk::api::app::bsky::richtext::facet::{ByteSliceData, MainData};
use vstd::prelude::*;
use vstd::string::*;
use vstd::utf8::*;

verus! {

/// A link starts with its scheme and runs up to the next white space.
pub const LINK_PATTERN: &'static str = r"https?:\/\/[\S]+";

/// A hashtag: the marker after the start of the text or after white space,
/// then the tag, which holds at least one character that is neither a digit
/// nor punctuation.
pub const TAG_PATTERN: &'static str =
    r"(?:^|\s)([#＃])([^\s\u00AD\u2060\u200A\u200B\u200C\u200D\u20e2]*[^\d\s\p{P}\u00AD\u2060\u200A\u200B\u200C\u200D\u20e2]+[^\s\u00AD\u2060\u200A\u200B\u200C\u200D\u20e2]*)?";

/// Punctuation at the end of a tag.
pub const TRAILING_PUNCTUATION: &'static str = r"\p{P}+$";

/// The longest tag, in bytes, that is still recorded.
pub const MAX_TAG_BYTES: usize = 64;

/// A half-open range of byte offsets into the UTF-8 encoding of a text.
#[derive(Debug, Clone, Copy, PartialEq, Eq, Structural)]
pub struct ByteSlice {
    pub byte_start: usize,
    pub byte_end: usize,
}

/// A link target.
#[derive(Debug, Clone, PartialEq, Eq)]
pub struct Link {
    pub uri: String,
}

/// A hashtag, without its marker.
#[derive(Debug, Clone, PartialEq, Eq)]
pub struct Tag {
    pub tag: String,
}

/// What a facet marks its span as.
#[derive(Debug, Clone, PartialEq, Eq)]
pub enum FacetFeaturesItem {
    Link(Link),
    Tag(Tag),
}

/// A span of a text together with what it was recognised as.
#[derive(Debug, Clone, PartialEq, Eq)]
pub struct FacetWithoutResolution {
    pub features: Vec<FacetFeaturesItem>,
    pub index: ByteSlice,
}

/// A mention of an account whose handle is not resolved yet.
#[derive(Debug, Clone, PartialEq, Eq)]
pub struct MentionWithoutResolution {
    pub handle: String,
}

/// The mathematical value of a feature.
pub enum FeatureView {
    Link(Seq<char>),
    Tag(Seq<char>),
}

/// The mathematical value of a facet.
pub struct FacetView {
    pub features: Seq<FeatureView>,
    pub byte_start: int,
    pub byte_end: int,
}

impl View for FacetFeaturesItem {
    type V = FeatureView;

    open spec fn view(&self) -> FeatureView {
        match self {
            FacetFeaturesItem::Link(link) => FeatureView::Link(link.uri@),
            FacetFeaturesItem::Tag(tag) => FeatureView::Tag(tag.tag@),
        }
    }
}

impl View for FacetWithoutResolution {
    type V = FacetView;

    open spec fn view(&self) -> FacetView {
        FacetView {
            features: feature_views(self.features@),
            byte_start: self.index.byte_start as int,
            byte_end: self.index.byte_end as int,
        }
    }
}

/// The values of a list of features.
pub open spec fn feature_views(features: Seq<FacetFeaturesItem>) -> Seq<FeatureView> {
    features.map_values(|f: FacetFeaturesItem| f@)
}

/// The values of a list of facets.
pub open spec fn facet_views(facets: Seq<FacetWithoutResolution>) -> Seq<FacetView> {
    facets.map_values(|f: FacetWithoutResolution| f@)
}

/// A span is valid for a text when it is not empty, lies within the text and
/// starts and ends on character boundaries.
pub open spec fn span_is_valid(start: int, end: int, text: Seq<char>) -> bool {
    &&& 0 <= start < end <= encode_utf8(text).len()
    &&& is_char_boundary(encode_utf8(text), start)
    &&& is_char_boundary(encode_utf8(text), end)
}

/// One of the characters `. , ; : ! ?`, as a byte.
pub open spec fn is_ending_punctuation(byte: u8) -> bool {
    byte == 0x2e || byte == 0x2c || byte == 0x3b || byte == 0x3a || byte == 0x21 || byte == 0x3f
}

/// Whether a matched link loses its last byte: it ends in one of
/// `. , ; : ! ?`, or in `)` without holding a `(`.
pub open spec fn sheds_last_byte(uri: Seq<u8>) -> bool {
    uri.len() > 0 && (is_ending_punctuation(uri.last()) || (uri.last() == 0x29 && !uri.contains(
        0x28u8,
    )))
}

/// Where the link found at `found` ends once trailing punctuation is dropped.
pub open spec fn link_end(bytes: Seq<u8>, found: (usize, usize)) -> int {
    if sheds_last_byte(bytes.subrange(found.0 as int, found.1 as int)) {
        found.1 - 1
    } else {
        found.1 as int
    }
}

/// The facet for one match of the link pattern, if anything of it is left.
pub open spec fn link_facet(bytes: Seq<u8>, found: (usize, usize)) -> Option<FacetView> {
    let end = link_end(bytes, found);
    if found.0 < end {
        Some(
            FacetView {
                features: seq![FeatureView::Link(decode_utf8(bytes.subrange(found.0 as int, end)))],
                byte_start: found.0 as int,
                byte_end: end,
            },
        )
    } else {
        None
    }
}

/// The link facets for the matches `found`, in their order.
pub open spec fn link_facets(bytes: Seq<u8>, found: Seq<(usize, usize)>) -> Seq<FacetView>
    decreases found.len(),
{
    if found.len() == 0 {
        seq![]
    } else {
        let earlier = link_facets(bytes, found.drop_last());
        match link_facet(bytes, found.last()) {
            Some(facet) => earlier.push(facet),
            None => earlier,
        }
    }
}

/// Whether the bytes are a hashtag marker: `#` or the fullwidth `＃`.
pub open spec fn is_marker(bytes: Seq<u8>) -> bool {
    bytes == seq![0x23u8] || bytes == seq![0xefu8, 0xbcu8, 0x83u8]
}

/// The length of the hashtag marker that starts at `start`, or 0 where none
/// starts there.
pub open spec fn marker_len(bytes: Seq<u8>, start: int) -> int {
    if 0 <= start < bytes.len() && bytes[start] == 0x23u8 {
        1
    } else if 0 <= start && start + 3 <= bytes.len() && bytes.subrange(start, start + 3) == seq![
        0xefu8,
        0xbcu8,
        0x83u8,
    ] {
        3
    } else {
        0
    }
}

/// The facet for one match of the tag pattern: the span runs from the marker
/// to the end of the tag without its trailing punctuation. There is none
/// where the tag is absent or empty, starts with the emoji variation
/// selector or is longer than `MAX_TAG_BYTES`. There is none either where
/// the first group is no marker, or where the text behind the marker is not
/// the tag, ending within the second group on a character boundary.
pub open spec fn tag_facet(
    text: Seq<char>,
    groups: (Option<(usize, usize)>, Option<(usize, usize)>),
) -> Option<FacetView> {
    let bytes = encode_utf8(text);
    match groups {
        (Some(marker), Some(body)) => {
            let raw = decode_utf8(bytes.subrange(body.0 as int, body.1 as int));
            match pattern_replaced(TRAILING_PUNCTUATION@, raw, 1, Seq::empty()) {
                Some(tag) => {
                    let end = marker.1 + encode_utf8(tag).len();
                    if tag.len() > 0 && tag[0] != '\u{fe0f}' && 0 < encode_utf8(tag).len()
                        <= MAX_TAG_BYTES && marker.0 < marker.1 <= end <= body.1
                        && is_char_boundary(bytes, end) && is_marker(
                        bytes.subrange(marker.0 as int, marker.1 as int),
                    ) && bytes.subrange(marker.1 as int, end) == encode_utf8(tag) {
                        Some(
                            FacetView {
                                features: seq![FeatureView::Tag(tag)],
                                byte_start: marker.0 as int,
                                byte_end: end,
                            },
                        )
                    } else {
                        None
                    }
                },
                None => None,
            }
        },
        _ => None,
    }
}

/// The tag facets for the matches `found`, in their order.
pub open spec fn tag_facets(
    text: Seq<char>,
    found: Seq<(Option<(usize, usize)>, Option<(usize, usize)>)>,
) -> Seq<FacetView>
    decreases found.len(),
{
    if found.len() == 0 {
        seq![]
    } else {
        let earlier = tag_facets(text, found.drop_last());
        match tag_facet(text, found.last()) {
            Some(facet) => earlier.push(facet),
            None => earlier,
        }
    }
}

/// The links of a text, in text order.
pub open spec fn links_of(text: Seq<char>) -> Seq<FacetView> {
    match pattern_matches(LINK_PATTERN@, text) {
        Some(found) => link_facets(encode_utf8(text), found),
        None => seq![],
    }
}

/// The hashtags of a text, in text order.
pub open spec fn tags_of(text: Seq<char>) -> Seq<FacetView> {
    match pattern_groups(TAG_PATTERN@, text, 1, 2) {
        Some(found) => tag_facets(text, found),
        None => seq![],
    }
}

/// The facets of a text: its links, then its hashtags.
pub open spec fn facets_of(text: Seq<char>) -> Seq<FacetView> {
    links_of(text) + tags_of(text)
}

/// Whether a facet marks exactly one link.
pub open spec fn marks_link(facet: FacetView) -> bool {
    facet.features.len() == 1 && facet.features[0] is Link
}

/// A link facet of `text`: its span is valid and its target is the text
/// under the span.
pub open spec fn is_link_of(facet: FacetView, text: Seq<char>) -> bool {
    &&& span_is_valid(facet.byte_start, facet.byte_end, text)
    &&& facet.features == seq![
        FeatureView::Link(
            decode_utf8(encode_utf8(text).subrange(facet.byte_start, facet.byte_end)),
        ),
    ]
}

/// Whether a facet marks exactly one hashtag.
pub open spec fn marks_tag(facet: FacetView) -> bool {
    facet.features.len() == 1 && facet.features[0] is Tag
}

/// A tag facet of `text`: its span is valid and starts with a marker, `#`
/// or `＃`, and its tag is the text that the span holds behind the marker.
pub open spec fn is_tag_of(facet: FacetView, text: Seq<char>) -> bool {
    let bytes = encode_utf8(text);
    &&& span_is_valid(facet.byte_start, facet.byte_end, text)
    &&& marker_len(bytes, facet.byte_start) > 0
    &&& facet.byte_start + marker_len(bytes, facet.byte_start) < facet.byte_end
    &&& facet.features == seq![
        FeatureView::Tag(
            decode_utf8(
                bytes.subrange(
                    facet.byte_start + marker_len(bytes, facet.byte_start),
                    facet.byte_end,
                ),
            ),
        ),
    ]
}

/// What holds of the facets detected in a text: every span is valid, and
/// every facet carries the text under its span, a link the whole of it, a
/// hashtag what follows the marker. The links come first and the hashtags
/// behind them, and the facets of either kind follow one another in the
/// text without overlap.
pub open spec fn well_placed(facets: Seq<FacetView>, text: Seq<char>) -> bool {
    &&& forall|i: int|
        0 <= i < facets.len() ==> is_link_of(#[trigger] facets[i], text) || is_tag_of(
            facets[i],
            text,
        )
    &&& forall|i: int, j: int|
        0 <= i < j < facets.len() && marks_link(#[trigger] facets[i]) && marks_link(
            #[trigger] facets[j],
        ) ==> facets[i].byte_end <= facets[j].byte_start
    &&& forall|i: int, j: int|
        0 <= i < j < facets.len() && marks_tag(#[trigger] facets[i]) && marks_tag(
            #[trigger] facets[j],
        ) ==> facets[i].byte_end <= facets[j].byte_start
    &&& forall|i: int, j: int|
        0 <= i < j < facets.len() && marks_tag(#[trigger] facets[i]) ==> !marks_link(
            #[trigger] facets[j],
        )
}

/// Decides whether the link in `bytes[start..end]` loses its last byte.
fn link_sheds_last_byte(bytes: &[u8], start: usize, end: usize) -> (shed: bool)
    requires
        start <= end <= bytes@.len(),
    ensures
        shed == sheds_last_byte(bytes@.subrange(start as int, end as int)),
{
    let ghost uri = bytes@.subrange(start as int, end as int);
    if start == end {
        return false;
    }
    let last = bytes[end - 1];
    assert(uri.last() == last);
    if last == 0x2e || last == 0x2c || last == 0x3b || last == 0x3a || last == 0x21 || last
        == 0x3f {
        return true;
    }
    if last != 0x29 {
        return false;
    }
    let mut i = start;
    while i < end
        invariant
            start <= i <= end <= bytes@.len(),
            uri == bytes@.subrange(start as int, end as int),
            uri.len() > 0,
            uri.last() == 0x29u8,
            forall|k: int| 0 <= k < i - start ==> uri[k] != 0x28u8,
        decreases end - i,
    {
        if bytes[i] == 0x28 {
            assert(uri[i - start] == 0x28u8);
            assert(uri.contains(0x28u8));
            return false;
        }
        i += 1;
    }
    true
}

/// Appends the link facets for `found` to the empty list `facets`.
fn push_link_facets(facets: &mut Vec<FacetWithoutResolution>, text: &str, found: &Vec<(usize, usize)>)
    requires
        old(facets)@.len() == 0,
        forall|i: int| 0 <= i < found@.len() ==> span_in_text(#[trigger] found@[i], text@),
        spans_in_order(found@),
    ensures
        facet_views(final(facets)@) == link_facets(encode_utf8(text@), found@),
        forall|i: int|
            0 <= i < final(facets)@.len() ==> is_link_of(#[trigger] final(facets)@[i]@, text@),
        forall|i: int, j: int|
            0 <= i < j < final(facets)@.len() ==> (#[trigger] final(facets)@[i]).index.byte_end
                <= (#[trigger] final(facets)@[j]).index.byte_start,
{
    let bytes = text.as_bytes();
    let ghost all = encode_utf8(text@);
    proof {
        encode_utf8_valid_utf8(text@);
    }
    let mut i: usize = 0;
    assert(found@.subrange(0, 0) =~= Seq::empty());
    assert(facet_views(facets@) =~= Seq::empty());
    while i < found.len()
        invariant
            i <= found@.len(),
            bytes@ == all,
            all == encode_utf8(text@),
            valid_utf8(all),
            forall|k: int| 0 <= k < found@.len() ==> span_in_text(#[trigger] found@[k], text@),
            spans_in_order(found@),
            facet_views(facets@) == link_facets(all, found@.subrange(0, i as int)),
            forall|k: int| 0 <= k < facets@.len() ==> is_link_of(#[trigger] facets@[k]@, text@),
            forall|k: int, m: int|
                0 <= k < facets@.len() && i <= m < found@.len() ==> (#[trigger] facets@[k]).index.byte_end
                    <= (#[trigger] found@[m]).0,
            forall|k: int, m: int|
                0 <= k < m < facets@.len() ==> (#[trigger] facets@[k]).index.byte_end <= (
                #[trigger] facets@[m]).index.byte_start,
        decreases found@.len() - i,
    {
        let (start, matched_end) = found[i];
        assert(span_in_text(found@[i as int], text@));
        let shed = link_sheds_last_byte(bytes, start, matched_end);
        let end = if shed {
            matched_end - 1
        } else {
            matched_end
        };
        let ghost upto = found@.subrange(0, i + 1);
        assert(upto.drop_last() =~= found@.subrange(0, i as int));
        assert(upto.last() == found@[i as int]);
        assert(end == link_end(all, found@[i as int]));
        if start < end {
            proof {
                if shed {
                    assert(all.subrange(start as int, matched_end as int).last() == all[end as int]);
                    lemma_ascii_is_boundary(all, end as int);
                }
                lemma_slice_valid(all, start as int, end as int);
            }
            let uri = byte_slice(text, start, end).to_owned();
            proof {
                encode_utf8_decode_utf8(uri@);
            }
            let facet = FacetWithoutResolution {
                features: vec![FacetFeaturesItem::Link(Link { uri })],
                index: ByteSlice { byte_start: start, byte_end: end },
            };
            assert(facet@.features =~= seq![
                FeatureView::Link(decode_utf8(all.subrange(start as int, end as int))),
            ]);
            assert(Some(facet@) == link_facet(all, found@[i as int]));
            let ghost before = facets@;
            assert forall|k: int| 0 <= k < before.len() implies (#[trigger] before[k]).index.byte_end
                <= start by {
                assert(before[k].index.byte_end <= found@[i as int].0);
            }
            assert forall|m: int| i < m < found@.len() implies end <= (#[trigger] found@[m]).0 by {
                assert(found@[i as int].1 <= found@[m].0);
            }
            facets.push(facet);
            assert(facet_views(facets@) =~= facet_views(before).push(facet@));
        }
        i += 1;
    }
    assert(found@.subrange(0, i as int) =~= found@);
}

/// Whether a group, where there is one, starts at `bound` or behind it.
pub open spec fn starts_from(group: Option<(usize, usize)>, bound: int) -> bool {
    match group {
        Some(span) => bound <= span.0,
        None => true,
    }
}

/// Decides whether `bytes[start..end]` is a hashtag marker.
fn holds_marker(bytes: &[u8], start: usize, end: usize) -> (held: bool)
    requires
        start <= end <= bytes@.len(),
    ensures
        held == is_marker(bytes@.subrange(start as int, end as int)),
        held ==> marker_len(bytes@, start as int) == end - start,
{
    let ghost part = bytes@.subrange(start as int, end as int);
    let ghost narrow = seq![0x23u8];
    let ghost wide = seq![0xefu8, 0xbcu8, 0x83u8];
    assert(part.len() == end - start && narrow.len() == 1 && wide.len() == 3);
    assert(narrow[0] == 0x23u8 && wide[0] == 0xefu8 && wide[1] == 0xbcu8 && wide[2] == 0x83u8);
    if end - start == 1 {
        assert(part[0] == bytes@[start as int]);
        if bytes[start] == 0x23 {
            assert(part =~= seq![0x23u8]);
            true
        } else {
            false
        }
    } else if end - start == 3 {
        assert(part[0] == bytes@[start as int] && part[1] == bytes@[start + 1] && part[2]
            == bytes@[start + 2]);
        if bytes[start] == 0xef && bytes[start + 1] == 0xbc && bytes[start + 2] == 0x83 {
            assert(part =~= seq![0xefu8, 0xbcu8, 0x83u8]);
            true
        } else {
            false
        }
    } else {
        false
    }
}

/// Appends the tag facets for `found` to `facets`.
fn push_tag_facets(
    facets: &mut Vec<FacetWithoutResolution>,
    text: &str,
    found: &Vec<(Option<(usize, usize)>, Option<(usize, usize)>)>,
)
    requires
        forall|i: int|
            0 <= i < found@.len() ==> group_in_text((#[trigger] found@[i]).0, text@)
                && group_in_text(found@[i].1, text@),
        groups_in_order(found@),
    ensures
        facet_views(final(facets)@) == facet_views(old(facets)@) + tag_facets(text@, found@),
        final(facets)@.len() >= old(facets)@.len(),
        final(facets)@.subrange(0, old(facets)@.len() as int) == old(facets)@,
        forall|i: int|
            old(facets)@.len() <= i < final(facets)@.len() ==> is_tag_of(
                #[trigger] final(facets)@[i]@,
                text@,
            ),
        forall|i: int, j: int|
            old(facets)@.len() <= i < j < final(facets)@.len() ==> (
            #[trigger] final(facets)@[i]).index.byte_end <= (
            #[trigger] final(facets)@[j]).index.byte_start,
{
    let ghost all = encode_utf8(text@);
    let ghost given = facets@;
    proof {
        encode_utf8_valid_utf8(text@);
        reveal_strlit("");
    }
    let bytes = text.as_bytes();
    let text_len = byte_len(text);
    let mut i: usize = 0;
    assert(found@.subrange(0, 0) =~= Seq::empty());
    assert(facet_views(facets@) =~= facet_views(given) + Seq::<FacetView>::empty());
    assert(facets@.subrange(0, given.len() as int) =~= given);
    while i < found.len()
        invariant
            i <= found@.len(),
            all == encode_utf8(text@),
            bytes@ == all,
            valid_utf8(all),
            text_len == all.len(),
            ""@.len() == 0,
            forall|k: int|
                0 <= k < found@.len() ==> group_in_text((#[trigger] found@[k]).0, text@)
                    && group_in_text(found@[k].1, text@),
            groups_in_order(found@),
            facet_views(facets@) == facet_views(given) + tag_facets(
                text@,
                found@.subrange(0, i as int),
            ),
            facets@.len() >= given.len(),
            facets@.subrange(0, given.len() as int) == given,
            forall|k: int|
                given.len() <= k < facets@.len() ==> is_tag_of(#[trigger] facets@[k]@, text@),
            forall|k: int, m: int|
                given.len() <= k < facets@.len() && i <= m < found@.len() ==> starts_from(
                    (#[trigger] found@[m]).0,
                    (#[trigger] facets@[k]).index.byte_end as int,
                ),
            forall|k: int, m: int|
                given.len() <= k < m < facets@.len() ==> (#[trigger] facets@[k]).index.byte_end
                    <= (#[trigger] facets@[m]).index.byte_start,
        decreases found@.len() - i,
    {
        let groups = found[i];
        let ghost upto = found@.subrange(0, i + 1);
        assert(upto.drop_last() =~= found@.subrange(0, i as int));
        assert(upto.last() == found@[i as int]);
        assert(group_in_text(found@[i as int].0, text@) && group_in_text(found@[i as int].1, text@));
        let ghost before = facets@;
        match groups {
            (Some(marker), Some(body)) => {
                proof {
                    lemma_slice_valid(all, body.0 as int, body.1 as int);
                }
                let raw = byte_slice(text, body.0, body.1);
                proof {
                    encode_utf8_decode_utf8(raw@);
                    assert(""@ =~= Seq::<char>::empty());
                }
                match replace_matches(TRAILING_PUNCTUATION, raw, 1, "") {
                    Some(tag) => {
                        let tag_len = byte_len(tag.as_str());
                        if !tag.as_str().is_empty() && tag.as_str().get_char(0) != '\u{fe0f}'
                            && 0 < tag_len && tag_len <= MAX_TAG_BYTES && marker.0 < marker.1
                            && marker.1 <= body.1 && tag_len <= body.1 - marker.1 {
                            let end = marker.1 + tag_len;
                            if text.is_char_boundary(end) && holds_marker(
                                bytes,
                                marker.0,
                                marker.1,
                            ) {
                                proof {
                                    lemma_slice_valid(all, marker.1 as int, end as int);
                                }
                                let behind = byte_slice(text, marker.1, end);
                                proof {
                                    encode_utf8_decode_utf8(behind@);
                                    encode_utf8_decode_utf8(tag@);
                                    assert((behind@ == tag@) == (all.subrange(
                                        marker.1 as int,
                                        end as int,
                                    ) == encode_utf8(tag@)));
                                }
                                if String::from_str(behind) == tag {
                                    let facet = FacetWithoutResolution {
                                        features: vec![FacetFeaturesItem::Tag(Tag { tag })],
                                        index: ByteSlice { byte_start: marker.0, byte_end: end },
                                    };
                                    proof {
                                        assert(facet@.features =~= seq![FeatureView::Tag(tag@)]);
                                        assert(Some(facet@) == tag_facet(text@, found@[i as int]));
                                        assert(is_tag_of(facet@, text@));
                                        assert forall|k: int|
                                            given.len() <= k < before.len() implies (
                                        #[trigger] before[k]).index.byte_end <= marker.0 by {
                                            assert(starts_from(
                                                found@[i as int].0,
                                                before[k].index.byte_end as int,
                                            ));
                                        }
                                        assert forall|m: int| i < m < found@.len() implies starts_from(
                                            (#[trigger] found@[m]).0,
                                            end as int,
                                        ) by {
                                            assert(group_before(
                                                found@[i as int].1,
                                                found@[m].0,
                                            ));
                                        }
                                    }
                                    facets.push(facet);
                                    assert(facet_views(facets@) =~= facet_views(before).push(
                                        facet@,
                                    ));
                                }
                            }
                        }
                    },
                    None => {},
                }
            },
            _ => {},
        }
        assert(facet_views(facets@) =~= facet_views(given) + tag_facets(text@, upto));
        assert(facets@.subrange(0, given.len() as int) =~= given);
        i += 1;
    }
    assert(found@.subrange(0, i as int) =~= found@);
}

/// Finds the links and hashtags of a text: first the links, then the
/// hashtags, each group in text order.
///
/// A link is a match of `LINK_PATTERN` without one trailing `. , ; : ! ?`,
/// and without a trailing `)` where it holds no `(`. A hashtag is a match of
/// `TAG_PATTERN`; its span runs from the marker to the end of the tag
/// without trailing punctuation.
pub fn detect_facets_without_resolution(text: &str) -> (facets: Vec<FacetWithoutResolution>)
    ensures
        facet_views(facets@) == facets_of(text@),
        well_placed(facet_views(facets@), text@),
        forall|i: int|
            0 <= i < facets@.len() ==> span_is_valid(
                (#[trigger] facets@[i]).index.byte_start as int,
                facets@[i].index.byte_end as int,
                text@,
            ),
{
    let mut facets: Vec<FacetWithoutResolution> = Vec::new();
    match find_matches(LINK_PATTERN, text) {
        Some(found) => {
            push_link_facets(&mut facets, text, &found);
        },
        None => {
            assert(facet_views(facets@) =~= Seq::empty());
        },
    }
    let ghost links = facets@;
    assert(facet_views(links) == links_of(text@));
    match capture_groups(TAG_PATTERN, text, 1, 2) {
        Some(found) => {
            push_tag_facets(&mut facets, text, &found);
        },
        None => {
            assert(facet_views(facets@) =~= facet_views(links) + Seq::<FacetView>::empty());
            assert(facets@.subrange(0, links.len() as int) =~= links);
        },
    }
    proof {
        let views = facet_views(facets@);
        assert forall|i: int| 0 <= i < views.len() implies (if i < links.len() {
            is_link_of(#[trigger] views[i], text@)
        } else {
            is_tag_of(views[i], text@)
        }) by {
            if i < links.len() {
                assert(facets@[i] == facets@.subrange(0, links.len() as int)[i]);
                assert(is_link_of(links[i]@, text@));
            } else {
                assert(is_tag_of(facets@[i]@, text@));
            }
        }
        assert forall|i: int, j: int|
            0 <= i < j < views.len() && marks_link(#[trigger] views[i]) && marks_link(
                #[trigger] views[j],
            ) implies views[i].byte_end <= views[j].byte_start by {
            if j < links.len() {
                assert(facets@[i] == facets@.subrange(0, links.len() as int)[i]);
                assert(facets@[j] == facets@.subrange(0, links.len() as int)[j]);
                assert(links[i].index.byte_end <= links[j].index.byte_start);
            } else {
                assert(is_tag_of(views[j], text@));
            }
        }
        assert forall|i: int, j: int|
            0 <= i < j < views.len() && marks_tag(#[trigger] views[i]) && marks_tag(
                #[trigger] views[j],
            ) implies views[i].byte_end <= views[j].byte_start by {
            if i < links.len() {
                assert(is_link_of(views[i], text@));
            } else {
                assert(facets@[i].index.byte_end <= facets@[j].index.byte_start);
            }
        }
        assert forall|i: int, j: int|
            0 <= i < j < views.len() && marks_tag(#[trigger] views[i]) implies !marks_link(
            #[trigger] views[j],
        ) by {
            if i < links.len() {
                assert(is_link_of(views[i], text@));
            } else {
                assert(is_tag_of(views[j], text@));
            }
        }
        assert forall|i: int| 0 <= i < facets@.len() implies span_is_valid(
            (#[trigger] facets@[i]).index.byte_start as int,
            facets@[i].index.byte_end as int,
            text@,
        ) by {
            assert(is_link_of(views[i], text@) || is_tag_of(views[i], text@));
        }
    }
    facets
}

/// A text together with the facets that mark parts of it.
#[derive(Debug, Clone)]
pub struct RichText {
    pub text: String,
    pub facets: Option<Vec<FacetWithoutResolution>>,
}

/// The mathematical value of a rich text.
pub struct RichTextView {
    pub text: Seq<char>,
    pub facets: Option<Seq<FacetView>>,
}

impl View for RichText {
    type V = RichTextView;

    open spec fn view(&self) -> RichTextView {
        RichTextView {
            text: self.text@,
            facets: match self.facets {
                Some(facets) => Some(facet_views(facets@)),
                None => None,
            },
        }
    }
}

/// Every facet lies within the text and does not end before it starts.
pub open spec fn spans_within(view: RichTextView) -> bool {
    view.facets is Some ==> forall|i: int|
        0 <= i < view.facets->0.len() ==> 0 <= (#[trigger] view.facets->0[i]).byte_start
            <= view.facets->0[i].byte_end <= encode_utf8(view.text).len()
}

/// A span after `added` bytes were put in at `index`: a span at or behind
/// the place moves along, one around the place grows, one before it stays.
pub open spec fn span_after_insert(start: int, end: int, index: int, added: int) -> (int, int) {
    if index <= start {
        (start + added, end + added)
    } else if index < end {
        (start, end + added)
    } else {
        (start, end)
    }
}

/// A span after the bytes from `from` to `to` were taken out. A span wholly
/// inside the range collapses to the empty span at 0.
pub open spec fn span_after_delete(start: int, end: int, from: int, to: int) -> (int, int) {
    let removed = to - from;
    if from <= start && to >= end {
        (0, 0)
    } else if from > end {
        (start, end)
    } else if from > start && to > end {
        (start, from)
    } else if from >= start && to <= end {
        (start, end - removed)
    } else if from < start && to >= start && to <= end {
        (from, end - removed)
    } else if to < start {
        (start - removed, end - removed)
    } else {
        (start, end)
    }
}

/// A facet after `added` bytes were put in at `index`.
pub open spec fn moved_by_insert(facet: FacetView, index: int, added: int) -> FacetView {
    FacetView {
        byte_start: span_after_insert(facet.byte_start, facet.byte_end, index, added).0,
        byte_end: span_after_insert(facet.byte_start, facet.byte_end, index, added).1,
        ..facet
    }
}

/// A facet after the bytes from `from` to `to` were taken out.
pub open spec fn moved_by_delete(facet: FacetView, from: int, to: int) -> FacetView {
    FacetView {
        byte_start: span_after_delete(facet.byte_start, facet.byte_end, from, to).0,
        byte_end: span_after_delete(facet.byte_start, facet.byte_end, from, to).1,
        ..facet
    }
}

/// The facets after an insertion, in their order.
pub open spec fn facets_after_insert(facets: Seq<FacetView>, index: int, added: int) -> Seq<
    FacetView,
> {
    facets.map_values(|f: FacetView| moved_by_insert(f, index, added))
}

/// The facets after a deletion, in their order: each is moved, and those
/// left with an empty span are dropped.
pub open spec fn facets_after_delete(facets: Seq<FacetView>, from: int, to: int) -> Seq<FacetView>
    decreases facets.len(),
{
    if facets.len() == 0 {
        seq![]
    } else {
        let earlier = facets_after_delete(facets.drop_last(), from, to);
        let moved = moved_by_delete(facets.last(), from, to);
        if moved.byte_start < moved.byte_end {
            earlier.push(moved)
        } else {
            earlier
        }
    }
}

/// The rich text after `added` was put in at the byte offset `index`.
pub open spec fn inserted(view: RichTextView, index: int, added: Seq<char>) -> RichTextView {
    let bytes = encode_utf8(view.text);
    RichTextView {
        text: decode_utf8(bytes.subrange(0, index)) + added + decode_utf8(
            bytes.subrange(index, bytes.len() as int),
        ),
        facets: match view.facets {
            Some(facets) => Some(facets_after_insert(facets, index, encode_utf8(added).len() as int)),
            None => None,
        },
    }
}

/// The rich text after the bytes from `from` to `to` were taken out.
pub open spec fn deleted(view: RichTextView, from: int, to: int) -> RichTextView {
    let bytes = encode_utf8(view.text);
    RichTextView {
        text: decode_utf8(bytes.subrange(0, from)) + decode_utf8(
            bytes.subrange(to, bytes.len() as int),
        ),
        facets: match view.facets {
            Some(facets) => Some(facets_after_delete(facets, from, to)),
            None => None,
        },
    }
}

/// A copy of a list of features.
fn clone_features(features: &Vec<FacetFeaturesItem>) -> (copy: Vec<FacetFeaturesItem>)
    ensures
        feature_views(copy@) == feature_views(features@),
{
    let mut copy: Vec<FacetFeaturesItem> = Vec::new();
    let mut i: usize = 0;
    assert(feature_views(copy@) =~= feature_views(features@.subrange(0, 0)));
    while i < features.len()
        invariant
            i <= features@.len(),
            feature_views(copy@) == feature_views(features@.subrange(0, i as int)),
        decreases features@.len() - i,
    {
        let item = match &features[i] {
            FacetFeaturesItem::Link(link) => FacetFeaturesItem::Link(Link { uri: link.uri.clone() }),
            FacetFeaturesItem::Tag(tag) => FacetFeaturesItem::Tag(Tag { tag: tag.tag.clone() }),
        };
        assert(item@ == features@[i as int]@);
        let ghost before = copy@;
        copy.push(item);
        proof {
            assert(copy@ =~= before.push(item));
            assert(features@.subrange(0, i + 1) =~= features@.subrange(0, i as int).push(
                features@[i as int],
            ));
            assert(feature_views(copy@) =~= feature_views(before).push(item@));
            assert(feature_views(features@.subrange(0, i + 1)) =~= feature_views(
                features@.subrange(0, i as int),
            ).push(features@[i as int]@));
        }
        i += 1;
    }
    assert(features@.subrange(0, i as int) =~= features@);
    copy
}

/// A copy of a list of facets.
fn clone_facets(facets: &Vec<FacetWithoutResolution>) -> (copy: Vec<FacetWithoutResolution>)
    ensures
        facet_views(copy@) == facet_views(facets@),
{
    let mut copy: Vec<FacetWithoutResolution> = Vec::new();
    let mut i: usize = 0;
    assert(facet_views(copy@) =~= facet_views(facets@.subrange(0, 0)));
    while i < facets.len()
        invariant
            i <= facets@.len(),
            facet_views(copy@) == facet_views(facets@.subrange(0, i as int)),
        decreases facets@.len() - i,
    {
        let item = FacetWithoutResolution {
            features: clone_features(&facets[i].features),
            index: facets[i].index,
        };
        assert(item@ == facets@[i as int]@);
        let ghost before = copy@;
        copy.push(item);
        proof {
            assert(copy@ =~= before.push(item));
            assert(facets@.subrange(0, i + 1) =~= facets@.subrange(0, i as int).push(
                facets@[i as int],
            ));
            assert(facet_views(copy@) =~= facet_views(before).push(item@));
            assert(facet_views(facets@.subrange(0, i + 1)) =~= facet_views(
                facets@.subrange(0, i as int),
            ).push(facets@[i as int]@));
        }
        i += 1;
    }
    assert(facets@.subrange(0, i as int) =~= facets@);
    copy
}

/// The span that a facet of the outside rich text has, as a plain value.
pub open spec fn span_of(moved: (int, int)) -> ByteSlice {
    ByteSlice { byte_start: moved.0 as usize, byte_end: moved.1 as usize }
}

/// Builds a `bsky_sdk::rich_text::RichText` of `text`, with one facet at
/// `span` where a span is given, calls its `insert` and hands back the text
/// and the span of the facet.
///
/// Taken on trust, as the source of `insert` shows it: the new text is the
/// old one with `added` put in at the byte offset `index`; a facet that
/// starts at or behind `index` moves along by the length of `added`, one
/// that `index` lies in grows by it, and one that ends at or before `index`
/// stays.
#[verifier::external_body]
fn sdk_insert(text: &str, span: Option<ByteSlice>, index: usize, added: &str) -> (after: (
    String,
    Option<ByteSlice>,
))
    requires
        is_char_boundary(encode_utf8(text@), index as int),
        span is Some ==> span->0.byte_start <= span->0.byte_end && span->0.byte_end + encode_utf8(
            added@,
        ).len() <= usize::MAX,
    ensures
        after.0@ == decode_utf8(encode_utf8(text@).subrange(0, index as int)) + added@
            + decode_utf8(
            encode_utf8(text@).subrange(index as int, encode_utf8(text@).len() as int),
        ),
        span is None ==> after.1 is None,
        span is Some ==> after.1 == Some(
            span_of(
                span_after_insert(
                    span->0.byte_start as int,
                    span->0.byte_end as int,
                    index as int,
                    encode_utf8(added@).len() as int,
                ),
            ),
        ),
{
    let facets = span.map(
        |s|
            vec![
                MainData {
                    features: Vec::new(),
                    index: ByteSliceData { byte_start: s.byte_start, byte_end: s.byte_end }.into(),
                }.into(),
            ],
    );
    let mut rich = bsky_sdk::rich_text::RichText::new(text, facets);
    rich.insert(index, added);
    let moved = rich.facets.and_then(
        |f| f.first().map(|m| ByteSlice { byte_start: m.index.byte_start, byte_end: m.index.byte_end }),
    );
    (rich.text, moved)
}

/// Builds a `bsky_sdk::rich_text::RichText` of `text`, with one facet at
/// `span` where a span is given, calls its `delete` and hands back the text
/// and the span of the facet, if the facet is still there.
///
/// Taken on trust, as the source of `delete` shows it: the new text is the
/// old one without the bytes from `from` to `to`; the facet is moved as
/// `span_after_delete` says, case by case, and is dropped where its span is
/// left empty.
#[verifier::external_body]
fn sdk_delete(text: &str, span: Option<ByteSlice>, from: usize, to: usize) -> (after: (
    String,
    Option<ByteSlice>,
))
    requires
        from <= to,
        is_char_boundary(encode_utf8(text@), from as int),
        is_char_boundary(encode_utf8(text@), to as int),
        span is Some ==> span->0.byte_start <= span->0.byte_end,
    ensures
        after.0@ == decode_utf8(encode_utf8(text@).subrange(0, from as int)) + decode_utf8(
            encode_utf8(text@).subrange(to as int, encode_utf8(text@).len() as int),
        ),
        span is None ==> after.1 is None,
        span is Some ==> after.1 == (if span_after_delete(
            span->0.byte_start as int,
            span->0.byte_end as int,
            from as int,
            to as int,
        ).0 < span_after_delete(
            span->0.byte_start as int,
            span->0.byte_end as int,
            from as int,
            to as int,
        ).1 {
            Some(
                span_of(
                    span_after_delete(
                        span->0.byte_start as int,
                        span->0.byte_end as int,
                        from as int,
                        to as int,
                    ),
                ),
            )
        } else {
            None
        }),
{
    let facets = span.map(
        |s|
            vec![
                MainData {
                    features: Vec::new(),
                    index: ByteSliceData { byte_start: s.byte_start, byte_end: s.byte_end }.into(),
                }.into(),
            ],
    );
    let mut rich = bsky_sdk::rich_text::RichText::new(text, facets);
    rich.delete(from, to);
    let moved = rich.facets.and_then(
        |f| f.first().map(|m| ByteSlice { byte_start: m.index.byte_start, byte_end: m.index.byte_end }),
    );
    (rich.text, moved)
}

/// The facets moved for an insertion of `added` at `index` into `text`.
fn move_for_insert(facets: &Vec<FacetWithoutResolution>, text: &str, index: usize, added: &str) -> (moved:
    Vec<FacetWithoutResolution>)
    requires
        is_char_boundary(encode_utf8(text@), index as int),
        encode_utf8(text@).len() + encode_utf8(added@).len() <= usize::MAX,
        forall|i: int|
            0 <= i < facets@.len() ==> (#[trigger] facets@[i]).index.byte_start
                <= facets@[i].index.byte_end <= encode_utf8(text@).len(),
    ensures
        facet_views(moved@) == facets_after_insert(
            facet_views(facets@),
            index as int,
            encode_utf8(added@).len() as int,
        ),
        forall|i: int|
            0 <= i < moved@.len() ==> (#[trigger] moved@[i]).index.byte_start
                <= moved@[i].index.byte_end <= encode_utf8(text@).len() + encode_utf8(
                added@,
            ).len(),
{
    let ghost grow = encode_utf8(added@).len() as int;
    let mut moved: Vec<FacetWithoutResolution> = Vec::new();
    let mut i: usize = 0;
    assert(facet_views(moved@) =~= facets_after_insert(
        facet_views(facets@.subrange(0, 0)),
        index as int,
        grow,
    ));
    while i < facets.len()
        invariant
            i <= facets@.len(),
            grow == encode_utf8(added@).len(),
            is_char_boundary(encode_utf8(text@), index as int),
            encode_utf8(text@).len() + grow <= usize::MAX,
            forall|k: int|
                0 <= k < facets@.len() ==> (#[trigger] facets@[k]).index.byte_start
                    <= facets@[k].index.byte_end <= encode_utf8(text@).len(),
            facet_views(moved@) == facets_after_insert(
                facet_views(facets@.subrange(0, i as int)),
                index as int,
                grow,
            ),
            forall|k: int|
                0 <= k < moved@.len() ==> (#[trigger] moved@[k]).index.byte_start
                    <= moved@[k].index.byte_end <= encode_utf8(text@).len() + grow,
        decreases facets@.len() - i,
    {
        let facet = &facets[i];
        assert(facets@[i as int].index.byte_end <= encode_utf8(text@).len());
        let after = sdk_insert(text, Some(facet.index), index, added);
        let index_after = after.1.unwrap();
        let item = FacetWithoutResolution {
            features: clone_features(&facet.features),
            index: index_after,
        };
        assert(item@ == moved_by_insert(facets@[i as int]@, index as int, grow));
        let ghost before = moved@;
        moved.push(item);
        proof {
            assert(moved@ =~= before.push(item));
            assert(facets@.subrange(0, i + 1) =~= facets@.subrange(0, i as int).push(
                facets@[i as int],
            ));
            assert(facet_views(moved@) =~= facet_views(before).push(item@));
            assert(facet_views(facets@.subrange(0, i + 1)) =~= facet_views(
                facets@.subrange(0, i as int),
            ).push(facets@[i as int]@));
            assert(facet_views(moved@) =~= facets_after_insert(
                facet_views(facets@.subrange(0, i + 1)),
                index as int,
                grow,
            ));
        }
        i += 1;
    }
    assert(facets@.subrange(0, i as int) =~= facets@);
    moved
}

/// The facets moved for a deletion of the bytes from `from` to `to` of
/// `text`.
fn move_for_delete(facets: &Vec<FacetWithoutResolution>, text: &str, from: usize, to: usize) -> (moved:
    Vec<FacetWithoutResolution>)
    requires
        from <= to <= encode_utf8(text@).len(),
        is_char_boundary(encode_utf8(text@), from as int),
        is_char_boundary(encode_utf8(text@), to as int),
        forall|i: int|
            0 <= i < facets@.len() ==> (#[trigger] facets@[i]).index.byte_start
                <= facets@[i].index.byte_end <= encode_utf8(text@).len(),
    ensures
        facet_views(moved@) == facets_after_delete(facet_views(facets@), from as int, to as int),
        forall|i: int|
            0 <= i < moved@.len() ==> (#[trigger] moved@[i]).index.byte_start
                <= moved@[i].index.byte_end <= encode_utf8(text@).len() - (to - from),
{
    let mut moved: Vec<FacetWithoutResolution> = Vec::new();
    let mut i: usize = 0;
    assert(facet_views(facets@.subrange(0, 0)) =~= Seq::empty());
    while i < facets.len()
        invariant
            i <= facets@.len(),
            from <= to <= encode_utf8(text@).len(),
            is_char_boundary(encode_utf8(text@), from as int),
            is_char_boundary(encode_utf8(text@), to as int),
            forall|k: int|
                0 <= k < facets@.len() ==> (#[trigger] facets@[k]).index.byte_start
                    <= facets@[k].index.byte_end <= encode_utf8(text@).len(),
            facet_views(moved@) == facets_after_delete(
                facet_views(facets@.subrange(0, i as int)),
                from as int,
                to as int,
            ),
            forall|k: int|
                0 <= k < moved@.len() ==> (#[trigger] moved@[k]).index.byte_start
                    <= moved@[k].index.byte_end <= encode_utf8(text@).len() - (to - from),
        decreases facets@.len() - i,
    {
        let facet = &facets[i];
        assert(facets@[i as int].index.byte_end <= encode_utf8(text@).len());
        let ghost upto = facet_views(facets@.subrange(0, i + 1));
        assert(upto.drop_last() =~= facet_views(facets@.subrange(0, i as int)));
        assert(upto.last() == facets@[i as int]@);
        let after = sdk_delete(text, Some(facet.index), from, to);
        match after.1 {
            Some(index_after) => {
                let item = FacetWithoutResolution {
                    features: clone_features(&facet.features),
                    index: index_after,
                };
                assert(item@ == moved_by_delete(facets@[i as int]@, from as int, to as int));
                let ghost before = moved@;
                moved.push(item);
                assert(facet_views(moved@) =~= facet_views(before).push(item@));
            },
            None => {},
        }
        i += 1;
    }
    assert(facets@.subrange(0, i as int) =~= facets@);
    moved
}

impl RichText {
    /// The number of grapheme clusters in the text.
    pub fn grapheme_len(&self) -> (count: usize)
        ensures
            count == grapheme_count(self.text@),
    {
        count_graphemes(self.text.as_str())
    }

    /// Puts `text` in at the byte offset `index` and moves the facets along.
    pub fn insert(&mut self, index: usize, text: &str)
        requires
            spans_within(old(self)@),
            is_char_boundary(encode_utf8(old(self).text@), index as int),
        ensures
            final(self)@ == inserted(old(self)@, index as int, text@),
            spans_within(final(self)@),
            encode_utf8(final(self).text@) == encode_utf8(old(self).text@).subrange(0, index as int)
                + encode_utf8(text@) + encode_utf8(old(self).text@).subrange(
                index as int,
                encode_utf8(old(self).text@).len() as int,
            ),
    {
        let ghost bytes = encode_utf8(self.text@);
        proof {
            encode_utf8_valid_utf8(self.text@);
            lemma_boundary_in_range(bytes, index as int);
        }
        let len = byte_len(self.text.as_str());
        let added = byte_len(text);
        let joined = sdk_insert(self.text.as_str(), None, index, text).0;
        let joined_len = byte_len(joined.as_str());
        proof {
            let front = bytes.subrange(0, index as int);
            let back = bytes.subrange(index as int, bytes.len() as int);
            valid_utf8_split(bytes, index as int);
            decode_utf8_encode_utf8(front);
            decode_utf8_encode_utf8(back);
            lemma_encode_concat(decode_utf8(front), text@);
            lemma_encode_concat(decode_utf8(front) + text@, decode_utf8(back));
            assert(encode_utf8(joined@) == front + encode_utf8(text@) + back);
            assert(joined_len == len + added);
        }
        let facets = match &self.facets {
            Some(facets) => {
                assert forall|i: int| 0 <= i < facets@.len() implies (#[trigger] facets@[i]).index.byte_start
                    <= facets@[i].index.byte_end <= len by {
                    assert(facet_views(facets@)[i] == facets@[i]@);
                }
                let moved = move_for_insert(facets, self.text.as_str(), index, text);
                assert forall|i: int| 0 <= i < facet_views(moved@).len() implies 0 <= (
                #[trigger] facet_views(moved@)[i]).byte_start <= facet_views(moved@)[i].byte_end
                    <= len + added by {
                    assert(facet_views(moved@)[i] == moved@[i]@);
                }
                Some(moved)
            },
            None => None,
        };
        *self = RichText { text: joined, facets };
    }

    /// Takes out the bytes from `start_index` to `end_index` and moves the
    /// facets; facets that are left empty are dropped.
    pub fn delete(&mut self, start_index: usize, end_index: usize)
        requires
            spans_within(old(self)@),
            start_index <= end_index,
            is_char_boundary(encode_utf8(old(self).text@), start_index as int),
            is_char_boundary(encode_utf8(old(self).text@), end_index as int),
        ensures
            final(self)@ == deleted(old(self)@, start_index as int, end_index as int),
            spans_within(final(self)@),
            encode_utf8(final(self).text@) == encode_utf8(old(self).text@).subrange(
                0,
                start_index as int,
            ) + encode_utf8(old(self).text@).subrange(
                end_index as int,
                encode_utf8(old(self).text@).len() as int,
            ),
    {
        let ghost bytes = encode_utf8(self.text@);
        proof {
            encode_utf8_valid_utf8(self.text@);
            lemma_boundary_in_range(bytes, start_index as int);
            lemma_boundary_in_range(bytes, end_index as int);
        }
        let len = byte_len(self.text.as_str());
        let joined = sdk_delete(self.text.as_str(), None, start_index, end_index).0;
        proof {
            let front = bytes.subrange(0, start_index as int);
            let behind = bytes.subrange(end_index as int, bytes.len() as int);
            valid_utf8_split(bytes, start_index as int);
            valid_utf8_split(bytes, end_index as int);
            decode_utf8_encode_utf8(front);
            decode_utf8_encode_utf8(behind);
            lemma_encode_concat(decode_utf8(front), decode_utf8(behind));
            assert(encode_utf8(joined@) == front + behind);
            assert(encode_utf8(joined@).len() == len - (end_index - start_index));
        }
        let facets = match &self.facets {
            Some(facets) => {
                assert forall|i: int| 0 <= i < facets@.len() implies (#[trigger] facets@[i]).index.byte_start
                    <= facets@[i].index.byte_end <= len by {
                    assert(facet_views(facets@)[i] == facets@[i]@);
                }
                let moved = move_for_delete(facets, self.text.as_str(), start_index, end_index);
                assert forall|i: int| 0 <= i < facet_views(moved@).len() implies 0 <= (
                #[trigger] facet_views(moved@)[i]).byte_start <= facet_views(moved@)[i].byte_end
                    <= len - (end_index - start_index) by {
                    assert(facet_views(moved@)[i] == moved@[i]@);
                }
                Some(moved)
            },
            None => None,
        };
        *self = RichText { text: joined, facets };
    }
}

/// The rich text that detection gives for a text: the text itself, with its
/// facets where there are any.
pub open spec fn detected(text: Seq<char>) -> RichTextView {
    RichTextView {
        text,
        facets: if facets_of(text).len() == 0 {
            None
        } else {
            Some(facets_of(text))
        },
    }
}

/// A text with the links and hashtags found in it.
pub fn detect_facets(text: &str) -> (rich: RichText)
    ensures
        rich@ == detected(text@),
        spans_within(rich@),
        facets_valid(rich@),
        rich.facets is Some ==> well_placed(facet_views(rich.facets->0@), text@),
{
    let facets = detect_facets_without_resolution(text);
    let facets = if facets.len() == 0 {
        None
    } else {
        Some(facets)
    };
    RichText { text: String::from_str(text), facets }
}

/// The sign that stands for the part of a link that was cut off.
pub open spec fn ellipsis() -> Seq<char> {
    seq!['…']
}

/// How many leading characters of a link stay, where the text holds `total`
/// grapheme clusters and the link `own` of them: as many as bring the text
/// with the ellipsis to the limit, but one less than the cost of a link
/// where even that is too long, and never more than the link has.
pub open spec fn kept_chars(chars: nat, total: nat, own: nat, budget: ShortenBudget) -> int {
    let floor = if budget.link_unit_cost >= 1 {
        budget.link_unit_cost - 1
    } else {
        0
    };
    let room = budget.limit_units - (total - own) - 1;
    let wanted = if total - own + budget.link_unit_cost > budget.limit_units {
        floor
    } else if room >= 0 {
        room
    } else {
        0
    };
    if wanted <= chars {
        wanted
    } else {
        chars as int
    }
}

/// The rich text after the link `uri` under the span from `start` to `end`
/// was cut: where the link is longer than a link costs, its tail behind the
/// kept characters gives way to an ellipsis. Everything outside the span
/// stays, and the facets move along.
pub open spec fn cut_link(
    view: RichTextView,
    uri: Seq<char>,
    start: int,
    end: int,
    budget: ShortenBudget,
) -> RichTextView {
    let own = grapheme_count(uri);
    let total = grapheme_count(view.text);
    if own > budget.link_unit_cost && total >= own {
        let keep = kept_chars(uri.len(), total, own, budget);
        let cut = start + encode_utf8(uri.subrange(0, keep)).len();
        let sign = encode_utf8(ellipsis()).len();
        deleted(inserted(view, cut, ellipsis()), cut + sign, end + sign)
    } else {
        view
    }
}

/// Cutting a link leaves the text before and behind it as it is: the kept
/// characters of the link and the ellipsis stand between the two.
pub proof fn lemma_cut_link_keeps_the_rest(
    view: RichTextView,
    uri: Seq<char>,
    start: int,
    end: int,
    budget: ShortenBudget,
)
    requires
        0 <= start <= end <= encode_utf8(view.text).len(),
        is_char_boundary(encode_utf8(view.text), start),
        is_char_boundary(encode_utf8(view.text), end),
        encode_utf8(view.text).subrange(start, end) == encode_utf8(uri),
        grapheme_count(uri) > budget.link_unit_cost,
        grapheme_count(view.text) >= grapheme_count(uri),
    ensures
        cut_link(view, uri, start, end, budget).text == decode_utf8(
            encode_utf8(view.text).subrange(0, start),
        ) + uri.subrange(
            0,
            kept_chars(uri.len(), grapheme_count(view.text), grapheme_count(uri), budget),
        ) + ellipsis() + decode_utf8(
            encode_utf8(view.text).subrange(end, encode_utf8(view.text).len() as int),
        ),
{
    let bytes = encode_utf8(view.text);
    let keep = kept_chars(uri.len(), grapheme_count(view.text), grapheme_count(uri), budget);
    let kept = uri.subrange(0, keep);
    let cut = start + encode_utf8(kept).len();
    let mark = encode_utf8(ellipsis());
    let sign = mark.len() as int;
    encode_utf8_valid_utf8(view.text);
    encode_utf8_valid_utf8(ellipsis());
    encode_utf8_valid_utf8(kept);
    lemma_boundary_after_prefix(bytes, start, end, uri, keep);
    let before = bytes.subrange(0, start);
    let front = bytes.subrange(0, cut);
    let back = bytes.subrange(cut, bytes.len() as int);
    let behind = bytes.subrange(end, bytes.len() as int);
    valid_utf8_split(bytes, start);
    valid_utf8_split(bytes, cut);
    valid_utf8_split(bytes, end);
    // The text after the ellipsis was put in.
    let grown = inserted(view, cut, ellipsis());
    decode_utf8_encode_utf8(front);
    decode_utf8_encode_utf8(back);
    lemma_encode_concat(decode_utf8(front), ellipsis());
    lemma_encode_concat(decode_utf8(front) + ellipsis(), decode_utf8(back));
    let grown_bytes = encode_utf8(grown.text);
    assert(grown_bytes == front + mark + back);
    // The text after the tail of the link was taken out.
    assert(grown_bytes.subrange(0, cut + sign) =~= front + mark);
    assert(grown_bytes.subrange(end + sign, grown_bytes.len() as int) =~= behind);
    assert(front =~= before + encode_utf8(kept));
    lemma_decode_concat(before, encode_utf8(kept));
    encode_utf8_decode_utf8(kept);
    valid_utf8_concat(before, encode_utf8(kept));
    lemma_decode_concat(front, mark);
    encode_utf8_decode_utf8(ellipsis());
}

/// Every facet has a valid span: it is not empty and lies within the text
/// on character boundaries.
pub open spec fn facets_valid(view: RichTextView) -> bool {
    view.facets is Some ==> forall|i: int|
        0 <= i < view.facets->0.len() ==> span_is_valid(
            (#[trigger] view.facets->0[i]).byte_start,
            view.facets->0[i].byte_end,
            view.text,
        )
}

/// A facet after `sign` bytes took the place of the bytes from `cut` to
/// `end`: first the insertion at `cut`, then the deletion behind it.
pub open spec fn moved_by_cut(facet: FacetView, cut: int, end: int, sign: int) -> FacetView {
    moved_by_delete(moved_by_insert(facet, cut, sign), cut + sign, end + sign)
}

/// A facet with a valid span that is not left empty by a cut has a valid
/// span in the text after the cut, and marks what it marked before.
proof fn lemma_moved_span_valid(
    facet: FacetView,
    old_text: Seq<char>,
    new_text: Seq<char>,
    mark: Seq<u8>,
    cut: int,
    end: int,
)
    requires
        span_is_valid(facet.byte_start, facet.byte_end, old_text),
        valid_utf8(mark),
        mark.len() > 0,
        0 <= cut <= end <= encode_utf8(old_text).len(),
        is_char_boundary(encode_utf8(old_text), cut),
        is_char_boundary(encode_utf8(old_text), end),
        encode_utf8(new_text) == replaced_span(encode_utf8(old_text), mark, cut, end),
    ensures
        moved_by_cut(facet, cut, end, mark.len() as int).features == facet.features,
        moved_by_cut(facet, cut, end, mark.len() as int).byte_start < moved_by_cut(
            facet,
            cut,
            end,
            mark.len() as int,
        ).byte_end ==> span_is_valid(
            moved_by_cut(facet, cut, end, mark.len() as int).byte_start,
            moved_by_cut(facet, cut, end, mark.len() as int).byte_end,
            new_text,
        ),
{
    let bytes = encode_utf8(old_text);
    let after = encode_utf8(new_text);
    let sign = mark.len() as int;
    encode_utf8_valid_utf8(old_text);
    lemma_boundaries_after_replacing(bytes, mark, cut, end);
    let moved = moved_by_cut(facet, cut, end, sign);
    if facet.byte_start <= cut {
        assert(is_char_boundary(after, facet.byte_start));
    }
    if facet.byte_end <= cut {
        assert(is_char_boundary(after, facet.byte_end));
    }
    if facet.byte_start >= end {
        assert(is_char_boundary(after, cut + sign + (facet.byte_start - end)));
    }
    if facet.byte_end >= end {
        assert(is_char_boundary(after, cut + sign + (facet.byte_end - end)));
    }
    if moved.byte_start < moved.byte_end {
        assert(moved.byte_start == facet.byte_start || moved.byte_start == cut + sign
            || moved.byte_start == cut + sign + (facet.byte_start - end));
        assert(moved.byte_end == facet.byte_end || moved.byte_end == cut + sign || moved.byte_end
            == cut + sign + (facet.byte_end - end));
        assert(is_char_boundary(after, moved.byte_start));
        assert(is_char_boundary(after, moved.byte_end));
    }
}

/// The facets that a cut leaves have valid spans in the text after the cut.
proof fn lemma_moved_facets_valid(
    facets: Seq<FacetView>,
    old_text: Seq<char>,
    new_text: Seq<char>,
    mark: Seq<u8>,
    cut: int,
    end: int,
)
    requires
        forall|i: int|
            0 <= i < facets.len() ==> span_is_valid(
                (#[trigger] facets[i]).byte_start,
                facets[i].byte_end,
                old_text,
            ),
        valid_utf8(mark),
        mark.len() > 0,
        0 <= cut <= end <= encode_utf8(old_text).len(),
        is_char_boundary(encode_utf8(old_text), cut),
        is_char_boundary(encode_utf8(old_text), end),
        encode_utf8(new_text) == replaced_span(encode_utf8(old_text), mark, cut, end),
    ensures
        forall|i: int|
            0 <= i < facets_after_delete(
                facets_after_insert(facets, cut, mark.len() as int),
                cut + mark.len(),
                end + mark.len(),
            ).len() ==> span_is_valid(
                (#[trigger] facets_after_delete(
                    facets_after_insert(facets, cut, mark.len() as int),
                    cut + mark.len(),
                    end + mark.len(),
                )[i]).byte_start,
                facets_after_delete(
                    facets_after_insert(facets, cut, mark.len() as int),
                    cut + mark.len(),
                    end + mark.len(),
                )[i].byte_end,
                new_text,
            ),
    decreases facets.len(),
{
    let sign = mark.len() as int;
    let grown = facets_after_insert(facets, cut, sign);
    let left = facets_after_delete(grown, cut + sign, end + sign);
    if facets.len() > 0 {
        let earlier = facets.drop_last();
        assert(grown.drop_last() =~= facets_after_insert(earlier, cut, sign));
        assert(grown.last() == moved_by_insert(facets.last(), cut, sign));
        lemma_moved_facets_valid(earlier, old_text, new_text, mark, cut, end);
        lemma_moved_span_valid(facets.last(), old_text, new_text, mark, cut, end);
        let kept = facets_after_delete(grown.drop_last(), cut + sign, end + sign);
        assert forall|i: int| 0 <= i < left.len() implies span_is_valid(
            (#[trigger] left[i]).byte_start,
            left[i].byte_end,
            new_text,
        ) by {
            if i < kept.len() {
                assert(left[i] == kept[i]);
            } else {
                assert(left[i] == moved_by_cut(facets.last(), cut, end, sign));
            }
        }
    }
}

/// The rich text after the links among `facets` were cut, the last one
/// first, until the text is within the limit or no facet is left.
pub open spec fn cut_links(view: RichTextView, facets: Seq<FacetView>, budget: ShortenBudget) -> RichTextView
    decreases facets.len(),
{
    if facets.len() == 0 || grapheme_count(view.text) <= budget.limit_units {
        view
    } else {
        let facet = facets.last();
        let next = if marks_link(facet) {
            cut_link(view, facet.features[0]->Link_0, facet.byte_start, facet.byte_end, budget)
        } else {
            view
        };
        cut_links(next, facets.drop_last(), budget)
    }
}

/// A text fitted into a budget by cutting its links.
pub open spec fn fitted_links(text: Seq<char>, budget: ShortenBudget) -> RichTextView {
    cut_links(detected(text), facets_of(text), budget)
}

/// Decides how many leading characters of a link stay.
fn chars_to_keep(chars: usize, total: usize, own: usize, budget: &ShortenBudget) -> (keep: usize)
    requires
        total >= own,
    ensures
        keep == kept_chars(chars as nat, total as nat, own as nat, *budget),
        keep <= chars,
{
    let floor = if budget.link_unit_cost >= 1 {
        budget.link_unit_cost - 1
    } else {
        0
    };
    let rest = total - own;
    let wanted = if rest > budget.limit_units || budget.link_unit_cost > budget.limit_units - rest {
        floor
    } else if budget.limit_units - rest >= 1 {
        budget.limit_units - rest - 1
    } else {
        0
    };
    if wanted <= chars {
        wanted
    } else {
        chars
    }
}

/// Cuts the link `uri`, which the text holds from `start` to `end`.
#[verifier::rlimit(40)]
fn shorten_link(rich: &mut RichText, uri: &str, start: usize, end: usize, budget: &ShortenBudget)
    requires
        spans_within(old(rich)@),
        facets_valid(old(rich)@),
        start <= end <= encode_utf8(old(rich).text@).len(),
        is_char_boundary(encode_utf8(old(rich).text@), start as int),
        is_char_boundary(encode_utf8(old(rich).text@), end as int),
        encode_utf8(old(rich).text@).subrange(start as int, end as int) == encode_utf8(uri@),
    ensures
        final(rich)@ == cut_link(old(rich)@, uri@, start as int, end as int, *budget),
        spans_within(final(rich)@),
        facets_valid(final(rich)@),
        start <= encode_utf8(final(rich).text@).len(),
        encode_utf8(final(rich).text@).subrange(0, start as int) == encode_utf8(
            old(rich).text@,
        ).subrange(0, start as int),
        is_char_boundary(encode_utf8(final(rich).text@), start as int),
{
    let ghost bytes = encode_utf8(rich.text@);
    proof {
        encode_utf8_valid_utf8(rich.text@);
    }
    let own = count_graphemes(uri);
    let total = rich.grapheme_len();
    if own > budget.link_unit_cost && total >= own {
        let chars = uri.unicode_len();
        let keep = chars_to_keep(chars, total, own, budget);
        let kept = uri.substring_char(0, keep);
        let kept_len = byte_len(kept);
        proof {
            lemma_boundary_after_prefix(bytes, start as int, end as int, uri@, keep as int);
            reveal_strlit("…");
            assert("…"@ =~= ellipsis());
        }
        let cut = start + kept_len;
        rich.insert(cut, "…");
        let sign = byte_len("…");
        let grown = byte_len(rich.text.as_str());
        let ghost mark = encode_utf8(ellipsis());
        proof {
            encode_utf8_valid_utf8(ellipsis());
            lemma_encode_nonempty(ellipsis());
            lemma_boundaries_after_replacing(bytes, mark, cut as int, cut as int);
            assert(encode_utf8(rich.text@) =~= replaced_span(bytes, mark, cut as int, cut as int));
            assert(is_char_boundary(encode_utf8(rich.text@), cut + sign + (end - cut)));
        }
        rich.delete(cut + sign, end + sign);
        proof {
            let now = encode_utf8(rich.text@);
            lemma_boundaries_after_replacing(bytes, mark, cut as int, end as int);
            assert(now =~= replaced_span(bytes, mark, cut as int, end as int));
            assert(now.subrange(0, start as int) =~= bytes.subrange(0, start as int));
            assert(is_char_boundary(now, start as int));
            if old(rich)@.facets is Some {
                lemma_moved_facets_valid(
                    old(rich)@.facets->0,
                    old(rich).text@,
                    rich.text@,
                    mark,
                    cut as int,
                    end as int,
                );
            }
        }
    }
}

/// Fits a text into a budget by cutting over-long links from the end of the
/// text backwards.
///
/// The links and hashtags of the text are detected first. While the text
/// holds more grapheme clusters than the budget allows, the last link not
/// yet looked at is cut, if it is longer than a link costs: it keeps as many
/// leading characters as the budget leaves room for, at least one less than
/// a link costs, and an ellipsis takes the place of the rest. A text that
/// is still too long when no link is left stays as it is then.
pub fn fit_links(text: &str, budget: &ShortenBudget) -> (fitted: RichText)
    ensures
        fitted@ == fitted_links(text@, *budget),
        grapheme_count(text@) <= budget.limit_units ==> fitted@ == detected(text@) && fitted.text@
            == text@,
        spans_within(fitted@),
        facets_valid(fitted@),
{
    let mut rich = detect_facets(text);
    let found_facets = match &rich.facets {
        Some(facets) => clone_facets(facets),
        None => Vec::new(),
    };
    let ghost views = facet_views(found_facets@);
    let ghost source = encode_utf8(text@);
    let ghost mut limit: int = source.len() as int;
    proof {
        encode_utf8_valid_utf8(text@);
        is_char_boundary_start_end_of_seq(source);
        if rich.facets is None {
            assert(views =~= facets_of(text@));
        }
        assert(views.subrange(0, views.len() as int) =~= views);
        assert forall|i: int| 0 <= i < views.len() && marks_link(#[trigger] views[i]) implies views[i].byte_end
            <= limit by {
            assert(is_link_of(views[i], text@) || is_tag_of(views[i], text@));
        }
    }
    let mut j = found_facets.len();
    let mut fits = rich.grapheme_len() <= budget.limit_units;
    while j > 0 && !fits
        invariant
            j <= found_facets@.len(),
            views == facet_views(found_facets@),
            views == facets_of(text@),
            well_placed(views, text@),
            source == encode_utf8(text@),
            valid_utf8(source),
            0 <= limit <= source.len(),
            limit <= encode_utf8(rich.text@).len(),
            encode_utf8(rich.text@).subrange(0, limit) == source.subrange(0, limit),
            is_char_boundary(encode_utf8(rich.text@), limit),
            forall|i: int| 0 <= i < j && marks_link(#[trigger] views[i]) ==> views[i].byte_end <= limit,
            cut_links(rich@, views.subrange(0, j as int), *budget) == fitted_links(text@, *budget),
            spans_within(rich@),
            facets_valid(rich@),
            fits == (grapheme_count(rich.text@) <= budget.limit_units),
        decreases j,
    {
        let facet = &found_facets[j - 1];
        let ghost view = views[j - 1];
        let ghost current = encode_utf8(rich.text@);
        let ghost before = rich@;
        proof {
            assert(view == facet@);
            assert(views.subrange(0, j as int).last() == view);
            assert(views.subrange(0, j as int).drop_last() =~= views.subrange(0, j - 1));
            assert(is_link_of(view, text@) || is_tag_of(view, text@));
            encode_utf8_valid_utf8(rich.text@);
            assert(view.features.len() == facet.features@.len());
        }
        if facet.features.len() == 1 {
            assert(view.features[0] == facet.features@[0]@);
            match &facet.features[0] {
                FacetFeaturesItem::Link(link) => {
                    let start = facet.index.byte_start;
                    let end = facet.index.byte_end;
                    proof {
                        assert(marks_link(view));
                        assert(is_link_of(view, text@));
                        assert(end <= limit);
                        lemma_boundary_transfer(source, current, limit, start as int);
                        lemma_boundary_transfer(source, current, limit, end as int);
                        lemma_slice_valid(source, start as int, end as int);
                        assert(current.subrange(start as int, end as int) =~= current.subrange(
                            0,
                            limit,
                        ).subrange(start as int, end as int));
                        assert(source.subrange(start as int, end as int) =~= source.subrange(
                            0,
                            limit,
                        ).subrange(start as int, end as int));
                        assert(view.features[0] == FeatureView::Link(link.uri@));
                    }
                    shorten_link(&mut rich, link.uri.as_str(), start, end, budget);
                    proof {
                        let now = encode_utf8(rich.text@);
                        assert(now.subrange(0, start as int) =~= source.subrange(0, start as int)) by {
                            assert(current.subrange(0, start as int) =~= current.subrange(
                                0,
                                limit,
                            ).subrange(0, start as int));
                            assert(source.subrange(0, start as int) =~= source.subrange(
                                0,
                                limit,
                            ).subrange(0, start as int));
                        }
                        assert forall|i: int| 0 <= i < j - 1 && marks_link(#[trigger] views[i]) implies views[i].byte_end
                            <= start by {
                            assert(views[i].byte_end <= views[j - 1].byte_start);
                        }
                        limit = start as int;
                    }
                },
                FacetFeaturesItem::Tag(_) => {
                    assert(!marks_link(view));
                },
            }
        } else {
            assert(!marks_link(view));
        }
        j -= 1;
        fits = rich.grapheme_len() <= budget.limit_units;
    }
    rich
}

/// Shortens the links of a text where it would not fit into a Bluesky post
/// otherwise, and marks its links and hashtags.
pub fn get_rich_text(text: &str) -> (fitted: RichText)
    ensures
        fitted@ == fitted_links(text@, bluesky_rule()),
        grapheme_count(text@) <= BLUESKY_LIMIT ==> fitted@ == detected(text@) && fitted.text@
            == text@,
        spans_within(fitted@),
        facets_valid(fitted@),
{
    let budget = bluesky_budget();
    fit_links(text, &budget)
}

} // verus!
