//! What to post where: the texts of the posts of both platforms, made
//! comparable, and the plan of the status updates that are still missing on
//! either side.

use crate::bluesky_richtext::{
    facet_views, feature_views, fitted_links, FacetFeaturesItem, FacetView,
    FacetWithoutResolution, FeatureView,
};
use crate::budget::{bluesky_budget, bluesky_rule, mastodon_budget, mastodon_rule, BLUESKY_LIMIT};
use crate::fitting::{
    capped_units, fit_words, fitted_words, measures_within, runs_dry, text_units, units,
    within_budget, LinkRule,
};
use crate::pattern::{find_matches, pattern_matches};
use crate::post_cache::{cache_of, distinct, text_views, PostCache, POST_CACHE_CAP};
use crate::text::{byte_len, byte_slice, join3, lemma_slice_valid};
use crate::unicode::{
    contains, count_graphemes, decode_html_entities, entities_decoded, grapheme_count,
    lowercased, occurs_in, replace, replaced, strip_tags, to_lowercase, trim, trimmed,
    without_tags,
};
use vstd::prelude::*;
use vstd::string::*;
use vstd::utf8::*;

verus! {

/// The key of a post in its address: what stands behind the last slash.
pub const POST_ID_PATTERN: &'static str = r"[^/]+$";

/// The longest alternative text, in characters, that Bluesky takes.
pub const MAX_ALT_TEXT_CHARS: usize = 1000;

/// A medium to attach to a new status.
#[derive(Debug, Clone)]
pub struct NewMedia {
    pub attachment_url: String,
    pub alt_text: Option<String>,
}

/// A new status for posting, with the media to attach.
#[derive(Debug)]
pub struct NewStatus {
    pub text: String,
    pub attachments: Vec<NewMedia>,
    pub video_stream: Option<String>,
    pub original_post_url: String,
    /// Further statuses that reply to this one, to be posted after it.
    pub replies: Vec<NewStatus>,
    /// The status that this one replies to, where it continues a thread.
    pub in_reply_to_id: Option<String>,
}

/// The new statuses for both platforms: `bsky_posts` go to Bluesky, `toots`
/// to Mastodon.
#[derive(Debug)]
pub struct StatusUpdates {
    pub bsky_posts: Vec<NewStatus>,
    pub toots: Vec<NewStatus>,
}

/// What is synchronised.
#[derive(Debug, Clone)]
pub struct SyncOptions {
    pub sync_reblogs: bool,
    pub sync_reposts: bool,
    pub sync_hashtag_bluesky: Option<String>,
    pub sync_hashtag_mastodon: Option<String>,
}

impl Default for SyncOptions {
    fn default() -> (options: SyncOptions)
        ensures
            !options.sync_reblogs,
            !options.sync_reposts,
            options.sync_hashtag_bluesky is None,
            options.sync_hashtag_mastodon is None,
    {
        SyncOptions {
            sync_reblogs: false,
            sync_reposts: false,
            sync_hashtag_bluesky: None,
            sync_hashtag_mastodon: None,
        }
    }
}

/// A medium attached to a Mastodon status.
#[derive(Debug, Clone)]
pub struct MediaAttachment {
    pub url: String,
    pub description: Option<String>,
}

/// The status that a Mastodon status boosts.
#[derive(Debug, Clone)]
pub struct Reblog {
    pub username: String,
    pub content: String,
    pub url: Option<String>,
    pub media_attachments: Vec<MediaAttachment>,
}

/// A Mastodon status, as far as synchronising reads it.
#[derive(Debug, Clone)]
pub struct Status {
    pub content: String,
    pub url: Option<String>,
    pub in_reply_to_id: Option<String>,
    pub reblog: Option<Reblog>,
    pub media_attachments: Vec<MediaAttachment>,
}

/// An image embedded in a Bluesky post.
#[derive(Debug, Clone)]
pub struct EmbedImage {
    pub fullsize: String,
    pub alt: String,
}

/// The record of a Bluesky post: its text, the facets that mark parts of
/// the text, and the target of an embedded link card.
#[derive(Debug, Clone)]
pub struct PostRecord {
    pub text: String,
    pub facets: Option<Vec<FacetWithoutResolution>>,
    pub external_uri: Option<String>,
}

/// Something embedded in a quoted post.
#[derive(Debug, Clone)]
pub enum QuoteEmbed {
    Images(Vec<EmbedImage>),
    Video(String),
    Other,
}

/// A post that another post quotes.
#[derive(Debug, Clone)]
pub struct QuotedPost {
    pub record: PostRecord,
    pub author_handle: String,
    pub embeds: Vec<QuoteEmbed>,
}

/// What a Bluesky post embeds.
#[derive(Debug, Clone)]
pub enum PostEmbed {
    Images(Vec<EmbedImage>),
    Video(String),
    Quote(QuotedPost),
    Other,
}

/// A post of a Bluesky feed, as far as synchronising reads it.
#[derive(Debug, Clone)]
pub struct FeedViewPost {
    pub record: PostRecord,
    pub author_handle: String,
    pub uri: String,
    pub is_reply: bool,
    pub is_repost: bool,
    pub embed: Option<PostEmbed>,
}

/// The value of an optional text.
pub open spec fn text_of(text: Option<String>) -> Option<Seq<char>> {
    match text {
        Some(text) => Some(text@),
        None => None,
    }
}

/// The mathematical value of a medium.
pub struct NewMediaView {
    pub attachment_url: Seq<char>,
    pub alt_text: Option<Seq<char>>,
}

impl View for NewMedia {
    type V = NewMediaView;

    open spec fn view(&self) -> NewMediaView {
        NewMediaView { attachment_url: self.attachment_url@, alt_text: text_of(self.alt_text) }
    }
}

/// The values of a list of media.
pub open spec fn media_views(media: Seq<NewMedia>) -> Seq<NewMediaView> {
    media.map_values(|m: NewMedia| m@)
}

/// The mathematical value of a new status. Its replies stand as they are.
pub struct NewStatusView {
    pub text: Seq<char>,
    pub attachments: Seq<NewMediaView>,
    pub video_stream: Option<Seq<char>>,
    pub original_post_url: Seq<char>,
    pub replies: Seq<NewStatus>,
    pub in_reply_to_id: Option<Seq<char>>,
}

impl View for NewStatus {
    type V = NewStatusView;

    open spec fn view(&self) -> NewStatusView {
        NewStatusView {
            text: self.text@,
            attachments: media_views(self.attachments@),
            video_stream: text_of(self.video_stream),
            original_post_url: self.original_post_url@,
            replies: self.replies@,
            in_reply_to_id: text_of(self.in_reply_to_id),
        }
    }
}

/// The values of a list of statuses.
pub open spec fn status_views(statuses: Seq<NewStatus>) -> Seq<NewStatusView> {
    statuses.map_values(|s: NewStatus| s@)
}

/// The statuses in the opposite order.
fn reversed(statuses: Vec<NewStatus>) -> (turned: Vec<NewStatus>)
    ensures
        turned@ == statuses@.reverse(),
{
    let mut statuses = statuses;
    let ghost given = statuses@;
    let mut turned: Vec<NewStatus> = Vec::new();
    while statuses.len() > 0
        invariant
            statuses@.len() <= given.len(),
            statuses@ == given.subrange(0, statuses@.len() as int),
            turned@.len() == given.len() - statuses@.len(),
            forall|i: int| 0 <= i < turned@.len() ==> turned@[i] == given[given.len() - 1 - i],
        decreases statuses@.len(),
    {
        let ghost before = statuses@;
        let last = statuses.pop().unwrap();
        assert(last == given[before.len() - 1]);
        assert(statuses@ =~= given.subrange(0, statuses@.len() as int));
        turned.push(last);
    }
    assert(turned@ =~= given.reverse());
    turned
}

impl StatusUpdates {
    /// Reverses the order of the statuses of both lists in place.
    pub fn reverse_order(&mut self)
        ensures
            final(self).bsky_posts@ == old(self).bsky_posts@.reverse(),
            final(self).toots@ == old(self).toots@.reverse(),
    {
        let mut bsky_posts: Vec<NewStatus> = Vec::new();
        let mut toots: Vec<NewStatus> = Vec::new();
        core::mem::swap(&mut self.bsky_posts, &mut bsky_posts);
        core::mem::swap(&mut self.toots, &mut toots);
        self.bsky_posts = reversed(bsky_posts);
        self.toots = reversed(toots);
    }
}

/// A text cut to its first `max_chars` characters.
pub open spec fn truncated(text: Seq<char>, max_chars: usize) -> Seq<char> {
    if max_chars >= text.len() {
        text
    } else {
        text.subrange(0, max_chars as int)
    }
}

/// Truncates a text to at most `max_chars` characters. Characters are
/// counted, not grapheme clusters.
pub fn truncate_option_string(stringy: Option<String>, max_chars: usize) -> (cut: Option<String>)
    ensures
        stringy is None ==> cut is None,
        stringy is Some ==> cut is Some && cut->0@ == truncated(stringy->0@, max_chars),
{
    match stringy {
        Some(string) => {
            let chars = string.as_str().unicode_len();
            if max_chars >= chars {
                Some(string)
            } else {
                Some(string.as_str().substring_char(0, max_chars).to_owned())
            }
        },
        None => None,
    }
}

/// The common form of a post text for comparing: in lower case and without
/// the schemes `http://` and `https://`, which Bluesky adds or leaves out
/// as it pleases.
pub open spec fn unified(content: Seq<char>) -> Seq<char> {
    replaced(replaced(lowercased(content), "http://"@, Seq::empty()), "https://"@, Seq::empty())
}

/// Brings a Bluesky text or a toot text into the common form for comparing.
pub fn unify_post_content(content: String) -> (result: String)
    ensures
        result@ == unified(content@),
{
    proof {
        reveal_strlit("http://");
        reveal_strlit("https://");
        reveal_strlit("");
        assert(""@ =~= Seq::<char>::empty());
    }
    let lower = to_lowercase(content.as_str());
    let without_http = replace(lower.as_str(), "http://", "");
    replace(without_http.as_str(), "https://", "")
}

/// The text that stands for a boost or repost: a marker, the author and the
/// text that was shared.
pub open spec fn shared_text(author: Seq<char>, text: Seq<char>) -> Seq<char> {
    "♻️ "@ + author + ": "@ + text
}

/// Builds the text that stands for a boost or repost.
pub fn share_text(author: &str, text: &str) -> (shared: String)
    ensures
        shared@ == shared_text(author@, text@),
{
    let mut shared = String::from_str("♻️ ");
    shared.append(author);
    shared.append(": ");
    shared.append(text);
    shared
}

/// The content of a toot with its paragraph and line-break markup turned
/// into line feeds.
pub open spec fn breaks_as_line_feeds(content: Seq<char>) -> Seq<char> {
    let a = replaced(content, "<br />"@, "\n"@);
    let b = replaced(a, "<br>"@, "\n"@);
    let c = replaced(b, "</p><p>"@, "\n\n"@);
    let d = replaced(c, "<p>"@, Seq::empty());
    replaced(d, "</p>"@, Seq::empty())
}

/// The plain text of a toot: for a boost the shared text with its marker and
/// author, then line feeds for the break markup, no other tags, and the
/// characters that the HTML entities stand for.
pub open spec fn toot_text(toot: Status) -> Seq<char> {
    let content = match toot.reblog {
        None => toot.content@,
        Some(reblog) => shared_text(reblog.username@, reblog.content@),
    };
    entities_decoded(without_tags(breaks_as_line_feeds(content)))
}

/// Prefixes boosts with a marker and their author, and strips the HTML
/// markup of a toot.
pub fn mastodon_toot_get_text(toot: &Status) -> (text: String)
    ensures
        text@ == toot_text(*toot),
{
    proof {
        reveal_strlit("<br />");
        reveal_strlit("<br>");
        reveal_strlit("</p><p>");
        reveal_strlit("<p>");
        reveal_strlit("</p>");
        reveal_strlit("");
        assert(""@ =~= Seq::<char>::empty());
    }
    let content = match &toot.reblog {
        None => toot.content.clone(),
        Some(reblog) => share_text(reblog.username.as_str(), reblog.content.as_str()),
    };
    let a = replace(content.as_str(), "<br />", "\n");
    let b = replace(a.as_str(), "<br>", "\n");
    let c = replace(b.as_str(), "</p><p>", "\n\n");
    let d = replace(c.as_str(), "<p>", "");
    let e = replace(d.as_str(), "</p>", "");
    let plain = strip_tags(e.as_str());
    decode_html_entities(plain.as_str())
}

/// The length of a text as Mastodon counts it: each link counts for 23
/// characters.
pub fn mastodon_text_length(text: &str) -> (length: usize)
    ensures
        length == capped_units(text@, mastodon_rule()),
{
    let budget = mastodon_budget();
    text_units(text, &budget)
}

/// The key of a Bluesky post: what stands behind the last slash of its
/// address, and nothing where the address ends in a slash or is empty.
pub open spec fn post_key(uri: Seq<char>) -> Seq<char> {
    match pattern_matches(POST_ID_PATTERN@, uri) {
        Some(found) => if found.len() > 0 {
            decode_utf8(encode_utf8(uri).subrange(found[0].0 as int, found[0].1 as int))
        } else {
            Seq::empty()
        },
        None => Seq::empty(),
    }
}

/// The web address of a Bluesky post.
pub open spec fn post_link(handle: Seq<char>, uri: Seq<char>) -> Seq<char> {
    "https://bsky.app/profile/"@ + handle + "/post/"@ + post_key(uri)
}

/// Builds the web address of a Bluesky post from the handle of its author
/// and its `at://` address.
pub fn bsky_post_link(handle: &str, uri: &str) -> (link: String)
    ensures
        link@ == post_link(handle@, uri@),
{
    let mut link = String::from_str("https://bsky.app/profile/");
    link.append(handle);
    link.append("/post/");
    proof {
        encode_utf8_valid_utf8(uri@);
    }
    match find_matches(POST_ID_PATTERN, uri) {
        Some(found) => {
            if found.len() > 0 {
                let (start, end) = found[0];
                proof {
                    lemma_slice_valid(encode_utf8(uri@), start as int, end as int);
                }
                let key = byte_slice(uri, start, end);
                proof {
                    encode_utf8_decode_utf8(key@);
                }
                link.append(key);
            } else {
                assert(link@ + Seq::<char>::empty() =~= link@);
            }
        },
        None => {
            assert(link@ + Seq::<char>::empty() =~= link@);
        },
    }
    link
}

/// A text for Mastodon: fitted into Mastodon's budget, every link counted at
/// its fixed cost, with the link to the post on Bluesky as fallback.
pub open spec fn toot_shortened(text: Seq<char>, handle: Seq<char>, uri: Seq<char>) -> Seq<char> {
    fitted_words(text, Some(post_link(handle, uri)), LinkRule::Counted, mastodon_rule())
}

/// Shortens a text that is too long for Mastodon, where every link counts
/// as 23 characters and 500 are allowed, and appends the link to the full
/// post on Bluesky.
pub fn toot_shorten(text: &str, bsky_post: &FeedViewPost) -> (fitted: String)
    ensures
        fitted@ == toot_shortened(text@, bsky_post.author_handle@, bsky_post.uri@),
        units(text@, mastodon_rule()) <= mastodon_rule().limit_units ==> fitted@ == text@,
        units(fitted@, mastodon_rule()) <= mastodon_rule().limit_units || runs_dry(
            trimmed(text@),
            Some(post_link(bsky_post.author_handle@, bsky_post.uri@)),
            LinkRule::Counted,
            mastodon_rule(),
        ),
{
    let budget = mastodon_budget();
    if within_budget(text, &budget) {
        return String::from_str(text);
    }
    let link = bsky_post_link(bsky_post.author_handle.as_str(), bsky_post.uri.as_str());
    fit_words(text, Some(link.as_str()), LinkRule::Counted, &budget)
}

/// A text for Bluesky: fitted into Bluesky's budget, measured with its links
/// cut, with the link to the toot as fallback where there is one.
pub open spec fn bsky_shortened(text: Seq<char>, toot_url: Option<Seq<char>>) -> Seq<char> {
    fitted_words(text, toot_url, LinkRule::Cut, bluesky_rule())
}

/// Shortens a text that is too long for Bluesky, which allows 300 grapheme
/// clusters. A text that fits once its links are cut stays as it is: the
/// links are cut on posting.
pub fn bsky_post_shorten(text: &str, toot_url: &Option<String>) -> (fitted: String)
    ensures
        fitted@ == bsky_shortened(text@, text_of(*toot_url)),
        grapheme_count(text@) <= BLUESKY_LIMIT ==> fitted@ == text@,
        measures_within(text@, LinkRule::Cut, bluesky_rule()) ==> fitted@ == text@,
        measures_within(fitted@, LinkRule::Cut, bluesky_rule()) || runs_dry(
            trimmed(text@),
            text_of(*toot_url),
            LinkRule::Cut,
            bluesky_rule(),
        ),
{
    let budget = bluesky_budget();
    if count_graphemes(text) <= BLUESKY_LIMIT {
        // Nothing is cut from a text that is short enough as it stands.
        assert(fitted_links(text@, bluesky_rule()).text == text@);
        return String::from_str(text);
    }
    let link = match toot_url {
        Some(url) => Some(url.as_str()),
        None => None,
    };
    fit_words(text, link, LinkRule::Cut, &budget)
}

/// The replacement of the bytes from `start` to `end` of a text by a link.
pub struct LinkEdit {
    pub start: usize,
    pub end: usize,
    pub uri: String,
}

/// The mathematical value of a replacement.
pub struct LinkEditView {
    pub start: int,
    pub end: int,
    pub uri: Seq<char>,
}

impl View for LinkEdit {
    type V = LinkEditView;

    open spec fn view(&self) -> LinkEditView {
        LinkEditView { start: self.start as int, end: self.end as int, uri: self.uri@ }
    }
}

/// The values of a list of replacements.
pub open spec fn edit_views(edits: Seq<LinkEdit>) -> Seq<LinkEditView> {
    edits.map_values(|e: LinkEdit| e@)
}

/// The replacements that the link features of one facet ask for, in the
/// order of the features.
pub open spec fn feature_edits(features: Seq<FeatureView>, start: int, end: int) -> Seq<LinkEditView>
    decreases features.len(),
{
    if features.len() == 0 {
        seq![]
    } else {
        let earlier = feature_edits(features.drop_last(), start, end);
        match features.last() {
            FeatureView::Link(uri) => earlier.push(LinkEditView { start, end, uri }),
            FeatureView::Tag(_) => earlier,
        }
    }
}

/// The replacements that the facets of a record ask for, in the order of
/// the facets.
pub open spec fn link_edits(facets: Seq<FacetView>) -> Seq<LinkEditView>
    decreases facets.len(),
{
    if facets.len() == 0 {
        seq![]
    } else {
        link_edits(facets.drop_last()) + feature_edits(
            facets.last().features,
            facets.last().byte_start,
            facets.last().byte_end,
        )
    }
}

/// A list kept in the order of descending starts, with `edit` put in behind
/// the entries that start at the same place or later.
pub open spec fn placed(sorted: Seq<LinkEditView>, edit: LinkEditView) -> Seq<LinkEditView>
    decreases sorted.len(),
{
    if sorted.len() == 0 {
        seq![edit]
    } else if sorted.last().start >= edit.start {
        sorted.push(edit)
    } else {
        placed(sorted.drop_last(), edit).push(sorted.last())
    }
}

/// The replacements in the order of descending starts; those with the same
/// start keep their order.
pub open spec fn latest_first(edits: Seq<LinkEditView>) -> Seq<LinkEditView>
    decreases edits.len(),
{
    if edits.len() == 0 {
        seq![]
    } else {
        placed(latest_first(edits.drop_last()), edits.last())
    }
}

/// A text with one replacement made; `None` where the span does not lie
/// within the text on character boundaries.
pub open spec fn spliced(text: Seq<char>, edit: LinkEditView) -> Option<Seq<char>> {
    let bytes = encode_utf8(text);
    if 0 <= edit.start <= edit.end <= bytes.len() && is_char_boundary(bytes, edit.start)
        && is_char_boundary(bytes, edit.end) {
        Some(
            decode_utf8(bytes.subrange(0, edit.start)) + edit.uri + decode_utf8(
                bytes.subrange(edit.end, bytes.len() as int),
            ),
        )
    } else {
        None
    }
}

/// A text with the replacements made one after the other; `None` where one
/// of them cannot be made.
pub open spec fn spliced_all(text: Seq<char>, edits: Seq<LinkEditView>) -> Option<Seq<char>>
    decreases edits.len(),
{
    if edits.len() == 0 {
        Some(text)
    } else {
        match spliced(text, edits.first()) {
            Some(next) => spliced_all(next, edits.drop_first()),
            None => None,
        }
    }
}

/// The text of a record with every link facet replaced by its target, the
/// facets taken from the end of the text backwards.
pub open spec fn links_materialized(record: PostRecord) -> Option<Seq<char>> {
    match record.facets {
        Some(facets) => spliced_all(record.text@, latest_first(link_edits(facet_views(facets@)))),
        None => Some(record.text@),
    }
}

/// The full text of a record: its links materialized, and the target of its
/// link card in a paragraph of its own where the text does not hold it yet.
/// `None` where a facet does not fit the text.
pub open spec fn record_text(record: PostRecord) -> Option<Seq<char>> {
    match links_materialized(record) {
        Some(text) => Some(
            match record.external_uri {
                Some(uri) => if occurs_in(uri@, text) {
                    text
                } else {
                    text + "\n\n"@ + uri@
                },
                None => text,
            },
        ),
        None => None,
    }
}

/// Putting an entry in at the place where the later starts end is placing
/// it.
proof fn lemma_placed_is_insert(sorted: Seq<LinkEditView>, edit: LinkEditView, place: int)
    requires
        0 <= place <= sorted.len(),
        forall|k: int| place <= k < sorted.len() ==> (#[trigger] sorted[k]).start < edit.start,
        place > 0 ==> sorted[place - 1].start >= edit.start,
    ensures
        placed(sorted, edit) == sorted.insert(place, edit),
    decreases sorted.len(),
{
    if sorted.len() == 0 {
        assert(sorted.insert(place, edit) =~= seq![edit]);
    } else if place == sorted.len() {
        assert(sorted.insert(place, edit) =~= sorted.push(edit));
    } else {
        assert(sorted.last().start < edit.start);
        lemma_placed_is_insert(sorted.drop_last(), edit, place);
        assert(sorted.drop_last().insert(place, edit).push(sorted.last()) =~= sorted.insert(
            place,
            edit,
        ));
    }
}

/// Collects the replacements that the facets ask for.
fn collect_link_edits(facets: &Vec<FacetWithoutResolution>) -> (edits: Vec<LinkEdit>)
    ensures
        edit_views(edits@) == link_edits(facet_views(facets@)),
{
    let mut edits: Vec<LinkEdit> = Vec::new();
    let mut i: usize = 0;
    assert(facet_views(facets@.subrange(0, 0)) =~= Seq::empty());
    assert(edit_views(edits@) =~= Seq::empty());
    while i < facets.len()
        invariant
            i <= facets@.len(),
            edit_views(edits@) == link_edits(facet_views(facets@.subrange(0, i as int))),
        decreases facets@.len() - i,
    {
        let facet = &facets[i];
        let ghost upto = facet_views(facets@.subrange(0, i + 1));
        let ghost earlier = edit_views(edits@);
        proof {
            assert(upto.drop_last() =~= facet_views(facets@.subrange(0, i as int)));
            assert(upto.last() == facet@);
            assert(feature_views(facet.features@.subrange(0, 0)) =~= Seq::empty());
            assert(edit_views(edits@) =~= earlier + Seq::<LinkEditView>::empty());
        }
        let mut j: usize = 0;
        while j < facet.features.len()
            invariant
                j <= facet.features@.len(),
                edit_views(edits@) == earlier + feature_edits(
                    feature_views(facet.features@.subrange(0, j as int)),
                    facet.index.byte_start as int,
                    facet.index.byte_end as int,
                ),
            decreases facet.features@.len() - j,
        {
            let ghost part = feature_views(facet.features@.subrange(0, j + 1));
            proof {
                assert(part.drop_last() =~= feature_views(facet.features@.subrange(0, j as int)));
                assert(part.last() == facet.features@[j as int]@);
            }
            match &facet.features[j] {
                FacetFeaturesItem::Link(link) => {
                    let edit = LinkEdit {
                        start: facet.index.byte_start,
                        end: facet.index.byte_end,
                        uri: link.uri.clone(),
                    };
                    let ghost before = edits@;
                    edits.push(edit);
                    assert(edit_views(edits@) =~= edit_views(before).push(edit@));
                    assert(edit_views(edits@) =~= earlier + feature_edits(
                        part,
                        facet.index.byte_start as int,
                        facet.index.byte_end as int,
                    ));
                },
                FacetFeaturesItem::Tag(_) => {},
            }
            j += 1;
        }
        assert(facet.features@.subrange(0, j as int) =~= facet.features@);
        i += 1;
    }
    assert(facets@.subrange(0, i as int) =~= facets@);
    edits
}

/// Orders the replacements by descending start; those with the same start
/// keep their order.
fn order_latest_first(edits: Vec<LinkEdit>) -> (sorted: Vec<LinkEdit>)
    ensures
        edit_views(sorted@) == latest_first(edit_views(edits@)),
{
    let mut sorted: Vec<LinkEdit> = Vec::new();
    let mut i: usize = 0;
    assert(edit_views(edits@.subrange(0, 0)) =~= Seq::empty());
    assert(edit_views(sorted@) =~= Seq::empty());
    while i < edits.len()
        invariant
            i <= edits@.len(),
            edit_views(sorted@) == latest_first(edit_views(edits@.subrange(0, i as int))),
        decreases edits@.len() - i,
    {
        let edit = LinkEdit {
            start: edits[i].start,
            end: edits[i].end,
            uri: edits[i].uri.clone(),
        };
        let ghost upto = edit_views(edits@.subrange(0, i + 1));
        proof {
            assert(upto.drop_last() =~= edit_views(edits@.subrange(0, i as int)));
            assert(upto.last() == edit@);
        }
        let mut place = sorted.len();
        while place > 0 && sorted[place - 1].start < edit.start
            invariant
                place <= sorted@.len(),
                forall|k: int| place <= k < sorted@.len() ==> (#[trigger] sorted@[k]).start < edit.start,
            decreases place,
        {
            place -= 1;
        }
        let ghost before = sorted@;
        proof {
            assert forall|k: int| place <= k < edit_views(before).len() implies (
            #[trigger] edit_views(before)[k]).start < edit@.start by {
                assert(edit_views(before)[k] == before[k]@);
            }
            if place > 0 {
                assert(edit_views(before)[place - 1] == before[place - 1]@);
            }
            lemma_placed_is_insert(edit_views(before), edit@, place as int);
        }
        sorted.insert(place, edit);
        assert(edit_views(sorted@) =~= edit_views(before).insert(place as int, edit@));
        i += 1;
    }
    assert(edits@.subrange(0, i as int) =~= edits@);
    sorted
}

/// Makes the replacements one after the other.
fn splice_all(text: &str, edits: &Vec<LinkEdit>) -> (result: Option<String>)
    ensures
        text_of(result) == spliced_all(text@, edit_views(edits@)),
{
    let mut current = String::from_str(text);
    let mut i: usize = 0;
    assert(edit_views(edits@).subrange(0, edits@.len() as int) =~= edit_views(edits@));
    while i < edits.len()
        invariant
            i <= edits@.len(),
            spliced_all(current@, edit_views(edits@).subrange(i as int, edits@.len() as int))
                == spliced_all(text@, edit_views(edits@)),
        decreases edits@.len() - i,
    {
        let edit = &edits[i];
        let ghost rest = edit_views(edits@).subrange(i as int, edits@.len() as int);
        proof {
            assert(rest.first() == edit@);
            assert(rest.drop_first() =~= edit_views(edits@).subrange(i + 1, edits@.len() as int));
            encode_utf8_valid_utf8(current@);
        }
        let len = byte_len(current.as_str());
        if edit.start <= edit.end && edit.end <= len && current.as_str().is_char_boundary(
            edit.start,
        ) && current.as_str().is_char_boundary(edit.end) {
            proof {
                vstd::utf8::is_char_boundary_start_end_of_seq(encode_utf8(current@));
            }
            let head = byte_slice(current.as_str(), 0, edit.start);
            let tail = byte_slice(current.as_str(), edit.end, len);
            let next = join3(head, edit.uri.as_str(), tail);
            proof {
                encode_utf8_decode_utf8(head@);
                encode_utf8_decode_utf8(tail@);
                assert(Some(next@) == spliced(current@, edit@));
            }
            current = next;
        } else {
            assert(spliced(current@, edit@) is None);
            return None;
        }
        i += 1;
    }
    Some(current)
}

/// The full text of a Bluesky post record: the links behind its facets
/// written out, and the target of its link card appended where the text
/// does not hold it. `None` where a facet does not lie within the text on
/// character boundaries at the time it is written out.
pub fn bsky_record_get_text(record: &PostRecord) -> (text: Option<String>)
    ensures
        text_of(text) == record_text(*record),
{
    let materialized = match &record.facets {
        Some(facets) => {
            let edits = collect_link_edits(facets);
            let sorted = order_latest_first(edits);
            splice_all(record.text.as_str(), &sorted)
        },
        None => Some(record.text.clone()),
    };
    match materialized {
        Some(text) => {
            match &record.external_uri {
                Some(uri) => {
                    if contains(text.as_str(), uri.as_str()) {
                        Some(text)
                    } else {
                        let mut text = text;
                        text.append("\n\n");
                        text.append(uri.as_str());
                        Some(text)
                    }
                },
                None => Some(text),
            }
        },
        None => None,
    }
}

/// A text where there is one, else the empty text.
pub open spec fn text_or_empty(text: Option<Seq<char>>) -> Seq<char> {
    match text {
        Some(text) => text,
        None => Seq::empty(),
    }
}

/// A Bluesky post is sound when the facets of its record, and of the record
/// it quotes, fit the text they mark.
pub open spec fn post_is_sound(post: FeedViewPost) -> bool {
    &&& record_text(post.record) is Some
    &&& match post.embed {
        Some(PostEmbed::Quote(quote)) => record_text(quote.record) is Some,
        _ => true,
    }
}

/// Decides whether a Bluesky post is sound.
pub fn post_is_well_formed(post: &FeedViewPost) -> (sound: bool)
    ensures
        sound == post_is_sound(*post),
{
    if bsky_record_get_text(&post.record).is_none() {
        return false;
    }
    match &post.embed {
        Some(PostEmbed::Quote(quote)) => bsky_record_get_text(&quote.record).is_some(),
        _ => true,
    }
}

/// A text with the post it quotes behind it: a marker, the quoted author
/// and the quoted text in a paragraph of their own, without white space
/// around the whole.
pub open spec fn with_quote(text: Seq<char>, author: Seq<char>, quoted: Seq<char>) -> Seq<char> {
    trimmed(text + "\n\n💬 "@ + author + ": "@ + quoted)
}

/// The text of a Bluesky post as it goes to Mastodon: the full text of its
/// record, for a repost with the marker and the author before it, with the
/// quoted post behind it, shortened to Mastodon's budget.
pub open spec fn post_text(post: FeedViewPost) -> Seq<char> {
    let own = text_or_empty(record_text(post.record));
    let shared = if post.is_repost {
        shared_text(post.author_handle@, own)
    } else {
        own
    };
    let full = match post.embed {
        Some(PostEmbed::Quote(quote)) => with_quote(
            shared,
            quote.author_handle@,
            text_or_empty(record_text(quote.record)),
        ),
        _ => shared,
    };
    toot_shortened(full, post.author_handle@, post.uri@)
}

/// Writes out the links of a Bluesky post, includes the post it quotes and
/// shortens the whole for Mastodon.
pub fn bsky_post_unshorten_decode(bsky_post: &FeedViewPost) -> (text: String)
    requires
        post_is_sound(*bsky_post),
    ensures
        text@ == post_text(*bsky_post),
{
    let own = bsky_record_get_text(&bsky_post.record).unwrap();
    let shared = if bsky_post.is_repost {
        share_text(bsky_post.author_handle.as_str(), own.as_str())
    } else {
        own
    };
    let full = match &bsky_post.embed {
        Some(PostEmbed::Quote(quote)) => {
            let quoted = bsky_record_get_text(&quote.record).unwrap();
            let mut full = shared;
            full.append("\n\n💬 ");
            full.append(quote.author_handle.as_str());
            full.append(": ");
            full.append(quoted.as_str());
            trim(full.as_str())
        },
        _ => shared,
    };
    toot_shorten(full.as_str(), bsky_post)
}

/// The address that stands for a toot: its own, or for a boost that of the
/// boosted status.
pub open spec fn toot_link(toot: Status) -> Option<Seq<char>> {
    match toot.reblog {
        None => text_of(toot.url),
        Some(reblog) => text_of(reblog.url),
    }
}

/// Whether a toot and a Bluesky post are the same message: both are replies
/// or neither is, and their texts agree in the common form, the toot's as
/// it stands or shortened for Bluesky.
pub open spec fn posts_equal(toot: Status, post: FeedViewPost) -> bool {
    let toot_side = unified(toot_text(toot));
    let bsky_side = unified(post_text(post));
    &&& (toot.in_reply_to_id is Some) == post.is_reply
    &&& (toot_side == bsky_side || unified(bsky_shortened(toot_side, toot_link(toot)))
        == bsky_side)
}

/// Decides whether a Mastodon toot and a Bluesky post are the same message.
/// The text of the post is read only where both are replies or neither is,
/// so only there the post has to be sound.
pub fn toot_and_post_are_equal(toot: &Status, bsky_post: &FeedViewPost) -> (equal: bool)
    requires
        (toot.in_reply_to_id is Some) == bsky_post.is_reply ==> post_is_sound(*bsky_post),
    ensures
        equal == posts_equal(*toot, *bsky_post),
        (toot.in_reply_to_id is Some) != bsky_post.is_reply ==> !equal,
{
    if toot.in_reply_to_id.is_some() != bsky_post.is_reply {
        return false;
    }
    let toot_text = unify_post_content(mastodon_toot_get_text(toot));
    let bsky_text = unify_post_content(bsky_post_unshorten_decode(bsky_post));
    if toot_text == bsky_text {
        return true;
    }
    let shortened_toot = unify_post_content(
        match &toot.reblog {
            None => bsky_post_shorten(toot_text.as_str(), &toot.url),
            Some(reblog) => bsky_post_shorten(toot_text.as_str(), &reblog.url),
        },
    );
    shortened_toot == bsky_text
}

/// The medium that an embedded image becomes. An empty alternative text is
/// none.
pub open spec fn image_medium(image: EmbedImage) -> NewMediaView {
    NewMediaView {
        attachment_url: image.fullsize@,
        alt_text: if image.alt@.len() == 0 {
            None
        } else {
            Some(image.alt@)
        },
    }
}

/// The media that a list of embedded images becomes.
pub open spec fn image_media(images: Seq<EmbedImage>) -> Seq<NewMediaView> {
    images.map_values(|image: EmbedImage| image_medium(image))
}

/// The media among what a quoted post embeds, in their order.
pub open spec fn quote_media(embeds: Seq<QuoteEmbed>) -> Seq<NewMediaView>
    decreases embeds.len(),
{
    if embeds.len() == 0 {
        seq![]
    } else {
        quote_media(embeds.drop_last()) + match embeds.last() {
            QuoteEmbed::Images(images) => image_media(images@),
            _ => seq![],
        }
    }
}

/// The media of a Bluesky post: its own images, or those of the post it
/// quotes.
pub open spec fn post_media(post: FeedViewPost) -> Seq<NewMediaView> {
    match post.embed {
        Some(PostEmbed::Images(images)) => image_media(images@),
        Some(PostEmbed::Quote(quote)) => quote_media(quote.embeds@),
        _ => seq![],
    }
}

/// Appends the media for `images` to `links`.
fn push_images(links: &mut Vec<NewMedia>, images: &Vec<EmbedImage>)
    ensures
        media_views(final(links)@) == media_views(old(links)@) + image_media(images@),
{
    let ghost given = media_views(links@);
    let mut i: usize = 0;
    assert(media_views(links@) =~= given + image_media(images@.subrange(0, 0)));
    while i < images.len()
        invariant
            i <= images@.len(),
            media_views(links@) == given + image_media(images@.subrange(0, i as int)),
        decreases images@.len() - i,
    {
        let image = &images[i];
        let medium = NewMedia {
            attachment_url: image.fullsize.clone(),
            alt_text: if image.alt.as_str().is_empty() {
                None
            } else {
                Some(image.alt.clone())
            },
        };
        assert(medium@ == image_medium(images@[i as int]));
        let ghost before = links@;
        links.push(medium);
        proof {
            assert(media_views(links@) =~= media_views(before).push(medium@));
            assert(image_media(images@.subrange(0, i + 1)) =~= image_media(
                images@.subrange(0, i as int),
            ).push(image_medium(images@[i as int])));
        }
        i += 1;
    }
    assert(images@.subrange(0, i as int) =~= images@);
}

/// The direct links to the images of a Bluesky post, or of the post it
/// quotes, for download.
pub fn bsky_get_attachments(bsky_post: &FeedViewPost) -> (links: Vec<NewMedia>)
    ensures
        media_views(links@) == post_media(*bsky_post),
{
    let mut links: Vec<NewMedia> = Vec::new();
    assert(media_views(links@) =~= Seq::empty());
    match &bsky_post.embed {
        Some(PostEmbed::Images(images)) => {
            push_images(&mut links, images);
            assert(media_views(links@) =~= image_media(images@));
        },
        Some(PostEmbed::Quote(quote)) => {
            let mut i: usize = 0;
            assert(quote.embeds@.subrange(0, 0) =~= Seq::empty());
            while i < quote.embeds.len()
                invariant
                    i <= quote.embeds@.len(),
                    media_views(links@) == quote_media(quote.embeds@.subrange(0, i as int)),
                decreases quote.embeds@.len() - i,
            {
                let ghost upto = quote.embeds@.subrange(0, i + 1);
                proof {
                    assert(upto.drop_last() =~= quote.embeds@.subrange(0, i as int));
                    assert(upto.last() == quote.embeds@[i as int]);
                }
                match &quote.embeds[i] {
                    QuoteEmbed::Images(images) => {
                        push_images(&mut links, images);
                    },
                    _ => {
                        assert(media_views(links@) =~= media_views(links@) + Seq::<
                            NewMediaView,
                        >::empty());
                    },
                }
                i += 1;
            }
            assert(quote.embeds@.subrange(0, i as int) =~= quote.embeds@);
        },
        _ => {},
    }
    links
}

/// The first video among what a quoted post embeds.
pub open spec fn first_video(embeds: Seq<QuoteEmbed>) -> Option<Seq<char>>
    decreases embeds.len(),
{
    if embeds.len() == 0 {
        None
    } else {
        match embeds.first() {
            QuoteEmbed::Video(playlist) => Some(playlist@),
            _ => first_video(embeds.drop_first()),
        }
    }
}

/// The video stream of a Bluesky post: its own, or the first of the post
/// it quotes.
pub open spec fn post_video(post: FeedViewPost) -> Option<Seq<char>> {
    match post.embed {
        Some(PostEmbed::Video(playlist)) => Some(playlist@),
        Some(PostEmbed::Quote(quote)) => first_video(quote.embeds@),
        _ => None,
    }
}

/// The address of the video stream of a Bluesky post, if it has one.
pub fn bsky_get_video_stream(bsky_post: &FeedViewPost) -> (stream: Option<String>)
    ensures
        text_of(stream) == post_video(*bsky_post),
{
    match &bsky_post.embed {
        Some(PostEmbed::Video(playlist)) => Some(playlist.clone()),
        Some(PostEmbed::Quote(quote)) => {
            let mut i: usize = 0;
            assert(quote.embeds@.subrange(0, quote.embeds@.len() as int) =~= quote.embeds@);
            while i < quote.embeds.len()
                invariant
                    i <= quote.embeds@.len(),
                    first_video(quote.embeds@.subrange(i as int, quote.embeds@.len() as int))
                        == first_video(quote.embeds@),
                    post_video(*bsky_post) == first_video(quote.embeds@),
                decreases quote.embeds@.len() - i,
            {
                let ghost rest = quote.embeds@.subrange(i as int, quote.embeds@.len() as int);
                proof {
                    assert(rest.first() == quote.embeds@[i as int]);
                    assert(rest.drop_first() =~= quote.embeds@.subrange(
                        i + 1,
                        quote.embeds@.len() as int,
                    ));
                }
                match &quote.embeds[i] {
                    QuoteEmbed::Video(playlist) => {
                        return Some(playlist.clone());
                    },
                    _ => {},
                }
                i += 1;
            }
            None
        },
        _ => None,
    }
}

/// The medium that an attachment of a toot becomes: its description is cut
/// to the length that Bluesky takes.
pub open spec fn attachment_medium(attachment: MediaAttachment) -> NewMediaView {
    NewMediaView {
        attachment_url: attachment.url@,
        alt_text: match attachment.description {
            Some(description) => Some(truncated(description@, MAX_ALT_TEXT_CHARS)),
            None => None,
        },
    }
}

/// The media of a toot: its own attachments, or those of the boosted status
/// where it has none itself.
pub open spec fn toot_media(toot: Status) -> Seq<NewMediaView> {
    let attachments = if toot.media_attachments@.len() == 0 && toot.reblog is Some {
        toot.reblog->0.media_attachments@
    } else {
        toot.media_attachments@
    };
    attachments.map_values(|a: MediaAttachment| attachment_medium(a))
}

/// The direct links to the attachments of a toot for download.
pub fn toot_get_attachments(toot: &Status) -> (links: Vec<NewMedia>)
    ensures
        media_views(links@) == toot_media(*toot),
{
    let mut links: Vec<NewMedia> = Vec::new();
    let attachments = if toot.media_attachments.len() == 0 {
        match &toot.reblog {
            Some(boost) => &boost.media_attachments,
            None => &toot.media_attachments,
        }
    } else {
        &toot.media_attachments
    };
    let mut i: usize = 0;
    assert(media_views(links@) =~= attachments@.subrange(0, 0).map_values(
        |a: MediaAttachment| attachment_medium(a),
    ));
    while i < attachments.len()
        invariant
            i <= attachments@.len(),
            media_views(links@) == attachments@.subrange(0, i as int).map_values(
                |a: MediaAttachment| attachment_medium(a),
            ),
        decreases attachments@.len() - i,
    {
        let attachment = &attachments[i];
        let description = match &attachment.description {
            Some(description) => Some(description.clone()),
            None => None,
        };
        let medium = NewMedia {
            attachment_url: attachment.url.clone(),
            alt_text: truncate_option_string(description, MAX_ALT_TEXT_CHARS),
        };
        assert(medium@ == attachment_medium(attachments@[i as int]));
        let ghost before = links@;
        links.push(medium);
        proof {
            assert(media_views(links@) =~= media_views(before).push(medium@));
            assert(attachments@.subrange(0, i + 1).map_values(
                |a: MediaAttachment| attachment_medium(a),
            ) =~= attachments@.subrange(0, i as int).map_values(
                |a: MediaAttachment| attachment_medium(a),
            ).push(attachment_medium(attachments@[i as int])));
        }
        i += 1;
    }
    assert(attachments@.subrange(0, i as int) =~= attachments@);
    links
}

/// Whether a hashtag filter is set and the text does not hold the hashtag.
pub open spec fn misses_hashtag(text: Seq<char>, hashtag: Option<String>) -> bool {
    hashtag is Some && hashtag->0@.len() > 0 && !occurs_in(hashtag->0@, text)
}

/// Decides whether a hashtag filter is set and the text does not hold the
/// hashtag.
fn lacks_hashtag(text: &str, hashtag: &Option<String>) -> (lacks: bool)
    ensures
        lacks == misses_hashtag(text@, *hashtag),
{
    match hashtag {
        Some(hashtag) => !hashtag.as_str().is_empty() && !contains(text, hashtag.as_str()),
        None => false,
    }
}

/// Whether the planner passes over a Bluesky post: it is a reply, or a
/// repost while reposts are not synchronised.
pub open spec fn post_is_skipped(post: FeedViewPost, options: SyncOptions) -> bool {
    post.is_reply || (!options.sync_reposts && post.is_repost)
}

/// Whether a Bluesky post is on Mastodon already: a toot that is no reply
/// equals it.
pub open spec fn post_is_synced(post: FeedViewPost, toots: Seq<Status>) -> bool {
    exists|j: int|
        0 <= j < toots.len() && (#[trigger] toots[j]).in_reply_to_id is None && posts_equal(
            toots[j],
            post,
        )
}

/// The Bluesky posts, by their places in the newest-first timeline from
/// `from` on, that have to go to Mastodon. The walk passes over replies and
/// unwanted reposts, ends at the first post that Mastodon has already, and
/// leaves out the posts that lack the hashtag asked for.
pub open spec fn new_toot_indices(
    posts: Seq<FeedViewPost>,
    toots: Seq<Status>,
    options: SyncOptions,
    from: int,
) -> Seq<int>
    decreases posts.len() - from,
{
    if from < 0 || from >= posts.len() {
        seq![]
    } else if post_is_skipped(posts[from], options) {
        new_toot_indices(posts, toots, options, from + 1)
    } else if post_is_synced(posts[from], toots) {
        seq![]
    } else if misses_hashtag(post_text(posts[from]), options.sync_hashtag_bluesky) {
        new_toot_indices(posts, toots, options, from + 1)
    } else {
        seq![from] + new_toot_indices(posts, toots, options, from + 1)
    }
}

/// The new toot that a Bluesky post becomes.
pub open spec fn toot_for(post: FeedViewPost) -> NewStatusView {
    NewStatusView {
        text: post_text(post),
        attachments: post_media(post),
        video_stream: post_video(post),
        original_post_url: post.uri@,
        replies: Seq::empty(),
        in_reply_to_id: None,
    }
}

/// The new toots for the posts at the given places.
pub open spec fn toots_for(posts: Seq<FeedViewPost>, indices: Seq<int>) -> Seq<NewStatusView> {
    indices.map_values(|i: int| toot_for(posts[i]))
}

/// The new toots, oldest first.
pub open spec fn planned_toots(posts: Seq<FeedViewPost>, toots: Seq<Status>, options: SyncOptions) -> Seq<
    NewStatusView,
> {
    toots_for(posts, new_toot_indices(posts, toots, options, 0).reverse())
}

/// Whether the planner passes over a toot: it is a reply, or a boost while
/// boosts are not synchronised.
pub open spec fn toot_is_skipped(toot: Status, options: SyncOptions) -> bool {
    toot.in_reply_to_id is Some || (toot.reblog is Some && !options.sync_reblogs)
}

/// The text of a toot as it goes to Bluesky.
pub open spec fn toot_for_bluesky(toot: Status) -> Seq<char> {
    bsky_shortened(toot_text(toot), toot_link(toot))
}

/// Whether a text addresses another user directly: it starts with `@`.
pub open spec fn is_direct(text: Seq<char>) -> bool {
    text.len() > 0 && text[0] == '@'
}

/// Whether a toot is on Bluesky already: a post equals it.
pub open spec fn toot_is_synced(toot: Status, posts: Seq<FeedViewPost>) -> bool {
    exists|j: int| 0 <= j < posts.len() && posts_equal(toot, #[trigger] posts[j])
}

/// The toots, by their places in the newest-first timeline from `from` on,
/// that have to go to Bluesky. The walk passes over replies, unwanted
/// boosts and direct toots, ends at the first toot that Bluesky has
/// already, and leaves out the toots that lack the hashtag asked for.
pub open spec fn new_post_indices(
    toots: Seq<Status>,
    posts: Seq<FeedViewPost>,
    options: SyncOptions,
    from: int,
) -> Seq<int>
    decreases toots.len() - from,
{
    if from < 0 || from >= toots.len() {
        seq![]
    } else if toot_is_skipped(toots[from], options) || is_direct(toot_for_bluesky(toots[from])) {
        new_post_indices(toots, posts, options, from + 1)
    } else if toot_is_synced(toots[from], posts) {
        seq![]
    } else if misses_hashtag(toot_text(toots[from]), options.sync_hashtag_mastodon) {
        new_post_indices(toots, posts, options, from + 1)
    } else {
        seq![from] + new_post_indices(toots, posts, options, from + 1)
    }
}

/// The new Bluesky post that a toot becomes.
pub open spec fn post_for(toot: Status) -> NewStatusView {
    NewStatusView {
        text: toot_for_bluesky(toot),
        attachments: toot_media(toot),
        video_stream: None,
        original_post_url: text_or_empty(toot_link(toot)),
        replies: Seq::empty(),
        in_reply_to_id: None,
    }
}

/// The new Bluesky posts for the toots at the given places.
pub open spec fn posts_for(toots: Seq<Status>, indices: Seq<int>) -> Seq<NewStatusView> {
    indices.map_values(|i: int| post_for(toots[i]))
}

/// The new Bluesky posts, oldest first.
pub open spec fn planned_posts(toots: Seq<Status>, posts: Seq<FeedViewPost>, options: SyncOptions) -> Seq<
    NewStatusView,
> {
    posts_for(toots, new_post_indices(toots, posts, options, 0).reverse())
}

/// Decides whether Mastodon has a Bluesky post already.
fn post_on_mastodon(post: &FeedViewPost, toots: &[Status]) -> (synced: bool)
    requires
        post_is_sound(*post),
    ensures
        synced == post_is_synced(*post, toots@),
{
    let mut j: usize = 0;
    while j < toots.len()
        invariant
            j <= toots@.len(),
            post_is_sound(*post),
            forall|k: int|
                0 <= k < j ==> !((#[trigger] toots@[k]).in_reply_to_id is None && posts_equal(
                    toots@[k],
                    *post,
                )),
        decreases toots@.len() - j,
    {
        if toots[j].in_reply_to_id.is_none() && toot_and_post_are_equal(&toots[j], post) {
            return true;
        }
        j += 1;
    }
    false
}

/// Decides whether Bluesky has a toot already.
fn toot_on_bluesky(toot: &Status, posts: &[FeedViewPost]) -> (synced: bool)
    requires
        toot.in_reply_to_id is None,
        forall|k: int|
            0 <= k < posts@.len() && !(#[trigger] posts@[k]).is_reply ==> post_is_sound(posts@[k]),
    ensures
        synced == toot_is_synced(*toot, posts@),
{
    let mut j: usize = 0;
    while j < posts.len()
        invariant
            j <= posts@.len(),
            toot.in_reply_to_id is None,
            forall|k: int|
                0 <= k < posts@.len() && !(#[trigger] posts@[k]).is_reply ==> post_is_sound(
                    posts@[k],
                ),
            forall|k: int| 0 <= k < j ==> !posts_equal(*toot, #[trigger] posts@[k]),
        decreases posts@.len() - j,
    {
        if toot_and_post_are_equal(toot, &posts[j]) {
            return true;
        }
        j += 1;
    }
    false
}

/// The new toots for the Bluesky posts that Mastodon lacks, newest first.
fn plan_toots(bsky_statuses: &[FeedViewPost], mastodon_statuses: &[Status], options: &SyncOptions) -> (pending:
    Vec<NewStatus>)
    requires
        forall|k: int|
            0 <= k < bsky_statuses@.len() && !(#[trigger] bsky_statuses@[k]).is_reply
                ==> post_is_sound(bsky_statuses@[k]),
    ensures
        status_views(pending@) == toots_for(
            bsky_statuses@,
            new_toot_indices(bsky_statuses@, mastodon_statuses@, *options, 0),
        ),
{
    let mut pending: Vec<NewStatus> = Vec::new();
    let ghost mut done: Seq<int> = Seq::empty();
    let mut i: usize = 0;
    let mut stopped = false;
    assert(status_views(pending@) =~= toots_for(bsky_statuses@, done));
    assert(done + new_toot_indices(bsky_statuses@, mastodon_statuses@, *options, 0)
        =~= new_toot_indices(bsky_statuses@, mastodon_statuses@, *options, 0));
    while i < bsky_statuses.len() && !stopped
        invariant
            i <= bsky_statuses@.len(),
            forall|k: int|
                0 <= k < bsky_statuses@.len() && !(#[trigger] bsky_statuses@[k]).is_reply
                    ==> post_is_sound(bsky_statuses@[k]),
            status_views(pending@) == toots_for(bsky_statuses@, done),
            done + new_toot_indices(bsky_statuses@, mastodon_statuses@, *options, i as int)
                == new_toot_indices(bsky_statuses@, mastodon_statuses@, *options, 0),
            stopped ==> new_toot_indices(bsky_statuses@, mastodon_statuses@, *options, i as int)
                == Seq::<int>::empty(),
        decreases bsky_statuses@.len() - i + (if stopped { 0int } else { 1int }),
    {
        let post = &bsky_statuses[i];
        let ghost rest = new_toot_indices(bsky_statuses@, mastodon_statuses@, *options, i + 1);
        if post.is_reply || (!options.sync_reposts && post.is_repost) {
            i += 1;
        } else if post_on_mastodon(post, mastodon_statuses) {
            stopped = true;
        } else {
            let decoded_post = bsky_post_unshorten_decode(post);
            if !lacks_hashtag(decoded_post.as_str(), &options.sync_hashtag_bluesky) {
                let status = NewStatus {
                    text: decoded_post,
                    attachments: bsky_get_attachments(post),
                    original_post_url: post.uri.clone(),
                    video_stream: bsky_get_video_stream(post),
                    replies: Vec::new(),
                    in_reply_to_id: None,
                };
                assert(status@ == toot_for(bsky_statuses@[i as int]));
                let ghost before = pending@;
                pending.push(status);
                proof {
                    assert(status_views(pending@) =~= status_views(before).push(status@));
                    assert(toots_for(bsky_statuses@, done.push(i as int)) =~= toots_for(
                        bsky_statuses@,
                        done,
                    ).push(toot_for(bsky_statuses@[i as int])));
                    assert(done.push(i as int) + rest =~= done + (seq![i as int] + rest));
                    done = done.push(i as int);
                }
            }
            i += 1;
        }
    }
    assert(done + Seq::<int>::empty() =~= done);
    pending
}

/// The new Bluesky posts for the toots that Bluesky lacks, newest first.
fn plan_posts(mastodon_statuses: &[Status], bsky_statuses: &[FeedViewPost], options: &SyncOptions) -> (pending:
    Vec<NewStatus>)
    requires
        forall|k: int|
            0 <= k < bsky_statuses@.len() && !(#[trigger] bsky_statuses@[k]).is_reply
                ==> post_is_sound(bsky_statuses@[k]),
    ensures
        status_views(pending@) == posts_for(
            mastodon_statuses@,
            new_post_indices(mastodon_statuses@, bsky_statuses@, *options, 0),
        ),
{
    let mut pending: Vec<NewStatus> = Vec::new();
    let ghost mut done: Seq<int> = Seq::empty();
    let mut i: usize = 0;
    let mut stopped = false;
    assert(status_views(pending@) =~= posts_for(mastodon_statuses@, done));
    assert(done + new_post_indices(mastodon_statuses@, bsky_statuses@, *options, 0)
        =~= new_post_indices(mastodon_statuses@, bsky_statuses@, *options, 0));
    while i < mastodon_statuses.len() && !stopped
        invariant
            i <= mastodon_statuses@.len(),
            forall|k: int|
                0 <= k < bsky_statuses@.len() && !(#[trigger] bsky_statuses@[k]).is_reply
                    ==> post_is_sound(bsky_statuses@[k]),
            status_views(pending@) == posts_for(mastodon_statuses@, done),
            done + new_post_indices(mastodon_statuses@, bsky_statuses@, *options, i as int)
                == new_post_indices(mastodon_statuses@, bsky_statuses@, *options, 0),
            stopped ==> new_post_indices(mastodon_statuses@, bsky_statuses@, *options, i as int)
                == Seq::<int>::empty(),
        decreases mastodon_statuses@.len() - i + (if stopped { 0int } else { 1int }),
    {
        let toot = &mastodon_statuses[i];
        let ghost rest = new_post_indices(mastodon_statuses@, bsky_statuses@, *options, i + 1);
        if toot.in_reply_to_id.is_some() || (toot.reblog.is_some() && !options.sync_reblogs) {
            i += 1;
        } else {
            let fulltext = mastodon_toot_get_text(toot);
            let post = match &toot.reblog {
                None => bsky_post_shorten(fulltext.as_str(), &toot.url),
                Some(reblog) => bsky_post_shorten(fulltext.as_str(), &reblog.url),
            };
            assert(post@ == toot_for_bluesky(*toot));
            if !post.as_str().is_empty() && post.as_str().get_char(0) == '@' {
                i += 1;
            } else if toot_on_bluesky(toot, bsky_statuses) {
                stopped = true;
            } else {
                if !lacks_hashtag(fulltext.as_str(), &options.sync_hashtag_mastodon) {
                    let original_post_url = match &toot.reblog {
                        None => match &toot.url {
                            Some(url) => url.clone(),
                            None => String::new(),
                        },
                        Some(reblog) => match &reblog.url {
                            Some(url) => url.clone(),
                            None => String::new(),
                        },
                    };
                    let status = NewStatus {
                        text: post,
                        attachments: toot_get_attachments(toot),
                        original_post_url,
                        video_stream: None,
                        replies: Vec::new(),
                        in_reply_to_id: None,
                    };
                    assert(status@ == post_for(mastodon_statuses@[i as int]));
                    let ghost before = pending@;
                    pending.push(status);
                    proof {
                        assert(status_views(pending@) =~= status_views(before).push(status@));
                        assert(posts_for(mastodon_statuses@, done.push(i as int)) =~= posts_for(
                            mastodon_statuses@,
                            done,
                        ).push(post_for(mastodon_statuses@[i as int])));
                        assert(done.push(i as int) + rest =~= done + (seq![i as int] + rest));
                        done = done.push(i as int);
                    }
                }
                i += 1;
            }
        }
    }
    assert(done + Seq::<int>::empty() =~= done);
    pending
}

/// Plans the synchronisation of two timelines, each given newest first.
///
/// A Bluesky post becomes a new toot, and a toot a new Bluesky post, where
/// the other platform does not hold it yet. Each timeline is walked from
/// its newest entry. Replies are passed over, and so are reposts and boosts
/// where the options leave them out, and toots that start with `@`. The
/// walk of a timeline ends at the first entry that the other platform holds
/// already: what is older counts as synchronised. Entries that lack the
/// hashtag asked for are left out. Both results list the oldest entry
/// first. The text of a reply is never read, so only the posts that are no
/// replies have to be sound.
pub fn determine_posts(
    mastodon_statuses: &[Status],
    bsky_statuses: &[FeedViewPost],
    options: &SyncOptions,
) -> (updates: StatusUpdates)
    requires
        forall|k: int|
            0 <= k < bsky_statuses@.len() && !(#[trigger] bsky_statuses@[k]).is_reply
                ==> post_is_sound(bsky_statuses@[k]),
    ensures
        status_views(updates.toots@) == planned_toots(
            bsky_statuses@,
            mastodon_statuses@,
            *options,
        ),
        status_views(updates.bsky_posts@) == planned_posts(
            mastodon_statuses@,
            bsky_statuses@,
            *options,
        ),
{
    let toots = plan_toots(bsky_statuses, mastodon_statuses, options);
    let bsky_posts = plan_posts(mastodon_statuses, bsky_statuses, options);
    let ghost toot_places = new_toot_indices(bsky_statuses@, mastodon_statuses@, *options, 0);
    let ghost post_places = new_post_indices(mastodon_statuses@, bsky_statuses@, *options, 0);
    let ghost newest_toots = toots@;
    let ghost newest_posts = bsky_posts@;
    let mut updates = StatusUpdates { bsky_posts, toots };
    updates.reverse_order();
    proof {
        assert(status_views(newest_toots.reverse()) =~= status_views(newest_toots).reverse());
        assert(toots_for(bsky_statuses@, toot_places.reverse()) =~= toots_for(
            bsky_statuses@,
            toot_places,
        ).reverse());
        assert(status_views(newest_posts.reverse()) =~= status_views(newest_posts).reverse());
        assert(posts_for(mastodon_statuses@, post_places.reverse()) =~= posts_for(
            mastodon_statuses@,
            post_places,
        ).reverse());
    }
    updates
}

/// Every place that the walk of the Bluesky timeline gives lies before a
/// post that is not passed over and that Mastodon has already.
pub proof fn lemma_toots_end_at_horizon(
    posts: Seq<FeedViewPost>,
    toots: Seq<Status>,
    options: SyncOptions,
    from: int,
    horizon: int,
)
    requires
        0 <= from <= horizon < posts.len(),
        !post_is_skipped(posts[horizon], options),
        post_is_synced(posts[horizon], toots),
    ensures
        forall|m: int|
            0 <= m < new_toot_indices(posts, toots, options, from).len() ==> from
                <= #[trigger] new_toot_indices(posts, toots, options, from)[m] < horizon,
    decreases horizon - from,
{
    let found = new_toot_indices(posts, toots, options, from);
    if from < horizon {
        let rest = new_toot_indices(posts, toots, options, from + 1);
        lemma_toots_end_at_horizon(posts, toots, options, from + 1, horizon);
        assert forall|m: int| 0 <= m < found.len() implies from <= #[trigger] found[m]
            < horizon by {
            if found == rest {
                assert(from + 1 <= rest[m]);
            } else if found.len() > 0 {
                assert(found == seq![from] + rest);
                if m > 0 {
                    assert(found[m] == rest[m - 1]);
                }
            }
        }
    }
}

/// Every place that the walk of the Mastodon timeline gives lies before a
/// toot that is not passed over and that Bluesky has already.
pub proof fn lemma_posts_end_at_horizon(
    toots: Seq<Status>,
    posts: Seq<FeedViewPost>,
    options: SyncOptions,
    from: int,
    horizon: int,
)
    requires
        0 <= from <= horizon < toots.len(),
        !toot_is_skipped(toots[horizon], options),
        !is_direct(toot_for_bluesky(toots[horizon])),
        toot_is_synced(toots[horizon], posts),
    ensures
        forall|m: int|
            0 <= m < new_post_indices(toots, posts, options, from).len() ==> from
                <= #[trigger] new_post_indices(toots, posts, options, from)[m] < horizon,
    decreases horizon - from,
{
    let found = new_post_indices(toots, posts, options, from);
    if from < horizon {
        let rest = new_post_indices(toots, posts, options, from + 1);
        lemma_posts_end_at_horizon(toots, posts, options, from + 1, horizon);
        assert forall|m: int| 0 <= m < found.len() implies from <= #[trigger] found[m]
            < horizon by {
            if found == rest {
                assert(from + 1 <= rest[m]);
            } else if found.len() > 0 {
                assert(found == seq![from] + rest);
                if m > 0 {
                    assert(found[m] == rest[m - 1]);
                }
            }
        }
    }
}

/// The planner never proposes for Mastodon a Bluesky post at or behind the
/// place of a post that it does not pass over and that equals a toot:
/// every new toot stems from a newer post.
pub proof fn law_no_toot_beyond_horizon(
    posts: Seq<FeedViewPost>,
    toots: Seq<Status>,
    options: SyncOptions,
    horizon: int,
    twin: int,
)
    requires
        0 <= horizon < posts.len(),
        0 <= twin < toots.len(),
        posts_equal(toots[twin], posts[horizon]),
        !post_is_skipped(posts[horizon], options),
    ensures
        forall|m: int|
            0 <= m < new_toot_indices(posts, toots, options, 0).len() ==> 0
                <= #[trigger] new_toot_indices(posts, toots, options, 0)[m] < horizon,
        planned_toots(posts, toots, options).len() == new_toot_indices(
            posts,
            toots,
            options,
            0,
        ).len(),
{
    assert(toots[twin].in_reply_to_id is None);
    lemma_toots_end_at_horizon(posts, toots, options, 0, horizon);
}

/// The planner never proposes for Bluesky a toot at or behind the place of
/// a toot that it does not pass over and that equals a Bluesky post: every
/// new Bluesky post stems from a newer toot.
pub proof fn law_no_post_beyond_horizon(
    toots: Seq<Status>,
    posts: Seq<FeedViewPost>,
    options: SyncOptions,
    horizon: int,
    twin: int,
)
    requires
        0 <= horizon < toots.len(),
        0 <= twin < posts.len(),
        posts_equal(toots[horizon], posts[twin]),
        !toot_is_skipped(toots[horizon], options),
        !is_direct(toot_for_bluesky(toots[horizon])),
    ensures
        forall|m: int|
            0 <= m < new_post_indices(toots, posts, options, 0).len() ==> 0
                <= #[trigger] new_post_indices(toots, posts, options, 0)[m] < horizon,
        planned_posts(toots, posts, options).len() == new_post_indices(
            toots,
            posts,
            options,
            0,
        ).len(),
{
    lemma_posts_end_at_horizon(toots, posts, options, 0, horizon);
}

/// The places that the walk of the Bluesky timeline gives rise from `from`
/// on: a newer post comes before an older one.
pub proof fn lemma_toot_places_rise(
    posts: Seq<FeedViewPost>,
    toots: Seq<Status>,
    options: SyncOptions,
    from: int,
)
    requires
        0 <= from,
    ensures
        forall|m: int|
            0 <= m < new_toot_indices(posts, toots, options, from).len() ==> from
                <= #[trigger] new_toot_indices(posts, toots, options, from)[m] < posts.len(),
        forall|m: int, n: int|
            0 <= m < n < new_toot_indices(posts, toots, options, from).len()
                ==> #[trigger] new_toot_indices(posts, toots, options, from)[m]
                < #[trigger] new_toot_indices(posts, toots, options, from)[n],
    decreases posts.len() - from,
{
    let found = new_toot_indices(posts, toots, options, from);
    if from < posts.len() {
        let rest = new_toot_indices(posts, toots, options, from + 1);
        lemma_toot_places_rise(posts, toots, options, from + 1);
        if found != rest && found.len() > 0 {
            assert(found == seq![from] + rest);
            assert forall|m: int| 0 <= m < found.len() implies from <= #[trigger] found[m]
                < posts.len() by {
                if m > 0 {
                    assert(found[m] == rest[m - 1]);
                }
            }
            assert forall|m: int, n: int| 0 <= m < n < found.len() implies #[trigger] found[m]
                < #[trigger] found[n] by {
                assert(found[n] == rest[n - 1]);
                if m > 0 {
                    assert(found[m] == rest[m - 1]);
                }
            }
        }
    }
}

/// The places that the walk of the Mastodon timeline gives rise from `from`
/// on: a newer toot comes before an older one.
pub proof fn lemma_post_places_rise(
    toots: Seq<Status>,
    posts: Seq<FeedViewPost>,
    options: SyncOptions,
    from: int,
)
    requires
        0 <= from,
    ensures
        forall|m: int|
            0 <= m < new_post_indices(toots, posts, options, from).len() ==> from
                <= #[trigger] new_post_indices(toots, posts, options, from)[m] < toots.len(),
        forall|m: int, n: int|
            0 <= m < n < new_post_indices(toots, posts, options, from).len()
                ==> #[trigger] new_post_indices(toots, posts, options, from)[m]
                < #[trigger] new_post_indices(toots, posts, options, from)[n],
    decreases toots.len() - from,
{
    let found = new_post_indices(toots, posts, options, from);
    if from < toots.len() {
        let rest = new_post_indices(toots, posts, options, from + 1);
        lemma_post_places_rise(toots, posts, options, from + 1);
        if found != rest && found.len() > 0 {
            assert(found == seq![from] + rest);
            assert forall|m: int| 0 <= m < found.len() implies from <= #[trigger] found[m]
                < toots.len() by {
                if m > 0 {
                    assert(found[m] == rest[m - 1]);
                }
            }
            assert forall|m: int, n: int| 0 <= m < n < found.len() implies #[trigger] found[m]
                < #[trigger] found[n] by {
                assert(found[n] == rest[n - 1]);
                if m > 0 {
                    assert(found[m] == rest[m - 1]);
                }
            }
        }
    }
}

/// Both plans list the oldest entry first: each new status stems from an
/// entry that stands behind that of the next in its newest-first timeline,
/// and no entry is planned twice.
pub proof fn law_plans_are_oldest_first(
    toots: Seq<Status>,
    posts: Seq<FeedViewPost>,
    options: SyncOptions,
)
    ensures
        forall|m: int, n: int|
            0 <= m < n < new_toot_indices(posts, toots, options, 0).len()
                ==> #[trigger] new_toot_indices(posts, toots, options, 0).reverse()[m]
                > #[trigger] new_toot_indices(posts, toots, options, 0).reverse()[n],
        forall|m: int, n: int|
            0 <= m < n < new_post_indices(toots, posts, options, 0).len()
                ==> #[trigger] new_post_indices(toots, posts, options, 0).reverse()[m]
                > #[trigger] new_post_indices(toots, posts, options, 0).reverse()[n],
{
    lemma_toot_places_rise(posts, toots, options, 0);
    lemma_post_places_rise(toots, posts, options, 0);
    let toot_places = new_toot_indices(posts, toots, options, 0);
    let post_places = new_post_indices(toots, posts, options, 0);
    assert forall|m: int, n: int| 0 <= m < n < toot_places.len() implies #[trigger] toot_places.reverse()[m]
        > #[trigger] toot_places.reverse()[n] by {
        assert(toot_places[toot_places.len() - 1 - n] < toot_places[toot_places.len() - 1 - m]);
    }
    assert forall|m: int, n: int| 0 <= m < n < post_places.len() implies #[trigger] post_places.reverse()[m]
        > #[trigger] post_places.reverse()[n] by {
        assert(post_places[post_places.len() - 1 - n] < post_places[post_places.len() - 1 - m]);
    }
}

/// A toot and a Bluesky post of which exactly one is a reply are never
/// equal.
pub proof fn law_reply_gate(toot: Status, post: FeedViewPost)
    requires
        (toot.in_reply_to_id is Some) != post.is_reply,
    ensures
        !posts_equal(toot, post),
{
}

/// The statuses whose text the cache does not hold, in their order.
pub open spec fn not_posted(statuses: Seq<NewStatus>, cache: Seq<Seq<char>>) -> Seq<NewStatus>
    decreases statuses.len(),
{
    if statuses.len() == 0 {
        seq![]
    } else {
        let earlier = not_posted(statuses.drop_last(), cache);
        if cache.contains(statuses.last().text@) {
            earlier
        } else {
            earlier.push(statuses.last())
        }
    }
}

/// What the filter lets through was not posted before: the cache holds the
/// text of none of the statuses that are kept.
pub proof fn law_kept_statuses_are_new(statuses: Seq<NewStatus>, cache: Seq<Seq<char>>)
    ensures
        forall|i: int|
            0 <= i < not_posted(statuses, cache).len() ==> !cache.contains(
                (#[trigger] not_posted(statuses, cache)[i]).text@,
            ),
        not_posted(statuses, cache).len() <= statuses.len(),
    decreases statuses.len(),
{
    if statuses.len() > 0 {
        law_kept_statuses_are_new(statuses.drop_last(), cache);
    }
}

/// Keeps the statuses whose text the cache does not hold.
fn keep_unposted(statuses: Vec<NewStatus>, post_cache: &PostCache) -> (kept: Vec<NewStatus>)
    ensures
        kept@ == not_posted(statuses@, post_cache@),
{
    let ghost given = statuses@;
    let mut rest = reversed(statuses);
    let mut kept: Vec<NewStatus> = Vec::new();
    assert(given.subrange(0, 0) =~= Seq::empty());
    assert(rest@.subrange(0, rest@.len() as int) =~= rest@);
    while rest.len() > 0
        invariant
            rest@.len() <= given.len(),
            rest@ == given.reverse().subrange(0, rest@.len() as int),
            kept@ == not_posted(given.subrange(0, given.len() - rest@.len()), post_cache@),
        decreases rest@.len(),
    {
        let ghost place = given.len() - rest@.len();
        let status = rest.pop().unwrap();
        proof {
            assert(status == given.reverse()[given.len() - 1 - place]);
            assert(status == given[place]);
            assert(rest@ =~= given.reverse().subrange(0, rest@.len() as int));
            let upto = given.subrange(0, place + 1);
            assert(upto.drop_last() =~= given.subrange(0, place));
            assert(upto.last() == status);
        }
        if !post_cache.contains(status.text.as_str()) {
            kept.push(status);
        }
    }
    assert(given.subrange(0, given.len() as int) =~= given);
    kept
}

/// Drops the new statuses whose text was posted before, so that a run that
/// was cut short does not lead to double posts.
pub fn filter_posted_before(posts: StatusUpdates, post_cache: &PostCache) -> (filtered: StatusUpdates)
    ensures
        filtered.bsky_posts@ == not_posted(posts.bsky_posts@, post_cache@),
        filtered.toots@ == not_posted(posts.toots@, post_cache@),
{
    let StatusUpdates { bsky_posts, toots } = posts;
    StatusUpdates {
        bsky_posts: keep_unposted(bsky_posts, post_cache),
        toots: keep_unposted(toots, post_cache),
    }
}

/// Builds the cache from the texts that were stored; `None` stands for a
/// store that cannot be read. Texts that occur twice are held once. A
/// store with more than 150 different texts gives the empty cache, so that
/// the cache does not grow for ever and a text can be posted again later.
pub fn read_post_cache(stored: Option<Vec<String>>) -> (cache: PostCache)
    ensures
        stored is None ==> cache@ == Seq::<Seq<char>>::empty(),
        stored is Some ==> cache@ == cache_of(text_views(stored->0@)),
{
    match stored {
        Some(texts) => {
            let mut cache = PostCache::new();
            let mut i: usize = 0;
            assert(text_views(texts@.subrange(0, 0)) =~= Seq::empty());
            while i < texts.len()
                invariant
                    i <= texts@.len(),
                    cache@ == distinct(text_views(texts@.subrange(0, i as int))),
                decreases texts@.len() - i,
            {
                let ghost upto = text_views(texts@.subrange(0, i + 1));
                proof {
                    assert(upto.drop_last() =~= text_views(texts@.subrange(0, i as int)));
                    assert(upto.last() == texts@[i as int]@);
                }
                cache.insert(texts[i].clone());
                i += 1;
            }
            assert(texts@.subrange(0, i as int) =~= texts@);
            if cache.len() > POST_CACHE_CAP {
                PostCache::new()
            } else {
                cache
            }
        },
        None => PostCache::new(),
    }
}

} // verus!
