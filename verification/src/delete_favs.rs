//! Decisions for tidying up old favourites, likes and posts: which entries
//! are old enough to go, how the answers of the platforms are read, and how
//! the listing of likes goes on.

use crate::pattern::{capture_groups, pattern_groups};
use crate::text::{byte_slice, lemma_boundary_after_ascii, lemma_slice_valid};
use vstd::prelude::*;
use vstd::string::*;
use vstd::utf8::*;

verus! {

/// The place in a `Link` header that names the next page of favourites.
pub const MAX_ID_PATTERN: &'static str = r"max_id=(\d+)";

/// The collection that holds the likes of a Bluesky account.
pub const LIKE_COLLECTION: &'static str = "app.bsky.feed.like";

/// After how many seconds an entry is old: 90 days.
pub const KEEP_SECONDS: i64 = 7776000;

/// How many pages of likes are listed in one run at most.
pub const MAX_LIKE_PAGES: usize = 100;

/// The number that a text of decimal digits stands for; `None` where the
/// text is no such number or the number does not fit.
pub uninterp spec fn parsed_u64(text: Seq<char>) -> Option<u64>;

/// Calls `str::parse::<u64>`. Taken on trust: the result depends on the
/// text alone.
#[verifier::external_body]
fn parse_u64(text: &str) -> (number: Option<u64>)
    ensures
        number == parsed_u64(text@),
{
    text.parse::<u64>().ok()
}

/// The `max_id` of the next page that a `Link` header names: the digits
/// behind the first `max_id=`, where they are a number that fits.
pub open spec fn next_max_id(link_header: Seq<char>) -> Option<u64> {
    match pattern_groups(MAX_ID_PATTERN@, link_header, 1, 0) {
        Some(found) => if found.len() > 0 {
            match found[0] {
                (Some(span), _) => parsed_u64(
                    decode_utf8(encode_utf8(link_header).subrange(span.0 as int, span.1 as int)),
                ),
                _ => None,
            }
        } else {
            None
        },
        None => None,
    }
}

/// Reads the `max_id` of the next page of favourites from a `Link` header.
pub fn mastodon_parse_next_max_id(link_header: &str) -> (max_id: Option<u64>)
    ensures
        max_id == next_max_id(link_header@),
{
    proof {
        encode_utf8_valid_utf8(link_header@);
    }
    match capture_groups(MAX_ID_PATTERN, link_header, 1, 0) {
        Some(found) => {
            if found.len() > 0 {
                match found[0].0 {
                    Some((start, end)) => {
                        proof {
                            lemma_slice_valid(encode_utf8(link_header@), start as int, end as int);
                        }
                        let digits = byte_slice(link_header, start, end);
                        proof {
                            encode_utf8_decode_utf8(digits@);
                        }
                        parse_u64(digits)
                    },
                    None => None,
                }
            } else {
                None
            }
        },
        None => None,
    }
}

/// A point in time: seconds and nanoseconds since the start of 1970.
#[derive(Debug, Clone, Copy, PartialEq, Eq, Structural)]
pub struct Instant {
    pub seconds: i64,
    pub nanos: u32,
}

/// Whether `a` lies before `b`.
pub open spec fn earlier(a: Instant, b: Instant) -> bool {
    a.seconds < b.seconds || (a.seconds == b.seconds && a.nanos < b.nanos)
}

/// The time before which an entry is old at the time `now`: 90 days ago,
/// or the earliest second that can be told where that is out of range.
pub open spec fn cutoff(now: Instant) -> Instant {
    if now.seconds - KEEP_SECONDS >= i64::MIN {
        Instant { seconds: (now.seconds - KEEP_SECONDS) as i64, nanos: now.nanos }
    } else {
        Instant { seconds: i64::MIN, nanos: 0 }
    }
}

/// The time before which an entry is old at the time `now`.
pub fn three_months_before(now: Instant) -> (limit: Instant)
    ensures
        limit == cutoff(now),
{
    if now.seconds >= i64::MIN + KEEP_SECONDS {
        Instant { seconds: now.seconds - KEEP_SECONDS, nanos: now.nanos }
    } else {
        Instant { seconds: i64::MIN, nanos: 0 }
    }
}

/// An entry of a date cache: an id and the time it stands for.
#[derive(Debug, Clone)]
pub struct DatedEntry {
    pub id: String,
    pub date: Instant,
}

/// The ids of the entries that are older than 90 days at the time `now`,
/// in their order.
pub open spec fn old_ids(entries: Seq<DatedEntry>, now: Instant) -> Seq<Seq<char>>
    decreases entries.len(),
{
    if entries.len() == 0 {
        seq![]
    } else {
        let before = old_ids(entries.drop_last(), now);
        if earlier(entries.last().date, cutoff(now)) {
            before.push(entries.last().id@)
        } else {
            before
        }
    }
}

/// The values of a list of texts.
pub open spec fn id_views(ids: Seq<String>) -> Seq<Seq<char>> {
    ids.map_values(|id: String| id@)
}

/// Picks the entries that are older than 90 days.
pub fn older_than_three_months(entries: &Vec<DatedEntry>, now: Instant) -> (ids: Vec<String>)
    ensures
        id_views(ids@) == old_ids(entries@, now),
{
    let limit = three_months_before(now);
    let mut ids: Vec<String> = Vec::new();
    let mut i: usize = 0;
    assert(entries@.subrange(0, 0) =~= Seq::empty());
    assert(id_views(ids@) =~= Seq::empty());
    while i < entries.len()
        invariant
            i <= entries@.len(),
            limit == cutoff(now),
            id_views(ids@) == old_ids(entries@.subrange(0, i as int), now),
        decreases entries@.len() - i,
    {
        let entry = &entries[i];
        let ghost upto = entries@.subrange(0, i + 1);
        proof {
            assert(upto.drop_last() =~= entries@.subrange(0, i as int));
            assert(upto.last() == *entry);
        }
        if entry.date.seconds < limit.seconds || (entry.date.seconds == limit.seconds
            && entry.date.nanos < limit.nanos) {
            let ghost before = ids@;
            let id = entry.id.clone();
            ids.push(id);
            assert(id_views(ids@) =~= id_views(before).push(entry.id@));
        }
        i += 1;
    }
    assert(entries@.subrange(0, i as int) =~= entries@);
    ids
}

/// How an attempt to remove a favourite ended.
#[derive(Debug, Clone, Copy, PartialEq, Eq, Structural)]
pub enum RemovalOutcome {
    /// The platform removed it.
    Removed,
    /// The platform answered with an HTTP status that tells of an error.
    HttpStatus(u16),
    /// Another error.
    OtherError,
}

/// What follows an attempt to remove a favourite.
#[derive(Debug, Clone, Copy, PartialEq, Eq, Structural)]
pub enum RemovalStep {
    /// Take the entry out of the date cache and go on.
    Forget,
    /// End the run without an error: the rate limit is reached.
    Stop,
    /// End the run with the error.
    Fail,
    /// Leave the entry and go on.
    Skip,
}

/// What follows an attempt to remove a favourite: a favourite that is
/// removed or gone (404) is forgotten, the rate limit (429) ends the run,
/// any other HTTP status is an error, and other errors are passed over.
pub open spec fn step_after(outcome: RemovalOutcome) -> RemovalStep {
    match outcome {
        RemovalOutcome::Removed => RemovalStep::Forget,
        RemovalOutcome::HttpStatus(status) => if status == 404 {
            RemovalStep::Forget
        } else if status == 429 {
            RemovalStep::Stop
        } else {
            RemovalStep::Fail
        },
        RemovalOutcome::OtherError => RemovalStep::Skip,
    }
}

/// Decides what follows an attempt to remove a favourite.
pub fn after_removal(outcome: RemovalOutcome) -> (step: RemovalStep)
    ensures
        step == step_after(outcome),
{
    match outcome {
        RemovalOutcome::Removed => RemovalStep::Forget,
        RemovalOutcome::HttpStatus(status) => {
            if status == 404 {
                RemovalStep::Forget
            } else if status == 429 {
                RemovalStep::Stop
            } else {
                RemovalStep::Fail
            }
        },
        RemovalOutcome::OtherError => RemovalStep::Skip,
    }
}

/// What the address of a cached like turns out to be.
#[derive(Debug, Clone, PartialEq, Eq)]
pub enum LikeAddress {
    /// The address of a like record, with its record key.
    Like(String),
    /// It does not start with `at://`.
    NoAddress,
    /// It has fewer than three parts.
    Malformed,
    /// It names a record of another collection.
    OtherCollection,
    /// Its record key is not valid.
    BadKey,
}

/// The mathematical value of a like address.
pub enum LikeAddressView {
    Like(Seq<char>),
    NoAddress,
    Malformed,
    OtherCollection,
    BadKey,
}

impl View for LikeAddress {
    type V = LikeAddressView;

    open spec fn view(&self) -> LikeAddressView {
        match self {
            LikeAddress::Like(key) => LikeAddressView::Like(key@),
            LikeAddress::NoAddress => LikeAddressView::NoAddress,
            LikeAddress::Malformed => LikeAddressView::Malformed,
            LikeAddress::OtherCollection => LikeAddressView::OtherCollection,
            LikeAddress::BadKey => LikeAddressView::BadKey,
        }
    }
}

/// A character that a record key may hold: a letter or digit of ASCII, or
/// one of `. - _ : ~`.
pub open spec fn is_key_char(c: char) -> bool {
    ('a' <= c <= 'z') || ('A' <= c <= 'Z') || ('0' <= c <= '9') || c == '.' || c == '-' || c
        == '_' || c == ':' || c == '~'
}

/// Whether a text is a record key: 1 to 512 of the allowed characters, and
/// neither `.` nor `..`.
pub open spec fn is_record_key(text: Seq<char>) -> bool {
    &&& 1 <= text.len() <= 512
    &&& forall|i: int| 0 <= i < text.len() ==> is_key_char(#[trigger] text[i])
    &&& text != seq!['.']
    &&& text != seq!['.', '.']
}

/// Asks `RecordKey::new` of the `atrium_api` crate, which the `bsky_sdk`
/// crate hands on, whether it takes a text.
///
/// Taken on trust: it refuses `.` and `..` and takes what its pattern
/// `^[a-zA-Z0-9.\-_:~]{1,512}$` matches, and nothing else.
#[verifier::external_body]
fn record_key_is_valid(text: &str) -> (valid: bool)
    ensures
        valid == is_record_key(text@),
{
    bsky_sdk::api::types::string::RecordKey::new(text.to_string()).is_ok()
}

/// The offset of the first slash at or behind `from`, or the length of the
/// text where there is none.
pub open spec fn first_slash(bytes: Seq<u8>, from: int) -> int
    decreases bytes.len() - from,
{
    if from < 0 || from >= bytes.len() {
        bytes.len() as int
    } else if bytes[from] == 0x2f {
        from
    } else {
        first_slash(bytes, from + 1)
    }
}

/// The bytes of `at://`.
pub open spec fn address_prefix() -> Seq<u8> {
    seq![0x61u8, 0x74u8, 0x3au8, 0x2fu8, 0x2fu8]
}

/// What the address of a cached like turns out to be. An address reads
/// `at://<repository>/<collection>/<record key>`; the record key is all
/// that follows the second slash behind the prefix.
pub open spec fn like_address(uri: Seq<char>) -> LikeAddressView {
    let bytes = encode_utf8(uri);
    if !(bytes.len() >= 5 && bytes.subrange(0, 5) == address_prefix()) {
        LikeAddressView::NoAddress
    } else {
        let first = first_slash(bytes, 5);
        let second = first_slash(bytes, first + 1);
        if first >= bytes.len() || second >= bytes.len() {
            LikeAddressView::Malformed
        } else if decode_utf8(bytes.subrange(first + 1, second)) != LIKE_COLLECTION@ {
            LikeAddressView::OtherCollection
        } else {
            let key = decode_utf8(bytes.subrange(second + 1, bytes.len() as int));
            if is_record_key(key) {
                LikeAddressView::Like(key)
            } else {
                LikeAddressView::BadKey
            }
        }
    }
}

/// Finds the first slash at or behind `from`.
fn find_slash(bytes: &[u8], from: usize) -> (at: usize)
    requires
        from <= bytes@.len(),
    ensures
        at == first_slash(bytes@, from as int),
        from <= at <= bytes@.len(),
        at < bytes@.len() ==> bytes@[at as int] == 0x2f,
{
    let mut at = from;
    while at < bytes.len() && bytes[at] != 0x2f
        invariant
            from <= at <= bytes@.len(),
            first_slash(bytes@, at as int) == first_slash(bytes@, from as int),
        decreases bytes@.len() - at,
    {
        at += 1;
    }
    at
}

/// Takes the address of a cached like apart.
pub fn parse_like_uri(like_uri: &str) -> (address: LikeAddress)
    ensures
        address@ == like_address(like_uri@),
{
    let bytes = like_uri.as_bytes();
    let len = bytes.len();
    proof {
        encode_utf8_valid_utf8(like_uri@);
    }
    if !(len >= 5 && bytes[0] == 0x61 && bytes[1] == 0x74 && bytes[2] == 0x3a && bytes[3] == 0x2f
        && bytes[4] == 0x2f) {
        proof {
            if len >= 5 {
                let head = bytes@.subrange(0, 5);
                assert(head[0] == bytes@[0] && head[1] == bytes@[1] && head[2] == bytes@[2]
                    && head[3] == bytes@[3] && head[4] == bytes@[4]);
            }
        }
        return LikeAddress::NoAddress;
    }
    assert(bytes@.subrange(0, 5) =~= address_prefix());
    let first = find_slash(bytes, 5);
    if first >= len {
        return LikeAddress::Malformed;
    }
    let second = find_slash(bytes, first + 1);
    if second >= len {
        return LikeAddress::Malformed;
    }
    proof {
        lemma_boundary_after_ascii(bytes@, first as int);
        lemma_boundary_after_ascii(bytes@, second as int);
        vstd::utf8::is_char_boundary_start_end_of_seq(bytes@);
        lemma_slice_valid(bytes@, first + 1, second as int);
        lemma_slice_valid(bytes@, second + 1, len as int);
    }
    let collection = byte_slice(like_uri, first + 1, second);
    proof {
        encode_utf8_decode_utf8(collection@);
    }
    if String::from_str(collection) != String::from_str(LIKE_COLLECTION) {
        return LikeAddress::OtherCollection;
    }
    let key = byte_slice(like_uri, second + 1, len);
    proof {
        encode_utf8_decode_utf8(key@);
    }
    if record_key_is_valid(key) {
        LikeAddress::Like(String::from_str(key))
    } else {
        LikeAddress::BadKey
    }
}

/// How the listing of likes goes on after a page.
pub struct Paging {
    /// The cursor to keep for the next page or the next run.
    pub cursor: Option<String>,
    /// How many pages were listed in this run.
    pub pages: usize,
    /// Whether another page is listed in this run.
    pub go_on: bool,
}

/// The value of an optional text.
pub open spec fn cursor_of(cursor: Option<String>) -> Option<Seq<char>> {
    match cursor {
        Some(cursor) => Some(cursor@),
        None => None,
    }
}

/// Whether a page ends the listing: it came without a cursor, or with
/// the cursor that it was asked for with.
pub open spec fn listing_is_complete(sent: Option<Seq<char>>, received: Option<Seq<char>>) -> bool {
    received is None || received == sent
}

/// Decides how the listing of likes goes on after a page that was asked for
/// with the cursor `sent` and came with the cursor `received`, `pages`
/// pages having been listed before it. Where the page ends the listing, no
/// cursor is kept. Else the new cursor is kept, and the listing goes on in
/// this run until `MAX_LIKE_PAGES` pages are listed.
pub fn after_like_page(sent: &Option<String>, received: Option<String>, pages: usize) -> (next: Paging)
    ensures
        listing_is_complete(cursor_of(*sent), cursor_of(received)) ==> next.cursor is None
            && !next.go_on && next.pages == pages,
        !listing_is_complete(cursor_of(*sent), cursor_of(received)) ==> cursor_of(next.cursor)
            == cursor_of(received) && next.pages == (if pages < usize::MAX {
            pages + 1
        } else {
            pages as int
        }) && next.go_on == (pages + 1 < MAX_LIKE_PAGES),
{
    let same = match (&received, sent) {
        (Some(new), Some(old)) => *new == *old,
        (None, None) => true,
        _ => false,
    };
    if received.is_none() || same {
        Paging { cursor: None, pages, go_on: false }
    } else if pages < usize::MAX {
        Paging { cursor: received, pages: pages + 1, go_on: pages + 1 < MAX_LIKE_PAGES }
    } else {
        Paging { cursor: received, pages, go_on: false }
    }
}

} // verus!
