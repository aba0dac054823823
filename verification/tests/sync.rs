use mastodon_bluesky_sync::bluesky_richtext::{
    ByteSlice, FacetFeaturesItem, FacetWithoutResolution, Link, Tag,
};
use mastodon_bluesky_sync::budget::{mastodon_budget, ShortenBudget};
use mastodon_bluesky_sync::fitting::{
    drop_words, fit_words, fits_budget, text_units, within_budget, LinkRule,
};
use mastodon_bluesky_sync::post_cache::PostCache;
use mastodon_bluesky_sync::sync::{
    bsky_get_attachments, bsky_get_video_stream, bsky_post_link, bsky_post_shorten,
    bsky_post_unshorten_decode, bsky_record_get_text, determine_posts, filter_posted_before,
    mastodon_text_length, mastodon_toot_get_text, post_is_well_formed, read_post_cache,
    share_text, toot_and_post_are_equal, toot_get_attachments, toot_shorten,
    truncate_option_string, unify_post_content, EmbedImage, FeedViewPost, MediaAttachment,
    NewStatus, PostEmbed, PostRecord, QuoteEmbed, QuotedPost, Reblog, Status, StatusUpdates,
    SyncOptions,
};

fn record(text: &str) -> PostRecord {
    PostRecord { text: text.to_string(), facets: None, external_uri: None }
}

fn link_facet(start: usize, end: usize, uri: &str) -> FacetWithoutResolution {
    FacetWithoutResolution {
        features: vec![FacetFeaturesItem::Link(Link { uri: uri.to_string() })],
        index: ByteSlice { byte_start: start, byte_end: end },
    }
}

fn tag_facet(start: usize, end: usize, tag: &str) -> FacetWithoutResolution {
    FacetWithoutResolution {
        features: vec![FacetFeaturesItem::Tag(Tag { tag: tag.to_string() })],
        index: ByteSlice { byte_start: start, byte_end: end },
    }
}

fn bsky_post(handle: &str, key: &str, record: PostRecord) -> FeedViewPost {
    FeedViewPost {
        record,
        author_handle: handle.to_string(),
        uri: format!("at://did:plc:i7uartkbj7ktzo4tj4rq6oyi/app.bsky.feed.post/{key}"),
        is_reply: false,
        is_repost: false,
        embed: None,
    }
}

fn toot(content: &str, url: &str) -> Status {
    Status {
        content: content.to_string(),
        url: Some(url.to_string()),
        in_reply_to_id: None,
        reblog: None,
        media_attachments: Vec::new(),
    }
}

fn status(text: &str) -> NewStatus {
    NewStatus {
        text: text.to_string(),
        attachments: Vec::new(),
        video_stream: None,
        original_post_url: String::new(),
        replies: Vec::new(),
        in_reply_to_id: None,
    }
}

fn texts(statuses: &[NewStatus]) -> Vec<String> {
    statuses.iter().map(|s| s.text.clone()).collect()
}

fn reposts_too() -> SyncOptions {
    SyncOptions { sync_reposts: true, ..Default::default() }
}

const RELEASE_LINK: &str = "https://github.com/klausi/mastodon-bluesky-sync/releases/tag/v0.2.0";

fn quote_post() -> FeedViewPost {
    let quoted_text = "Initial release of #Mastodon #Bluesky Sync 🚀  !\n\nSynchronization of posts works, but I'm still testing things.\n\ngithub.com/klausi/mast...";
    let start = quoted_text.len() - "github.com/klausi/mast...".len();
    let quoted = PostRecord {
        text: quoted_text.to_string(),
        facets: Some(vec![
            tag_facet(19, 28, "Mastodon"),
            tag_facet(29, 37, "Bluesky"),
            link_facet(start, quoted_text.len(), RELEASE_LINK),
        ]),
        external_uri: Some(RELEASE_LINK.to_string()),
    };
    let mut post =
        bsky_post("klau.si", "3lb3f2ko4rc23", record("Working on this and testing quote posts"));
    post.embed = Some(PostEmbed::Quote(QuotedPost {
        record: quoted,
        author_handle: "klau.si".to_string(),
        embeds: Vec::new(),
    }));
    post
}

// Test that embedded quote posts are included correctly.
#[test]
fn bsky_quote_post() {
    let post = quote_post();
    assert!(post_is_well_formed(&post));
    let posts = determine_posts(&Vec::new(), &vec![post], &SyncOptions::default());
    assert_eq!(
        posts.toots[0].text,
        "Working on this and testing quote posts

💬 klau.si: Initial release of #Mastodon #Bluesky Sync 🚀  !

Synchronization of posts works, but I'm still testing things.

https://github.com/klausi/mastodon-bluesky-sync/releases/tag/v0.2.0"
    );
}

// Test that a correct Bluesky link is appended when posting to Mastodon.
#[test]
fn toot_shorten_link() {
    let text = "a ".repeat(251);
    let post = quote_post();
    let expected = format!(
        "{}a… https://bsky.app/profile/klau.si/post/3lb3f2ko4rc23",
        "a ".repeat(237)
    );
    assert_eq!(expected, toot_shorten(&text, &post));
}

// Test that multiple links in a post are correct.
#[test]
fn bsky_multiple_links() {
    let text = "Ich durfte auf der @univie.ac.at über die Kontrollfunktion der Medien sprechen. Wie Macht kontrolliert wird, warum das manchmal scheitert und wie das konkret funktioniert.\n1) www.youtube.com/live/_aLgEA3...\n2) www.youtube.com/live/jATJBLc...\n3) www.youtube.com/live/fmz3vj-...";
    let first = text.find("www").unwrap();
    let second = first + text[first + 1..].find("www").unwrap() + 1;
    let third = second + text[second + 1..].find("www").unwrap() + 1;
    let shown = "www.youtube.com/live/_aLgEA3...".len();
    let mut post = bsky_post(
        "martinthuer.at",
        "3lbbzq3y5dc2t",
        PostRecord {
            text: text.to_string(),
            facets: Some(vec![
                link_facet(
                    first,
                    first + shown,
                    "https://www.youtube.com/live/_aLgEA3TQVQ?si=8hufYrjCiisvoMyQ",
                ),
                link_facet(
                    second,
                    second + shown,
                    "https://www.youtube.com/live/jATJBLcI2MA?si=7Gm1GudFuSmW2iRH",
                ),
                link_facet(
                    third,
                    third + shown,
                    "https://www.youtube.com/live/fmz3vj-L9U8?si=Uzn12ksO-lDwQRqc",
                ),
            ]),
            external_uri: None,
        },
    );
    post.is_repost = true;
    let sync_options = reposts_too();
    let posts = determine_posts(&Vec::new(), &vec![post], &sync_options);
    assert_eq!(
        posts.toots[0].text,
        "♻️ martinthuer.at: Ich durfte auf der @univie.ac.at über die Kontrollfunktion der Medien sprechen. Wie Macht kontrolliert wird, warum das manchmal scheitert und wie das konkret funktioniert.
1) https://www.youtube.com/live/_aLgEA3TQVQ?si=8hufYrjCiisvoMyQ
2) https://www.youtube.com/live/jATJBLcI2MA?si=7Gm1GudFuSmW2iRH
3) https://www.youtube.com/live/fmz3vj-L9U8?si=Uzn12ksO-lDwQRqc"
    );
}

// Test that a post with a long link gets fully posted to Mastodon.
#[test]
fn bsky_long_url() {
    let full = "Test post with a very long URL https://example.com/aaaaaaaaaaaaaaaaaaaaaaaaaaaaaaaaaaaaaaaaaaaaaaaaaaaaaaaaaaaaaaaaaaaaaaaaaaaaaaaaaaaaaaaaaaaaaaaaaaaaaaaaaaaaaaaaaaaaaaaaaaaaaaaaaaaaaaaaaaaaaaaaaaaaaaaaaaaaaaaaaaaaaaaaaaaaaaaaaaaaaaaaaaaaaaaaaaaaaaaaaaaaaaaaaaaaaaaaaaaaaaaaaaaaaaaaaaaaaaaaaaaaaaaaaaaaaaaaaaaaaaaaaaaaaaaaaaaaaaaaaaaaaaaaaaaaaaaaaaaaaaaaaaaaaaaaaaaaaaaaaaaaaaaaaaaaaaaaaaaaaaaaaaaaaaaaaaaaaaaaaaaaaaaaaaaaaaaaaaaaaaaaaaaaaaaaaaaaaaaaaaaaaaaaaaaaaaaaaaaaaaaaaaaaaaaaaaaaaaaaaaaaaaaaaaaaaaaaaaaaaaaaaaaaaaaaaaaaaaaaaaaaaaaaaaaaaaaaaaaaaaaaaaaaaaaaaaaaaaaaaaaaaaaaaaaaaaaaaaaaaaaaaaaaaaaaaaaaaaaaaaaaaaaaaaaaaaaaaaaaa";
    let text = "Test post with a very long URL example.com/aaaaaaaaaaaa...";
    let start = "Test post with a very long URL ".len();
    let post = bsky_post(
        "klau.si",
        "3lbfreqpnu22w",
        PostRecord {
            text: text.to_string(),
            facets: Some(vec![link_facet(start, text.len(), &full[start..])]),
            external_uri: None,
        },
    );
    let posts = determine_posts(&Vec::new(), &vec![post], &SyncOptions::default());
    assert_eq!(
        posts.toots[0].text,
        "Test post with a very long URL https://example.com/aaaaaaaaaaaaaaaaaaaaaaaaaaaaaaaaaaaaaaaaaaaaaaaaaaaaaaaaaaaaaaaaaaaaaaaaaaaaaaaaaaaaaaaaaaaaaaaaaaaaaaaaaaaaaaaaaaaaaaaaaaaaaaaaaaaaaaaaaaaaaaaaaaaaaaaaaaaaaaaaaaaaaaaaaaaaaaaaaaaaaaaaaaaaaaaaaaaaaaaaaaaaaaaaaaaaaaaaaaaaaaaaaaaaaaaaaaaaaaaaaaaaaaaaaaaaaaaaaaaaaaaaaaaaaaaaaaaaaaaaaaaaaaaaaaaaaaaaaaaaaaaaaaaaaaaaaaaaaaaaaaaaaaaaaaaaaaaaaaaaaaaaaaaaaaaaaaaaaaaaaaaaaaaaaaaaaaaaaaaaaaaaaaaaaaaaaaaaaaaaaaaaaaaaaaaaaaaaaaaaaaaaaaaaaaaaaaaaaaaaaaaaaaaaaaaaaaaaaaaaaaaaaaaaaaaaaaaaaaaaaaaaaaaaaaaaaaaaaaaaaaaaaaaaaaaaaaaaaaaaaaaaaaaaaaaaaaaaaaaaaaaaaaaaaaaaaaaaaaaaaaaaaaaaaaaaaaaaaaaaa"
    );
}

// Test that a post with a long link gets fully posted to Bluesky.
#[test]
fn mastodon_long_url() {
    let full = "Test toot with long link http://example.com/aaaaaaaaaaaaaaaaaaaaaaaaaaaaaaaaaaaaaaaaaaaaaaaaaaaaaaaaaaaaaaaaaaaaaaaaaaaaaaaaaaaaaaaaaaaaaaaaaaaaaaaaaaaaaaaaaaaaaaaaaaaaaaaaaaaaaaaaaaaaaaaaaaaaaaaaaaaaaaaaaaaaaaaaaaaaaaaaaaaaaaaaaaaaaaaaaaaaaaaaaaaaaaaaaaaaaaaaaaaaaaaaaaaaaaaaaaaaaaaaaaaaaaaaaaaaaaaaaaaaaaaaaaaaaaaaaaaaaaa";
    let link = &full["Test toot with long link ".len()..];
    let shown = &link["http://".len().."http://".len() + 30];
    let hidden = &link["http://".len() + 30..];
    let post = toot(
        &format!("<p>Test toot with long link <a href=\"{link}\" target=\"_blank\" rel=\"nofollow noopener\" translate=\"no\"><span class=\"invisible\">http://</span><span class=\"ellipsis\">{shown}</span><span class=\"invisible\">{hidden}</span></a></p>"),
        "https://mastodon.social/@klausi/113538998311128126",
    );
    let posts = determine_posts(&vec![post], &Vec::new(), &SyncOptions::default());
    assert_eq!(
        posts.bsky_posts[0].text,
        "Test toot with long link http://example.com/aaaaaaaaaaaaaaaaaaaaaaaaaaaaaaaaaaaaaaaaaaaaaaaaaaaaaaaaaaaaaaaaaaaaaaaaaaaaaaaaaaaaaaaaaaaaaaaaaaaaaaaaaaaaaaaaaaaaaaaaaaaaaaaaaaaaaaaaaaaaaaaaaaaaaaaaaaaaaaaaaaaaaaaaaaaaaaaaaaaaaaaaaaaaaaaaaaaaaaaaaaaaaaaaaaaaaaaaaaaaaaaaaaaaaaaaaaaaaaaaaaaaaaaaaaaaaaaaaaaaaaaaaaaaaaaaaaaaaaa"
    );
}

const QUOTED_IMAGE: &str = "https://cdn.bsky.app/img/feed_fullsize/plain/did:plc:m2uq4xp53ln6ajjhjg5putln/bafkreiho5ucd4ovw3ztwrb5ogheaiybz4k54dhwrgkv7z2jbec6rr6bu44@jpeg";

// Test that an attachment from a quoted post is used.
#[test]
fn bsky_quote_attachment() {
    let mut post = bsky_post(
        "klau.si",
        "3lbhtcgvi2c2q",
        record("Ich muss quote post attachments testen, habe hier was passendes gefunden 😀"),
    );
    post.embed = Some(PostEmbed::Quote(QuotedPost {
        record: record(""),
        author_handle: "patricialierzer.bsky.social".to_string(),
        embeds: vec![QuoteEmbed::Images(vec![EmbedImage {
            fullsize: QUOTED_IMAGE.to_string(),
            alt: String::new(),
        }])],
    }));
    let posts = determine_posts(&Vec::new(), &vec![post], &SyncOptions::default());
    assert_eq!(
        posts.toots[0].text,
        "Ich muss quote post attachments testen, habe hier was passendes gefunden 😀\n\n💬 patricialierzer.bsky.social:"
    );
    assert_eq!(posts.toots[0].attachments[0].attachment_url, "https://cdn.bsky.app/img/feed_fullsize/plain/did:plc:m2uq4xp53ln6ajjhjg5putln/bafkreiho5ucd4ovw3ztwrb5ogheaiybz4k54dhwrgkv7z2jbec6rr6bu44@jpeg");
}

const PLAYLIST: &str = "https://video.bsky.app/watch/did%3Aplc%3Agkgmduxh722ocstroyi75gbg/bafkreicggiijd2kw5czpwv3xpdfcq7rwzkd5ofi735nma4xm663qvuakyy/playlist.m3u8";

// Test that a video attachment is extracted correctly.
#[test]
fn bsky_video_attachment() {
    let mut post = bsky_post(
        "mjfree.bsky.social",
        "3lbd2ebt5ks2v",
        record("I'm going to post this video every day so we never forget"),
    );
    post.is_repost = true;
    post.embed = Some(PostEmbed::Video(PLAYLIST.to_string()));
    let sync_options = reposts_too();
    let posts = determine_posts(&Vec::new(), &vec![post], &sync_options);
    assert_eq!(
        posts.toots[0].text,
        "♻️ mjfree.bsky.social: I'm going to post this video every day so we never forget"
    );
    assert_eq!(posts.toots[0].video_stream.clone().unwrap(), "https://video.bsky.app/watch/did%3Aplc%3Agkgmduxh722ocstroyi75gbg/bafkreicggiijd2kw5czpwv3xpdfcq7rwzkd5ofi735nma4xm663qvuakyy/playlist.m3u8");
}

// Test that a video attached to a quote post is extracted correctly.
#[test]
fn bsky_quote_video_attachment() {
    let mut post = bsky_post("klau.si", "3lbmxrbx3ik2f", record("Testing quote post videos"));
    post.embed = Some(PostEmbed::Quote(QuotedPost {
        record: record("I'm going to post this video every day so we never forget"),
        author_handle: "mjfree.bsky.social".to_string(),
        embeds: vec![QuoteEmbed::Video(PLAYLIST.to_string())],
    }));
    let sync_options = reposts_too();
    let posts = determine_posts(&Vec::new(), &vec![post], &sync_options);
    assert_eq!(
        posts.toots[0].text,
        "Testing quote post videos

💬 mjfree.bsky.social: I'm going to post this video every day so we never forget"
    );
    assert_eq!(posts.toots[0].video_stream.clone().unwrap(), "https://video.bsky.app/watch/did%3Aplc%3Agkgmduxh722ocstroyi75gbg/bafkreicggiijd2kw5czpwv3xpdfcq7rwzkd5ofi735nma4xm663qvuakyy/playlist.m3u8");
}

// Test that a link embed is attached as link if the URL is not in the post
// already.
#[test]
fn bsky_link_embed() {
    let mut post = bsky_post(
        "leasusemichel.bsky.social",
        "3lbq5u3mhrs2e",
        PostRecord {
            text: "\n \"Wir nennen die Taten unfassbar und die Täter monströs\",schreibt  @pickinese.bsky.social. Typen, die eigentlich durchschnittlich und gewöhnlich sind.\n\"In einer globalen Pandemie sexualisierter Gewalt gegen Frauen geben wir uns anhaltend begriffsstutzig.\"".to_string(),
            facets: None,
            external_uri: Some("https://www.derstandard.at/story/3000000250190/der-fall-pelicot-unfassbar-monstroes?ref=article".to_string()),
        },
    );
    post.is_repost = true;
    let sync_options = reposts_too();
    let posts = determine_posts(&Vec::new(), &vec![post], &sync_options);
    assert_eq!(posts.toots[0].text, "♻️ leasusemichel.bsky.social: \n \"Wir nennen die Taten unfassbar und die Täter monströs\",schreibt  @pickinese.bsky.social. Typen, die eigentlich durchschnittlich und gewöhnlich sind.
\"In einer globalen Pandemie sexualisierter Gewalt gegen Frauen geben wir uns anhaltend begriffsstutzig.\"

https://www.derstandard.at/story/3000000250190/der-fall-pelicot-unfassbar-monstroes?ref=article");
}

// Test that a user mention on mastodon is posted as is to Bluesky. We don't
// need to escape it.
#[test]
fn mastodon_user_mention() {
    let post = toot(
        "<p>Finally watched <a href=\"https://mastodon.social/tags/RebelRidge\" class=\"mention hashtag\" rel=\"tag\">#<span>RebelRidge</span></a> recommended by <span class=\"h-card\" translate=\"no\"><a href=\"https://hachyderm.io/@mekkaokereke\" class=\"u-url mention\">@<span>mekkaokereke</span></a></span> a while ago... Good stuff! 🎬</p>",
        "https://mastodon.social/@klausi/113595281951840260",
    );
    let posts = determine_posts(&vec![post], &Vec::new(), &SyncOptions::default());
    assert_eq!(
        posts.bsky_posts[0].text,
        "Finally watched #RebelRidge recommended by @mekkaokereke a while ago... Good stuff! 🎬"
    );
}

const VIDEO_TOOT_URL: &str = "https://mastodon.social/@klausi/113511471780554214";

fn long_video_toot() -> Status {
    let mut post = toot(&format!("<p>{}</p>", "word ".repeat(80).trim()), VIDEO_TOOT_URL);
    post.media_attachments = vec![MediaAttachment {
        url: "https://files.mastodon.social/media_attachments/files/video.mp4".to_string(),
        description: None,
    }];
    post
}

fn synced_video_post() -> FeedViewPost {
    // What Bluesky holds after the toot was posted there: the last words
    // gone, the link to the toot cut and kept whole in its facet.
    let text = format!("{}… https://mastodon.social/@k…", "word ".repeat(55).trim());
    let start = text.find("https").unwrap();
    bsky_post(
        "klau.si",
        "3lbvideo2c2q",
        PostRecord {
            facets: Some(vec![link_facet(start, text.len(), VIDEO_TOOT_URL)]),
            text,
            external_uri: Some(VIDEO_TOOT_URL.to_string()),
        },
    )
}

// Test that a long video post on mastodon is equal to a video link embed on
// Bluesky.
#[test]
fn mastodon_long_video() {
    let mastodon_post = long_video_toot();
    let bsky_post = synced_video_post();
    let sync_options = SyncOptions { sync_reblogs: true, ..Default::default() };
    let posts = determine_posts(&vec![mastodon_post], &vec![bsky_post], &sync_options);
    assert!(posts.toots.is_empty());
    assert!(posts.bsky_posts.is_empty());
}

#[test]
fn duplicate_newest_posts_give_empty_plans() {
    let a = toot("<p>Hello world, see <a href=\"https://example.com/x\">example.com/x</a></p>", "https://m.example/1");
    let older = toot("<p>Something older</p>", "https://m.example/0");
    let b = bsky_post("me.example", "k1", record("Hello world, see https://example.com/x"));
    let other = bsky_post("me.example", "k0", record("Another old thing"));
    let posts = determine_posts(&vec![a, older], &vec![b, other], &SyncOptions::default());
    assert!(posts.toots.is_empty());
    assert!(posts.bsky_posts.is_empty());
}

#[test]
fn nothing_behind_the_first_match_is_planned() {
    let toots = vec![
        toot("<p>new on mastodon</p>", "https://m.example/3"),
        toot("<p>Shared Thing</p>", "https://m.example/2"),
        toot("<p>old on mastodon</p>", "https://m.example/1"),
    ];
    let posts = vec![
        bsky_post("me.example", "k3", record("newest on bluesky")),
        bsky_post("me.example", "k2", record("newer on bluesky")),
        bsky_post("me.example", "k1", record("shared thing")),
        bsky_post("me.example", "k0", record("old on bluesky")),
    ];
    let updates = determine_posts(&toots, &posts, &SyncOptions::default());
    assert_eq!(texts(&updates.toots), vec!["newer on bluesky", "newest on bluesky"]);
    assert_eq!(texts(&updates.bsky_posts), vec!["new on mastodon"]);
    assert_eq!(updates.toots[0].original_post_url, posts[1].uri);
    assert_eq!(updates.bsky_posts[0].original_post_url, "https://m.example/3");
    assert!(updates.toots[0].replies.is_empty());
    assert!(updates.toots[0].in_reply_to_id.is_none());
    assert!(updates.bsky_posts[0].video_stream.is_none());
}

#[test]
fn unmatched_timelines_are_planned_oldest_first() {
    let toots = vec![toot("<p>m2</p>", "u2"), toot("<p>m1</p>", "u1")];
    let posts = vec![
        bsky_post("me.example", "k2", record("b2")),
        bsky_post("me.example", "k1", record("b1")),
    ];
    let updates = determine_posts(&toots, &posts, &SyncOptions::default());
    assert_eq!(texts(&updates.toots), vec!["b1", "b2"]);
    assert_eq!(texts(&updates.bsky_posts), vec!["m1", "m2"]);
}

#[test]
fn replies_reposts_and_direct_toots_are_passed_over() {
    let mut reply = toot("<p>a reply</p>", "u4");
    reply.in_reply_to_id = Some("1".to_string());
    let mut boost = toot("", "u3");
    boost.reblog = Some(Reblog {
        username: "other".to_string(),
        content: "<p>boosted</p>".to_string(),
        url: Some("https://m.example/@other/9".to_string()),
        media_attachments: Vec::new(),
    });
    let direct = toot("<p>@friend hello</p>", "u2");
    let plain = toot("<p>plain</p>", "u1");
    let toots = vec![reply, boost, direct, plain];

    let mut answer = bsky_post("me.example", "k3", record("an answer"));
    answer.is_reply = true;
    let mut repost = bsky_post("other.example", "k2", record("reposted"));
    repost.is_repost = true;
    let own = bsky_post("me.example", "k1", record("own"));
    let posts = vec![answer, repost, own];

    let updates = determine_posts(&toots, &posts, &SyncOptions::default());
    assert_eq!(texts(&updates.bsky_posts), vec!["plain"]);
    assert_eq!(texts(&updates.toots), vec!["own"]);

    let all = SyncOptions { sync_reblogs: true, sync_reposts: true, ..Default::default() };
    let updates = determine_posts(&toots, &posts, &all);
    assert_eq!(texts(&updates.bsky_posts), vec!["plain", "♻️ other: boosted"]);
    assert_eq!(updates.bsky_posts[1].original_post_url, "https://m.example/@other/9");
    assert_eq!(texts(&updates.toots), vec!["own", "♻️ other.example: reposted"]);
}

#[test]
fn hashtag_filter_leaves_out_what_lacks_the_hashtag() {
    let toots = vec![toot("<p>with #sync here</p>", "u2"), toot("<p>without</p>", "u1")];
    let posts = vec![
        bsky_post("me.example", "k2", record("no tag")),
        bsky_post("me.example", "k1", record("has #both")),
    ];
    let options = SyncOptions {
        sync_hashtag_mastodon: Some("#sync".to_string()),
        sync_hashtag_bluesky: Some("#both".to_string()),
        ..Default::default()
    };
    let updates = determine_posts(&toots, &posts, &options);
    assert_eq!(texts(&updates.bsky_posts), vec!["with #sync here"]);
    assert_eq!(texts(&updates.toots), vec!["has #both"]);

    let empty = SyncOptions {
        sync_hashtag_mastodon: Some(String::new()),
        sync_hashtag_bluesky: Some(String::new()),
        ..Default::default()
    };
    let updates = determine_posts(&toots, &posts, &empty);
    assert_eq!(updates.bsky_posts.len(), 2);
    assert_eq!(updates.toots.len(), 2);
}

#[test]
fn reply_and_top_level_post_are_never_equal() {
    let mut a = toot("<p>same text</p>", "u1");
    let mut b = bsky_post("me.example", "k1", record("same text"));
    assert!(toot_and_post_are_equal(&a, &b));
    a.in_reply_to_id = Some("7".to_string());
    assert!(!toot_and_post_are_equal(&a, &b));
    b.is_reply = true;
    assert!(toot_and_post_are_equal(&a, &b));
    a.in_reply_to_id = None;
    assert!(!toot_and_post_are_equal(&a, &b));
}

#[test]
fn equality_ignores_case_and_scheme() {
    let a = toot("<p>Look at HTTPS://Example.com/Page &amp; more</p>", "u1");
    let b = bsky_post("me.example", "k1", record("look at example.com/page & more"));
    assert!(toot_and_post_are_equal(&a, &b));
    let c = bsky_post("me.example", "k1", record("look at example.com/page and more"));
    assert!(!toot_and_post_are_equal(&a, &c));
}

#[test]
fn equality_holds_for_a_toot_shortened_for_bluesky() {
    assert!(toot_and_post_are_equal(&long_video_toot(), &synced_video_post()));
}

#[test]
fn unify_lowers_and_strips_schemes() {
    assert_eq!(
        unify_post_content("See HTTP://A.b and https://C.d, ÄÖ".to_string()),
        "see a.b and c.d, äö"
    );
    assert_eq!(unify_post_content(String::new()), "");
}

#[test]
fn toot_text_strips_markup_and_decodes_entities() {
    let post = toot(
        "<p>one<br />two<br>three</p><p>four &lt;b&gt; &amp; <b>bold</b> &quot;q&quot;</p>",
        "u",
    );
    assert_eq!(mastodon_toot_get_text(&post), "one\ntwo\nthree\n\nfour <b> & bold \"q\"");
}

#[test]
fn toot_text_of_a_boost_names_the_author() {
    let mut post = toot("", "u");
    post.reblog = Some(Reblog {
        username: "alice".to_string(),
        content: "<p>hi <i>there</i></p>".to_string(),
        url: None,
        media_attachments: Vec::new(),
    });
    assert_eq!(mastodon_toot_get_text(&post), "♻️ alice: hi there");
    assert_eq!(share_text("bob", "text"), "♻️ bob: text");
}

#[test]
fn mastodon_counts_each_link_as_23() {
    assert_eq!(mastodon_text_length(""), 0);
    assert_eq!(mastodon_text_length("hello"), 5);
    assert_eq!(mastodon_text_length("hello https://example.com/abc"), 6 + 23);
    assert_eq!(
        mastodon_text_length("a http://x.y b https://example.com/a/very/long/path?with=query c"),
        7 + 2 * 23
    );
    assert_eq!(mastodon_text_length("👨‍👩‍👧‍👦 e\u{301}"), 3);
    let budget = ShortenBudget { limit_units: 10, link_unit_cost: 4 };
    assert_eq!(text_units("ab https://example.com cd", &budget), 6 + 4);
    assert!(within_budget("ab https://example.com cd", &budget));
    assert!(!within_budget("abc https://example.com cd", &budget));
    let huge = ShortenBudget { limit_units: usize::MAX, link_unit_cost: usize::MAX };
    assert_eq!(text_units("a https://x.y https://z.w", &huge), usize::MAX);
    assert!(!within_budget("a https://x.y https://z.w", &huge));
}

#[test]
fn fits_budget_follows_the_rule_for_links() {
    let text = format!("{} https://example.com/{}", "x".repeat(280), "a".repeat(100));
    let budget = ShortenBudget { limit_units: 310, link_unit_cost: 23 };
    // Counted: 281 + 23. Cut: the link shrinks to 28 and an ellipsis.
    assert!(fits_budget(&text, LinkRule::Counted, &budget));
    assert!(fits_budget(&text, LinkRule::Cut, &budget));
    let tight = ShortenBudget { limit_units: 303, link_unit_cost: 23 };
    assert!(!fits_budget(&text, LinkRule::Counted, &tight));
    assert!(!fits_budget(&text, LinkRule::Cut, &tight));
    let plain = "x".repeat(304);
    assert!(!fits_budget(&plain, LinkRule::Cut, &tight));
    assert!(fits_budget(&plain[..303], LinkRule::Cut, &tight));
}

#[test]
fn toot_within_budget_is_unchanged() {
    let post = quote_post();
    assert_eq!(toot_shorten("", &post), "");
    assert_eq!(toot_shorten("  spaces stay  ", &post), "  spaces stay  ");
    let at_limit = format!("{} https://example.com/{}", "a".repeat(476), "b".repeat(400));
    assert_eq!(mastodon_text_length(&at_limit), 500);
    assert_eq!(toot_shorten(&at_limit, &post), at_limit);
}

#[test]
fn shortened_toot_is_within_budget() {
    let post = quote_post();
    for words in [101, 150, 400] {
        let text = "word ".repeat(words);
        let fitted = toot_shorten(&text, &post);
        assert!(mastodon_text_length(&fitted) <= 500);
        assert!(fitted.ends_with("… https://bsky.app/profile/klau.si/post/3lb3f2ko4rc23"));
        assert!(text.starts_with(fitted.split('…').next().unwrap()));
    }
    let text = "word ".repeat(101);
    assert_eq!(
        toot_shorten(&text, &post),
        format!("{}… https://bsky.app/profile/klau.si/post/3lb3f2ko4rc23", "word ".repeat(95).trim())
    );
}

#[test]
fn a_single_long_word_is_never_dropped() {
    let post = quote_post();
    let text = "a".repeat(600);
    let fitted = toot_shorten(&text, &post);
    assert_eq!(
        fitted,
        format!("{text}… https://bsky.app/profile/klau.si/post/3lb3f2ko4rc23")
    );
    assert!(mastodon_text_length(&fitted) > 500);
    assert_eq!(bsky_post_shorten(&text, &None), text);
    assert_eq!(
        bsky_post_shorten(&format!("  {text} \n"), &Some("https://m.example/1".to_string())),
        format!("{text}… https://m.example/1")
    );
    // The words go until one is left; that one stays though the result is
    // over the budget.
    let budget = ShortenBudget { limit_units: 10, link_unit_cost: 23 };
    let fitted = drop_words("one two three", Some("no link but a long tail"), LinkRule::Counted, &budget);
    assert_eq!(fitted, "one… no link but a long tail");
    assert!(text_units(&fitted, &budget) > 10);
    let fitted = drop_words("one two three", None, LinkRule::Counted, &budget);
    assert_eq!(fitted, "one two");
    let tight = ShortenBudget { limit_units: 2, link_unit_cost: 23 };
    assert_eq!(drop_words("one two three", None, LinkRule::Counted, &tight), "one");
}

#[test]
fn drop_words_drops_words_from_the_end() {
    let budget = mastodon_budget();
    assert_eq!(drop_words("one two three", None, LinkRule::Counted, &budget), "one two");
    assert_eq!(
        drop_words("one two  three \n", Some("https://l.example/x"), LinkRule::Cut, &budget),
        "one two  three… https://l.example/x"
    );
    assert_eq!(drop_words("", Some("l"), LinkRule::Counted, &budget), "… l");
}

#[test]
fn fit_words_keeps_what_fits_under_any_budget() {
    let text = " two words https://example.com/x ";
    for limit in [13, 14, 100, usize::MAX] {
        let budget = ShortenBudget { limit_units: limit, link_unit_cost: 1 };
        assert_eq!(fit_words(text, Some("https://f.example"), LinkRule::Counted, &budget), text);
    }
    let budget = ShortenBudget { limit_units: 12, link_unit_cost: 1 };
    assert_eq!(
        fit_words(text, Some("https://f.example"), LinkRule::Counted, &budget),
        "two words… https://f.example"
    );
    let budget = ShortenBudget { limit_units: 6, link_unit_cost: 1 };
    assert_eq!(
        fit_words(text, Some("https://f.example"), LinkRule::Counted, &budget),
        "two… https://f.example"
    );
    // At one word the dropping ends, within the budget or not.
    let budget = ShortenBudget { limit_units: 5, link_unit_cost: 1 };
    assert_eq!(
        fit_words(text, Some("https://f.example"), LinkRule::Counted, &budget),
        "two… https://f.example"
    );
    for limit in [33, 40] {
        let budget = ShortenBudget { limit_units: limit, link_unit_cost: 23 };
        assert_eq!(fit_words(text, None, LinkRule::Cut, &budget), text);
    }
}

#[test]
fn bsky_text_within_budget_is_unchanged() {
    let url = Some("https://m.example/1".to_string());
    assert_eq!(bsky_post_shorten("", &url), "");
    assert_eq!(bsky_post_shorten(" short ", &url), " short ");
    let at_limit = "x".repeat(300);
    assert_eq!(bsky_post_shorten(&at_limit, &url), at_limit);
    // Fits once its link is cut: stays as it is.
    let with_link = format!("{} https://example.com/{}", "x".repeat(200), "a".repeat(200));
    assert_eq!(bsky_post_shorten(&with_link, &None), with_link);
}

#[test]
fn bsky_text_is_shortened_by_words() {
    let text = "word ".repeat(80);
    let url = Some("https://mastodon.social/@klausi/113511471780554214".to_string());
    assert_eq!(
        bsky_post_shorten(&text, &url),
        format!(
            "{}… https://mastodon.social/@klausi/113511471780554214",
            "word ".repeat(55).trim()
        )
    );
    assert_eq!(bsky_post_shorten(&text, &None), "word ".repeat(60).trim());
}

#[test]
fn post_link_takes_what_follows_the_last_slash() {
    assert_eq!(
        bsky_post_link("klau.si", "at://did:plc:i7uartkbj7ktzo4tj4rq6oyi/app.bsky.feed.post/3lb3f2ko4rc23"),
        "https://bsky.app/profile/klau.si/post/3lb3f2ko4rc23"
    );
    assert_eq!(bsky_post_link("a.b", "nokey/"), "https://bsky.app/profile/a.b/post/");
    assert_eq!(bsky_post_link("a.b", ""), "https://bsky.app/profile/a.b/post/");
    assert_eq!(bsky_post_link("a.b", "käse"), "https://bsky.app/profile/a.b/post/käse");
}

#[test]
fn record_text_writes_links_out_from_the_end() {
    let text = "ä x.y and z.w!";
    let record = PostRecord {
        text: text.to_string(),
        facets: Some(vec![
            link_facet(3, 6, "https://x.y/long"),
            tag_facet(7, 10, "and"),
            link_facet(11, 14, "https://z.w/longer"),
        ]),
        external_uri: None,
    };
    assert_eq!(
        bsky_record_get_text(&record).unwrap(),
        "ä https://x.y/long and https://z.w/longer!"
    );
    // The order of the facets does not matter.
    let record = PostRecord {
        text: text.to_string(),
        facets: Some(vec![
            link_facet(11, 14, "https://z.w/longer"),
            link_facet(3, 6, "https://x.y/long"),
        ]),
        external_uri: None,
    };
    assert_eq!(
        bsky_record_get_text(&record).unwrap(),
        "ä https://x.y/long and https://z.w/longer!"
    );
}

#[test]
fn record_text_appends_the_link_card_once() {
    let mut record = record("read this");
    record.external_uri = Some("https://example.com/a".to_string());
    assert_eq!(bsky_record_get_text(&record).unwrap(), "read this\n\nhttps://example.com/a");
    record.text = "read https://example.com/a now".to_string();
    assert_eq!(bsky_record_get_text(&record).unwrap(), "read https://example.com/a now");
}

#[test]
fn record_with_a_misplaced_facet_has_no_text() {
    let beyond = PostRecord {
        text: "short".to_string(),
        facets: Some(vec![link_facet(2, 9, "https://x.y")]),
        external_uri: None,
    };
    assert!(bsky_record_get_text(&beyond).is_none());
    let inside_a_character = PostRecord {
        text: "äb".to_string(),
        facets: Some(vec![link_facet(1, 3, "https://x.y")]),
        external_uri: None,
    };
    assert!(bsky_record_get_text(&inside_a_character).is_none());
    let backwards = PostRecord {
        text: "abcdef".to_string(),
        facets: Some(vec![link_facet(4, 2, "https://x.y")]),
        external_uri: None,
    };
    assert!(bsky_record_get_text(&backwards).is_none());
    // A misplaced hashtag does no harm.
    let tag_only = PostRecord {
        text: "short".to_string(),
        facets: Some(vec![tag_facet(2, 9, "x")]),
        external_uri: None,
    };
    assert_eq!(bsky_record_get_text(&tag_only).unwrap(), "short");

    let mut post = bsky_post("me.example", "k", beyond);
    assert!(!post_is_well_formed(&post));
    post.record = record("fine");
    assert!(post_is_well_formed(&post));
    post.embed = Some(PostEmbed::Quote(QuotedPost {
        record: backwards,
        author_handle: "x.example".to_string(),
        embeds: Vec::new(),
    }));
    assert!(!post_is_well_formed(&post));
}

#[test]
fn decode_trims_the_text_with_its_quote() {
    let mut post = bsky_post("me.example", "k", record("  my words"));
    post.embed = Some(PostEmbed::Quote(QuotedPost {
        record: record("their words  "),
        author_handle: "them.example".to_string(),
        embeds: Vec::new(),
    }));
    assert_eq!(bsky_post_unshorten_decode(&post), "my words\n\n💬 them.example: their words");
    post.embed = Some(PostEmbed::Other);
    assert_eq!(bsky_post_unshorten_decode(&post), "  my words");
}

#[test]
fn decode_shortens_for_mastodon() {
    let post = bsky_post("klau.si", "3lb3f2ko4rc23", record(&"a ".repeat(251)));
    assert_eq!(
        bsky_post_unshorten_decode(&post),
        format!("{}a… https://bsky.app/profile/klau.si/post/3lb3f2ko4rc23", "a ".repeat(237))
    );
}

#[test]
fn attachments_of_a_post_with_images() {
    let mut post = bsky_post("me.example", "k", record("pictures"));
    post.embed = Some(PostEmbed::Images(vec![
        EmbedImage { fullsize: "https://cdn.example/1".to_string(), alt: "first".to_string() },
        EmbedImage { fullsize: "https://cdn.example/2".to_string(), alt: String::new() },
    ]));
    let links = bsky_get_attachments(&post);
    assert_eq!(links.len(), 2);
    assert_eq!(links[0].attachment_url, "https://cdn.example/1");
    assert_eq!(links[0].alt_text, Some("first".to_string()));
    assert_eq!(links[1].attachment_url, "https://cdn.example/2");
    assert_eq!(links[1].alt_text, None);
    assert!(bsky_get_video_stream(&post).is_none());
    post.embed = None;
    assert!(bsky_get_attachments(&post).is_empty());
}

#[test]
fn attachments_of_a_quoted_post() {
    let mut post = bsky_post("me.example", "k", record("quote"));
    post.embed = Some(PostEmbed::Quote(QuotedPost {
        record: record("quoted"),
        author_handle: "them.example".to_string(),
        embeds: vec![
            QuoteEmbed::Other,
            QuoteEmbed::Images(vec![EmbedImage {
                fullsize: "https://cdn.example/a".to_string(),
                alt: "a".to_string(),
            }]),
            QuoteEmbed::Video("https://video.example/first.m3u8".to_string()),
            QuoteEmbed::Images(vec![EmbedImage {
                fullsize: "https://cdn.example/b".to_string(),
                alt: String::new(),
            }]),
            QuoteEmbed::Video("https://video.example/second.m3u8".to_string()),
        ],
    }));
    let links = bsky_get_attachments(&post);
    assert_eq!(links.len(), 2);
    assert_eq!(links[0].attachment_url, "https://cdn.example/a");
    assert_eq!(links[1].attachment_url, "https://cdn.example/b");
    assert_eq!(bsky_get_video_stream(&post), Some("https://video.example/first.m3u8".to_string()));
}

#[test]
fn attachments_of_a_toot() {
    let own = MediaAttachment {
        url: "https://files.example/own.png".to_string(),
        description: Some("ä".repeat(1200)),
    };
    let boosted = MediaAttachment {
        url: "https://files.example/boosted.png".to_string(),
        description: None,
    };
    let mut post = toot("<p>x</p>", "u");
    post.reblog = Some(Reblog {
        username: "other".to_string(),
        content: String::new(),
        url: None,
        media_attachments: vec![boosted],
    });
    let links = toot_get_attachments(&post);
    assert_eq!(links.len(), 1);
    assert_eq!(links[0].attachment_url, "https://files.example/boosted.png");
    assert_eq!(links[0].alt_text, None);
    post.media_attachments = vec![own];
    let links = toot_get_attachments(&post);
    assert_eq!(links.len(), 1);
    assert_eq!(links[0].attachment_url, "https://files.example/own.png");
    assert_eq!(links[0].alt_text, Some("ä".repeat(1000)));
}

#[test]
fn truncate_counts_characters() {
    assert_eq!(truncate_option_string(None, 3), None);
    assert_eq!(truncate_option_string(Some("äöüß".to_string()), 3), Some("äöü".to_string()));
    assert_eq!(truncate_option_string(Some("äöü".to_string()), 3), Some("äöü".to_string()));
    assert_eq!(truncate_option_string(Some("ab".to_string()), 3), Some("ab".to_string()));
    assert_eq!(truncate_option_string(Some("ab".to_string()), 0), Some(String::new()));
    // A character, not a grapheme cluster, is the unit.
    assert_eq!(truncate_option_string(Some("e\u{301}x".to_string()), 1), Some("e".to_string()));
}

#[test]
fn reverse_order_turns_both_lists() {
    let mut updates = StatusUpdates {
        bsky_posts: vec![status("b1"), status("b2"), status("b3")],
        toots: vec![status("t1"), status("t2")],
    };
    updates.reverse_order();
    assert_eq!(texts(&updates.bsky_posts), vec!["b3", "b2", "b1"]);
    assert_eq!(texts(&updates.toots), vec!["t2", "t1"]);
    let mut empty = StatusUpdates { bsky_posts: Vec::new(), toots: Vec::new() };
    empty.reverse_order();
    assert!(empty.bsky_posts.is_empty() && empty.toots.is_empty());
}

#[test]
fn posted_texts_are_filtered_out() {
    let cache = read_post_cache(Some(vec!["t2".to_string(), "b1".to_string()]));
    let updates = StatusUpdates {
        bsky_posts: vec![status("b1"), status("b2"), status("b1")],
        toots: vec![status("t1"), status("t2"), status("t3")],
    };
    let filtered = filter_posted_before(updates, &cache);
    assert_eq!(texts(&filtered.bsky_posts), vec!["b2"]);
    assert_eq!(texts(&filtered.toots), vec!["t1", "t3"]);
    let nothing = filter_posted_before(
        StatusUpdates { bsky_posts: Vec::new(), toots: Vec::new() },
        &cache,
    );
    assert!(nothing.bsky_posts.is_empty() && nothing.toots.is_empty());
}

#[test]
fn filter_compares_the_exact_text() {
    let cache = read_post_cache(Some(vec!["Hello".to_string()]));
    let updates = StatusUpdates {
        bsky_posts: vec![status("hello"), status("Hello "), status("Hello")],
        toots: Vec::new(),
    };
    let filtered = filter_posted_before(updates, &cache);
    assert_eq!(texts(&filtered.bsky_posts), vec!["hello", "Hello "]);
}

#[test]
fn cache_over_the_cap_is_read_as_empty() {
    let stored: Vec<String> = (0..151).map(|i| format!("text {i}")).collect();
    assert!(read_post_cache(Some(stored.clone())).is_empty());
    let cache = read_post_cache(Some(stored[..150].to_vec()));
    assert_eq!(cache.len(), 150);
    assert!(cache.contains("text 0") && cache.contains("text 149"));
    assert!(!cache.contains("text 150"));
    // Texts that occur twice count once.
    let mut doubled = stored[..150].to_vec();
    doubled.extend_from_slice(&stored[..150]);
    assert_eq!(read_post_cache(Some(doubled)).len(), 150);
    assert!(read_post_cache(None).is_empty());
    assert!(read_post_cache(Some(Vec::new())).is_empty());
}

#[test]
fn cache_records_each_text_once() {
    let mut cache = PostCache::new();
    assert!(cache.is_empty());
    assert!(!cache.contains("a"));
    assert!(cache.insert("a".to_string()));
    assert!(cache.insert("b".to_string()));
    assert!(!cache.insert("a".to_string()));
    assert_eq!(cache.len(), 2);
    assert!(cache.contains("a") && cache.contains("b") && !cache.contains("c"));
    assert_eq!(cache.texts(), &vec!["a".to_string(), "b".to_string()]);
}
