//! Decides which status updates still have to be copied between a Mastodon
//! timeline and a Bluesky timeline, and fits their text into each platform's
//! length rule.

pub mod bluesky_richtext;
pub mod budget;
pub mod delete_favs;
pub mod fitting;
pub mod pattern;
pub mod post;
pub mod post_cache;
pub mod sync;
pub mod text;
pub mod unicode;
