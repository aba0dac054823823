//! The length rule of a platform.

use vstd::prelude::*;

verus! {

/// How a platform counts the length of a post: a grapheme cluster is one
/// unit, a link is `link_unit_cost` units whatever its length, and a post
/// may hold `limit_units` units.
#[derive(Debug, Clone, Copy, PartialEq, Eq, Structural)]
pub struct ShortenBudget {
    pub limit_units: usize,
    pub link_unit_cost: usize,
}

/// The most units a Bluesky post may hold.
pub const BLUESKY_LIMIT: usize = 300;

/// The most units a Mastodon post may hold.
pub const MASTODON_LIMIT: usize = 500;

/// What a link counts as on either platform.
pub const LINK_COST: usize = 23;

/// The rule of Bluesky.
pub open spec fn bluesky_rule() -> ShortenBudget {
    ShortenBudget { limit_units: BLUESKY_LIMIT, link_unit_cost: LINK_COST }
}

/// The rule of Mastodon.
pub open spec fn mastodon_rule() -> ShortenBudget {
    ShortenBudget { limit_units: MASTODON_LIMIT, link_unit_cost: LINK_COST }
}

/// The rule of Bluesky: 300 units, and a link is shown in 23.
pub fn bluesky_budget() -> (budget: ShortenBudget)
    ensures
        budget == bluesky_rule(),
{
    ShortenBudget { limit_units: BLUESKY_LIMIT, link_unit_cost: LINK_COST }
}

/// The rule of Mastodon: 500 units, and a link counts as 23.
pub fn mastodon_budget() -> (budget: ShortenBudget)
    ensures
        budget == mastodon_rule(),
{
    ShortenBudget { limit_units: MASTODON_LIMIT, link_unit_cost: LINK_COST }
}

} // verus!
