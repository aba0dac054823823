//! Fitting a text into the length rule of a platform by dropping words from
//! its end.

use crate::bluesky_richtext::{fit_links, fitted_links};
use crate::budget::ShortenBudget;
use crate::pattern::{find_matches, pattern_matches, pattern_replaced, replace_matches};
use crate::unicode::{count_graphemes, grapheme_count, trim, trimmed};
use vstd::prelude::*;
use vstd::string::*;

verus! {

/// A link as Mastodon counts it: the scheme and what follows up to the next
/// white space.
pub const COUNTED_LINK_PATTERN: &'static str = r"https?://\S+";

/// The last word of a text: what stands behind the last white space.
pub const LAST_WORD_PATTERN: &'static str = r"[^\s]+$";

/// The number of links that Mastodon counts in a text.
pub open spec fn link_count(text: Seq<char>) -> nat {
    match pattern_matches(COUNTED_LINK_PATTERN@, text) {
        Some(found) => found.len(),
        None => 0,
    }
}

/// A text without the links that Mastodon counts in it.
pub open spec fn without_links(text: Seq<char>) -> Seq<char> {
    match pattern_replaced(COUNTED_LINK_PATTERN@, text, 0, Seq::empty()) {
        Some(rest) => rest,
        None => text,
    }
}

/// The length of a text in units: every grapheme cluster outside the links
/// is one unit, every link is `link_unit_cost` units.
pub open spec fn units(text: Seq<char>, budget: ShortenBudget) -> nat {
    (grapheme_count(without_links(text)) + budget.link_unit_cost * link_count(text)) as nat
}

/// Decides whether a text is within a budget, every link counted at its
/// fixed cost.
pub fn within_budget(text: &str, budget: &ShortenBudget) -> (fits: bool)
    ensures
        fits == (units(text@, *budget) <= budget.limit_units),
{
    match text_units_checked(text, budget) {
        Some(length) => length <= budget.limit_units,
        None => false,
    }
}

/// The length of a text in units, where it fits into a `usize`.
fn text_units_checked(text: &str, budget: &ShortenBudget) -> (length: Option<usize>)
    ensures
        length is Some ==> length->0 == units(text@, *budget),
        length is None ==> units(text@, *budget) > usize::MAX,
{
    proof {
        reveal_strlit("");
        assert(""@ =~= Seq::<char>::empty());
    }
    let rest = match replace_matches(COUNTED_LINK_PATTERN, text, 0, "") {
        Some(rest) => count_graphemes(rest.as_str()),
        None => count_graphemes(text),
    };
    let links = match find_matches(COUNTED_LINK_PATTERN, text) {
        Some(found) => found.len(),
        None => 0,
    };
    match budget.link_unit_cost.checked_mul(links) {
        Some(cost) => rest.checked_add(cost),
        None => None,
    }
}

/// The length of a text in units, capped at the largest `usize`.
pub open spec fn capped_units(text: Seq<char>, budget: ShortenBudget) -> usize {
    if units(text, budget) <= usize::MAX {
        units(text, budget) as usize
    } else {
        usize::MAX
    }
}

/// The length of a text in units under a budget.
pub fn text_units(text: &str, budget: &ShortenBudget) -> (length: usize)
    ensures
        length == capped_units(text@, *budget),
{
    match text_units_checked(text, budget) {
        Some(length) => length,
        None => usize::MAX,
    }
}

/// How the links of a text weigh when the text is measured.
#[derive(Debug, Clone, Copy, PartialEq, Eq, Structural)]
pub enum LinkRule {
    /// Every link counts as `link_unit_cost` units, as on Mastodon.
    Counted,
    /// Links are cut where the text is too long, as on Bluesky, and the
    /// grapheme clusters of what is left are counted.
    Cut,
}

/// Whether a text is within a budget under a rule for its links.
pub open spec fn measures_within(text: Seq<char>, rule: LinkRule, budget: ShortenBudget) -> bool {
    match rule {
        LinkRule::Counted => units(text, budget) <= budget.limit_units,
        LinkRule::Cut => grapheme_count(fitted_links(text, budget).text) <= budget.limit_units,
    }
}

/// Decides whether a text is within a budget under a rule for its links.
pub fn fits_budget(text: &str, rule: LinkRule, budget: &ShortenBudget) -> (fits: bool)
    ensures
        fits == measures_within(text@, rule, *budget),
{
    match rule {
        LinkRule::Counted => within_budget(text, budget),
        LinkRule::Cut => {
            let fitted = fit_links(text, budget);
            fitted.grapheme_len() <= budget.limit_units
        },
    }
}

/// A text without its last word and without the white space around what is
/// left.
pub open spec fn without_last_word(text: Seq<char>) -> Seq<char> {
    trimmed(
        match pattern_replaced(LAST_WORD_PATTERN@, text, 0, Seq::empty()) {
            Some(rest) => rest,
            None => text,
        },
    )
}

/// A shortened text with the sign that it goes on and the link to the full
/// text, where there is one.
pub open spec fn with_fallback(text: Seq<char>, link: Option<Seq<char>>) -> Seq<char> {
    match link {
        Some(link) => text + "… "@ + link,
        None => text,
    }
}

/// Whether no word can be dropped from a text any more: it holds no white
/// space, so that nothing is left once its last word is gone (or the step
/// takes nothing away).
pub open spec fn is_last_word(shortened: Seq<char>) -> bool {
    without_last_word(shortened).len() == 0 || without_last_word(shortened).len()
        >= shortened.len()
}

/// The text that dropping words from the end of `shortened` arrives at: the
/// first one, with the fallback link behind it, that is within the budget.
/// The last word is never dropped: where no white space remains the search
/// ends with that word and the fallback link, though they are too long.
pub open spec fn words_dropped(
    shortened: Seq<char>,
    link: Option<Seq<char>>,
    rule: LinkRule,
    budget: ShortenBudget,
) -> Seq<char>
    decreases shortened.len(),
{
    let next = without_last_word(shortened);
    if is_last_word(shortened) {
        with_fallback(shortened, link)
    } else if measures_within(with_fallback(next, link), rule, budget) {
        with_fallback(next, link)
    } else {
        words_dropped(next, link, rule, budget)
    }
}

/// Whether dropping words from the end of `shortened` comes down to a
/// single word that is too long for the budget with the fallback link
/// behind it.
pub open spec fn runs_dry(
    shortened: Seq<char>,
    link: Option<Seq<char>>,
    rule: LinkRule,
    budget: ShortenBudget,
) -> bool
    decreases shortened.len(),
{
    let next = without_last_word(shortened);
    if is_last_word(shortened) {
        !measures_within(with_fallback(shortened, link), rule, budget)
    } else if measures_within(with_fallback(next, link), rule, budget) {
        false
    } else {
        runs_dry(next, link, rule, budget)
    }
}

/// The value of an optional text slice.
pub open spec fn slice_of(text: Option<&str>) -> Option<Seq<char>> {
    match text {
        Some(text) => Some(text@),
        None => None,
    }
}

/// Puts the sign that a text goes on and the fallback link behind it, where
/// a link is given.
fn append_fallback(text: &str, fallback_link: Option<&str>) -> (joined: String)
    ensures
        joined@ == with_fallback(text@, slice_of(fallback_link)),
{
    let mut joined = String::from_str(text);
    match fallback_link {
        Some(link) => {
            joined.append("… ");
            joined.append(link);
        },
        None => {},
    }
    joined
}

/// Drops the last word of `text` and again the last, until what is left,
/// followed by an ellipsis and the fallback link where one is given, is
/// within the budget. The last word stays: where no white space remains,
/// the result is that word with the fallback link, though it is longer
/// than the budget allows.
pub fn drop_words(text: &str, fallback_link: Option<&str>, rule: LinkRule, budget: &ShortenBudget) -> (fitted:
    String)
    ensures
        fitted@ == words_dropped(text@, slice_of(fallback_link), rule, *budget),
        measures_within(fitted@, rule, *budget) || runs_dry(
            text@,
            slice_of(fallback_link),
            rule,
            *budget,
        ),
{
    proof {
        reveal_strlit("");
        assert(""@ =~= Seq::<char>::empty());
    }
    let mut shortened = String::from_str(text);
    loop
        invariant
            ""@ == Seq::<char>::empty(),
            words_dropped(shortened@, slice_of(fallback_link), rule, *budget) == words_dropped(
                text@,
                slice_of(fallback_link),
                rule,
                *budget,
            ),
            runs_dry(shortened@, slice_of(fallback_link), rule, *budget) == runs_dry(
                text@,
                slice_of(fallback_link),
                rule,
                *budget,
            ),
        decreases shortened@.len(),
    {
        let rest = match replace_matches(LAST_WORD_PATTERN, shortened.as_str(), 0, "") {
            Some(rest) => rest,
            None => shortened.clone(),
        };
        let next = trim(rest.as_str());
        assert(next@ == without_last_word(shortened@));
        if next.as_str().is_empty() || next.as_str().unicode_len()
            >= shortened.as_str().unicode_len() {
            return append_fallback(shortened.as_str(), fallback_link);
        }
        let candidate = append_fallback(next.as_str(), fallback_link);
        if fits_budget(candidate.as_str(), rule, budget) {
            return candidate;
        }
        shortened = next;
    }
}

/// A text fitted into a budget by dropping words: unchanged where it is
/// within the budget, else without the white space around it and without
/// as many of its last words as have to go, the fallback link behind it.
pub open spec fn fitted_words(
    text: Seq<char>,
    link: Option<Seq<char>>,
    rule: LinkRule,
    budget: ShortenBudget,
) -> Seq<char> {
    if measures_within(text, rule, budget) {
        text
    } else {
        words_dropped(trimmed(text), link, rule, budget)
    }
}

/// Fits a text into a budget by dropping words from its end. A text within
/// the budget comes back unchanged. The result is within the budget unless
/// the text came down to a single word that is too long: that word is never
/// dropped.
pub fn fit_words(text: &str, fallback_link: Option<&str>, rule: LinkRule, budget: &ShortenBudget) -> (fitted:
    String)
    ensures
        fitted@ == fitted_words(text@, slice_of(fallback_link), rule, *budget),
        measures_within(text@, rule, *budget) ==> fitted@ == text@,
        measures_within(fitted@, rule, *budget) || runs_dry(
            trimmed(text@),
            slice_of(fallback_link),
            rule,
            *budget,
        ),
{
    if fits_budget(text, rule, budget) {
        return String::from_str(text);
    }
    let shortened = trim(text);
    drop_words(shortened.as_str(), fallback_link, rule, budget)
}

/// Fitting by words leaves a text that is within the budget as it is,
/// whatever the budget and the rule for links.
pub proof fn law_fitting_keeps_what_fits(
    text: Seq<char>,
    link: Option<Seq<char>>,
    rule: LinkRule,
    budget: ShortenBudget,
)
    requires
        measures_within(text, rule, budget),
    ensures
        fitted_words(text, link, rule, budget) == text,
{
}

/// A text that holds no more grapheme clusters than the budget allows is
/// within the budget under the rule that cuts links: nothing is cut from
/// it.
pub proof fn law_short_text_is_not_cut(text: Seq<char>, budget: ShortenBudget)
    requires
        grapheme_count(text) <= budget.limit_units,
    ensures
        fitted_links(text, budget).text == text,
        measures_within(text, LinkRule::Cut, budget),
{
}

/// Dropping words ends within the budget, unless it comes down to a single
/// word that is too long.
pub proof fn lemma_words_dropped_fits_or_runs_dry(
    shortened: Seq<char>,
    link: Option<Seq<char>>,
    rule: LinkRule,
    budget: ShortenBudget,
)
    ensures
        measures_within(words_dropped(shortened, link, rule, budget), rule, budget) || runs_dry(
            shortened,
            link,
            rule,
            budget,
        ),
    decreases shortened.len(),
{
    let next = without_last_word(shortened);
    if !is_last_word(shortened) && !measures_within(with_fallback(next, link), rule, budget) {
        lemma_words_dropped_fits_or_runs_dry(next, link, rule, budget);
    }
}

/// What fitting by words gives is within the budget, except where the text
/// came down to a single word that, with the fallback link behind it, is
/// too long.
pub proof fn law_fitting_reaches_the_budget(
    text: Seq<char>,
    link: Option<Seq<char>>,
    rule: LinkRule,
    budget: ShortenBudget,
)
    ensures
        measures_within(fitted_words(text, link, rule, budget), rule, budget) || runs_dry(
            trimmed(text),
            link,
            rule,
            budget,
        ),
{
    lemma_words_dropped_fits_or_runs_dry(trimmed(text), link, rule, budget);
}

} // verus!
