//! The texts that were posted before, kept so that nothing is posted twice.

use vstd::prelude::*;
use vstd::string::*;

verus! {

/// The most texts that a cache may hold when it is read.
pub const POST_CACHE_CAP: usize = 150;

/// A set of texts. No text is held twice.
#[derive(Debug)]
pub struct PostCache {
    entries: Vec<String>,
}

impl View for PostCache {
    type V = Seq<Seq<char>>;

    closed spec fn view(&self) -> Seq<Seq<char>> {
        self.entries@.map_values(|text: String| text@)
    }
}

/// The texts of a list without those that occurred before in it.
pub open spec fn distinct(texts: Seq<Seq<char>>) -> Seq<Seq<char>>
    decreases texts.len(),
{
    if texts.len() == 0 {
        seq![]
    } else {
        let earlier = distinct(texts.drop_last());
        if earlier.contains(texts.last()) {
            earlier
        } else {
            earlier.push(texts.last())
        }
    }
}

/// The values of a list of texts.
pub open spec fn text_views(texts: Seq<String>) -> Seq<Seq<char>> {
    texts.map_values(|text: String| text@)
}

impl PostCache {
    /// No text is held twice.
    #[verifier::type_invariant]
    closed spec fn holds_each_once(&self) -> bool {
        self@.no_duplicates()
    }

    /// The empty cache.
    pub fn new() -> (cache: PostCache)
        ensures
            cache@ == Seq::<Seq<char>>::empty(),
    {
        let entries: Vec<String> = Vec::new();
        assert(entries@.map_values(|text: String| text@) =~= Seq::<Seq<char>>::empty());
        PostCache { entries }
    }

    /// The number of texts held.
    pub fn len(&self) -> (len: usize)
        ensures
            len == self@.len(),
    {
        self.entries.len()
    }

    /// Whether no text is held.
    pub fn is_empty(&self) -> (empty: bool)
        ensures
            empty == (self@.len() == 0),
    {
        self.entries.len() == 0
    }

    /// Whether `text` is held.
    pub fn contains(&self, text: &str) -> (held: bool)
        ensures
            held == self@.contains(text@),
    {
        let wanted = String::from_str(text);
        let mut i: usize = 0;
        while i < self.entries.len()
            invariant
                i <= self.entries@.len(),
                wanted@ == text@,
                forall|k: int| 0 <= k < i ==> self@[k] != text@,
            decreases self.entries@.len() - i,
        {
            if self.entries[i] == wanted {
                assert(self@[i as int] == text@);
                return true;
            }
            i += 1;
        }
        false
    }

    /// Records `text`, unless it is held already. Returns whether it was
    /// new.
    pub fn insert(&mut self, text: String) -> (added: bool)
        ensures
            added == !old(self)@.contains(text@),
            added ==> final(self)@ == old(self)@.push(text@),
            !added ==> final(self)@ == old(self)@,
            final(self)@.no_duplicates(),
    {
        proof {
            use_type_invariant(&*self);
        }
        if self.contains(text.as_str()) {
            false
        } else {
            let ghost before = self@;
            let mut taken = PostCache::new();
            core::mem::swap(self, &mut taken);
            let PostCache { mut entries } = taken;
            entries.push(text);
            assert(entries@.map_values(|text: String| text@) =~= before.push(text@));
            *self = PostCache { entries };
            true
        }
    }

    /// The texts held, each once, in the order in which they were recorded.
    pub fn texts(&self) -> (texts: &Vec<String>)
        ensures
            text_views(texts@) == self@,
            text_views(texts@).no_duplicates(),
    {
        proof {
            use_type_invariant(self);
        }
        &self.entries
    }
}

/// The cache that a list of texts gives: empty where the list holds more
/// than `POST_CACHE_CAP` different texts, else those texts.
pub open spec fn cache_of(texts: Seq<Seq<char>>) -> Seq<Seq<char>> {
    if distinct(texts).len() > POST_CACHE_CAP {
        seq![]
    } else {
        distinct(texts)
    }
}

} // verus!
