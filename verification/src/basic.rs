//! A single-type cache: integer keys and string values, whose `put` reports
//! the entries it evicted as a vector.

use vstd::prelude::*;
use crate::dll;
use crate::model::CacheState;

verus! {

/// The key type of this cache.
pub type Int = i64;

/// LRU cache from `Int` keys to `String` values.
pub struct Lru {
    entries: dll::Lru<Int, String>,
    limit: usize,
}

impl View for Lru {
    type V = CacheState<Int, String>;

    closed spec fn view(&self) -> CacheState<Int, String> {
        self.entries@
    }
}

impl Lru {
    /// The entries are a well-formed cache with the same limit.
    pub closed spec fn wf(&self) -> bool {
        self.entries.wf() && self.entries@.limit == self.limit
    }

    /// A well-formed cache holds each key once, holds exactly the keys it
    /// has values for, and never holds more entries than its limit.
    pub proof fn lemma_bounded(&self)
        requires
            self.wf(),
        ensures
            self@.wf(),
            self@.len() <= self@.limit,
    {
        self.entries.lemma_bounded();
    }

    /// Create a cache that holds at most `limit` entries.
    pub fn new(limit: usize) -> (s: Self)
        ensures
            s.wf(),
            s@ == CacheState::<Int, String>::empty(limit as nat),
    {
        proof {
            assert(crate::cloning::key_type_ok::<Int>());
        }
        Lru { entries: dll::Lru::new(limit), limit }
    }

    /// True if the cache contains no entries.
    pub fn is_empty(&self) -> (r: bool)
        requires
            self.wf(),
        ensures
            r == (self@.len() == 0),
    {
        self.entries.is_empty()
    }

    /// Look up a value and promote its key to most-recently-used.
    pub fn get(&mut self, key: Int) -> (r: Option<String>)
        requires
            old(self).wf(),
        ensures
            final(self).wf(),
            (final(self)@, r) == old(self)@.lookup(key),
            r == (if old(self)@.contains(key) {
                Some(old(self)@.values[key])
            } else {
                None
            }),
    {
        let r = self.entries.get(&key);
        proof {
            crate::cloning::lemma_option_cloned_exact(old(self)@.lookup(key).1, r);
        }
        r
    }

    /// Insert or update. Returns the overwritten value, if any, and the
    /// entries evicted to make room.
    pub fn put(&mut self, key: Int, value: String) -> (r: (Option<String>, Vec<(Int, String)>))
        requires
            old(self).wf(),
        ensures
            final(self).wf(),
            final(self)@ == old(self)@.store(key, value).0,
            r.0 == old(self)@.store(key, value).1.0,
            r.1@ == (match old(self)@.store(key, value).1.1 {
                Some(e) => seq![e],
                None => Seq::empty(),
            }),
    {
        if self.limit == 0 {
            return (None, Vec::new());
        }
        proof {
            self.entries.lemma_bounded();
        }
        if self.entries.is_empty() {
            assert(!self.entries@.order.contains(key));
            self.entries.push_new(key, value);
            return (None, Vec::new());
        }
        if self.entries.contains_key(&key) {
            let replaced = self.entries.replace_value(key, value);
            (Some(replaced), Vec::new())
        } else {
            let mut evicted = Vec::new();
            if self.entries.len() == self.limit {
                if let Some(entry) = self.entries.pop_lru() {
                    evicted.push(entry);
                }
                proof {
                    self.entries.lemma_bounded();
                }
            }
            self.entries.push_new(key, value);
            (None, evicted)
        }
    }
}

} // verus!
