//! LRU cache with O(log N) operations: a hash map from key to value and
//! sequence number, and an ordered map from sequence number back to key.
//!
//! Every use of a key stamps it with the next sequence number, so the
//! smallest number in the ordered map belongs to the least recently used
//! key.

use std::collections::{BTreeMap, HashMap};
use std::hash::Hash;
use vstd::prelude::*;
use crate::cloning::{exact_clone, key_type_ok, option_cloned};
use crate::model::{lemma_index_of_distinct, promote, CacheState};

verus! {

/// What the hash map holds for a key: its value and the sequence number of
/// its last use.
struct Entry<V> {
    value: V,
    seq: u64,
}

/// The least key of `m`, if it has one.
///
/// Trusted: calls `BTreeMap::first_key_value`, which is documented to return
/// the entry with the minimum key, and `None` when the map is empty.
#[verifier::external_body]
fn first_key<T>(m: &BTreeMap<u64, T>) -> (r: Option<u64>)
    ensures
        match r {
            None => m@.dom() == Set::<u64>::empty(),
            Some(s) => m@.contains_key(s) && forall|t: u64| #[trigger] m@.contains_key(t) ==> s <= t,
        },
{
    m.first_key_value().map(|(s, _)| *s)
}

/// LRU cache that orders keys by the sequence number of their last use.
#[verifier::reject_recursive_types(K)]
#[verifier::reject_recursive_types(V)]
pub struct Lru<K: Clone + Eq + Hash, V: Clone> {
    limit: usize,
    data: HashMap<K, Entry<V>>,
    lru: BTreeMap<u64, K>,
    seq: u64,
    /// The keys of `data` by increasing sequence number.
    order: Ghost<Seq<K>>,
}

impl<K: Clone + Eq + Hash, V: Clone> View for Lru<K, V> {
    type V = CacheState<K, V>;

    closed spec fn view(&self) -> CacheState<K, V> {
        CacheState {
            order: self.order@,
            values: self.data@.map_values(|e: Entry<V>| e.value),
            limit: self.limit as nat,
        }
    }
}

impl<K: Clone + Eq + Hash, V: Clone> Lru<K, V> {
    /// The sequence number last handed out. Each use of a key takes the
    /// next one.
    pub closed spec fn clock(&self) -> u64 {
        self.seq
    }

    /// The sequence number of the key at position `i` of the order.
    closed spec fn stamp(&self, i: int) -> u64 {
        self.data@[self.order@[i]].seq
    }

    /// The cache's invariant: `order` lists the keys of `data` by
    /// increasing sequence number, `lru` maps each sequence number in use
    /// back to its key, and there are no more entries than the limit.
    pub closed spec fn wf(&self) -> bool {
        let o = self.order@;
        &&& key_type_ok::<K>()
        &&& o.no_duplicates()
        &&& forall|k: K| #[trigger] self.data@.contains_key(k) <==> o.contains(k)
        &&& forall|i: int, j: int|
            0 <= i < j < o.len() ==> #[trigger] self.stamp(i) < #[trigger] self.stamp(j)
        &&& forall|k: K| #[trigger]
            self.data@.contains_key(k) ==> {
                let s = self.data@[k].seq;
                &&& s <= self.seq
                &&& self.lru@.contains_key(s)
                &&& self.lru@[s] == k
            }
        &&& forall|s: u64| #[trigger]
            self.lru@.contains_key(s) ==> self.data@.contains_key(self.lru@[s])
                && self.data@[self.lru@[s]].seq == s
        &&& o.len() <= self.limit
    }

    proof fn lemma_view_wf(&self)
        requires
            self.wf(),
        ensures
            self@.wf(),
            self.data@.len() == self.order@.len(),
    {
        assert(self.data@.dom() =~= self.order@.to_set());
        self.order@.unique_seq_to_set();
    }


    /// Stamp `key` with the next sequence number: move its `lru` entry, or
    /// add one when the key has no entry yet.
    fn hit(&mut self, key: &K)
        requires
            old(self).seq < u64::MAX,
            key_type_ok::<K>(),
        ensures
            final(self).seq == old(self).seq + 1,
            final(self).limit == old(self).limit,
            final(self).order == old(self).order,
            old(self).data@.contains_key(*key) ==> {
                let e = old(self).data@[*key];
                &&& final(self).data@ == old(self).data@.insert(
                    *key,
                    Entry { value: e.value, seq: final(self).seq },
                )
                &&& final(self).lru@ == old(self).lru@.remove(e.seq).insert(final(self).seq, *key)
            },
            !old(self).data@.contains_key(*key) ==> {
                &&& final(self).data@ == old(self).data@
                &&& final(self).lru@ == old(self).lru@.insert(final(self).seq, *key)
            },
    {
        self.seq = self.seq + 1;
        match self.data.get(key) {
            Some(entry) => {
                let seq = entry.seq;
                self.lru.remove(&seq);
            },
            None => {},
        }
        self.lru.insert(self.seq, exact_clone(key));
        match self.data.remove(key) {
            Some(entry) => {
                let updated = Entry { value: entry.value, seq: self.seq };
                self.data.insert(exact_clone(key), updated);
            },
            None => {},
        }
    }

    /// Look up a value and promote its key to most-recently-used.
    pub fn get(&mut self, key: &K) -> (r: Option<V>)
        requires
            old(self).wf(),
            old(self).clock() < u64::MAX || !old(self)@.contains(*key),
        ensures
            final(self).wf(),
            final(self)@ == old(self)@.lookup(*key).0,
            option_cloned(old(self)@.lookup(*key).1, r),
            old(self)@.contains(*key) ==> r is Some && vstd::pervasive::cloned(
                old(self)@.values[*key],
                r.unwrap(),
            ),
            !old(self)@.contains(*key) ==> r is None,
            r is None ==> *final(self) == *old(self),
            final(self).clock() == (if r is Some {
                old(self).clock() + 1
            } else {
                old(self).clock() as int
            }),
    {
        let value = match self.data.get(key) {
            Some(entry) => entry.value.clone(),
            None => {
                return None;
            },
        };
        let ghost o = self.order@;
        let ghost i = choose|i: int| 0 <= i < o.len() && o[i] == *key;
        proof {
            lemma_index_of_distinct(o, i);
        }
        self.hit(key);
        proof {
            self.order@ = o.remove(i).push(*key);
            self.lemma_promoted(old(self), i);
        }
        Some(value)
    }


    /// Insert or update. Returns (overwritten value, evicted entry).
    pub fn put(&mut self, key: K, value: V) -> (r: (Option<V>, Option<(K, V)>))
        requires
            old(self).wf(),
            old(self)@.limit == 0 || old(self).clock() < u64::MAX,
        ensures
            final(self).wf(),
            (final(self)@, r) == old(self)@.store(key, value),
            final(self).clock() == (if old(self)@.limit == 0 {
                old(self).clock() as int
            } else {
                old(self).clock() + 1
            }),
    {
        if self.limit == 0 {
            return (None, None);
        }
        proof {
            self.lemma_view_wf();
        }
        let ghost key0 = key;
        let ghost o = self.order@;
        if !self.data.contains_key(&key) {
            let evicted = if self.data.len() == self.limit {
                proof {
                    assert(o.contains(o[0]));
                    assert(self.data@.contains_key(o[0]));
                    assert(self.lru@.dom().contains(self.data@[o[0]].seq));
                }
                let seq = first_key(&self.lru).unwrap();
                let ghost lru0 = self.order@[0];
                proof {
                    assert(self.data@.contains_key(lru0));
                    let s0 = self.data@[lru0].seq;
                    assert(self.lru@.contains_key(s0));
                    let kmin = self.lru@[seq];
                    assert(self.data@.contains_key(kmin));
                    let a = choose|a: int| 0 <= a < o.len() && o[a] == kmin;
                    if a != 0 {
                        assert(self.stamp(0) < self.stamp(a));
                    }
                    assert(kmin == lru0);
                }
                let removed = match self.lru.remove(&seq) {
                    Some(k) => match self.data.remove(&k) {
                        Some(entry) => Some((k, entry.value)),
                        None => None,
                    },
                    None => None,
                };
                proof {
                    self.order@ = o.drop_first();
                    self.lemma_dropped_first(old(self));
                }
                removed
            } else {
                None
            };
            let ghost mid = *self;
            self.hit(&key);
            let seq = self.seq;
            self.data.insert(key, Entry { value, seq });
            proof {
                self.order@ = mid.order@.push(key0);
                self.lemma_appended(&mid, key0);
                if evicted is Some {
                    assert(self@.values =~= old(self)@.values.remove(o[0]).insert(key0, value));
                } else {
                    assert(self@.values =~= old(self)@.values.insert(key0, value));
                }
            }
            (None, evicted)
        } else {
            let ghost i = choose|i: int| 0 <= i < o.len() && o[i] == key0;
            proof {
                lemma_index_of_distinct(o, i);
            }
            self.hit(&key);
            proof {
                self.order@ = o.remove(i).push(key0);
                self.lemma_promoted(old(self), i);
            }
            let ghost promoted = *self;
            let removed = match self.data.remove(&key) {
                Some(entry) => Some(entry.value),
                None => None,
            };
            let seq = self.seq;
            self.data.insert(key, Entry { value, seq });
            proof {
                assert(self.data@ == promoted.data@.insert(
                    key0,
                    Entry { value, seq: promoted.data@[key0].seq },
                ));
                self.lemma_value_replaced(&promoted, key0);
                assert(self@.values =~= old(self)@.values.insert(key0, value));
            }
            (removed, None)
        }
    }

    /// Removing the first key of the order, and its two map entries, keeps
    /// the invariant.
    proof fn lemma_dropped_first(&self, before: &Self)
        requires
            before.wf(),
            before.order@.len() > 0,
            self.order@ == before.order@.drop_first(),
            self.data@ == before.data@.remove(before.order@[0]),
            self.lru@ == before.lru@.remove(before.data@[before.order@[0]].seq),
            self.seq == before.seq,
            self.limit == before.limit,
        ensures
            self.wf(),
    {
        let o = before.order@;
        let k = o[0];
        let no = self.order@;
        assert(before.data@.contains_key(k));
        assert forall|a: int, b: int| 0 <= a < b < no.len() implies #[trigger] self.stamp(a)
            < #[trigger] self.stamp(b) by {
            assert(no[a] == o[a + 1]);
            assert(no[b] == o[b + 1]);
            assert(before.stamp(a + 1) < before.stamp(b + 1));
        }
        assert forall|x: K| #[trigger] self.data@.contains_key(x) <==> no.contains(x) by {
            if no.contains(x) {
                let a = choose|a: int| 0 <= a < no.len() && no[a] == x;
                assert(o[a + 1] == x);
            }
            if self.data@.contains_key(x) {
                let a = choose|a: int| 0 <= a < o.len() && o[a] == x;
                assert(no[a - 1] == x);
            }
        }
        assert forall|x: K| #[trigger] self.data@.contains_key(x) implies ({
            let s = self.data@[x].seq;
            &&& s <= self.seq
            &&& self.lru@.contains_key(s)
            &&& self.lru@[s] == x
        }) by {
            assert(before.data@.contains_key(x));
            assert(before.data@[x].seq != before.data@[k].seq);
        }
        assert forall|s: u64| #[trigger] self.lru@.contains_key(s) implies self.data@.contains_key(
            self.lru@[s],
        ) && self.data@[self.lru@[s]].seq == s by {
            assert(before.lru@.contains_key(s));
            assert(before.data@.contains_key(before.lru@[s]));
        }
    }

    /// Adding a new key, stamped with the next sequence number, at the end of
    /// the order keeps the invariant, when there was room for it.
    proof fn lemma_appended(&self, before: &Self, k: K)
        requires
            before.wf(),
            !before.data@.contains_key(k),
            before.order@.len() < before.limit,
            self.seq == before.seq + 1,
            self.limit == before.limit,
            self.order@ == before.order@.push(k),
            self.lru@ == before.lru@.insert(self.seq, k),
            self.data@.contains_key(k),
            self.data@[k].seq == self.seq,
            forall|x: K| x != k ==> #[trigger] self.data@.contains_key(x) == before.data@.contains_key(x),
            forall|x: K| x != k && before.data@.contains_key(x) ==> #[trigger] self.data@[x] == before.data@[x],
        ensures
            self.wf(),
    {
        let o = before.order@;
        let no = self.order@;
        assert forall|a: int, b: int| 0 <= a < b < no.len() implies #[trigger] self.stamp(a)
            < #[trigger] self.stamp(b) by {
            assert(no[a] == o[a]);
            assert(before.data@.contains_key(o[a]));
            if b + 1 < no.len() {
                assert(no[b] == o[b]);
                assert(before.data@.contains_key(o[b]));
                assert(before.stamp(a) < before.stamp(b));
            }
        }
        assert forall|x: K| #[trigger] self.data@.contains_key(x) <==> no.contains(x) by {
            if no.contains(x) && x != k {
                let a = choose|a: int| 0 <= a < no.len() && no[a] == x;
                assert(o[a] == x);
            }
            if self.data@.contains_key(x) && x != k {
                let a = choose|a: int| 0 <= a < o.len() && o[a] == x;
                assert(no[a] == x);
            }
            if x == k {
                assert(no[no.len() - 1] == x);
            }
        }
        assert forall|a: int, b: int| 0 <= a < b < no.len() implies no[a] != no[b] by {
            if b == no.len() - 1 {
                assert(before.data@.contains_key(o[a]));
            }
        }
        assert forall|x: K| #[trigger] self.data@.contains_key(x) implies ({
            let s = self.data@[x].seq;
            &&& s <= self.seq
            &&& self.lru@.contains_key(s)
            &&& self.lru@[s] == x
        }) by {
            if x != k {
                assert(before.data@.contains_key(x));
            }
        }
        assert forall|s: u64| #[trigger] self.lru@.contains_key(s) implies self.data@.contains_key(
            self.lru@[s],
        ) && self.data@[self.lru@[s]].seq == s by {
            if s != self.seq {
                assert(before.lru@.contains_key(s));
                assert(before.data@.contains_key(before.lru@[s]));
            }
        }
    }

    /// Replacing the value stored under a present key keeps the invariant.
    proof fn lemma_value_replaced(&self, before: &Self, k: K)
        requires
            before.wf(),
            before.data@.contains_key(k),
            self.seq == before.seq,
            self.limit == before.limit,
            self.order == before.order,
            self.lru == before.lru,
            self.data@.dom() == before.data@.dom(),
            forall|x: K| #[trigger] self.data@.contains_key(x) ==> self.data@[x].seq == before.data@[x].seq,
        ensures
            self.wf(),
    {
        assert forall|a: int, b: int| 0 <= a < b < self.order@.len() implies #[trigger] self.stamp(a)
            < #[trigger] self.stamp(b) by {
            assert(before.stamp(a) < before.stamp(b));
            assert(before.data@.contains_key(self.order@[a]));
            assert(before.data@.contains_key(self.order@[b]));
        }
        assert forall|x: K| #[trigger] self.data@.contains_key(x) <==> self.order@.contains(x) by {
            assert(before.data@.contains_key(x) == self.data@.contains_key(x));
        }
        assert forall|x: K| #[trigger] self.data@.contains_key(x) implies ({
            let s = self.data@[x].seq;
            &&& s <= self.seq
            &&& self.lru@.contains_key(s)
            &&& self.lru@[s] == x
        }) by {
            assert(before.data@.contains_key(x));
        }
        assert forall|s: u64| #[trigger] self.lru@.contains_key(s) implies self.data@.contains_key(
            self.lru@[s],
        ) && self.data@[self.lru@[s]].seq == s by {
            assert(before.lru@.contains_key(s));
            assert(before.data@.contains_key(before.lru@[s]));
        }
    }

    /// After `hit` on the key at position `i`, with that key moved to the
    /// end of the order, the invariant holds again.
    proof fn lemma_promoted(&self, before: &Self, i: int)
        requires
            before.wf(),
            0 <= i < before.order@.len(),
            self.seq == before.seq + 1,
            self.limit == before.limit,
            self.order@ == before.order@.remove(i).push(before.order@[i]),
            ({
                let k = before.order@[i];
                let e = before.data@[k];
                &&& self.data@ == before.data@.insert(k, Entry { value: e.value, seq: self.seq })
                &&& self.lru@ == before.lru@.remove(e.seq).insert(self.seq, k)
            }),
        ensures
            self.wf(),
            self@.values == before@.values,
    {
        let o = before.order@;
        let k = o[i];
        let no = self.order@;
        assert(before.data@.contains_key(k));
        assert forall|a: int, b: int| 0 <= a < b < no.len() implies #[trigger] self.stamp(a)
            < #[trigger] self.stamp(b) by {
            let a0 = if a < i { a } else { a + 1 };
            assert(no[a] == o[a0]);
            assert(before.data@.contains_key(o[a0]));
            assert(o[a0] != k);
            if b + 1 < no.len() {
                let b0 = if b < i { b } else { b + 1 };
                assert(no[b] == o[b0]);
                assert(o[b0] != k);
                assert(before.stamp(a0) < before.stamp(b0));
            }
        }
        assert forall|x: K| #[trigger] self.data@.contains_key(x) <==> no.contains(x) by {
            if no.contains(x) && x != k {
                let a = choose|a: int| 0 <= a < no.len() && no[a] == x;
                if a < i {
                    assert(o[a] == x);
                } else {
                    assert(o[a + 1] == x);
                }
            }
            if self.data@.contains_key(x) && x != k {
                let a = choose|a: int| 0 <= a < o.len() && o[a] == x;
                if a < i {
                    assert(no[a] == x);
                } else {
                    assert(no[a - 1] == x);
                }
            }
            if x == k {
                assert(no[no.len() - 1] == x);
            }
        }
        assert forall|x: K| #[trigger] self.data@.contains_key(x) implies ({
            let s = self.data@[x].seq;
            &&& s <= self.seq
            &&& self.lru@.contains_key(s)
            &&& self.lru@[s] == x
        }) by {
            if x != k {
                assert(before.data@.contains_key(x));
                assert(before.data@[x].seq != before.data@[k].seq);
            }
        }
        assert forall|s: u64| #[trigger] self.lru@.contains_key(s) implies self.data@.contains_key(
            self.lru@[s],
        ) && self.data@[self.lru@[s]].seq == s by {
            if s != self.seq {
                assert(before.lru@.contains_key(s));
                assert(before.data@.contains_key(before.lru@[s]));
            }
        }
        assert(self@.values =~= before@.values);
    }

    /// A well-formed cache holds each key once, holds exactly the keys it
    /// has values for, and never holds more entries than its limit.
    pub proof fn lemma_bounded(&self)
        requires
            self.wf(),
        ensures
            self@.wf(),
            self@.len() <= self@.limit,
    {
        self.lemma_view_wf();
    }

    /// Create a cache that holds at most `limit` entries.
    pub fn new(limit: usize) -> (s: Self)
        requires
            key_type_ok::<K>(),
        ensures
            s.wf(),
            s@ == CacheState::<K, V>::empty(limit as nat),
            s.clock() == 0,
    {
        let s = Lru {
            limit,
            data: HashMap::new(),
            lru: BTreeMap::new(),
            seq: 0,
            order: Ghost(Seq::empty()),
        };
        assert(s@.values =~= Map::<K, V>::empty());
        s
    }
}

} // verus!
