//! The abstract behaviour shared by every cache in this crate.
//!
//! A cache is a sequence of keys in eviction order (the first is the next to
//! be evicted, the last the most recently used), the value stored for each of
//! those keys, and the most entries it may hold.

use vstd::prelude::*;

verus! {

/// What a cache holds, as mathematics.
#[verifier::reject_recursive_types(K)]
pub struct CacheState<K, V> {
    /// Keys from least to most recently used.
    pub order: Seq<K>,
    /// The value stored under each key.
    pub values: Map<K, V>,
    /// The most entries the cache may hold.
    pub limit: nat,
}

/// `order` with `k` taken out of its place and put last.
pub open spec fn promote<K>(order: Seq<K>, k: K) -> Seq<K> {
    order.remove(order.index_of(k)).push(k)
}

impl<K, V> CacheState<K, V> {
    /// The cache with nothing in it.
    pub open spec fn empty(limit: nat) -> Self {
        CacheState { order: Seq::empty(), values: Map::empty(), limit }
    }

    /// Keys are distinct, exactly the keys of `values`, and no more than
    /// `limit` of them.
    pub open spec fn wf(self) -> bool {
        &&& self.order.no_duplicates()
        &&& forall|k: K|
            #![trigger self.values.contains_key(k)]
            #![trigger self.order.contains(k)]
            self.values.contains_key(k) <==> self.order.contains(k)
        &&& self.order.len() <= self.limit
    }

    /// Number of entries.
    pub open spec fn len(self) -> nat {
        self.order.len()
    }

    pub open spec fn contains(self, k: K) -> bool {
        self.values.contains_key(k)
    }

    /// Looking up `k`: its value, if present, and `k` becomes the most
    /// recently used key.
    pub open spec fn lookup(self, k: K) -> (Self, Option<V>) {
        if self.contains(k) {
            (
                CacheState { order: promote(self.order, k), values: self.values, limit: self.limit },
                Some(self.values[k]),
            )
        } else {
            (self, None)
        }
    }

    /// Storing `v` under `k`. The result is the value that was overwritten,
    /// and the entry that was evicted to make room.
    ///
    /// With a limit of zero nothing is stored. A present key gets the new
    /// value and becomes most recently used. A new key, when the cache is
    /// full, first evicts the least recently used entry.
    pub open spec fn store(self, k: K, v: V) -> (Self, (Option<V>, Option<(K, V)>)) {
        if self.limit == 0 {
            (self, (None, None))
        } else if self.contains(k) {
            (
                CacheState {
                    order: promote(self.order, k),
                    values: self.values.insert(k, v),
                    limit: self.limit,
                },
                (Some(self.values[k]), None),
            )
        } else if self.len() >= self.limit {
            let lru = self.order[0];
            (
                CacheState {
                    order: self.order.drop_first().push(k),
                    values: self.values.remove(lru).insert(k, v),
                    limit: self.limit,
                },
                (None, Some((lru, self.values[lru]))),
            )
        } else {
            (
                CacheState {
                    order: self.order.push(k),
                    values: self.values.insert(k, v),
                    limit: self.limit,
                },
                (None, None),
            )
        }
    }
}

/// In a sequence without duplicates, the element at `i` is found at `i`.
pub proof fn lemma_index_of_distinct<A>(s: Seq<A>, i: int)
    requires
        s.no_duplicates(),
        0 <= i < s.len(),
    ensures
        s.index_of(s[i]) == i,
{
    let j = s.index_of(s[i]);
    assert(0 <= j < s.len() && s[j] == s[i]);
}

/// Facts about `promote` on a sequence without duplicates: the element at
/// `i` moves to the end and the others keep their order.
pub proof fn lemma_promote<A>(s: Seq<A>, i: int)
    requires
        s.no_duplicates(),
        0 <= i < s.len(),
    ensures
        promote(s, s[i]) == s.remove(i).push(s[i]),
        promote(s, s[i]).len() == s.len(),
        promote(s, s[i]).no_duplicates(),
        promote(s, s[i]).last() == s[i],
        forall|x: A| promote(s, s[i]).contains(x) <==> s.contains(x),
{
    lemma_index_of_distinct(s, i);
    let p = s.remove(i).push(s[i]);
    assert forall|a: int, b: int| 0 <= a < b < p.len() implies p[a] != p[b] by {
        let a0 = if a < i { a } else { a + 1 };
        assert(p[a] == s[a0]);
        if b + 1 < p.len() {
            let b0 = if b < i { b } else { b + 1 };
            assert(p[b] == s[b0]);
        }
    }
    assert forall|x: A| p.contains(x) <==> s.contains(x) by {
        if p.contains(x) {
            let a = choose|a: int| 0 <= a < p.len() && p[a] == x;
            if a + 1 == p.len() {
                assert(s[i] == x);
            } else if a < i {
                assert(s[a] == x);
            } else {
                assert(s[a + 1] == x);
            }
        }
        if s.contains(x) {
            let a = choose|a: int| 0 <= a < s.len() && s[a] == x;
            if a < i {
                assert(p[a] == x);
            } else if a > i {
                assert(p[a - 1] == x);
            } else {
                assert(p[p.len() - 1] == x);
            }
        }
    }
}

/// Looking up and storing keep a cache well formed: its keys stay
/// distinct, match its values, and never outnumber its limit.
pub proof fn lemma_operations_keep_wf<K, V>(s: CacheState<K, V>, k: K, v: V)
    requires
        s.wf(),
    ensures
        s.lookup(k).0.wf(),
        s.store(k, v).0.wf(),
        s.store(k, v).0.len() <= s.limit,
        s.store(k, v).0.limit == s.limit,
        s.lookup(k).0.limit == s.limit,
{
    let o = s.order;
    if s.contains(k) {
        let i = choose|i: int| 0 <= i < o.len() && o[i] == k;
        lemma_promote(o, i);
    }
    if s.limit > 0 && !s.contains(k) {
        let n = s.store(k, v).0;
        if s.len() >= s.limit {
            let d = o.drop_first();
            assert(o.contains(o[0]));
            assert forall|a: int, b: int| 0 <= a < b < n.order.len() implies n.order[a]
                != n.order[b] by {
                if b + 1 < n.order.len() {
                    assert(o[a + 1] != o[b + 1]);
                } else {
                    assert(o.contains(o[a + 1]));
                }
            }
            assert forall|x: K| n.values.contains_key(x) <==> n.order.contains(x) by {
                if n.order.contains(x) && x != k {
                    let a = choose|a: int| 0 <= a < n.order.len() && n.order[a] == x;
                    assert(o[a + 1] == x);
                    assert(o[0] != o[a + 1]);
                }
                if n.values.contains_key(x) && x != k {
                    let a = choose|a: int| 0 <= a < o.len() && o[a] == x;
                    assert(a != 0);
                    assert(n.order[a - 1] == x);
                }
                if x == k {
                    assert(n.order[n.order.len() - 1] == k);
                }
            }
        } else {
            assert forall|a: int, b: int| 0 <= a < b < n.order.len() implies n.order[a]
                != n.order[b] by {
                if b + 1 == n.order.len() {
                    assert(o.contains(o[a]));
                }
            }
            assert forall|x: K| n.values.contains_key(x) <==> n.order.contains(x) by {
                if n.order.contains(x) && x != k {
                    let a = choose|a: int| 0 <= a < n.order.len() && n.order[a] == x;
                    assert(o[a] == x);
                }
                if n.values.contains_key(x) && x != k {
                    let a = choose|a: int| 0 <= a < o.len() && o[a] == x;
                    assert(n.order[a] == x);
                }
                if x == k {
                    assert(n.order[n.order.len() - 1] == k);
                }
            }
        }
    }
}

/// What is stored under a key is what a lookup of that key gives back,
/// unless the limit is zero.
pub proof fn lemma_get_after_put<K, V>(s: CacheState<K, V>, k: K, v: V)
    requires
        s.wf(),
        s.limit > 0,
    ensures
        s.store(k, v).0.lookup(k).1 == Some(v),
{
    lemma_operations_keep_wf(s, k, v);
}

/// Storing under a key changes no other key's value and, unless it
/// evicts, keeps every other key.
pub proof fn lemma_put_keeps_others<K, V>(s: CacheState<K, V>, k: K, v: V, x: K)
    requires
        s.wf(),
        x != k,
        s.contains(x),
        s.store(k, v).1.1 is None,
    ensures
        s.store(k, v).0.contains(x),
        s.store(k, v).0.values[x] == s.values[x],
{
}

/// With a limit of zero, storing changes nothing and reports nothing: the
/// cache stays empty.
pub proof fn lemma_zero_limit_stores_nothing<K, V>(s: CacheState<K, V>, k: K, v: V)
    requires
        s.wf(),
        s.limit == 0,
    ensures
        s.store(k, v) == (s, (None::<V>, None::<(K, V)>)),
        s.len() == 0,
{
}

/// Storing under a cached key gives back the value it replaces, evicts
/// nothing, and leaves the number of entries unchanged.
pub proof fn lemma_update_returns_old_value<K, V>(s: CacheState<K, V>, k: K, v: V)
    requires
        s.wf(),
        s.limit > 0,
        s.contains(k),
    ensures
        s.store(k, v).1 == (Some(s.values[k]), None::<(K, V)>),
        s.store(k, v).0.len() == s.len(),
        s.store(k, v).0.order.last() == k,
{
    let i = choose|i: int| 0 <= i < s.order.len() && s.order[i] == k;
    lemma_promote(s.order, i);
}

/// A new key stored in a cache that is not full evicts nothing and adds one
/// entry, the most recently used.
pub proof fn lemma_insert_with_room<K, V>(s: CacheState<K, V>, k: K, v: V)
    requires
        s.wf(),
        !s.contains(k),
        s.len() < s.limit,
    ensures
        s.store(k, v).1 == (None::<V>, None::<(K, V)>),
        s.store(k, v).0.len() == s.len() + 1,
        s.store(k, v).0.order.last() == k,
{
}

/// A full cache asked to store a new key evicts the least recently used
/// entry, and only that one.
pub proof fn lemma_full_cache_evicts_lru<K, V>(s: CacheState<K, V>, k: K, v: V)
    requires
        s.wf(),
        s.limit > 0,
        !s.contains(k),
        s.len() == s.limit,
    ensures
        s.store(k, v).1 == (None::<V>, Some((s.order[0], s.values[s.order[0]]))),
        !s.store(k, v).0.contains(s.order[0]),
        s.store(k, v).0.contains(k),
        s.store(k, v).0.len() == s.len(),
        forall|x: K|
            x != s.order[0] && s.contains(x) ==> #[trigger] s.store(k, v).0.contains(x)
                && s.store(k, v).0.values[x] == s.values[x],
{
    assert(s.order.contains(s.order[0]));
}

/// Looking up a cached key changes no value and makes the key the most
/// recently used; looking up an absent key changes nothing.
pub proof fn lemma_get_promotes<K, V>(s: CacheState<K, V>, k: K)
    requires
        s.wf(),
    ensures
        s.lookup(k).0.values == s.values,
        s.lookup(k).0.len() == s.len(),
        s.contains(k) ==> s.lookup(k).0.order.last() == k,
        !s.contains(k) ==> s.lookup(k).0 == s,
{
    if s.contains(k) {
        let i = choose|i: int| 0 <= i < s.order.len() && s.order[i] == k;
        lemma_promote(s.order, i);
    }
}

/// A key that was just looked up is not the one evicted when a new key is
/// stored next, as long as the cache holds at least two entries.
pub proof fn lemma_recently_used_survives<K, V>(s: CacheState<K, V>, k: K, k2: K, v: V)
    requires
        s.wf(),
        s.contains(k),
        !s.contains(k2),
        s.len() >= 2,
    ensures
        s.lookup(k).0.store(k2, v).0.contains(k),
        s.lookup(k).0.store(k2, v).0.values[k] == s.values[k],
{
    let i = choose|i: int| 0 <= i < s.order.len() && s.order[i] == k;
    lemma_promote(s.order, i);
    let t = s.lookup(k).0;
    lemma_operations_keep_wf(s, k, v);
    assert(t.order[t.order.len() - 1] == k);
    assert(t.order[0] != k);
    assert(!t.contains(k2));
    if t.len() >= t.limit {
        lemma_full_cache_evicts_lru(t, k2, v);
    }
}

/// One call on a cache: a lookup or a store.
pub enum Op<K, V> {
    Get(K),
    Put(K, V),
}

impl<K, V> Op<K, V> {
    /// The key the call names.
    pub open spec fn key(self) -> K {
        match self {
            Op::Get(k) => k,
            Op::Put(k, _) => k,
        }
    }

    /// The state after the call.
    pub open spec fn apply(self, s: CacheState<K, V>) -> CacheState<K, V> {
        match self {
            Op::Get(k) => s.lookup(k).0,
            Op::Put(k, v) => s.store(k, v).0,
        }
    }

    /// The call uses its key: a lookup that finds it, or a store into a
    /// cache whose limit is not zero.
    pub open spec fn uses(self, s: CacheState<K, V>) -> bool {
        match self {
            Op::Get(k) => s.contains(k),
            Op::Put(_, _) => s.limit > 0,
        }
    }
}

/// The state after the calls `ops`, in order, starting from `s`.
pub open spec fn run<K, V>(s: CacheState<K, V>, ops: Seq<Op<K, V>>) -> CacheState<K, V>
    decreases ops.len(),
{
    if ops.len() == 0 {
        s
    } else {
        ops.last().apply(run(s, ops.drop_last()))
    }
}

/// The position in `ops` of the last call that used `k`, or -1 if none did.
pub open spec fn last_use<K, V>(s: CacheState<K, V>, ops: Seq<Op<K, V>>, k: K) -> int
    decreases ops.len(),
{
    if ops.len() == 0 {
        -1
    } else {
        let prev = ops.drop_last();
        if ops.last().key() == k && ops.last().uses(run(s, prev)) {
            ops.len() - 1
        } else {
            last_use(s, prev, k)
        }
    }
}

/// Over any history of calls on a new cache, the cache holds only keys that
/// some call used, and lists them by the time of their last use, oldest
/// first; so its first key is the one a full cache evicts next.
pub proof fn lemma_order_follows_last_use<K, V>(limit: nat, ops: Seq<Op<K, V>>)
    ensures
        run(CacheState::empty(limit), ops).wf(),
        forall|k: K| #[trigger]
            run(CacheState::empty(limit), ops).contains(k) ==> 0 <= last_use(
                CacheState::empty(limit),
                ops,
                k,
            ) < ops.len(),
        forall|a: int, b: int|
            0 <= a < b < run(CacheState::<K, V>::empty(limit), ops).order.len() ==> last_use(
                CacheState::empty(limit),
                ops,
                #[trigger] run(CacheState::<K, V>::empty(limit), ops).order[a],
            ) < last_use(
                CacheState::empty(limit),
                ops,
                #[trigger] run(CacheState::<K, V>::empty(limit), ops).order[b],
            ),
    decreases ops.len(),
{
    let e = CacheState::<K, V>::empty(limit);
    if ops.len() == 0 {
        assert(e.order.len() == 0);
        assert forall|k: K| !e.order.contains(k) by {}
    } else {
        let prev = ops.drop_last();
        lemma_order_follows_last_use(limit, prev);
        let s = run(e, prev);
        let op = ops.last();
        let t = run(e, ops);
        let n = prev.len() as int;
        let k = op.key();
        assert(t == op.apply(s));
        assert forall|x: K| #[trigger] last_use(e, ops, x) == (if x == k && op.uses(s) {
            n
        } else {
            last_use(e, prev, x)
        }) by {}
        if !op.uses(s) {
            assert(t == s);
            assert forall|x: K| #[trigger] t.contains(x) implies 0 <= last_use(e, ops, x) < ops.len() by {
                assert(last_use(e, ops, x) == last_use(e, prev, x));
            }
            assert forall|a: int, b: int| 0 <= a < b < t.order.len() implies last_use(
                e,
                ops,
                #[trigger] t.order[a],
            ) < last_use(e, ops, #[trigger] t.order[b]) by {
                assert(last_use(e, ops, t.order[a]) == last_use(e, prev, s.order[a]));
                assert(last_use(e, ops, t.order[b]) == last_use(e, prev, s.order[b]));
            }
        } else {
            let v = match op {
                Op::Put(_, v) => v,
                Op::Get(_) => vstd::pervasive::arbitrary(),
            };
            lemma_operations_keep_wf(s, k, v);
            // `t.order` is `s.order` with some positions taken out, then `k`.
            let (i, d) = if s.contains(k) {
                let i = choose|i: int| 0 <= i < s.order.len() && s.order[i] == k;
                lemma_promote(s.order, i);
                (i, 1int)
            } else if s.len() >= s.limit {
                (0int, 1int)
            } else {
                (s.order.len() as int, 0int)
            };
            assert(t.order.len() == s.order.len() + 1 - d);
            assert(t.order.last() == k);
            assert forall|j: int| 0 <= j < t.order.len() - 1 implies #[trigger] t.order[j]
                == s.order[if j < i {
                j
            } else {
                j + d
            }] by {}
            assert forall|j: int| 0 <= j < t.order.len() - 1 implies s.contains(
                #[trigger] t.order[j],
            ) && t.order[j] != k && 0 <= last_use(e, ops, t.order[j]) < n by {
                let j0 = if j < i {
                    j
                } else {
                    j + d
                };
                assert(0 <= j0 < s.order.len());
                assert(t.order[j] == s.order[j0]);
                assert(s.order.contains(s.order[j0]));
                assert(s.contains(t.order[j]));
                assert(t.order[j] != t.order[t.order.len() - 1]);
                assert(last_use(e, ops, t.order[j]) == last_use(e, prev, t.order[j]));
                assert(0 <= last_use(e, prev, t.order[j]) < n);
            }
            assert forall|x: K| #[trigger] t.contains(x) implies 0 <= last_use(e, ops, x) < ops.len() by {
                assert(t.order.contains(x));
                let j = choose|j: int| 0 <= j < t.order.len() && t.order[j] == x;
                if j < t.order.len() - 1 {
                    assert(s.contains(t.order[j]));
                }
            }
            assert forall|a: int, b: int| 0 <= a < b < t.order.len() implies last_use(
                e,
                ops,
                #[trigger] t.order[a],
            ) < last_use(e, ops, #[trigger] t.order[b]) by {
                assert(s.contains(t.order[a]));
                if b < t.order.len() - 1 {
                    assert(s.contains(t.order[b]));
                    let a0 = if a < i {
                        a
                    } else {
                        a + d
                    };
                    let b0 = if b < i {
                        b
                    } else {
                        b + d
                    };
                    assert(last_use(e, prev, s.order[a0]) < last_use(e, prev, s.order[b0]));
                }
            }
        }
    }
}

/// A lookup of a cached key gives back the value stored under that very
/// key, wherever the key stands in the recency order; a lookup of an absent
/// key gives nothing.
pub proof fn lemma_get_reads_own_value<K, V>(s: CacheState<K, V>, k: K)
    requires
        s.wf(),
    ensures
        s.contains(k) ==> s.lookup(k).1 == Some(s.values[k]),
        !s.contains(k) ==> s.lookup(k).1 is None,
{
}

} // verus!
