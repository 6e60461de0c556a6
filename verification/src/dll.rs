//! LRU cache with O(1) get and put: a hash map from key to value and node,
//! and a doubly-linked list of nodes that keeps the keys in recency order.
//!
//! The list lives in an arena: a node is a slot index, its key and links are
//! stored in parallel vectors, and slots freed by eviction are reused.

use std::collections::HashMap;
use std::hash::Hash;
use vstd::prelude::*;
use crate::cloning::{exact_clone, key_type_ok, option_cloned};
use crate::model::{lemma_index_of_distinct, promote, CacheState};

verus! {

/// The neighbours of a node in the recency list.
#[derive(Clone, Copy)]
struct Link {
    prev: Option<usize>,
    next: Option<usize>,
}

/// What the map holds for a key: its value and the node that places it in
/// the recency list.
struct Entry<V> {
    value: V,
    node: usize,
}

/// LRU cache with O(1) get and put.
///
/// Backed by a `HashMap` for fast lookups and a doubly-linked list of nodes
/// to track recency. The least-recently-used entry is evicted when the cache
/// reaches its `limit`.
#[verifier::reject_recursive_types(K)]
#[verifier::reject_recursive_types(V)]
pub struct Lru<K: Clone + Eq + Hash, V: Clone> {
    data: HashMap<K, Entry<V>>,
    keys: Vec<K>,
    links: Vec<Link>,
    free: Vec<usize>,
    head: Option<usize>,
    tail: Option<usize>,
    limit: usize,
    /// The list's nodes from head (least recently used) to tail.
    nodes: Ghost<Seq<usize>>,
}

impl<K: Clone + Eq + Hash, V: Clone> View for Lru<K, V> {
    type V = CacheState<K, V>;

    closed spec fn view(&self) -> CacheState<K, V> {
        CacheState {
            order: self.key_order(),
            values: self.data@.map_values(|e: Entry<V>| e.value),
            limit: self.limit as nat,
        }
    }
}

impl<K: Clone + Eq + Hash, V: Clone> Lru<K, V> {
    /// The keys of the list's nodes, from head to tail.
    closed spec fn key_order(&self) -> Seq<K> {
        self.nodes@.map_values(|n: usize| self.keys@[n as int])
    }

    /// The node at position `i` of the list links to its neighbours.
    closed spec fn linked(&self, i: int) -> bool {
        let ns = self.nodes@;
        &&& ns[i] < self.links@.len()
        &&& self.links@[ns[i] as int].prev == (if i == 0 {
            None
        } else {
            Some(ns[i - 1])
        })
        &&& self.links@[ns[i] as int].next == (if i + 1 == ns.len() {
            None
        } else {
            Some(ns[i + 1])
        })
    }

    /// The node at position `i` belongs to the map entry of its key.
    closed spec fn owned(&self, i: int) -> bool {
        let n = self.nodes@[i];
        &&& self.data@.contains_key(self.keys@[n as int])
        &&& self.data@[self.keys@[n as int]].node == n
    }

    /// The linked list is well formed and `nodes` is its order; free slots
    /// are distinct and off the list.
    closed spec fn list_wf(&self) -> bool {
        let ns = self.nodes@;
        &&& self.keys@.len() == self.links@.len()
        &&& ns.no_duplicates()
        &&& forall|i: int| 0 <= i < ns.len() ==> #[trigger] self.linked(i)
        &&& self.head == (if ns.len() == 0 {
            None
        } else {
            Some(ns[0])
        })
        &&& self.tail == (if ns.len() == 0 {
            None
        } else {
            Some(ns.last())
        })
        &&& self.free@.no_duplicates()
        &&& forall|j: int|
            0 <= j < self.free@.len() ==> #[trigger] self.free@[j] < self.links@.len()
                && !ns.contains(self.free@[j])
    }

    /// The cache's invariant: the list is well formed, the map holds
    /// exactly the list's keys and points at their nodes, and there are
    /// no more entries than the limit.
    pub closed spec fn wf(&self) -> bool {
        &&& self.list_wf()
        &&& key_type_ok::<K>()
        &&& forall|i: int| 0 <= i < self.nodes@.len() ==> #[trigger] self.owned(i)
        &&& forall|k: K| #[trigger]
            self.data@.contains_key(k) ==> self.nodes@.contains(self.data@[k].node)
                && self.keys@[self.data@[k].node as int] == k
        &&& self.nodes@.len() <= self.limit
    }

    /// The list invariant depends only on the list's own fields.
    proof fn lemma_same_list(a: &Self, b: &Self)
        requires
            a.list_wf(),
            b.nodes == a.nodes,
            b.links == a.links,
            b.keys == a.keys,
            b.free == a.free,
            b.head == a.head,
            b.tail == a.tail,
        ensures
            b.list_wf(),
    {
        assert forall|i: int| 0 <= i < b.nodes@.len() implies #[trigger] b.linked(i) by {
            assert(a.linked(i));
        }
    }

    proof fn lemma_view_wf(&self)
        requires
            self.wf(),
        ensures
            self@.wf(),
            self.key_order().len() == self.nodes@.len(),
            self.data@.len() == self.nodes@.len(),
            self.data@.dom().finite(),
    {
        let ko = self.key_order();
        let ns = self.nodes@;
        assert forall|i: int, j: int| 0 <= i < ko.len() && 0 <= j < ko.len() && i != j implies ko[i]
            != ko[j] by {
            assert(self.owned(i));
            assert(self.owned(j));
        }
        assert forall|k: K| self@.values.contains_key(k) <==> ko.contains(k) by {
            if self.data@.contains_key(k) {
                let n = self.data@[k].node;
                let i = choose|i: int| 0 <= i < ns.len() && ns[i] == n;
                assert(ko[i] == k);
            }
            if ko.contains(k) {
                let i = choose|i: int| 0 <= i < ko.len() && ko[i] == k;
                assert(self.owned(i));
            }
        }
        assert(self.data@.dom() =~= ko.to_set());
        ko.unique_seq_to_set();
    }


    /// Take a slot for a detached node holding `key`: a freed one if there
    /// is one, else a new one.
    fn node(&mut self, key: K) -> (r: usize)
        requires
            old(self).list_wf(),
        ensures
            final(self).list_wf(),
            final(self).nodes@ == old(self).nodes@,
            final(self).data == old(self).data,
            final(self).limit == old(self).limit,
            r < final(self).keys@.len(),
            !final(self).nodes@.contains(r),
            forall|j: int| 0 <= j < final(self).free@.len() ==> final(self).free@[j] != r,
            final(self).keys@[r as int] == key,
            final(self).links@[r as int] == (Link { prev: None, next: None }),
            old(self).keys@.len() <= final(self).keys@.len(),
            forall|j: int|
                0 <= j < old(self).keys@.len() && j != r ==> final(self).keys@[j]
                    == old(self).keys@[j],
            forall|j: int|
                0 <= j < old(self).links@.len() && j != r ==> final(self).links@[j]
                    == old(self).links@[j],
    {
        let detached = Link { prev: None, next: None };
        match self.free.pop() {
            Some(slot) => {
                assert(old(self).free@[old(self).free@.len() - 1] == slot);
                self.keys.set(slot, key);
                self.links.set(slot, detached);
                proof {
                    assert forall|i: int| 0 <= i < self.nodes@.len() implies #[trigger] self.linked(i) by {
                        assert(old(self).linked(i));
                    }
                    assert forall|j: int| 0 <= j < self.free@.len() implies #[trigger] self.free@[j]
                        < self.links@.len() && !self.nodes@.contains(self.free@[j]) by {
                        assert(self.free@[j] == old(self).free@[j]);
                    }
                }
                slot
            },
            None => {
                let slot = self.keys.len();
                self.keys.push(key);
                self.links.push(detached);
                proof {
                    assert forall|i: int| 0 <= i < self.nodes@.len() implies #[trigger] self.linked(i) by {
                        assert(old(self).linked(i));
                    }
                    if self.nodes@.contains(slot) {
                        let i = choose|i: int| 0 <= i < self.nodes@.len() && self.nodes@[i] == slot;
                        assert(old(self).linked(i));
                    }
                }
                slot
            },
        }
    }

    /// Unlink the node at position `i` of the list, without freeing it.
    fn unlink(&mut self, node: usize, Ghost(i): Ghost<int>)
        requires
            old(self).list_wf(),
            0 <= i < old(self).nodes@.len(),
            old(self).nodes@[i] == node,
        ensures
            final(self).list_wf(),
            final(self).nodes@ == old(self).nodes@.remove(i),
            final(self).links@.len() == old(self).links@.len(),
            final(self).keys == old(self).keys,
            final(self).data == old(self).data,
            final(self).free == old(self).free,
            final(self).limit == old(self).limit,
    {
        let ghost ns = self.nodes@;
        proof {
            assert(self.linked(i));
        }
        let link = self.links[node];
        let prev = link.prev;
        let next = link.next;
        if let Some(p) = prev {
            assert(self.linked(i - 1));
            let mut l = self.links[p];
            l.next = next;
            self.links.set(p, l);
        }
        if let Some(n) = next {
            assert(old(self).linked(i + 1));
            let mut l = self.links[n];
            l.prev = prev;
            self.links.set(n, l);
        }
        match self.head {
            Some(h) => {
                if h == node {
                    self.head = next;
                }
            },
            None => {},
        }
        match self.tail {
            Some(t) => {
                if t == node {
                    self.tail = prev;
                }
            },
            None => {},
        }
        proof {
            self.nodes@ = ns.remove(i);
            let nn = self.nodes@;
            assert forall|j: int| 0 <= j < nn.len() implies #[trigger] self.linked(j) by {
                if j < i {
                    assert(old(self).linked(j));
                    assert(nn[j] == ns[j]);
                    if j > 0 {
                        assert(nn[j - 1] == ns[j - 1]);
                    }
                    if j + 1 < i {
                        assert(nn[j + 1] == ns[j + 1]);
                    }
                    assert(nn[j] != ns[i + 1] || i + 1 >= ns.len());
                } else {
                    assert(old(self).linked(j + 1));
                    assert(nn[j] == ns[j + 1]);
                    if j > i {
                        assert(nn[j - 1] == ns[j]);
                    }
                    if j + 1 < nn.len() {
                        assert(nn[j + 1] == ns[j + 2]);
                    }
                    assert(i == 0 || nn[j] != ns[i - 1]);
                }
            }
            assert forall|j: int| 0 <= j < self.free@.len() implies #[trigger] self.free@[j]
                < self.links@.len() && !self.nodes@.contains(self.free@[j]) by {
                if nn.contains(self.free@[j]) {
                    let k = choose|k: int| 0 <= k < nn.len() && nn[k] == self.free@[j];
                    if k < i {
                        assert(ns[k] == nn[k]);
                    } else {
                        assert(ns[k + 1] == nn[k]);
                    }
                }
            }
        }
    }


    /// Append a detached node to the tail (most-recently-used end).
    fn push_back(&mut self, node: usize)
        requires
            old(self).list_wf(),
            node < old(self).links@.len(),
            !old(self).nodes@.contains(node),
            forall|j: int| 0 <= j < old(self).free@.len() ==> old(self).free@[j] != node,
        ensures
            final(self).list_wf(),
            final(self).nodes@ == old(self).nodes@.push(node),
            final(self).links@.len() == old(self).links@.len(),
            final(self).keys == old(self).keys,
            final(self).data == old(self).data,
            final(self).free == old(self).free,
            final(self).limit == old(self).limit,
    {
        let ghost ns = self.nodes@;
        match self.tail {
            None => {
                self.links.set(node, Link { prev: None, next: None });
                self.head = Some(node);
                self.tail = Some(node);
                proof {
                    self.nodes@ = ns.push(node);
                    assert(self.linked(0));
                }
            },
            Some(tail) => {
                if tail == node {
                    return;
                }
                proof {
                    assert(self.linked(ns.len() - 1));
                }
                self.links.set(node, Link { prev: Some(tail), next: None });
                let mut l = self.links[tail];
                l.next = Some(node);
                self.links.set(tail, l);
                self.tail = Some(node);
                proof {
                    self.nodes@ = ns.push(node);
                    let nn = self.nodes@;
                    assert forall|j: int| 0 <= j < nn.len() implies #[trigger] self.linked(j) by {
                        if j < ns.len() {
                            assert(old(self).linked(j));
                            assert(ns[j] != node);
                            if j + 1 < ns.len() {
                                assert(ns[j] != ns[ns.len() - 1]);
                            }
                        }
                    }
                }
            },
        }
        proof {
            let nn = self.nodes@;
            assert forall|j: int| 0 <= j < self.free@.len() implies #[trigger] self.free@[j]
                < self.links@.len() && !self.nodes@.contains(self.free@[j]) by {
                if nn.contains(self.free@[j]) {
                    let k = choose|k: int| 0 <= k < nn.len() && nn[k] == self.free@[j];
                    if k < ns.len() {
                        assert(ns[k] == nn[k]);
                    }
                }
            }
        }
    }

    /// Detach the head (least-recently-used) node, free its slot and return
    /// its key. The map still holds the key.
    fn pull_head(&mut self) -> (r: Option<K>)
        requires
            old(self).wf(),
        ensures
            old(self).nodes@.len() == 0 ==> r is None && *final(self) == *old(self),
            old(self).nodes@.len() > 0 ==> {
                &&& r == Some(old(self).key_order()[0])
                &&& final(self).list_wf()
                &&& final(self).nodes@ == old(self).nodes@.drop_first()
                &&& final(self).free@ == old(self).free@.push(old(self).nodes@[0])
                &&& final(self).keys == old(self).keys
                &&& final(self).data == old(self).data
                &&& final(self).limit == old(self).limit
            },
    {
        proof {
            self.lemma_view_wf();
        }
        if self.data.is_empty() {
            return None;
        }
        let head = match self.head {
            Some(h) => h,
            None => {
                return None;
            },
        };
        let ghost ns = self.nodes@;
        proof {
            assert(self.linked(0));
        }
        let key = exact_clone(&self.keys[head]);
        let next = self.links[head].next;
        if let Some(n) = next {
            assert(self.linked(1));
            let mut l = self.links[n];
            l.prev = None;
            self.links.set(n, l);
        }
        self.head = next;
        if next.is_none() {
            self.tail = None;
        }
        self.free.push(head);
        proof {
            self.nodes@ = ns.drop_first();
            let nn = self.nodes@;
            assert forall|j: int| 0 <= j < nn.len() implies #[trigger] self.linked(j) by {
                assert(old(self).linked(j + 1));
                assert(nn[j] == ns[j + 1]);
                if j > 0 {
                    assert(nn[j - 1] == ns[j]);
                }
                if j + 1 < nn.len() {
                    assert(nn[j + 1] == ns[j + 2]);
                }
                assert(nn[j] != ns[0]);
            }
            assert forall|j: int| 0 <= j < self.free@.len() implies #[trigger] self.free@[j]
                < self.links@.len() && !self.nodes@.contains(self.free@[j]) by {
                if j < old(self).free@.len() {
                    assert(self.free@[j] == old(self).free@[j]);
                    if nn.contains(self.free@[j]) {
                        let k = choose|k: int| 0 <= k < nn.len() && nn[k] == self.free@[j];
                        assert(ns[k + 1] == nn[k]);
                    }
                } else {
                    if nn.contains(head) {
                        let k = choose|k: int| 0 <= k < nn.len() && nn[k] == head;
                        assert(ns[k + 1] == nn[k]);
                    }
                }
            }
            assert forall|a: int, b: int| 0 <= a < b < self.free@.len() implies self.free@[a]
                != self.free@[b] by {
                if b == self.free@.len() - 1 {
                    assert(!ns.contains(old(self).free@[a]));
                }
            }
        }
        Some(key)
    }


    /// Move the node of the list entry at position `i` to the tail.
    fn promote_node(&mut self, node: usize, Ghost(i): Ghost<int>)
        requires
            old(self).wf(),
            0 <= i < old(self).nodes@.len(),
            old(self).nodes@[i] == node,
        ensures
            final(self).wf(),
            final(self)@ == (CacheState {
                order: promote(old(self)@.order, old(self).key_order()[i]),
                ..old(self)@
            }),
    {
        let ghost ko = self.key_order();
        proof {
            self.lemma_view_wf();
            lemma_index_of_distinct(ko, i);
            assert(self.linked(i));
        }
        let is_tail = match self.tail {
            Some(t) => t == node,
            None => false,
        };
        if !is_tail {
            self.unlink(node, Ghost(i));
            self.push_back(node);
            proof {
                assert(self.key_order() =~= ko.remove(i).push(ko[i]));
                assert forall|j: int| 0 <= j < self.nodes@.len() implies #[trigger] self.owned(j) by {
                    if j < i {
                        assert(old(self).owned(j));
                    } else if j + 1 < self.nodes@.len() {
                        assert(old(self).owned(j + 1));
                    } else {
                        assert(old(self).owned(i));
                    }
                }
                assert forall|k: K| #[trigger]
                    self.data@.contains_key(k) implies self.nodes@.contains(self.data@[k].node)
                        && self.keys@[self.data@[k].node as int] == k by {
                    let n = self.data@[k].node;
                    let a = choose|a: int| 0 <= a < old(self).nodes@.len() && old(self).nodes@[a] == n;
                    if a < i {
                        assert(self.nodes@[a] == n);
                    } else if a > i {
                        assert(self.nodes@[a - 1] == n);
                    } else {
                        assert(self.nodes@[self.nodes@.len() - 1] == n);
                    }
                }
            }
        } else {
            proof {
                assert(i == ko.len() - 1) by {
                    if i != ko.len() - 1 {
                        assert(self.nodes@[i] != self.nodes@[self.nodes@.len() - 1]);
                    }
                }
                assert(ko.remove(i).push(ko[i]) =~= ko);
            }
        }
    }

    /// Look up a value and promote its key to most-recently-used.
    pub fn get(&mut self, key: &K) -> (r: Option<V>)
        requires
            old(self).wf(),
        ensures
            final(self).wf(),
            final(self)@ == old(self)@.lookup(*key).0,
            option_cloned(old(self)@.lookup(*key).1, r),
            old(self)@.contains(*key) ==> r is Some && vstd::pervasive::cloned(
                old(self)@.values[*key],
                r.unwrap(),
            ),
            !old(self)@.contains(*key) ==> r is None,
    {
        proof {
            self.lemma_view_wf();
        }
        let (value, node) = match self.data.get(key) {
            Some(entry) => (entry.value.clone(), entry.node),
            None => {
                return None;
            },
        };
        let ghost i = choose|i: int| 0 <= i < self.nodes@.len() && self.nodes@[i] == node;
        self.promote_node(node, Ghost(i));
        Some(value)
    }


    /// Evict the least-recently-used entry and return it.
    pub(crate) fn pop_lru(&mut self) -> (r: Option<(K, V)>)
        requires
            old(self).wf(),
        ensures
            final(self).wf(),
            old(self)@.len() == 0 ==> r is None && final(self)@ == old(self)@,
            old(self)@.len() > 0 ==> {
                let k = old(self)@.order[0];
                &&& r == Some((k, old(self)@.values[k]))
                &&& final(self)@ == (CacheState {
                    order: old(self)@.order.drop_first(),
                    values: old(self)@.values.remove(k),
                    limit: old(self)@.limit,
                })
            },
    {
        proof {
            self.lemma_view_wf();
        }
        let ghost ns = self.nodes@;
        let ghost ko = self.key_order();
        let evicted = match self.pull_head() {
            Some(k) => k,
            None => {
                return None;
            },
        };
        proof {
            assert(old(self).owned(0));
        }
        let ghost pulled = *self;
        let value = self.data.remove(&evicted).unwrap().value;
        proof {
            Self::lemma_same_list(&pulled, self);
            let nn = self.nodes@;
            assert forall|j: int| 0 <= j < nn.len() implies #[trigger] self.owned(j) by {
                assert(nn[j] == ns[j + 1]);
                assert(old(self).owned(j + 1));
                assert(ns[0] != ns[j + 1]);
            }
            assert forall|k: K| #[trigger]
                self.data@.contains_key(k) implies nn.contains(self.data@[k].node)
                    && self.keys@[self.data@[k].node as int] == k by {
                assert(old(self).data@.contains_key(k));
                let n = old(self).data@[k].node;
                let a = choose|a: int| 0 <= a < ns.len() && ns[a] == n;
                assert(a != 0);
                assert(nn[a - 1] == n);
            }
            assert(self.key_order() =~= ko.drop_first());
            assert(self@.values =~= old(self)@.values.remove(ko[0]));
        }
        Some((evicted, value))
    }

    /// Add a key that is not cached, as the most recently used, when there
    /// is room for it.
    pub(crate) fn push_new(&mut self, key: K, value: V)
        requires
            old(self).wf(),
            !old(self)@.contains(key),
            old(self)@.len() < old(self)@.limit,
        ensures
            final(self).wf(),
            final(self)@ == (CacheState {
                order: old(self)@.order.push(key),
                values: old(self)@.values.insert(key, value),
                limit: old(self)@.limit,
            }),
    {
        let ghost key0 = key;
        let ghost ns = self.nodes@;
        let ghost ko = self.key_order();
        let node = self.node(exact_clone(&key));
        let ghost placed = *self;
        self.data.insert(key, Entry { value, node });
        proof {
            Self::lemma_same_list(&placed, self);
        }
        self.push_back(node);
        proof {
            let nn = self.nodes@;
            assert forall|j: int| 0 <= j < nn.len() implies #[trigger] self.owned(j) by {
                if j + 1 < nn.len() {
                    let n = nn[j];
                    assert(ns[j] == n);
                    assert(ns.contains(n));
                    assert(old(self).owned(j));
                    assert(old(self).linked(j));
                    let k = old(self).keys@[n as int];
                    assert(self.keys@[n as int] == k);
                    assert(old(self).data@.contains_key(k));
                } else {
                    assert(nn[j] == node);
                }
            }
            assert forall|k: K| #[trigger]
                self.data@.contains_key(k) implies nn.contains(self.data@[k].node)
                    && self.keys@[self.data@[k].node as int] == k by {
                if k == key0 {
                    assert(nn[nn.len() - 1] == node);
                } else {
                    assert(old(self).data@.contains_key(k));
                    let n = old(self).data@[k].node;
                    let a = choose|a: int| 0 <= a < ns.len() && ns[a] == n;
                    assert(old(self).linked(a));
                    assert(nn[a] == n);
                    assert(ns.contains(n));
                }
            }
            let new_ko = self.key_order();
            assert(new_ko =~= ko.push(key0)) by {
                assert forall|j: int| 0 <= j < new_ko.len() implies new_ko[j] == ko.push(key0)[j] by {
                    if j + 1 < new_ko.len() {
                        assert(ns.contains(ns[j]));
                        assert(old(self).linked(j));
                    } else {
                        assert(nn[j] == node);
                    }
                }
            }
            assert(self@.values =~= old(self)@.values.insert(key0, value));
        }
    }

    /// Give a cached key a new value and make it the most recently used.
    /// Returns the value it replaced.
    pub(crate) fn replace_value(&mut self, key: K, value: V) -> (r: V)
        requires
            old(self).wf(),
            old(self)@.contains(key),
        ensures
            final(self).wf(),
            r == old(self)@.values[key],
            final(self)@ == (CacheState {
                order: promote(old(self)@.order, key),
                values: old(self)@.values.insert(key, value),
                limit: old(self)@.limit,
            }),
    {
        let ghost key0 = key;
        let entry = self.data.remove(&key).unwrap();
        let node = entry.node;
        self.data.insert(key, Entry { value, node });
        let ghost i = choose|i: int| 0 <= i < self.nodes@.len() && self.nodes@[i] == node;
        proof {
            assert forall|j: int| 0 <= j < self.nodes@.len() implies #[trigger] self.owned(j) by {
                assert(old(self).owned(j));
            }
            assert forall|k: K| #[trigger]
                self.data@.contains_key(k) implies self.nodes@.contains(self.data@[k].node)
                    && self.keys@[self.data@[k].node as int] == k by {
                if k != key0 {
                    assert(old(self).data@.contains_key(k));
                }
            }
            Self::lemma_same_list(old(self), self);
            assert(self.key_order() == old(self).key_order());
            assert(self.key_order()[i] == key0);
        }
        self.promote_node(node, Ghost(i));
        proof {
            assert(self@.values =~= old(self)@.values.insert(key0, value));
        }
        entry.value
    }

    /// Insert or update. Returns (overwritten value, evicted entry).
    pub fn put(&mut self, key: K, value: V) -> (r: (Option<V>, Option<(K, V)>))
        requires
            old(self).wf(),
        ensures
            final(self).wf(),
            (final(self)@, r) == old(self)@.store(key, value),
    {
        if self.limit == 0 {
            return (None, None);
        }
        proof {
            self.lemma_view_wf();
        }
        if self.data.contains_key(&key) {
            let removed = self.replace_value(key, value);
            (Some(removed), None)
        } else {
            let evicted = if self.data.len() >= self.limit {
                self.pop_lru()
            } else {
                None
            };
            proof {
                self.lemma_view_wf();
            }
            self.push_new(key, value);
            (None, evicted)
        }
    }

    /// Keys in eviction order (head = next to be evicted).
    pub fn lru(&self) -> (r: Vec<K>)
        requires
            self.wf(),
        ensures
            r@ == self@.order,
    {
        proof {
            self.lemma_view_wf();
        }
        let ghost ns = self.nodes@;
        let ghost ko = self.key_order();
        let mut ret: Vec<K> = Vec::with_capacity(self.data.len());
        let mut node = self.head;
        let ghost mut i: int = 0;
        while node.is_some()
            invariant
                self.wf(),
                ns == self.nodes@,
                ko == self.key_order(),
                0 <= i <= ns.len(),
                node == (if i < ns.len() {
                    Some(ns[i])
                } else {
                    None::<usize>
                }),
                ret@ == ko.take(i),
            decreases ns.len() - i,
        {
            let n = node.unwrap();
            proof {
                assert(self.linked(i));
            }
            ret.push(exact_clone(&self.keys[n]));
            node = self.links[n].next;
            proof {
                assert(ko.take(i + 1) =~= ko.take(i).push(ko[i]));
                i = i + 1;
            }
        }
        assert(ko.take(i) =~= ko);
        ret
    }

    /// Snapshot of all cached key-value pairs.
    pub fn data(&self) -> (r: HashMap<K, V>)
        requires
            self.wf(),
        ensures
            r@.dom() == self@.values.dom(),
            forall|k: K| #[trigger]
                r@.contains_key(k) ==> vstd::pervasive::cloned(self@.values[k], r@[k]),
    {
        proof {
            self.lemma_view_wf();
        }
        let ghost ns = self.nodes@;
        let ghost ko = self.key_order();
        let mut ret: HashMap<K, V> = HashMap::new();
        let mut node = self.head;
        let ghost mut i: int = 0;
        while node.is_some()
            invariant
                self.wf(),
                self@.wf(),
                ns == self.nodes@,
                ko == self.key_order(),
                0 <= i <= ns.len(),
                node == (if i < ns.len() {
                    Some(ns[i])
                } else {
                    None::<usize>
                }),
                forall|k: K| #[trigger] ret@.contains_key(k) <==> ko.take(i).contains(k),
                forall|k: K| #[trigger]
                    ret@.contains_key(k) ==> vstd::pervasive::cloned(self@.values[k], ret@[k]),
            decreases ns.len() - i,
        {
            let n = node.unwrap();
            proof {
                assert(self.linked(i));
                assert(self.owned(i));
            }
            let key = &self.keys[n];
            let value = self.data.get(key).unwrap().value.clone();
            ret.insert(exact_clone(key), value);
            node = self.links[n].next;
            proof {
                let t = ko.take(i + 1);
                assert(t =~= ko.take(i).push(ko[i]));
                assert forall|k: K| #[trigger] ret@.contains_key(k) <==> t.contains(k) by {
                    if t.contains(k) && k != ko[i] {
                        let a = choose|a: int| 0 <= a < t.len() && t[a] == k;
                        assert(ko.take(i)[a] == k);
                    }
                    if ko.take(i).contains(k) {
                        let a = choose|a: int| 0 <= a < i && ko.take(i)[a] == k;
                        assert(t[a] == k);
                    }
                    if k == ko[i] {
                        assert(t[i] == k);
                    }
                }
                i = i + 1;
            }
        }
        proof {
            assert(ko.take(i) =~= ko);
            assert(ret@.dom() =~= self@.values.dom());
        }
        ret
    }

    /// A well-formed cache holds each key once, holds exactly the keys it
    /// has values for, and never holds more entries than its limit.
    pub proof fn lemma_bounded(&self)
        requires
            self.wf(),
        ensures
            self@.wf(),
            self@.len() <= self@.limit,
    {
        self.lemma_view_wf();
    }

    /// Create a cache that holds at most `limit` entries.
    pub fn new(limit: usize) -> (s: Self)
        requires
            key_type_ok::<K>(),
        ensures
            s.wf(),
            s@ == CacheState::<K, V>::empty(limit as nat),
    {
        let s = Lru {
            data: HashMap::new(),
            keys: Vec::new(),
            links: Vec::new(),
            free: Vec::new(),
            head: None,
            tail: None,
            limit,
            nodes: Ghost(Seq::empty()),
        };
        assert(s@.order =~= Seq::<K>::empty());
        assert(s@.values =~= Map::<K, V>::empty());
        s
    }

    /// True if `key` is cached.
    pub(crate) fn contains_key(&self, key: &K) -> (r: bool)
        requires
            self.wf(),
        ensures
            r == self@.contains(*key),
    {
        self.data.contains_key(key)
    }

    /// Number of cached entries.
    pub(crate) fn len(&self) -> (r: usize)
        requires
            self.wf(),
        ensures
            r == self@.len(),
    {
        proof {
            self.lemma_view_wf();
        }
        self.data.len()
    }

    /// True if the cache contains no entries.
    pub fn is_empty(&self) -> (r: bool)
        requires
            self.wf(),
        ensures
            r == (self@.len() == 0),
    {
        proof {
            self.lemma_view_wf();
        }
        self.data.is_empty()
    }
}

} // verus!
