# lru

Least-recently-used caches, verified with Verus against one abstract model
(`src/model.rs`): a cache is its keys in eviction order, the value of each
key, and a limit on the number of entries.

- `src/dll.rs`: O(1) cache, a `HashMap` from key to value and list node plus
  a doubly-linked list (kept in an arena of slots) ordering the keys by
  recency. Offers `get`, `put`, `is_empty`, `lru` (keys in eviction order)
  and `data` (a snapshot of the entries).
- `src/map.rs`: O(log N) cache, a `HashMap` from key to value and sequence
  number plus a `BTreeMap` from sequence number back to key. Same `get` and
  `put` contracts as `dll`.
- `src/basic.rs`: a cache from `i64` to `String`, with the same behaviour,
  whose `put` reports the evicted entries as a vector.
- `src/model.rs` also holds the proved laws of the model: reads give back
  writes, eviction takes the least recently used entry, a lookup promotes
  its key, the limit is never exceeded, and over any history of calls the
  keys are listed by the time of their last use.
- `app/main.rs`: a small program on `basic::Lru`.
