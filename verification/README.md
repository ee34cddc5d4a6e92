# concurrent_index

Ordered key/value indexes with range reads and range deletes, each written in
Verus with its behaviour stated as contracts over a mathematical model and
proved.

## Layout

- `src/lib.rs` — the `Index` and `IndexOperate` traits; `IndexOperate` states
  what every index's reads, deletes and writes do to the entries it holds.
- `src/key.rs` — the key order (`IndexKey`) and its lemmas.
- `src/sorted.rs` — the model of the ordered indexes: a sequence of
  `(key, value)` entries in strictly increasing key order, with lookup, upsert
  and range operations on it.
- `src/sorted_map.rs` — a vector kept in key order, with binary search.
- `src/simple.rs`, `src/basedata.rs`, `src/xline_baseline.rs` — indexes on
  one ordered map; `src/present.rs` — the entries of a map whose deleted
  values linger as empty slots, seen as the entries that hold a value.
- `src/skipmap/` — an arena-backed skip map and the index with a count on it.
- `src/skip.rs` — a skip list of linked levels.
- `src/crossbeam_map.rs` — the contracts of the `crossbeam_skiplist` map calls;
  `src/cs_index.rs`, `src/skiplist.rs`, `src/crossbeam_gate.rs` — the indexes on it.
- `src/lockfree_queue.rs`, `src/entry.rs` — a FIFO queue of entries.
- `src/random.rs` — the random draws that pick tower heights.
- `src/laws.rs` — laws relating the operations: reads after writes and
  deletes, counts, first-in first-out.
- `app/` — what stays outside the verified library: the serde form of
  `Entry`, the key and value traits of the FASTER store, printing a queue,
  printing the level drawn for a skip list key, and indexes shared between
  threads behind a lock.
- `tests/` — tests on concrete values.
