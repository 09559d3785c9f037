# lsm-tree: memtable and watermark

The write side of an LSM tree, verified with Verus.

- `src/visible_seqno.rs`: the watermark that tells a reader how far it may see.
- `src/schedule.rs`: what holds of the watermark over any schedule of writers.
- `src/memtable/`: the memtable, its key filter, the skiplist it keeps its items in, and what
  holds of its reads and writes taken together.
- `src/value.rs`, `src/order.rs`, `src/hash.rs`: versioned keys, their order, and their hash.
- `app/`: the watermark and the memtable behind locks, for use by many threads.

What is believed without proof: the calls into `crossbeam_skiplist` (`src/memtable/skiplist.rs`)
and one into `xxhash_rust` (`src/hash.rs`).
