# rustdb

A small key-value storage engine whose logic is verified with Verus.

- `src/storage`: fixed-size pages and a page cache with least-recently-used
  eviction. Fetching a page that is not cached is split in two steps so that
  the disk reads and writes stay with the caller.
- `src/btree`: the byte layout of a node in a page (`codec`, `node`), byte
  string comparisons (`keys`), the operations on a leaf as mathematical
  functions with their laws (`leaf`), and the tree kept in the root page
  (`tree`).
- `src/wal`: the write-ahead log records and their encoding and decoding.
- `src/db.rs`: the primary tree and the secondary index, each update described
  by the log records that it is logged as; `replay` applies the records read
  back from the log, and the laws of replaying stand beside it.
- `src/tx`: pending writes of a transaction (their log bytes, and
  `apply_pending`, which commits them in order) and the lock manager.
- `app/`: the program: page files, the log file, and the orchestration of
  logging, updating and checkpointing (writing dirty pages, then marking
  them clean).
