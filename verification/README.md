# koshadb

A small LSM-style key-value store: a skip-list memtable and a write-ahead
log, verified with Verus.

- `src/common`: the comparator trait (a strict total order on keys, with the
  bytewise order proved to be one) and the entry type.
- `src/memtable`: the `MemTable` trait, specified over the map of entries it
  holds, and the skip list that implements it, proved to keep its links in
  key order.
- `src/db/wal.rs`: the log's record and frame format, its encoder, decoder
  and replay, with the laws that replay gives back what was framed and
  ignores a torn last frame.
- `src/db/recovery.rs`, `src/db/database.rs`: rebuilding the memtable from a
  log, and the in-memory state of an open database.
- `app/`: the `Db` handle, which owns the directory and the log file and
  hands their bytes to the library.
