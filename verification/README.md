# mini_lsm

The core of a log-structured merge-tree storage engine, verified with Verus.

- `src/` is the library. It holds the formats of blocks (`block`), of the write-ahead log (`wal`)
  and of the manifest (`manifest`), the merging of iterators (`iterators`), the watermark of
  active readers (`mvcc`), the compaction strategies (`compact`) and the storage state with what
  each operation makes of it (`lsm_storage`).
- `app/` is ordinary Rust around it: files, locks, background threads and JSON.
- `tests/` runs the library on concrete values.

Every function states in its contract what it returns, over the views of its arguments. What holds
of several functions together stands in public proof functions beside them:

- what every operation keeps of the storage state in `lsm_storage::invariants`,
- what a read gives back in `lsm_storage::contents` and, after a leveled compaction, in
  `lsm_storage::leveled_contents`,
- what merging the entries of memtables and tables gives in `lsm_storage::merging`, what a compaction
  makes of it in `lsm_storage::compacting`, and what a scan returns in `lsm_storage::scanning`,
- what holds of the compaction strategies in `compact::laws`.

Ratios that decide on compaction are those of double precision. The library computes them on
integers (`double`).

The contracts of the functions that call another crate are believed, not proved. They stand in
`codec` (`bytes`), `checksum` (`crc32fast`), `skiplist` (`crossbeam-skiplist`) and `hash`
(`farmhash`), each with a comment on what it claims.
