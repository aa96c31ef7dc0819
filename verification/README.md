# minikvp

A minimal key-value store backed by a single append-only log file, in the
manner of Bitcask: every write appends an entry, a delete appends a tombstone,
and opening the store replays the log into an in-memory index of live keys.

Entry format (big-endian): `[KeySize: 4][ValueSize: 8][Flags: 1][Key][Value]`;
flag bit `0x01` marks a tombstone.

## Layout

- `src/` — the verified library.
  - `model.rs`: the entry types.
  - `io.rs`: encoding an entry and the steps of decoding one.
  - `log.rs`: the meaning of a log (its replay into an index, the list of its
    entries) and the facts about it that writes rely on.
  - `index.rs`: the in-memory index, buckets of entries in a `HashMap` keyed
    by a hash of the key bytes.
  - `engine.rs`: the engine, which keeps its index equal to the replay of the
    log through every operation; writes are prepared, appended by the caller,
    then applied.
  - `cli.rs`: text helpers of the command line (truncation, value display, hex
    decoding, inspect table cells, sorted key listing).
  - `strings.rs`: the calls into `core::str` and `format!` the library makes.
- `app/` — the `minikvp` program: argument handling, the store file and its I/O.
- `tests/` — tests of the library, with the store file held in memory.
