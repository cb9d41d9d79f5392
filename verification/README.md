# app_store

The per-app state store of an incremental indexing engine, as a verified
library: which rows an operation reads and writes, what their keys and values
look like in bytes, and what the rows that come back mean.

The library (`src/`) does not open a database. An operation hands out a lookup, a
scan or a write, and work that has to look before it writes is a value with
`lookup` and `resume`. The caller carries these out in a transaction of its own
and hands back what it found. `app/` does so with LMDB, by way of `heed`, on
`tokio`.

Text in row keys is written and read by `storekey`, row values by `rmp_serde`;
`src/text.rs` and `src/msgpack.rs` say what is relied on of them. Everything else
in `src/` is proved.

`src/laws.rs` states what holds of the store as a whole. The laws of row keys are
in `src/db_schema.rs`, of single writes in `src/table.rs`, of the path tree in
`src/existence.rs`, of ID ranges in `src/id_sequence.rs`, of staged tracking info
in `src/tracking.rs`, and of opening read transactions in `src/retry.rs`.
