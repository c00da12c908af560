# haex_crdt

Column-level last-writer-wins replication for SQLite tables, ordered by hybrid
logical clock timestamps. The rules are written in Verus: what a change is, when
it wins, what is written, what is sent, what is cleaned up.

- `src/crdt/hlc.rs`, `src/crdt/clock.rs`: timestamps, their order, the clock of a
  device.
- `src/crdt/trigger.rs`, `src/crdt/transformer.rs`, `src/crdt/insert_transformer.rs`,
  `src/crdt/cells.rs`: the triggers and the rewritten statements that keep the
  metadata of a table.
- `src/crdt/scanner/`: what a device sends, and how it is cut into pages.
- `src/crdt/apply/`: how a batch is checked, grouped and merged, how deletes
  travel, and what is reported. `merge_laws.rs` and `convergence.rs` hold the laws
  of one row, `grouping_laws.rs` those of the order, `batch_merge.rs`, `replica.rs`
  and `batch_laws.rs` those of whole batches.
- `src/crdt/sync_laws.rs`: what is sent is taken.
- `src/crdt/cleanup.rs`: how long the delete log is kept.
- `src/database/`: configuration, and bringing an existing table under management.

The library makes no database call. It returns the SQL to be run and takes the
rows that came back; `app/` runs it over `rusqlite`. Parsing of SQL, JSON,
timestamps and UUIDs, hashing and the physical clock come from the crates that
do it, behind functions whose doc comments say what is believed of them.
