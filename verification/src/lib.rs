//! Column-level last-write-wins replication rules for SQLite tables.
//!
//! Every function here computes on plain values: schemas, rows, statements and
//! timestamps go in as text and come back as decisions, SQL text and records.
//! The database connection, the locks and the policy callbacks live with the
//! caller.

pub mod crdt;
pub mod database;
pub mod error;
pub mod json;
pub mod numeral;
pub mod signature;
pub mod text;
