//! The replication rules.

pub mod apply;
pub mod cells;
pub mod cleanup;
pub mod clock;
pub mod columns;
pub mod hlc;
pub mod identifier;
pub mod insert_transformer;
pub mod scanner;
pub mod schema;
pub mod setup_laws;
pub mod sql;
pub mod sql_meaning;
pub mod statement_laws;
pub mod store_laws;
pub mod sync_laws;
pub mod transformer;
pub mod transformer_laws;
pub mod trigger;
pub mod trigger_laws;
pub mod value;
