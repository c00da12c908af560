//! Outbound changes: what to read, which columns to send, and in which pages.

pub mod change;
pub mod emit;
pub mod emit_laws;
pub mod pagination;
pub mod plan;
