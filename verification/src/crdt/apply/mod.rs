//! Inbound changes.

pub mod accounting;
pub mod batch;
pub mod batch_laws;
pub mod batch_merge;
pub mod convergence;
pub mod decision_laws;
pub mod delete_propagation;
pub mod engine;
pub mod finish;
pub mod grouping;
pub mod grouping_laws;
pub mod lww;
pub mod merge_laws;
pub mod pk_where;
pub mod policy;
pub mod policy_types;
pub mod preflight;
pub mod preimage;
pub mod replica;
pub mod report;
pub mod row;
pub mod signature_policy;
pub mod write;
