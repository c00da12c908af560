//! Errors of the library.

use crate::crdt::apply::report::ApplyOutcome;
use crate::crdt::clock::HlcError;
use vstd::prelude::*;

verus! {

/// What is wrong with a request or a statement.
#[derive(Debug)]
pub enum DatabaseError {
    /// The request is malformed.
    ValidationError { reason: String },
    /// The statement cannot be carried out on the table as it is.
    ExecutionError { sql: String, reason: String, table: Option<String> },
    /// The stored clock state cannot be read.
    HlcError { reason: String },
    /// The table cannot be brought under management.
    CrdtSetup(String),
    /// The statement is of a form that cannot be rewritten.
    UnsupportedStatement { sql: String, reason: String },
    /// A statement failed, or a hook that runs beside it did.
    StatementError { reason: String },
    /// The SQL text cannot be read.
    ParseError { reason: String, sql: String },
}

/// Why a call was refused.
#[derive(Debug)]
pub enum Error {
    /// The request is malformed, or a provider or policy refused it.
    Message(String),
    /// A timestamp with a node part that is no timestamp.
    Hlc(String),
    /// A timestamp too far ahead of the local clock; drift and limit in
    /// nanoseconds.
    RemoteHlcDriftTooLarge { hlc: String, drift: u64, limit: u64 },
    /// The first change whose signature does not verify.
    SignatureVerificationFailed { first_failed_change: usize },
    /// A signature arrived that cannot be checked.
    UnexpectedSignatureUnderNoop,
    /// The table is under management already.
    CrdtAlreadyInstalled { table: String },
    /// The batch landed, but the clock could not be moved past it.
    PostCommitClockAdvance { outcome: ApplyOutcome, source: HlcError },
}

} // verus!
