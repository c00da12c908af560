//! The extension point of a merge.
//!
//! The merge owns every generic decision: last-write-wins, row identity, the
//! delete log, reserved and suffixed columns, drift. A policy decides which rows
//! and columns are admitted, decodes values, and does the work that has to land
//! with the merge. It sees the transaction as a handle of type `T`, which the
//! library only passes on.
//!
//! A policy must not end the transaction, write the merge's own bookkeeping,
//! merge another batch from inside a hook, or do anything that cannot be undone:
//! whatever a hook writes is discarded if the batch is given up.

use crate::crdt::apply::policy_types::indexed_views;
use crate::crdt::apply::policy_types::ConstraintDecision;
use crate::crdt::apply::policy_types::RowDecision;
use crate::crdt::apply::policy_types::RowInput;
use crate::crdt::apply::policy_types::RowWrite;
use crate::crdt::apply::report::ApplyOutcome;
use crate::crdt::apply::row::indices_in;
use crate::crdt::scanner::change::ColumnChange;
use crate::error::Error;
use vstd::prelude::*;

verus! {

/// Admits rows and columns, and takes part in the merge's transaction.
pub trait ApplyPolicy<T> {
    /// Looking at a whole batch may answer `r` and leave the policy as `after`.
    /// A policy that says no more may answer anything.
    open spec fn preflighted(
        &self,
        after: &Self,
        changes: &[ColumnChange],
        r: Result<(), Error>,
    ) -> bool {
        true
    }

    /// Looks at the whole batch before a transaction is open. An error means
    /// that nothing was written.
    fn preflight(&mut self, changes: &[ColumnChange]) -> (r: Result<(), Error>)
        ensures
            old(self).preflighted(final(self), changes, r),
    ;

    /// Runs once, before the first row.
    fn begin(&mut self, tx: &T, changes: &[ColumnChange]) -> (r: Result<(), Error>);

    /// Admits a row and decodes its values: one verdict for each eligible
    /// column. Admission is not final: the merge still compares timestamps.
    fn prepare_row(&mut self, tx: &T, row: RowInput<'_>) -> (r: Result<RowDecision, Error>)
        requires
            indices_in(row.eligible_indices@, indexed_views(row.changes@)),
    ;

    /// Runs after a row was written.
    fn after_row(&mut self, tx: &T, written: RowWrite<'_>) -> (r: Result<(), Error>);

    /// Runs after an insert broke a NOT NULL, UNIQUE or PRIMARY KEY constraint
    /// and was rolled back; `code` is SQLite's extended error code.
    fn on_insert_constraint(&mut self, tx: &T, attempted: RowWrite<'_>, code: i32) -> (r: Result<
        ConstraintDecision,
        Error,
    >);

    /// Runs once, after the last row and before the commit.
    fn before_commit(
        &mut self,
        tx: &T,
        changes: &[ColumnChange],
        outcome: &ApplyOutcome,
    ) -> (r: Result<(), Error>);
}

} // verus!
