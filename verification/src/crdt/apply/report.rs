//! What one merge call did: counters, and each skipped change by its position
//! in the batch with the reason.

use vstd::prelude::*;

verus! {

/// Counters of one merge call. All but `skipped_delete_target_newer` count
/// single changes.
#[derive(Clone, Copy, Debug, PartialEq, Eq, Structural)]
pub struct ApplyReport {
    /// Changes whose value was written.
    pub applied: usize,
    /// Not newer than what is stored for the column.
    pub skipped_stale: usize,
    /// Inserts that an equal or newer delete shadows.
    pub skipped_shadowed_by_delete: usize,
    /// The table or the row identity is unknown here.
    pub skipped_unknown_table: usize,
    /// The table has no such column.
    pub skipped_unknown_column: usize,
    /// The column takes no part in sync.
    pub skipped_no_sync_column: usize,
    /// A metadata column or a primary key.
    pub skipped_reserved_column: usize,
    /// Delete-log entries whose target row is newer.
    pub skipped_delete_target_newer: usize,
    /// Dropped by the policy.
    pub skipped_policy: usize,
    /// Inserts that broke a constraint and that the policy dropped.
    pub skipped_insert_constraint: usize,
    /// Beaten by another change of the same batch to the same column.
    pub skipped_superseded_in_batch: usize,
}

/// Why one change did not land.
#[derive(Clone, Copy, Debug, PartialEq, Eq, Structural)]
pub enum SkipReason {
    /// The table does not exist here.
    MissingTable,
    /// The table does not carry both timestamp columns.
    MissingCrdtMetadata,
    /// The primary-key text cannot be read or does not name exactly the
    /// primary-key columns.
    InvalidRowIdentity,
    UnknownColumn,
    ReservedColumn,
    NoSyncColumn,
    Stale,
    SupersededInBatch,
    ShadowedByDelete,
    Policy,
    InsertNotNull,
    InsertUnique,
    InsertPrimaryKey,
}

/// One skipped change, named by its position in the batch as it came.
#[derive(Clone, Copy, Debug, PartialEq, Eq, Structural)]
pub struct SkippedChange {
    pub input_index: usize,
    pub reason: SkipReason,
}

/// Counters and detail of one merge call.
#[derive(Clone, Debug, PartialEq, Eq)]
pub struct ApplyOutcome {
    pub report: ApplyReport,
    pub skipped: Vec<SkippedChange>,
}

/// Every counter at zero.
pub open spec fn empty_report() -> ApplyReport {
    ApplyReport {
        applied: 0,
        skipped_stale: 0,
        skipped_shadowed_by_delete: 0,
        skipped_unknown_table: 0,
        skipped_unknown_column: 0,
        skipped_no_sync_column: 0,
        skipped_reserved_column: 0,
        skipped_delete_target_newer: 0,
        skipped_policy: 0,
        skipped_insert_constraint: 0,
        skipped_superseded_in_batch: 0,
    }
}

/// The report after one more change was skipped for `reason`.
pub open spec fn counted(r: ApplyReport, reason: SkipReason) -> ApplyReport {
    match reason {
        SkipReason::MissingTable | SkipReason::MissingCrdtMetadata
        | SkipReason::InvalidRowIdentity => ApplyReport {
            skipped_unknown_table: (r.skipped_unknown_table + 1) as usize,
            ..r
        },
        SkipReason::UnknownColumn => ApplyReport {
            skipped_unknown_column: (r.skipped_unknown_column + 1) as usize,
            ..r
        },
        SkipReason::ReservedColumn => ApplyReport {
            skipped_reserved_column: (r.skipped_reserved_column + 1) as usize,
            ..r
        },
        SkipReason::NoSyncColumn => ApplyReport {
            skipped_no_sync_column: (r.skipped_no_sync_column + 1) as usize,
            ..r
        },
        SkipReason::Stale => ApplyReport { skipped_stale: (r.skipped_stale + 1) as usize, ..r },
        SkipReason::SupersededInBatch => ApplyReport {
            skipped_superseded_in_batch: (r.skipped_superseded_in_batch + 1) as usize,
            ..r
        },
        SkipReason::ShadowedByDelete => ApplyReport {
            skipped_shadowed_by_delete: (r.skipped_shadowed_by_delete + 1) as usize,
            ..r
        },
        SkipReason::Policy => ApplyReport { skipped_policy: (r.skipped_policy + 1) as usize, ..r },
        SkipReason::InsertNotNull | SkipReason::InsertUnique | SkipReason::InsertPrimaryKey =>
            ApplyReport {
            skipped_insert_constraint: (r.skipped_insert_constraint + 1) as usize,
            ..r
        },
    }
}

/// The report after all of `skips`.
pub open spec fn counted_all(r: ApplyReport, skips: Seq<SkippedChange>) -> ApplyReport
    decreases skips.len(),
{
    if skips.len() == 0 {
        r
    } else {
        counted(counted_all(r, skips.drop_last()), skips.last().reason)
    }
}

/// Number of changes that the report accounts for.
pub open spec fn accounted(r: ApplyReport) -> nat {
    (r.applied + r.skipped_stale + r.skipped_shadowed_by_delete + r.skipped_unknown_table
        + r.skipped_unknown_column + r.skipped_no_sync_column + r.skipped_reserved_column
        + r.skipped_policy + r.skipped_insert_constraint + r.skipped_superseded_in_batch) as nat
}

/// Each skip is counted once: the accounted changes grow by one per skip.
pub proof fn lemma_accounted_all(r: ApplyReport, skips: Seq<SkippedChange>)
    requires
        accounted(r) + skips.len() <= usize::MAX,
    ensures
        accounted(counted_all(r, skips)) == accounted(r) + skips.len(),
        counted_all(r, skips).applied == r.applied,
        counted_all(r, skips).skipped_delete_target_newer == r.skipped_delete_target_newer,
    decreases skips.len(),
{
    if skips.len() > 0 {
        lemma_accounted_all(r, skips.drop_last());
    }
}

/// Counting in two parts is counting at once.
pub proof fn lemma_counted_all_concat(
    r: ApplyReport,
    a: Seq<SkippedChange>,
    b: Seq<SkippedChange>,
)
    ensures
        counted_all(counted_all(r, a), b) == counted_all(r, a + b),
    decreases b.len(),
{
    if b.len() == 0 {
        assert(a + b =~= a);
    } else {
        lemma_counted_all_concat(r, a, b.drop_last());
        assert((a + b).drop_last() =~= a + b.drop_last());
        assert((a + b).last() == b.last());
    }
}

impl Default for ApplyReport {
    fn default() -> (r: Self)
        ensures
            r == empty_report(),
    {
        ApplyReport {
            applied: 0,
            skipped_stale: 0,
            skipped_shadowed_by_delete: 0,
            skipped_unknown_table: 0,
            skipped_unknown_column: 0,
            skipped_no_sync_column: 0,
            skipped_reserved_column: 0,
            skipped_delete_target_newer: 0,
            skipped_policy: 0,
            skipped_insert_constraint: 0,
            skipped_superseded_in_batch: 0,
        }
    }
}

impl ApplyOutcome {
    /// Nothing done yet.
    pub fn new() -> (r: ApplyOutcome)
        ensures
            r.report == empty_report(),
            r.skipped@ == Seq::<SkippedChange>::empty(),
    {
        ApplyOutcome {
            report: ApplyReport::default(),
            skipped: Vec::new(),
        }
    }

    /// `after` is `self` with `skips` recorded and counted.
    pub open spec fn skipped_more(&self, after: &ApplyOutcome, skips: Seq<SkippedChange>) -> bool {
        after.skipped@ == self.skipped@ + skips && after.report == counted_all(self.report, skips)
    }

    /// Records that the change at `input_index` was skipped.
    pub fn skip(&mut self, input_index: usize, reason: SkipReason)
        requires
            accounted(old(self).report) < usize::MAX,
        ensures
            final(self).report == counted(old(self).report, reason),
            final(self).skipped@ == old(self).skipped@.push(
                SkippedChange { input_index, reason },
            ),
            accounted(final(self).report) == accounted(old(self).report) + 1,
    {
        match reason {
            SkipReason::MissingTable | SkipReason::MissingCrdtMetadata
            | SkipReason::InvalidRowIdentity => {
                self.report.skipped_unknown_table += 1;
            },
            SkipReason::UnknownColumn => {
                self.report.skipped_unknown_column += 1;
            },
            SkipReason::ReservedColumn => {
                self.report.skipped_reserved_column += 1;
            },
            SkipReason::NoSyncColumn => {
                self.report.skipped_no_sync_column += 1;
            },
            SkipReason::Stale => {
                self.report.skipped_stale += 1;
            },
            SkipReason::SupersededInBatch => {
                self.report.skipped_superseded_in_batch += 1;
            },
            SkipReason::ShadowedByDelete => {
                self.report.skipped_shadowed_by_delete += 1;
            },
            SkipReason::Policy => {
                self.report.skipped_policy += 1;
            },
            SkipReason::InsertNotNull | SkipReason::InsertUnique
            | SkipReason::InsertPrimaryKey => {
                self.report.skipped_insert_constraint += 1;
            },
        }
        self.skipped.push(SkippedChange { input_index, reason });
    }

    /// Records that the changes of `skips` were skipped.
    pub fn skip_all(&mut self, skips: &[SkippedChange])
        requires
            accounted(old(self).report) + skips@.len() <= usize::MAX,
        ensures
            old(self).skipped_more(final(self), skips@),
            accounted(final(self).report) == accounted(old(self).report) + skips@.len(),
    {
        let mut i: usize = 0;
        assert(self.skipped@ + skips@.take(0) =~= self.skipped@);
        while i < skips.len()
            invariant
                i <= skips.len(),
                accounted(old(self).report) + skips@.len() <= usize::MAX,
                self.skipped@ == old(self).skipped@ + skips@.take(i as int),
                self.report == counted_all(old(self).report, skips@.take(i as int)),
                accounted(self.report) == accounted(old(self).report) + i,
            decreases skips.len() - i,
        {
            let ghost next = skips@.take(i + 1);
            assert(next.drop_last() =~= skips@.take(i as int));
            self.skip(skips[i].input_index, skips[i].reason);
            i += 1;
            assert(self.skipped@ =~= old(self).skipped@ + skips@.take(i as int));
        }
        assert(skips@.take(i as int) =~= skips@);
    }
}

impl Default for ApplyOutcome {
    fn default() -> (r: Self)
        ensures
            r.report == empty_report(),
            r.skipped@ == Seq::<SkippedChange>::empty(),
    {
        ApplyOutcome::new()
    }
}

/// How often a reason counts as one of these.
pub open spec fn once(holds: bool) -> int {
    if holds {
        1
    } else {
        0
    }
}

/// Each reason raises one counter by one, its own, and leaves the others alone.
pub proof fn lemma_each_reason_has_its_counter(r: ApplyReport, reason: SkipReason)
    requires
        accounted(r) < usize::MAX,
    ensures
        ({
            let after = counted(r, reason);
            &&& after.applied == r.applied
            &&& after.skipped_stale == r.skipped_stale + once(reason is Stale)
            &&& after.skipped_shadowed_by_delete == r.skipped_shadowed_by_delete + once(
                reason is ShadowedByDelete,
            )
            &&& after.skipped_unknown_table == r.skipped_unknown_table + once(
                reason is MissingTable || reason is MissingCrdtMetadata
                    || reason is InvalidRowIdentity,
            )
            &&& after.skipped_unknown_column == r.skipped_unknown_column + once(
                reason is UnknownColumn,
            )
            &&& after.skipped_no_sync_column == r.skipped_no_sync_column + once(
                reason is NoSyncColumn,
            )
            &&& after.skipped_reserved_column == r.skipped_reserved_column + once(
                reason is ReservedColumn,
            )
            &&& after.skipped_delete_target_newer == r.skipped_delete_target_newer
            &&& after.skipped_policy == r.skipped_policy + once(reason is Policy)
            &&& after.skipped_insert_constraint == r.skipped_insert_constraint + once(
                reason is InsertNotNull || reason is InsertUnique || reason is InsertPrimaryKey,
            )
            &&& after.skipped_superseded_in_batch == r.skipped_superseded_in_batch + once(
                reason is SupersededInBatch,
            )
        }),
{
}

} // verus!
