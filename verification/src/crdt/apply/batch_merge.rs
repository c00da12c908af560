//! Merging a batch, row after row.
//!
//! A [`BatchMerge`] holds the rows of a batch that are still to come, the row
//! that is being merged, and what was done so far. Each step takes what the
//! database or the policy answered. Whatever the answers are, every change of the
//! batch is in one place at any time: waiting, in the row being merged, written,
//! or skipped with a reason.

use crate::crdt::apply::accounting::lemma_batch_positions;
use crate::crdt::apply::accounting::lemma_batch_size;
use crate::crdt::apply::accounting::lemma_eligible_positions;
use crate::crdt::apply::accounting::lemma_group_skips;
use crate::crdt::apply::accounting::lemma_picked_skips;
use crate::crdt::apply::accounting::lemma_skips_concat;
use crate::crdt::apply::accounting::lemma_staging_positions;
use crate::crdt::apply::accounting::lemma_staging_size;
use crate::crdt::apply::accounting::lemma_times_concat;
use crate::crdt::apply::accounting::owed_pending;
use crate::crdt::apply::accounting::picked_positions;
use crate::crdt::apply::accounting::positions;
use crate::crdt::apply::accounting::skip_positions;
use crate::crdt::apply::accounting::times;
use crate::crdt::apply::accounting::times_pending;
use crate::crdt::apply::batch::merge_order;
use crate::crdt::apply::batch::order_batch;
use crate::crdt::apply::batch::row_group_views;
use crate::crdt::apply::batch::RowGroup;
use crate::crdt::apply::batch::RowGroupView;
use crate::crdt::apply::delete_propagation::deleted_views;
use crate::crdt::apply::delete_propagation::DeletedRow;
use crate::crdt::apply::delete_propagation::DeletedView;
use crate::crdt::apply::engine::applied_more;
use crate::crdt::apply::engine::eligible_at;
use crate::crdt::apply::engine::eligible_of;
use crate::crdt::apply::engine::folded_all;
use crate::crdt::apply::engine::group_skips;
use crate::crdt::apply::engine::held_back;
use crate::crdt::apply::engine::ineligible_of;
use crate::crdt::apply::engine::lemma_clock_covers_what_landed;
use crate::crdt::apply::engine::lemma_eligible;
use crate::crdt::apply::engine::mismatch_message;
use crate::crdt::apply::engine::opt_string;
use crate::crdt::apply::engine::picked_skips;
use crate::crdt::apply::engine::row_refusal;
use crate::crdt::apply::engine::row_staging;
use crate::crdt::apply::engine::staged_at;
use crate::crdt::apply::engine::stored_column_hlcs;
use crate::crdt::apply::engine::stored_row_hlc;
use crate::crdt::apply::engine::timestamps_checked;
use crate::crdt::apply::engine::winners_stamped;
use crate::crdt::apply::engine::OpenRow;
use crate::crdt::apply::engine::OpenView;
use crate::crdt::apply::engine::ReadyRow;
use crate::crdt::apply::engine::ReadyView;
use crate::crdt::apply::engine::StagedRow;
use crate::crdt::apply::engine::StagedRowView;
use crate::crdt::apply::engine::StoredRow;
use crate::crdt::apply::lww::staged_hlc;
use crate::crdt::apply::policy_types::decision_views;
use crate::crdt::apply::policy_types::indexed_views;
use crate::crdt::apply::policy_types::ConstraintDecision;
use crate::crdt::apply::policy_types::IndexedView;
use crate::crdt::apply::policy_types::RowDecision;
use crate::crdt::apply::preflight::check_timestamp;
use crate::crdt::apply::preflight::readable;
use crate::crdt::apply::preflight::reports;
use crate::crdt::apply::preflight::Refusal;
use crate::crdt::apply::report::accounted;
use crate::crdt::apply::report::counted_all;
use crate::crdt::apply::report::empty_report;
use crate::crdt::apply::report::lemma_accounted_all;
use crate::crdt::apply::report::ApplyOutcome;
use crate::crdt::apply::report::ApplyReport;
use crate::crdt::apply::report::SkipReason;
use crate::crdt::apply::report::SkippedChange;
use crate::crdt::apply::row::StagedView;
use crate::crdt::apply::write::newest;
use crate::crdt::apply::write::row_hlc_after;
use crate::crdt::apply::write::staged_hlcs;
use crate::crdt::hlc::timestamp_value;
use crate::crdt::scanner::change::ColumnChange;
use crate::crdt::schema::schema_view;
use crate::crdt::schema::ColumnInfo;
use crate::crdt::schema::ColumnView;
use crate::error::Error;
use crate::json::json_object;
use std::collections::VecDeque;
use vstd::prelude::*;

verus! {

/// Where the row that is being merged stands.
pub enum StageView {
    Idle,
    Open(OpenView),
    Ready(ReadyView),
    Staged(StagedRowView),
}

/// What a [`BatchMerge`] stands for.
pub struct MergeView {
    /// Number of changes in the batch.
    pub total: nat,
    /// The rows that are still to come.
    pub pending: Seq<RowGroupView>,
    pub stage: StageView,
    pub report: ApplyReport,
    pub skipped: Seq<SkippedChange>,
    /// The changes that were written.
    pub landed: Seq<IndexedView>,
    /// The newest timestamp that was written.
    pub newest: Option<Seq<char>>,
}

/// Number of changes that the row being merged still holds.
pub open spec fn owed_stage(s: StageView) -> nat {
    match s {
        StageView::Idle => 0,
        StageView::Open(o) => o.changes.len(),
        StageView::Ready(r) => r.eligible.len(),
        StageView::Staged(s) => s.staged.len(),
    }
}

/// The positions in the batch of the changes that the row being merged still
/// holds.
pub open spec fn stage_positions(s: StageView) -> Seq<int> {
    match s {
        StageView::Idle => Seq::empty(),
        StageView::Open(o) => positions(o.changes),
        StageView::Ready(r) => picked_positions(r.open.changes, eligible_at(r.eligible)),
        StageView::Staged(s) => picked_positions(s.ready.open.changes, staged_at(s.staged)),
    }
}

/// The timestamps of some changes.
pub open spec fn hlcs_of(changes: Seq<IndexedView>) -> Seq<Seq<char>> {
    changes.map_values(|c: IndexedView| c.change.hlc_timestamp)
}

/// In how many places the change at position `x` of the batch is.
pub open spec fn places(m: MergeView, x: int) -> nat {
    times(skip_positions(m.skipped), x) + times(positions(m.landed), x) + times(
        stage_positions(m.stage),
        x,
    ) + times_pending(m.pending, x)
}

/// Every change of the batch is in one place, the counters agree with what was
/// recorded, and the newest timestamp is that of what was written.
pub open spec fn balanced(m: MergeView) -> bool {
    &&& accounted(m.report) + owed_stage(m.stage) + owed_pending(m.pending) == m.total
    &&& m.total <= usize::MAX
    &&& m.report.applied == m.landed.len()
    &&& accounted(m.report) == m.landed.len() + m.skipped.len()
    &&& forall|x: int| #[trigger]
        places(m, x) == (if 0 <= x < m.total {
            1nat
        } else {
            0nat
        })
    &&& m.newest == folded_all(None, hlcs_of(m.landed))
    &&& forall|i: int|
        0 <= i < m.landed.len() ==> timestamp_value(
            (#[trigger] m.landed[i]).change.hlc_timestamp,
        ) is Ok
}

/// The merge with some more changes skipped.
pub open spec fn with_skips(m: MergeView, skips: Seq<SkippedChange>) -> MergeView {
    MergeView { report: counted_all(m.report, skips), skipped: m.skipped + skips, ..m }
}

/// The next row, opened with the schema of its table; skipped where it cannot
/// be merged at all.
pub open spec fn after_open(m: MergeView, schema: Seq<ColumnView>) -> MergeView {
    if m.stage is Idle && m.pending.len() > 0 {
        let group = m.pending.first();
        let rest = MergeView { pending: m.pending.drop_first(), ..m };
        match row_refusal(schema, group.row_pks) {
            Some(reason) => with_skips(rest, group_skips(group.changes, reason)),
            None => MergeView {
                stage: StageView::Open(
                    OpenView {
                        table_name: group.table_name,
                        row_pks_json: group.row_pks,
                        schema,
                        row_pks: json_object(group.row_pks)->Some_0,
                        changes: group.changes,
                    },
                ),
                ..rest
            },
        }
    } else {
        m
    }
}

/// The open row with what is stored of it.
pub open spec fn after_classify(m: MergeView, stored: Option<StoredRow>) -> MergeView {
    match m.stage {
        StageView::Open(o) => with_skips(
            MergeView {
                stage: StageView::Ready(
                    ReadyView {
                        open: o,
                        exists: stored is Some,
                        row_hlc: stored_row_hlc(stored),
                        column_hlcs: stored_column_hlcs(stored),
                        eligible: eligible_of(o.changes, o.schema, o.changes.len()),
                    },
                ),
                ..m
            },
            ineligible_of(o.changes, o.schema, o.changes.len()),
        ),
        _ => m,
    }
}

/// The verdicts of the policy match the eligible columns of the row.
pub open spec fn verdicts_match(m: MergeView, decision: RowDecision) -> bool {
    match (m.stage, decision) {
        (StageView::Ready(r), RowDecision::Columns(d)) => d@.len() == r.eligible.len(),
        _ => true,
    }
}

/// The ready row with the verdict of the policy.
pub open spec fn after_decide(
    m: MergeView,
    decision: RowDecision,
    log: Seq<DeletedView>,
) -> MergeView {
    match m.stage {
        StageView::Ready(r) => {
            let idle = MergeView { stage: StageView::Idle, ..m };
            match decision {
                RowDecision::Skip => with_skips(
                    idle,
                    picked_skips(r.open.changes, eligible_at(r.eligible), SkipReason::Policy),
                ),
                RowDecision::Columns(d) => {
                    let st = row_staging(r, decision_views(d@));
                    if st.staged.len() == 0 {
                        with_skips(idle, st.skips)
                    } else if held_back(r, st.staged, log) {
                        with_skips(
                            idle,
                            st.skips + picked_skips(
                                r.open.changes,
                                staged_at(st.staged),
                                SkipReason::ShadowedByDelete,
                            ),
                        )
                    } else {
                        let staged = StagedRowView {
                            ready: r,
                            staged: st.staged,
                            row_hlc: row_hlc_after(
                                r.exists,
                                r.row_hlc,
                                newest(staged_hlcs(st.staged, r.open.changes)),
                            ),
                        };
                        with_skips(
                            MergeView { stage: StageView::Staged(staged), ..m },
                            st.skips,
                        )
                    }
                },
            }
        },
        _ => m,
    }
}

/// The changes of a row that won.
pub open spec fn winners(s: StagedRowView) -> Seq<IndexedView> {
    s.staged.map_values(|w: StagedView| s.ready.open.changes[w.at])
}

/// The staged row was written.
pub open spec fn after_confirm(m: MergeView) -> MergeView {
    match m.stage {
        StageView::Staged(s) => MergeView {
            stage: StageView::Idle,
            report: applied_more(m.report, s.staged.len()),
            landed: m.landed + winners(s),
            newest: folded_all(m.newest, staged_hlcs(s.staged, s.ready.open.changes)),
            ..m
        },
        _ => m,
    }
}

/// The staged row broke a constraint and is dropped.
pub open spec fn after_drop(m: MergeView, reason: SkipReason) -> MergeView {
    match m.stage {
        StageView::Staged(s) => with_skips(
            MergeView { stage: StageView::Idle, ..m },
            picked_skips(s.ready.open.changes, staged_at(s.staged), reason),
        ),
        _ => m,
    }
}

/// Skipping what a row still holds keeps the balance.
proof fn lemma_skips_balance(before: MergeView, after: MergeView, skips: Seq<SkippedChange>)
    requires
        balanced(before),
        after == with_skips(
            MergeView { stage: after.stage, pending: after.pending, ..before },
            skips,
        ),
        skips.len() + owed_stage(after.stage) + owed_pending(after.pending) == owed_stage(
            before.stage,
        ) + owed_pending(before.pending),
        forall|x: int|
            times(skip_positions(skips), x) + times(stage_positions(after.stage), x)
                + #[trigger] times_pending(after.pending, x) == times(
                stage_positions(before.stage),
                x,
            ) + times_pending(before.pending, x),
    ensures
        balanced(after),
{
    lemma_accounted_all(before.report, skips);
    assert forall|x: int| #[trigger]
        places(after, x) == (if 0 <= x < after.total {
            1nat
        } else {
            0nat
        }) by {
        assert(places(before, x) == (if 0 <= x < before.total {
            1nat
        } else {
            0nat
        }));
        lemma_skips_concat(before.skipped, skips, x);
    }
}

/// Opening a row keeps every change in one place.
pub proof fn lemma_open_keeps_balance(m: MergeView, schema: Seq<ColumnView>)
    requires
        balanced(m),
    ensures
        balanced(after_open(m, schema)),
{
    if m.stage is Idle && m.pending.len() > 0 {
        let group = m.pending.first();
        let after = after_open(m, schema);
        assert(times(Seq::<int>::empty(), 0) == 0);
        match row_refusal(schema, group.row_pks) {
            Some(reason) => {
                lemma_group_skips(group.changes, reason);
                lemma_skips_balance(m, after, group_skips(group.changes, reason));
            },
            None => {
                let none = Seq::<SkippedChange>::empty();
                assert(m.skipped + none =~= m.skipped);
                assert(skip_positions(none) =~= Seq::empty());
                lemma_skips_balance(m, after, none);
            },
        }
    }
}

/// Sorting out the columns of a row keeps every change in one place.
pub proof fn lemma_classify_keeps_balance(m: MergeView, stored: Option<StoredRow>)
    requires
        balanced(m),
    ensures
        balanced(after_classify(m, stored)),
{
    if let StageView::Open(o) = m.stage {
        let after = after_classify(m, stored);
        let skips = ineligible_of(o.changes, o.schema, o.changes.len());
        lemma_eligible(o.changes, o.schema, o.changes.len());
        assert(o.changes.take(o.changes.len() as int) =~= o.changes);
        assert forall|x: int|
            times(skip_positions(skips), x) + times(stage_positions(after.stage), x)
                + #[trigger] times_pending(after.pending, x) == times(stage_positions(m.stage), x)
                + times_pending(m.pending, x) by {
            lemma_eligible_positions(o.changes, o.schema, o.changes.len(), x);
        }
        lemma_skips_balance(m, after, skips);
    }
}

/// Taking the verdict of the policy keeps every change in one place.
pub proof fn lemma_decide_keeps_balance(
    m: MergeView,
    decision: RowDecision,
    log: Seq<DeletedView>,
)
    requires
        balanced(m),
        verdicts_match(m, decision),
    ensures
        balanced(after_decide(m, decision, log)),
{
    if let StageView::Ready(r) = m.stage {
        let after = after_decide(m, decision, log);
        match decision {
            RowDecision::Skip => {
                let skips = picked_skips(
                    r.open.changes,
                    eligible_at(r.eligible),
                    SkipReason::Policy,
                );
                lemma_picked_skips(r.open.changes, eligible_at(r.eligible), SkipReason::Policy);
                lemma_skips_balance(m, after, skips);
            },
            RowDecision::Columns(d) => {
                let dv = decision_views(d@);
                let n = r.eligible.len();
                let st = row_staging(r, dv);
                let dropped = picked_skips(
                    r.open.changes,
                    staged_at(st.staged),
                    SkipReason::ShadowedByDelete,
                );
                let held = st.staged.len() > 0 && held_back(r, st.staged, log);
                let skips = if held {
                    st.skips + dropped
                } else {
                    st.skips
                };
                lemma_staging_size(r.open.changes, r.column_hlcs, r.eligible, dv, n);
                assert(r.eligible.take(n as int) =~= r.eligible);
                lemma_picked_skips(
                    r.open.changes,
                    staged_at(st.staged),
                    SkipReason::ShadowedByDelete,
                );
                assert(st.staged.len() == 0 ==> picked_positions(
                    r.open.changes,
                    staged_at(st.staged),
                ) =~= Seq::empty());
                assert forall|x: int|
                    times(skip_positions(skips), x) + times(stage_positions(after.stage), x)
                        + #[trigger] times_pending(after.pending, x) == times(
                        stage_positions(m.stage),
                        x,
                    ) + times_pending(m.pending, x) by {
                    lemma_staging_positions(r.open.changes, r.column_hlcs, r.eligible, dv, n, x);
                    if held {
                        lemma_skips_concat(st.skips, dropped, x);
                    }
                }
                lemma_skips_balance(m, after, skips);
            },
        }
    }
}

/// Dropping a staged row keeps every change in one place.
pub proof fn lemma_drop_keeps_balance(m: MergeView, reason: SkipReason)
    requires
        balanced(m),
    ensures
        balanced(after_drop(m, reason)),
{
    if let StageView::Staged(s) = m.stage {
        let after = after_drop(m, reason);
        let at = staged_at(s.staged);
        lemma_picked_skips(s.ready.open.changes, at, reason);
        lemma_skips_balance(m, after, picked_skips(s.ready.open.changes, at, reason));
    }
}

/// Following a list of timestamps in two parts is following it at once.
proof fn lemma_folded_concat(start: Option<Seq<char>>, a: Seq<Seq<char>>, b: Seq<Seq<char>>)
    ensures
        folded_all(folded_all(start, a), b) == folded_all(start, a + b),
    decreases b.len(),
{
    if b.len() == 0 {
        assert(a + b =~= a);
    } else {
        lemma_folded_concat(start, a, b.drop_last());
        assert((a + b).drop_last() =~= a + b.drop_last());
        assert((a + b).last() == b.last());
    }
}

/// Writing a staged row keeps every change in one place.
pub proof fn lemma_confirm_keeps_balance(m: MergeView)
    requires
        balanced(m),
        m.stage matches StageView::Staged(s) ==> winners_stamped(s),
    ensures
        balanced(after_confirm(m)),
{
    if let StageView::Staged(s) = m.stage {
        let after = after_confirm(m);
        let won = winners(s);
        let changes = s.ready.open.changes;
        assert(positions(won) =~= picked_positions(changes, staged_at(s.staged)));
        assert(positions(after.landed) =~= positions(m.landed) + positions(won));
        assert(hlcs_of(won) =~= staged_hlcs(s.staged, changes));
        assert(hlcs_of(after.landed) =~= hlcs_of(m.landed) + hlcs_of(won));
        lemma_folded_concat(None, hlcs_of(m.landed), hlcs_of(won));
        assert forall|x: int| #[trigger]
            places(after, x) == (if 0 <= x < after.total {
                1nat
            } else {
                0nat
            }) by {
            assert(places(m, x) == (if 0 <= x < m.total {
                1nat
            } else {
                0nat
            }));
            lemma_times_concat(positions(m.landed), positions(won), x);
        }
        assert forall|i: int| 0 <= i < after.landed.len() implies timestamp_value(
            (#[trigger] after.landed[i]).change.hlc_timestamp,
        ) is Ok by {
            if i < m.landed.len() {
                assert(after.landed[i] == m.landed[i]);
            } else {
                let j = i - m.landed.len();
                assert(after.landed[i] == won[j]);
                assert(timestamp_value(staged_hlc(s.staged[j], changes)) is Ok);
            }
        }
    }
}

/// Where the row that is being merged stands.
pub enum MergeStage {
    /// No row is being merged.
    Idle,
    /// What is stored of the row is to be read.
    Open(OpenRow),
    /// The policy is to be asked.
    Ready(ReadyRow),
    /// The row is to be written.
    Staged(StagedRow),
}

impl View for MergeStage {
    type V = StageView;

    open spec fn view(&self) -> StageView {
        match self {
            MergeStage::Idle => StageView::Idle,
            MergeStage::Open(o) => StageView::Open(o@),
            MergeStage::Ready(r) => StageView::Ready(r@),
            MergeStage::Staged(s) => StageView::Staged(s@),
        }
    }
}

/// A batch that is being merged.
pub struct BatchMerge {
    pending: VecDeque<RowGroup>,
    stage: MergeStage,
    outcome: ApplyOutcome,
    newest: Option<String>,
    total: Ghost<nat>,
    landed: Ghost<Seq<IndexedView>>,
}

impl View for BatchMerge {
    type V = MergeView;

    closed spec fn view(&self) -> MergeView {
        MergeView {
            total: self.total@,
            pending: row_group_views(self.pending@),
            stage: self.stage@,
            report: self.outcome.report,
            skipped: self.outcome.skipped@,
            landed: self.landed@,
            newest: opt_string(self.newest),
        }
    }
}

/// `m` is a batch with nothing merged yet.
pub open spec fn started(changes: Seq<ColumnChange>, m: MergeView) -> bool {
    exists|groups: Seq<RowGroup>| #[trigger]
        merge_order(changes, groups) && m == (MergeView {
            total: changes.len(),
            pending: row_group_views(groups),
            stage: StageView::Idle,
            report: empty_report(),
            skipped: Seq::empty(),
            landed: Seq::empty(),
            newest: None,
        })
}

impl BatchMerge {
    #[verifier::type_invariant]
    closed spec fn wf(self) -> bool {
        &&& balanced(self@)
        &&& forall|g: int|
            0 <= g < self.pending@.len() ==> timestamps_checked(
                indexed_views((#[trigger] self.pending@[g]).changes@),
            )
        &&& self.stage matches MergeStage::Staged(s) ==> winners_stamped(s@)
    }

    /// Puts a batch in merge order. A timestamp with a node part that is no
    /// timestamp is refused; a batch that passed its checks has none.
    pub fn start(changes: Vec<ColumnChange>) -> (r: Result<BatchMerge, Error>)
        ensures
            match r {
                Ok(m) => {
                    &&& forall|i: int|
                        0 <= i < changes@.len() ==> readable((#[trigger] changes@[i])@)
                    &&& started(changes@, m@)
                    &&& balanced(m@)
                },
                Err(e) => exists|i: int|
                    {
                        &&& 0 <= i < changes@.len()
                        &&& !readable((#[trigger] changes@[i])@)
                        &&& forall|j: int| 0 <= j < i ==> readable((#[trigger] changes@[j])@)
                        &&& reports(
                            e,
                            changes@[i]@,
                            Refusal::Timestamp(
                                timestamp_value(changes@[i]@.hlc_timestamp)->Err_0,
                            ),
                        )
                    },
            },
    {
        let ghost batch = changes@;
        let mut i: usize = 0;
        while i < changes.len()
            invariant
                i <= changes.len(),
                forall|j: int| 0 <= j < i ==> readable((#[trigger] changes@[j])@),
            decreases changes.len() - i,
        {
            if let Err(e) = check_timestamp(&changes[i]) {
                return Err(e);
            }
            i += 1;
        }
        let ghost total: nat = changes@.len();
        assert(total <= usize::MAX);
        let groups = order_batch(changes);
        let ghost ordered = groups@;
        let mut pending: VecDeque<RowGroup> = VecDeque::new();
        for group in it: groups.into_iter()
            invariant
                it.seq() == ordered,
                pending@ == ordered.take(it.index()),
        {
            pending.push_back(group);
            assert(pending@ =~= ordered.take(it.index() + 1));
        }
        assert(pending@ =~= ordered);
        proof {
            assert forall|g: int| 0 <= g < ordered.len() implies timestamps_checked(
                indexed_views((#[trigger] ordered[g]).changes@),
            ) by {
                let cs = ordered[g].changes@;
                assert forall|k: int| 0 <= k < cs.len() implies ((
                #[trigger] indexed_views(cs)[k]).change.hlc_timestamp.contains('/')
                    ==> timestamp_value(indexed_views(cs)[k].change.hlc_timestamp) is Ok) by {
                    let c = cs[k];
                    assert(c.change == batch[c.input_index as int]);
                    assert(readable(batch[c.input_index as int]@));
                }
            }
            lemma_batch_size(batch, ordered);
            let m = MergeView {
                total,
                pending: row_group_views(ordered),
                stage: StageView::Idle,
                report: empty_report(),
                skipped: Seq::empty(),
                landed: Seq::empty(),
                newest: None,
            };
            assert(skip_positions(m.skipped) =~= Seq::empty());
            assert(positions(m.landed) =~= Seq::empty());
            assert(hlcs_of(m.landed) =~= Seq::empty());
            assert forall|x: int| #[trigger]
                places(m, x) == (if 0 <= x < m.total {
                    1nat
                } else {
                    0nat
                }) by {
                lemma_batch_positions(batch, ordered, x);
            }
            assert(balanced(m));
        }
        let merge = BatchMerge {
            pending,
            stage: MergeStage::Idle,
            outcome: ApplyOutcome::new(),
            newest: None,
            total: Ghost(total),
            landed: Ghost(Seq::empty()),
        };
        assert(merge_order(batch, ordered));
        assert(started(batch, merge@));
        Ok(merge)
    }

    /// Where the row that is being merged stands.
    pub fn stage(&self) -> (r: &MergeStage)
        ensures
            r@ == self@.stage,
    {
        &self.stage
    }

    /// The table of the next row, if one is still to come.
    pub fn next_table(&self) -> (r: Option<&str>)
        ensures
            match r {
                Some(t) => self@.pending.len() > 0 && t@ == self@.pending.first().table_name,
                None => self@.pending.len() == 0,
            },
    {
        if self.pending.len() == 0 {
            return None;
        }
        assert(self@.pending.first() == self.pending@[0]@);
        Some(self.pending[0].table_name.as_str())
    }

    /// Opens the next row, given the schema of its table: an empty schema where
    /// there is no table. Nothing happens while a row is being merged.
    pub fn open_row(self, schema: Vec<ColumnInfo>) -> (r: BatchMerge)
        ensures
            r@ == after_open(self@, schema_view(schema@)),
    {
        proof {
            use_type_invariant(&self);
            lemma_open_keeps_balance(self@, schema_view(schema@));
        }
        let ghost before = self@;
        match self.stage {
            MergeStage::Idle => {},
            _ => {
                return self;
            },
        }
        let BatchMerge { mut pending, stage: _, mut outcome, newest, total, landed } = self;
        let group = match pending.pop_front() {
            Some(group) => group,
            None => {
                return BatchMerge {
                    pending,
                    stage: MergeStage::Idle,
                    outcome,
                    newest,
                    total,
                    landed,
                };
            },
        };
        let stage = match OpenRow::open(group, schema, &mut outcome) {
            Some(open) => MergeStage::Open(open),
            None => MergeStage::Idle,
        };
        assert(row_group_views(pending@) =~= before.pending.drop_first());
        BatchMerge { pending, stage, outcome, newest, total, landed }
    }

    /// Takes what is stored of the open row.
    pub fn classify_row(self, stored: Option<StoredRow>) -> (r: BatchMerge)
        ensures
            r@ == after_classify(self@, stored),
    {
        proof {
            use_type_invariant(&self);
            lemma_classify_keeps_balance(self@, stored);
        }
        let BatchMerge { pending, stage, mut outcome, newest, total, landed } = self;
        let stage = match stage {
            MergeStage::Open(open) => MergeStage::Ready(open.classify(stored, &mut outcome)),
            other => other,
        };
        BatchMerge { pending, stage, outcome, newest, total, landed }
    }

    /// Takes the verdict of the policy on the row. Verdicts that do not match
    /// its eligible columns give the batch up.
    pub fn decide_row(self, decision: RowDecision, log: &[DeletedRow]) -> (r: Result<
        BatchMerge,
        Error,
    >)
        ensures
            match r {
                Ok(m) => verdicts_match(self@, decision) && m@ == after_decide(
                    self@,
                    decision,
                    deleted_views(log@),
                ),
                Err(e) => !verdicts_match(self@, decision) && (self@.stage matches StageView::Ready(
                    row,
                ) && decision matches RowDecision::Columns(d) && e matches Error::Message(reason)
                    && reason@ == mismatch_message(
                    d@.len(),
                    row.eligible.len(),
                    row.open.table_name,
                )),
            },
    {
        proof {
            use_type_invariant(&self);
            if verdicts_match(self@, decision) {
                lemma_decide_keeps_balance(self@, decision, deleted_views(log@));
            }
        }
        let BatchMerge { pending, stage, mut outcome, newest, total, landed } = self;
        let stage = match stage {
            MergeStage::Ready(ready) => match ready.decide(decision, log, &mut outcome) {
                Ok(Some(staged)) => MergeStage::Staged(staged),
                Ok(None) => MergeStage::Idle,
                Err(e) => {
                    return Err(e);
                },
            },
            other => other,
        };
        Ok(BatchMerge { pending, stage, outcome, newest, total, landed })
    }

    /// The staged row was written and the policy told.
    pub fn confirm_row(self) -> (r: BatchMerge)
        ensures
            r@ == after_confirm(self@),
    {
        proof {
            use_type_invariant(&self);
            lemma_confirm_keeps_balance(self@);
            let hlcs = hlcs_of(self@.landed);
            assert forall|i: int| 0 <= i < hlcs.len() implies timestamp_value(
                #[trigger] hlcs[i],
            ) is Ok by {
                assert(hlcs[i] == self@.landed[i].change.hlc_timestamp);
            }
            lemma_clock_covers_what_landed(None, hlcs);
        }
        let ghost before = self@;
        let BatchMerge { pending, stage, mut outcome, mut newest, total, landed } = self;
        match stage {
            MergeStage::Staged(staged) => {
                let ghost won = winners(staged@);
                staged.confirm(&mut outcome, &mut newest);
                BatchMerge {
                    pending,
                    stage: MergeStage::Idle,
                    outcome,
                    newest,
                    total,
                    landed: Ghost(landed@ + won),
                }
            },
            other => BatchMerge { pending, stage: other, outcome, newest, total, landed },
        }
    }

    /// The staged row broke a constraint and the policy said what to do: drop
    /// the row, or give the batch up.
    pub fn recover_row(self, decision: ConstraintDecision, reason: SkipReason) -> (r: Option<
        BatchMerge,
    >)
        ensures
            match r {
                Some(m) => m@ == after_drop(self@, reason) && (self@.stage is Staged ==> decision
                    == ConstraintDecision::SkipRow),
                None => self@.stage is Staged && decision == ConstraintDecision::Abort,
            },
    {
        proof {
            use_type_invariant(&self);
            lemma_drop_keeps_balance(self@, reason);
        }
        let BatchMerge { pending, stage, mut outcome, newest, total, landed } = self;
        let stage = match stage {
            MergeStage::Staged(staged) => if staged.recover(decision, reason, &mut outcome) {
                MergeStage::Idle
            } else {
                return None;
            },
            other => other,
        };
        Some(BatchMerge { pending, stage, outcome, newest, total, landed })
    }

    /// What the merge came to, once no row is left: the outcome and the newest
    /// timestamp that was written. Every change of the batch was written or is
    /// recorded as skipped, once, and the counters say how many of each. The
    /// merge comes back as it is where a row is left.
    pub fn finish(self) -> (r: Result<(ApplyOutcome, Option<String>), BatchMerge>)
        ensures
            match r {
                Ok((outcome, newest)) => {
                    &&& self@.stage is Idle && self@.pending.len() == 0
                    &&& outcome.report == self@.report
                    &&& outcome.skipped@ == self@.skipped
                    &&& opt_string(newest) == self@.newest
                    &&& accounted(outcome.report) == self@.total
                    &&& outcome.report.applied == self@.landed.len()
                    &&& outcome.report.applied + outcome.skipped@.len() == self@.total
                    &&& forall|x: int|
                        #![trigger times(skip_positions(outcome.skipped@), x)]
                        0 <= x < self@.total ==> times(skip_positions(outcome.skipped@), x)
                            + times(positions(self@.landed), x) == 1
                    &&& opt_string(newest) == folded_all(None, hlcs_of(self@.landed))
                },
                Err(m) => m == self && !(self@.stage is Idle && self@.pending.len() == 0),
            },
    {
        proof {
            use_type_invariant(&self);
            if self@.stage is Idle && self@.pending.len() == 0 {
                assert forall|x: int|
                    #![trigger times(skip_positions(self@.skipped), x)]
                    0 <= x < self@.total implies times(skip_positions(self@.skipped), x) + times(
                    positions(self@.landed),
                    x,
                ) == 1 by {
                    assert(places(self@, x) == 1);
                }
            }
        }
        let idle = match self.stage {
            MergeStage::Idle => true,
            _ => false,
        };
        if idle && self.pending.len() == 0 {
            Ok((self.outcome, self.newest))
        } else {
            Err(self)
        }
    }
}

} // verus!
