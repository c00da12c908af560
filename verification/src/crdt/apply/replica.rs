//! What a merge makes of a whole replica.
//!
//! A replica is seen as its rows, told apart by table and primary key, each with
//! what a merge reads and writes of it. The policy is one whose verdict on a
//! change depends on the change alone.

use crate::crdt::apply::batch::RowGroupView;
use crate::crdt::apply::batch_merge::after_classify;
use crate::crdt::apply::batch_merge::after_confirm;
use crate::crdt::apply::batch_merge::after_decide;
use crate::crdt::apply::batch_merge::after_open;
use crate::crdt::apply::batch_merge::balanced;
use crate::crdt::apply::batch_merge::lemma_classify_keeps_balance;
use crate::crdt::apply::batch_merge::lemma_confirm_keeps_balance;
use crate::crdt::apply::batch_merge::lemma_decide_keeps_balance;
use crate::crdt::apply::batch_merge::lemma_open_keeps_balance;
use crate::crdt::apply::batch_merge::MergeView;
use crate::crdt::apply::batch_merge::StageView;
use crate::crdt::apply::convergence::values_after;
use crate::crdt::apply::delete_propagation::row_shadowed;
use crate::crdt::apply::delete_propagation::DeletedView;
use crate::crdt::apply::engine::eligible_of;
use crate::crdt::apply::engine::lemma_eligible;
use crate::crdt::apply::engine::row_refusal;
use crate::crdt::apply::engine::stored_column_hlcs;
use crate::crdt::apply::engine::stored_row_hlc;
use crate::crdt::apply::engine::timestamps_checked;
use crate::crdt::apply::engine::StoredRow;
use crate::crdt::apply::lww::lemma_winners_are_newer_than_stored;
use crate::crdt::apply::lww::staged_hlc;
use crate::crdt::apply::merge_laws::lemma_only_eligible_columns_are_written;
use crate::crdt::apply::merge_laws::stages;
use crate::crdt::apply::policy_types::decision_views;
use crate::crdt::apply::policy_types::DecisionView;
use crate::crdt::apply::policy_types::RowDecision;
use crate::crdt::apply::row::staging;
use crate::crdt::apply::row::StagedView;
use crate::crdt::apply::write::hlcs_after;
use crate::crdt::apply::write::newest;
use crate::crdt::apply::write::row_hlc_after;
use crate::crdt::apply::write::staged_hlcs;
use crate::crdt::hlc::timestamp_value;
use crate::crdt::scanner::change::ChangeView;
use crate::crdt::schema::ColumnView;
use crate::crdt::value::SqlView;
use crate::json::json_object;
use crate::json::JsonView;
use vstd::prelude::*;

verus! {

/// A row as a merge sees it.
pub struct RowState {
    pub exists: bool,
    pub row_hlc: Seq<char>,
    pub column_hlcs: Seq<(Seq<char>, JsonView)>,
    pub values: Map<Seq<char>, SqlView>,
}

/// A table and a primary key.
pub type RowId = (Seq<char>, Seq<(Seq<char>, JsonView)>);

/// The rows of a replica.
pub type Replica = spec_fn(RowId) -> RowState;

/// The schemas that a merge finds, and the verdicts of its policy.
pub struct Rules {
    pub schema_of: spec_fn(Seq<char>) -> Seq<ColumnView>,
    pub verdict: spec_fn(ChangeView) -> DecisionView,
}

/// The row that a group is about.
pub open spec fn row_id(g: RowGroupView) -> RowId {
    (g.table_name, json_object(g.row_pks)->Some_0)
}

/// The table and the identity of the row are in order.
pub open spec fn mergeable(g: RowGroupView, rules: Rules) -> bool {
    row_refusal((rules.schema_of)(g.table_name), g.row_pks) is None
}

/// The changes that may be written, as positions in the group.
pub open spec fn eligible_in(g: RowGroupView, rules: Rules) -> Seq<usize> {
    eligible_of(g.changes, (rules.schema_of)(g.table_name), g.changes.len())
}

/// The verdicts of the policy on them.
pub open spec fn verdicts_on(g: RowGroupView, rules: Rules) -> Seq<DecisionView> {
    eligible_in(g, rules).map_values(|i: usize| (rules.verdict)(g.changes[i as int].change))
}

/// The columns that win.
pub open spec fn staged_in(row: RowState, g: RowGroupView, rules: Rules) -> Seq<StagedView> {
    staging(
        g.changes,
        row.column_hlcs,
        eligible_in(g, rules),
        verdicts_on(g, rules),
        eligible_in(g, rules).len(),
    ).staged
}

/// The newest timestamp among them.
pub open spec fn written_hlc(row: RowState, g: RowGroupView, rules: Rules) -> Seq<char> {
    newest(staged_hlcs(staged_in(row, g, rules), g.changes))
}

/// The group would bring back a row that the delete log holds back.
pub open spec fn held(
    row: RowState,
    g: RowGroupView,
    rules: Rules,
    log: Seq<DeletedView>,
) -> bool {
    !row.exists && row_shadowed(row_id(g).0, row_id(g).1, written_hlc(row, g, rules), log)
}

/// Something of the group is written.
pub open spec fn lands(
    row: RowState,
    g: RowGroupView,
    rules: Rules,
    log: Seq<DeletedView>,
) -> bool {
    mergeable(g, rules) && staged_in(row, g, rules).len() > 0 && !held(row, g, rules, log)
}

/// The row after its group was merged.
pub open spec fn row_after(
    row: RowState,
    g: RowGroupView,
    rules: Rules,
    log: Seq<DeletedView>,
) -> RowState {
    if lands(row, g, rules, log) {
        let staged = staged_in(row, g, rules);
        RowState {
            exists: true,
            row_hlc: row_hlc_after(row.exists, row.row_hlc, written_hlc(row, g, rules)),
            column_hlcs: hlcs_after(row.column_hlcs, staged, g.changes),
            values: values_after(row.values, staged, g.changes),
        }
    } else {
        row
    }
}

/// The replica after some groups were merged.
pub open spec fn replica_after(
    s: Replica,
    groups: Seq<RowGroupView>,
    rules: Rules,
    log: Seq<DeletedView>,
) -> Replica
    decreases groups.len(),
{
    if groups.len() == 0 {
        s
    } else {
        let before = replica_after(s, groups.drop_last(), rules, log);
        let g = groups.last();
        |r: RowId|
            if r == row_id(g) {
                row_after(before(r), g, rules, log)
            } else {
                before(r)
            }
    }
}

/// How many changes of some groups are written.
pub open spec fn applied_in(
    s: Replica,
    groups: Seq<RowGroupView>,
    rules: Rules,
    log: Seq<DeletedView>,
) -> nat
    decreases groups.len(),
{
    if groups.len() == 0 {
        0
    } else {
        let before = replica_after(s, groups.drop_last(), rules, log);
        let g = groups.last();
        applied_in(s, groups.drop_last(), rules, log) + if lands(
            before(row_id(g)),
            g,
            rules,
            log,
        ) {
            staged_in(before(row_id(g)), g, rules).len()
        } else {
            0
        }
    }
}

/// What a merge is told of one row: the schema of its table, what is stored of
/// it, and the verdict of the policy. The write succeeds.
pub struct MergeStep {
    pub schema: Seq<ColumnView>,
    pub stored: Option<StoredRow>,
    pub decision: RowDecision,
}

/// A merge after one more row.
#[verifier::opaque]
pub open spec fn row_merged(m: MergeView, step: MergeStep, log: Seq<DeletedView>) -> MergeView {
    after_confirm(
        after_decide(
            after_classify(after_open(m, step.schema), step.stored),
            step.decision,
            log,
        ),
    )
}

/// A merge after some more rows.
pub open spec fn rows_merged(
    m: MergeView,
    steps: Seq<MergeStep>,
    log: Seq<DeletedView>,
) -> MergeView
    decreases steps.len(),
{
    if steps.len() == 0 {
        m
    } else {
        row_merged(rows_merged(m, steps.drop_last(), log), steps.last(), log)
    }
}

/// What the merge is told of the next row is what the replica and the rules say.
pub open spec fn step_fits(g: RowGroupView, row: RowState, step: MergeStep, rules: Rules) -> bool {
    &&& step.schema == (rules.schema_of)(g.table_name)
    &&& mergeable(g, rules) ==> {
        &&& step.stored is Some <==> row.exists
        &&& stored_row_hlc(step.stored) == row.row_hlc
        &&& stored_column_hlcs(step.stored) == row.column_hlcs
        &&& step.decision matches RowDecision::Columns(d) && decision_views(d@) == verdicts_on(
            g,
            rules,
        )
    }
}

/// What the merge is told of every row is what the replica and the rules say.
pub open spec fn steps_fit(
    m: MergeView,
    s: Replica,
    steps: Seq<MergeStep>,
    rules: Rules,
    log: Seq<DeletedView>,
) -> bool {
    &&& steps.len() <= m.pending.len()
    &&& forall|i: int|
        0 <= i < steps.len() ==> step_fits(
            m.pending[i],
            replica_after(s, m.pending.take(i), rules, log)(row_id(m.pending[i])),
            #[trigger] steps[i],
            rules,
        )
}

/// A merge between two rows whose groups carry checked timestamps.
#[verifier::opaque]
pub open spec fn between_rows(m: MergeView) -> bool {
    &&& m.stage is Idle
    &&& balanced(m)
    &&& forall|g: int|
        0 <= g < m.pending.len() ==> timestamps_checked((#[trigger] m.pending[g]).changes)
}

/// The columns that win are changes of the group.
pub proof fn lemma_staged_from_group(row: RowState, g: RowGroupView, rules: Rules)
    requires
        g.changes.len() <= usize::MAX,
    ensures
        forall|j: int|
            0 <= j < staged_in(row, g, rules).len() ==> 0 <= (#[trigger] staged_in(
                row,
                g,
                rules,
            )[j]).at < g.changes.len(),
{
    let e = eligible_in(g, rules);
    let dv = verdicts_on(g, rules);
    let staged = staged_in(row, g, rules);
    lemma_eligible(g.changes, (rules.schema_of)(g.table_name), g.changes.len());
    assert forall|j: int| 0 <= j < staged.len() implies 0 <= (#[trigger] staged[j]).at
        < g.changes.len() by {
        lemma_only_eligible_columns_are_written(g.changes, row.column_hlcs, e, dv, e.len(), j);
        let k = choose|k: int| 0 <= k < e.len() && stages(#[trigger] e[k], dv[k], staged[j]);
        assert(e[k] < g.changes.len());
    }
}

proof fn lemma_row_merged(
    m: MergeView,
    row: RowState,
    step: MergeStep,
    rules: Rules,
    log: Seq<DeletedView>,
)
    requires
        between_rows(m),
        m.pending.len() > 0,
        step_fits(m.pending[0], row, step, rules),
    ensures
        between_rows(row_merged(m, step, log)),
        row_merged(m, step, log).pending == m.pending.drop_first(),
        row_merged(m, step, log).report.applied == m.report.applied + if lands(
            row,
            m.pending[0],
            rules,
            log,
        ) {
            staged_in(row, m.pending[0], rules).len()
        } else {
            0
        },
{
    reveal(row_merged);
    reveal(between_rows);
    let g = m.pending[0];
    assert(g == m.pending.first());
    let opened = after_open(m, step.schema);
    let ready = after_classify(opened, step.stored);
    let decided = after_decide(ready, step.decision, log);
    lemma_open_keeps_balance(m, step.schema);
    lemma_classify_keeps_balance(opened, step.stored);
    if let RowDecision::Columns(d) = step.decision {
        assert(decision_views(d@).len() == d@.len());
    }
    lemma_decide_keeps_balance(ready, step.decision, log);
    if mergeable(g, rules) {
        let dv = verdicts_on(g, rules);
        let e = eligible_in(g, rules);
        lemma_winners_are_newer_than_stored(g.changes, row.column_hlcs, e, dv, e.len());
        if let StageView::Staged(s) = decided.stage {
            assert(s.staged == staged_in(row, g, rules));
            assert(s.ready.open.changes == g.changes);
            lemma_staged_from_group(row, g, rules);
            assert forall|j: int| 0 <= j < s.staged.len() implies timestamp_value(
                #[trigger] staged_hlc(s.staged[j], s.ready.open.changes),
            ) is Ok by {
                let c = g.changes[s.staged[j].at];
                assert(c.change.hlc_timestamp.contains('/'));
            }
        }
    }
    lemma_confirm_keeps_balance(decided);
    let after = row_merged(m, step, log);
    assert forall|h: int| 0 <= h < after.pending.len() implies timestamps_checked(
        (#[trigger] after.pending[h]).changes,
    ) by {
        assert(after.pending[h] == m.pending[h + 1]);
    }
}

/// A merge does to the replica what is said of its groups, and counts what it
/// wrote.
pub proof fn lemma_merge_follows_rules(
    m: MergeView,
    s: Replica,
    steps: Seq<MergeStep>,
    rules: Rules,
    log: Seq<DeletedView>,
)
    requires
        between_rows(m),
        steps_fit(m, s, steps, rules, log),
    ensures
        between_rows(rows_merged(m, steps, log)),
        rows_merged(m, steps, log).pending == m.pending.skip(steps.len() as int),
        rows_merged(m, steps, log).report.applied == m.report.applied + applied_in(
            s,
            m.pending.take(steps.len() as int),
            rules,
            log,
        ),
    decreases steps.len(),
{
    let n = steps.len() as int;
    if n == 0 {
        assert(m.pending.skip(0) =~= m.pending);
    } else {
        let rest = steps.drop_last();
        assert forall|i: int| 0 <= i < rest.len() implies step_fits(
            m.pending[i],
            replica_after(s, m.pending.take(i), rules, log)(row_id(m.pending[i])),
            #[trigger] rest[i],
            rules,
        ) by {
            assert(rest[i] == steps[i]);
        }
        lemma_merge_follows_rules(m, s, rest, rules, log);
        let before = rows_merged(m, rest, log);
        let g = m.pending[n - 1];
        assert(steps[n - 1] == steps.last());
        assert(before.pending[0] == g);
        let row = replica_after(s, m.pending.take(n - 1), rules, log)(row_id(g));
        lemma_row_merged(before, row, steps.last(), rules, log);
        assert(before.pending.drop_first() =~= m.pending.skip(n));
        let done = m.pending.take(n);
        assert(done.drop_last() =~= m.pending.take(n - 1));
        assert(done.last() == g);
    }
}

} // verus!
