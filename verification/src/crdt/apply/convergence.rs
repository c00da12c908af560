//! Replicas that took the same changes hold the same values.
//!
//! A node issues a timestamp once, so that a column and a timestamp together
//! name one value. Under that condition a column's value follows its timestamp
//! through every merge, and since timestamps do not depend on the order of the
//! batches, neither do values.

use crate::crdt::apply::lww::columns_distinct;
use crate::crdt::apply::lww::lemma_winners_write_distinct_columns;
use crate::crdt::apply::lww::staged_column;
use crate::crdt::apply::lww::staged_hlc;
use crate::crdt::apply::merge_laws::lemma_merge_keeps_newest;
use crate::crdt::apply::merge_laws::lemma_only_eligible_columns_are_written;
use crate::crdt::apply::merge_laws::lemma_stored_after_write;
use crate::crdt::apply::merge_laws::lemma_two_batches_commute;
use crate::crdt::apply::merge_laws::merged_hlcs;
use crate::crdt::apply::merge_laws::stages;
use crate::crdt::apply::policy_types::DecisionView;
use crate::crdt::apply::policy_types::IndexedView;
use crate::crdt::apply::row::staging;
use crate::crdt::apply::row::stored_hlc;
use crate::crdt::apply::row::StagedView;
use crate::crdt::hlc::hlc_before;
use crate::crdt::hlc::hlc_key;
use crate::crdt::value::SqlView;
use crate::json::keys_ascend;
use crate::json::JsonView;
use vstd::prelude::*;

verus! {

/// The value that a column has under a timestamp.
pub type Truth = spec_fn(Seq<char>, (nat, nat)) -> SqlView;

/// The values of a row's columns after the staged ones were written.
pub open spec fn values_after(
    values: Map<Seq<char>, SqlView>,
    staged: Seq<StagedView>,
    group: Seq<IndexedView>,
) -> Map<Seq<char>, SqlView>
    decreases staged.len(),
{
    if staged.len() == 0 {
        values
    } else {
        values_after(values, staged.drop_last(), group).insert(
            staged_column(staged.last(), group),
            staged.last().value,
        )
    }
}

/// The values of a row's columns after its changes were merged.
pub open spec fn merged_values(
    values: Map<Seq<char>, SqlView>,
    stored: Seq<(Seq<char>, JsonView)>,
    group: Seq<IndexedView>,
    eligible: Seq<usize>,
    decisions: Seq<DecisionView>,
) -> Map<Seq<char>, SqlView> {
    values_after(
        values,
        staging(group, stored, eligible, decisions, eligible.len()).staged,
        group,
    )
}

/// Every column that has a timestamp has the value that goes with it.
pub open spec fn row_agrees(
    truth: Truth,
    stored: Seq<(Seq<char>, JsonView)>,
    values: Map<Seq<char>, SqlView>,
) -> bool {
    forall|column: Seq<char>|
        hlc_before(Seq::empty(), #[trigger] stored_hlc(stored, column))
            ==> values.dom().contains(column) && values[column] == truth(
            column,
            hlc_key(stored_hlc(stored, column)),
        )
}

/// Every admitted change brings the value that goes with its timestamp.
pub open spec fn batch_agrees(
    truth: Truth,
    group: Seq<IndexedView>,
    eligible: Seq<usize>,
    decisions: Seq<DecisionView>,
) -> bool {
    forall|k: int|
        0 <= k < eligible.len() ==> (#[trigger] decisions[k] matches DecisionView::Accept {
            value,
            ..
        } ==> value == truth(
            group[eligible[k] as int].change.column_name,
            hlc_key(group[eligible[k] as int].change.hlc_timestamp),
        ))
}

/// A write gives each staged column its value and leaves the others alone.
pub proof fn lemma_values_after_write(
    values: Map<Seq<char>, SqlView>,
    staged: Seq<StagedView>,
    group: Seq<IndexedView>,
    column: Seq<char>,
)
    requires
        columns_distinct(staged, group),
    ensures
        forall|j: int|
            0 <= j < staged.len() && staged_column(#[trigger] staged[j], group) == column
                ==> values_after(values, staged, group).dom().contains(column) && values_after(
                values,
                staged,
                group,
            )[column] == staged[j].value,
        (forall|j: int| 0 <= j < staged.len() ==> staged_column(#[trigger] staged[j], group)
            != column) ==> (values_after(values, staged, group).dom().contains(column)
            <==> values.dom().contains(column)) && values_after(values, staged, group)[column]
            == values[column],
    decreases staged.len(),
{
    if staged.len() > 0 {
        let rest = staged.drop_last();
        assert forall|i: int, j: int|
            #![trigger rest[i], rest[j]]
            0 <= i < j < rest.len() implies staged_column(rest[i], group) != staged_column(
            rest[j],
            group,
        ) by {
            assert(rest[i] == staged[i]);
            assert(rest[j] == staged[j]);
        }
        lemma_values_after_write(values, rest, group, column);
        assert(staged[staged.len() - 1] == staged.last());
        assert forall|j: int|
            0 <= j < staged.len() && staged_column(#[trigger] staged[j], group) == column implies
            values_after(values, staged, group).dom().contains(column) && values_after(
            values,
            staged,
            group,
        )[column] == staged[j].value by {
            if j < rest.len() {
                assert(rest[j] == staged[j]);
                assert(staged_column(staged[j], group) != staged_column(
                    staged[staged.len() - 1],
                    group,
                ));
            }
        }
        if forall|j: int| 0 <= j < staged.len() ==> staged_column(#[trigger] staged[j], group)
            != column {
            assert forall|j: int| 0 <= j < rest.len() implies staged_column(
                #[trigger] rest[j],
                group,
            ) != column by {
                assert(rest[j] == staged[j]);
            }
            assert(staged_column(staged[staged.len() - 1], group) != column);
        }
    }
}

/// Values follow timestamps: a merge of changes that bring the right values
/// leaves every column with the value that goes with its timestamp.
pub proof fn lemma_values_follow_timestamps(
    truth: Truth,
    stored: Seq<(Seq<char>, JsonView)>,
    values: Map<Seq<char>, SqlView>,
    group: Seq<IndexedView>,
    eligible: Seq<usize>,
    decisions: Seq<DecisionView>,
)
    requires
        keys_ascend(stored),
        row_agrees(truth, stored, values),
        batch_agrees(truth, group, eligible, decisions),
    ensures
        row_agrees(
            truth,
            merged_hlcs(stored, group, eligible, decisions),
            merged_values(values, stored, group, eligible, decisions),
        ),
{
    let n = eligible.len();
    let staged = staging(group, stored, eligible, decisions, n).staged;
    let after = merged_hlcs(stored, group, eligible, decisions);
    let now = merged_values(values, stored, group, eligible, decisions);
    lemma_winners_write_distinct_columns(group, stored, eligible, decisions, n);
    assert forall|column: Seq<char>|
        hlc_before(Seq::empty(), #[trigger] stored_hlc(after, column)) implies now.dom().contains(
        column,
    ) && now[column] == truth(column, hlc_key(stored_hlc(after, column))) by {
        lemma_stored_after_write(stored, staged, group, column);
        lemma_values_after_write(values, staged, group, column);
        if exists|j: int|
            0 <= j < staged.len() && staged_column(#[trigger] staged[j], group) == column {
            let j = choose|j: int|
                0 <= j < staged.len() && staged_column(#[trigger] staged[j], group) == column;
            lemma_only_eligible_columns_are_written(group, stored, eligible, decisions, n, j);
            let k = choose|k: int|
                0 <= k < n && stages(#[trigger] eligible[k], decisions[k], staged[j]);
            assert(decisions[k] is Accept);
            assert(stored_hlc(after, column) == staged_hlc(staged[j], group));
        } else {
            assert(stored_hlc(after, column) == stored_hlc(stored, column));
        }
    }
}

/// Replicas converge: two batches merged in either order leave every column
/// with the same timestamp and, once it has one, with the same value.
pub proof fn lemma_replicas_converge(
    truth: Truth,
    stored: Seq<(Seq<char>, JsonView)>,
    values: Map<Seq<char>, SqlView>,
    group_a: Seq<IndexedView>,
    eligible_a: Seq<usize>,
    decisions_a: Seq<DecisionView>,
    group_b: Seq<IndexedView>,
    eligible_b: Seq<usize>,
    decisions_b: Seq<DecisionView>,
    column: Seq<char>,
)
    requires
        keys_ascend(stored),
        row_agrees(truth, stored, values),
        batch_agrees(truth, group_a, eligible_a, decisions_a),
        batch_agrees(truth, group_b, eligible_b, decisions_b),
    ensures
        ({
            let hlcs_a = merged_hlcs(stored, group_a, eligible_a, decisions_a);
            let hlcs_b = merged_hlcs(stored, group_b, eligible_b, decisions_b);
            let hlcs_ab = merged_hlcs(hlcs_a, group_b, eligible_b, decisions_b);
            let hlcs_ba = merged_hlcs(hlcs_b, group_a, eligible_a, decisions_a);
            let values_ab = merged_values(
                merged_values(values, stored, group_a, eligible_a, decisions_a),
                hlcs_a,
                group_b,
                eligible_b,
                decisions_b,
            );
            let values_ba = merged_values(
                merged_values(values, stored, group_b, eligible_b, decisions_b),
                hlcs_b,
                group_a,
                eligible_a,
                decisions_a,
            );
            &&& hlc_key(stored_hlc(hlcs_ab, column)) == hlc_key(stored_hlc(hlcs_ba, column))
            &&& hlc_before(Seq::empty(), stored_hlc(hlcs_ab, column)) ==> {
                &&& values_ab.dom().contains(column)
                &&& values_ba.dom().contains(column)
                &&& values_ab[column] == values_ba[column]
            }
        }),
{
    let hlcs_a = merged_hlcs(stored, group_a, eligible_a, decisions_a);
    let hlcs_b = merged_hlcs(stored, group_b, eligible_b, decisions_b);
    let values_a = merged_values(values, stored, group_a, eligible_a, decisions_a);
    let values_b = merged_values(values, stored, group_b, eligible_b, decisions_b);
    lemma_merge_keeps_newest(stored, group_a, eligible_a, decisions_a, column);
    lemma_merge_keeps_newest(stored, group_b, eligible_b, decisions_b, column);
    lemma_values_follow_timestamps(truth, stored, values, group_a, eligible_a, decisions_a);
    lemma_values_follow_timestamps(truth, stored, values, group_b, eligible_b, decisions_b);
    lemma_values_follow_timestamps(truth, hlcs_a, values_a, group_b, eligible_b, decisions_b);
    lemma_values_follow_timestamps(truth, hlcs_b, values_b, group_a, eligible_a, decisions_a);
    lemma_two_batches_commute(
        stored,
        group_a,
        eligible_a,
        decisions_a,
        group_b,
        eligible_b,
        decisions_b,
        column,
    );
}

} // verus!
