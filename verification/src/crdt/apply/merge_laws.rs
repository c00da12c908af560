//! Laws of merging one row: what is stored afterwards, replays, and the order
//! of arrival.

use crate::crdt::apply::lww::columns_distinct;
use crate::crdt::apply::lww::contends;
use crate::crdt::apply::lww::lemma_winner_is_newest;
use crate::crdt::apply::lww::lemma_winners_write_distinct_columns;
use crate::crdt::apply::lww::staged_column;
use crate::crdt::apply::lww::staged_hlc;
use crate::crdt::apply::policy_types::DecisionView;
use crate::crdt::apply::policy_types::IndexedView;
use crate::crdt::apply::policy_types::SignatureView;
use crate::crdt::apply::report::SkipReason;
use crate::crdt::apply::row::holder;
use crate::crdt::apply::row::lemma_holder;
use crate::crdt::apply::row::running_hlc;
use crate::crdt::apply::row::staging;
use crate::crdt::apply::row::stored_hlc;
use crate::crdt::apply::row::StagedView;
use crate::crdt::apply::write::hlcs_after;
use crate::crdt::apply::write::sigs_after;
use crate::crdt::hlc::hlc_before;
use crate::crdt::hlc::hlc_key;
use crate::json::keys_ascend;
use crate::json::lemma_with_member;
use crate::json::lemma_without_member;
use crate::json::member;
use crate::json::JsonView;
use vstd::prelude::*;

verus! {

/// A write stores for each staged column the timestamp it carries, and leaves
/// the timestamp of every other column as it was.
pub proof fn lemma_stored_after_write(
    stored: Seq<(Seq<char>, JsonView)>,
    staged: Seq<StagedView>,
    group: Seq<IndexedView>,
    column: Seq<char>,
)
    requires
        keys_ascend(stored),
        columns_distinct(staged, group),
    ensures
        keys_ascend(hlcs_after(stored, staged, group)),
        forall|j: int|
            0 <= j < staged.len() && staged_column(#[trigger] staged[j], group) == column
                ==> member(hlcs_after(stored, staged, group), column) == Some(
                JsonView::Text(staged_hlc(staged[j], group)),
            ),
        (forall|j: int| 0 <= j < staged.len() ==> staged_column(#[trigger] staged[j], group)
            != column) ==> member(hlcs_after(stored, staged, group), column) == member(
            stored,
            column,
        ),
        stored_hlc(hlcs_after(stored, staged, group), column) == running_hlc(
            staged,
            group,
            stored,
            column,
        ),
    decreases staged.len(),
{
    lemma_holder(staged, group, column);
    if staged.len() > 0 {
        let rest = staged.drop_last();
        let last = staged.last();
        assert(columns_distinct(rest, group)) by {
            assert forall|i: int, j: int|
                #![trigger rest[i], rest[j]]
                0 <= i < j < rest.len() implies staged_column(rest[i], group) != staged_column(
                rest[j],
                group,
            ) by {
                assert(rest[i] == staged[i]);
                assert(rest[j] == staged[j]);
            }
        }
        lemma_stored_after_write(stored, rest, group, column);
        let before = hlcs_after(stored, rest, group);
        lemma_with_member(
            before,
            staged_column(last, group),
            JsonView::Text(staged_hlc(last, group)),
            column,
        );
        assert(staged[staged.len() - 1] == last);
        assert forall|j: int|
            0 <= j < staged.len() && staged_column(#[trigger] staged[j], group) == column implies
            member(hlcs_after(stored, staged, group), column) == Some(
            JsonView::Text(staged_hlc(staged[j], group)),
        ) by {
            if j < rest.len() {
                assert(rest[j] == staged[j]);
                assert(staged_column(staged[j], group) != staged_column(
                    staged[staged.len() - 1],
                    group,
                ));
            }
        }
        if forall|j: int| 0 <= j < staged.len() ==> staged_column(#[trigger] staged[j], group)
            != column {
            assert forall|j: int| 0 <= j < rest.len() implies staged_column(
                #[trigger] rest[j],
                group,
            ) != column by {
                assert(rest[j] == staged[j]);
            }
            assert(staged_column(staged[staged.len() - 1], group) != column);
        }
    }
    let p = holder(staged, group, column) as int;
    if p < staged.len() {
        assert(staged_column(staged[p], group) == column);
    }
}

/// What a write does to the signature of a column: one that replaces its
/// signature has the new one, one that removes it has none, and every other
/// column keeps what was stored.
pub proof fn lemma_signatures_after_write(
    map: Seq<(Seq<char>, JsonView)>,
    staged: Seq<StagedView>,
    group: Seq<IndexedView>,
    column: Seq<char>,
)
    requires
        keys_ascend(map),
        columns_distinct(staged, group),
    ensures
        keys_ascend(sigs_after(map, staged, group)),
        forall|j: int|
            0 <= j < staged.len() && staged_column(#[trigger] staged[j], group) == column
                ==> member(sigs_after(map, staged, group), column) == (match staged[j].signature {
                SignatureView::Keep => member(map, column),
                SignatureView::Replace(sig) => sig,
            }),
        (forall|j: int| 0 <= j < staged.len() ==> staged_column(#[trigger] staged[j], group)
            != column) ==> member(sigs_after(map, staged, group), column) == member(map, column),
    decreases staged.len(),
{
    if staged.len() > 0 {
        let rest = staged.drop_last();
        let last = staged.last();
        assert forall|i: int, j: int|
            #![trigger rest[i], rest[j]]
            0 <= i < j < rest.len() implies staged_column(rest[i], group) != staged_column(
            rest[j],
            group,
        ) by {
            assert(rest[i] == staged[i]);
            assert(rest[j] == staged[j]);
        }
        lemma_signatures_after_write(map, rest, group, column);
        let before = sigs_after(map, rest, group);
        let own = staged_column(last, group);
        lemma_without_member(before, own, column);
        if let SignatureView::Replace(Some(v)) = last.signature {
            lemma_with_member(before, own, v, column);
        }
        assert(staged[staged.len() - 1] == last);
        let absent_before = forall|j: int|
            0 <= j < rest.len() ==> staged_column(#[trigger] rest[j], group) != column;
        if own == column {
            assert forall|j: int| 0 <= j < rest.len() implies staged_column(
                #[trigger] rest[j],
                group,
            ) != column by {
                assert(rest[j] == staged[j]);
                assert(staged_column(staged[j], group) != staged_column(
                    staged[staged.len() - 1],
                    group,
                ));
            }
            assert(absent_before);
        }
        assert forall|j: int|
            0 <= j < staged.len() && staged_column(#[trigger] staged[j], group) == column implies
            member(sigs_after(map, staged, group), column) == (match staged[j].signature {
            SignatureView::Keep => member(map, column),
            SignatureView::Replace(sig) => sig,
        }) by {
            if j < rest.len() {
                assert(rest[j] == staged[j]);
            }
        }
        if forall|j: int| 0 <= j < staged.len() ==> staged_column(#[trigger] staged[j], group)
            != column {
            assert forall|j: int| 0 <= j < rest.len() implies staged_column(
                #[trigger] rest[j],
                group,
            ) != column by {
                assert(rest[j] == staged[j]);
            }
        }
    }
}

/// A batch merged once has nothing left to write: merged again with the same
/// verdicts on what it left behind, it stages no column, and everything that
/// the policy admits is stale.
pub proof fn lemma_replay_is_stale(
    group: Seq<IndexedView>,
    stored: Seq<(Seq<char>, JsonView)>,
    eligible: Seq<usize>,
    decisions: Seq<DecisionView>,
    n: nat,
)
    requires
        keys_ascend(stored),
        n <= eligible.len(),
    ensures
        ({
            let once = staging(group, stored, eligible, decisions, n).staged;
            let again = staging(
                group,
                hlcs_after(stored, once, group),
                eligible,
                decisions,
                n,
            );
            &&& again.staged.len() == 0
            &&& again.skips.len() == n
            &&& forall|k: int|
                0 <= k < n ==> (#[trigger] again.skips[k]).reason == (if decisions[k] is Accept {
                    SkipReason::Stale
                } else {
                    SkipReason::Policy
                })
        }),
{
    let once = staging(group, stored, eligible, decisions, n).staged;
    let after = hlcs_after(stored, once, group);
    lemma_winners_write_distinct_columns(group, stored, eligible, decisions, n);
    assert forall|k: int| 0 <= k < n implies !hlc_before(
        stored_hlc(after, (#[trigger] group[eligible[k] as int]).change.column_name),
        group[eligible[k] as int].change.hlc_timestamp,
    ) || !group[eligible[k] as int].change.hlc_timestamp.contains('/')
        || !(decisions[k] is Accept) by {
        let column = group[eligible[k] as int].change.column_name;
        lemma_winner_is_newest(group, stored, eligible, decisions, n, column);
        lemma_stored_after_write(stored, once, group, column);
        if decisions[k] is Accept && group[eligible[k] as int].change.hlc_timestamp.contains('/') {
            assert(contends(group, eligible, decisions, k, column));
        }
    }
    lemma_nothing_newer_stages_nothing(group, after, eligible, decisions, n);
}

/// Where no admitted full timestamp is newer than what is stored, nothing is
/// staged.
pub proof fn lemma_nothing_newer_stages_nothing(
    group: Seq<IndexedView>,
    stored: Seq<(Seq<char>, JsonView)>,
    eligible: Seq<usize>,
    decisions: Seq<DecisionView>,
    n: nat,
)
    requires
        forall|k: int|
            0 <= k < n ==> !hlc_before(
                stored_hlc(stored, (#[trigger] group[eligible[k] as int]).change.column_name),
                group[eligible[k] as int].change.hlc_timestamp,
            ) || !group[eligible[k] as int].change.hlc_timestamp.contains('/')
                || !(decisions[k] is Accept),
    ensures
        ({
            let st = staging(group, stored, eligible, decisions, n);
            &&& st.staged.len() == 0
            &&& st.skips.len() == n
            &&& forall|k: int|
                0 <= k < n ==> (#[trigger] st.skips[k]).reason == (if decisions[k] is Accept {
                    SkipReason::Stale
                } else {
                    SkipReason::Policy
                })
        }),
    decreases n,
{
    if n > 0 {
        let m = (n - 1) as nat;
        lemma_nothing_newer_stages_nothing(group, stored, eligible, decisions, m);
        let st = staging(group, stored, eligible, decisions, m);
        let after = staging(group, stored, eligible, decisions, n);
        let c = group[eligible[n - 1] as int];
        assert(holder(st.staged, group, c.change.column_name) == 0);
        assert forall|k: int| 0 <= k < n implies (#[trigger] after.skips[k]).reason == (
        if decisions[k] is Accept {
            SkipReason::Stale
        } else {
            SkipReason::Policy
        }) by {
            if k < m {
                assert(after.skips[k] == st.skips[k]);
            }
        }
    }
}

/// Every timestamp that contends for `column` under the first verdicts also
/// does under the second.
pub open spec fn contenders_within(
    group_a: Seq<IndexedView>,
    eligible_a: Seq<usize>,
    decisions_a: Seq<DecisionView>,
    group_b: Seq<IndexedView>,
    eligible_b: Seq<usize>,
    decisions_b: Seq<DecisionView>,
    column: Seq<char>,
) -> bool {
    forall|k: int|
        0 <= k < eligible_a.len() && #[trigger] contends(
            group_a,
            eligible_a,
            decisions_a,
            k,
            column,
        ) ==> exists|m: int|
            0 <= m < eligible_b.len() && #[trigger] contends(
                group_b,
                eligible_b,
                decisions_b,
                m,
                column,
            ) && hlc_key(group_b[eligible_b[m] as int].change.hlc_timestamp) == hlc_key(
                group_a[eligible_a[k] as int].change.hlc_timestamp,
            )
}

/// Replicas converge: two deliveries whose contenders for a column carry the
/// same timestamps leave the column with the same timestamp, in whatever order
/// and how often each of them arrives.
pub proof fn lemma_order_of_arrival_does_not_matter(
    group_a: Seq<IndexedView>,
    eligible_a: Seq<usize>,
    decisions_a: Seq<DecisionView>,
    group_b: Seq<IndexedView>,
    eligible_b: Seq<usize>,
    decisions_b: Seq<DecisionView>,
    stored: Seq<(Seq<char>, JsonView)>,
    column: Seq<char>,
)
    requires
        keys_ascend(stored),
        contenders_within(
            group_a,
            eligible_a,
            decisions_a,
            group_b,
            eligible_b,
            decisions_b,
            column,
        ),
        contenders_within(
            group_b,
            eligible_b,
            decisions_b,
            group_a,
            eligible_a,
            decisions_a,
            column,
        ),
    ensures
        ({
            let a = staging(group_a, stored, eligible_a, decisions_a, eligible_a.len()).staged;
            let b = staging(group_b, stored, eligible_b, decisions_b, eligible_b.len()).staged;
            hlc_key(stored_hlc(hlcs_after(stored, a, group_a), column)) == hlc_key(
                stored_hlc(hlcs_after(stored, b, group_b), column),
            )
        }),
{
    let na = eligible_a.len();
    let nb = eligible_b.len();
    let a = staging(group_a, stored, eligible_a, decisions_a, na).staged;
    let b = staging(group_b, stored, eligible_b, decisions_b, nb).staged;
    lemma_winners_write_distinct_columns(group_a, stored, eligible_a, decisions_a, na);
    lemma_winners_write_distinct_columns(group_b, stored, eligible_b, decisions_b, nb);
    lemma_winner_is_newest(group_a, stored, eligible_a, decisions_a, na, column);
    lemma_winner_is_newest(group_b, stored, eligible_b, decisions_b, nb, column);
    lemma_stored_after_write(stored, a, group_a, column);
    lemma_stored_after_write(stored, b, group_b, column);
    let end_a = running_hlc(a, group_a, stored, column);
    let end_b = running_hlc(b, group_b, stored, column);
    if hlc_before(end_a, end_b) {
        if end_b != stored_hlc(stored, column) {
            let m = choose|m: int|
                0 <= m < nb && #[trigger] contends(group_b, eligible_b, decisions_b, m, column)
                    && end_b == group_b[eligible_b[m] as int].change.hlc_timestamp;
            let k = choose|k: int|
                0 <= k < na && #[trigger] contends(group_a, eligible_a, decisions_a, k, column)
                    && hlc_key(group_a[eligible_a[k] as int].change.hlc_timestamp) == hlc_key(
                    end_b,
                );
            assert(!hlc_before(end_a, group_a[eligible_a[k] as int].change.hlc_timestamp));
        }
    }
    if hlc_before(end_b, end_a) {
        if end_a != stored_hlc(stored, column) {
            let k = choose|k: int|
                0 <= k < na && #[trigger] contends(group_a, eligible_a, decisions_a, k, column)
                    && end_a == group_a[eligible_a[k] as int].change.hlc_timestamp;
            let m = choose|m: int|
                0 <= m < nb && #[trigger] contends(group_b, eligible_b, decisions_b, m, column)
                    && hlc_key(group_b[eligible_b[m] as int].change.hlc_timestamp) == hlc_key(
                    end_a,
                );
            assert(!hlc_before(end_b, group_b[eligible_b[m] as int].change.hlc_timestamp));
        }
    }
}

/// The timestamps of a row's columns after its changes were merged.
pub open spec fn merged_hlcs(
    stored: Seq<(Seq<char>, JsonView)>,
    group: Seq<IndexedView>,
    eligible: Seq<usize>,
    decisions: Seq<DecisionView>,
) -> Seq<(Seq<char>, JsonView)> {
    hlcs_after(stored, staging(group, stored, eligible, decisions, eligible.len()).staged, group)
}

/// What a merge leaves for a column is the newest of what was stored and what
/// contended for it.
pub proof fn lemma_merge_keeps_newest(
    stored: Seq<(Seq<char>, JsonView)>,
    group: Seq<IndexedView>,
    eligible: Seq<usize>,
    decisions: Seq<DecisionView>,
    column: Seq<char>,
)
    requires
        keys_ascend(stored),
    ensures
        ({
            let end = stored_hlc(merged_hlcs(stored, group, eligible, decisions), column);
            &&& keys_ascend(merged_hlcs(stored, group, eligible, decisions))
            &&& !hlc_before(end, stored_hlc(stored, column))
            &&& forall|k: int|
                0 <= k < eligible.len() && #[trigger] contends(
                    group,
                    eligible,
                    decisions,
                    k,
                    column,
                ) ==> !hlc_before(end, group[eligible[k] as int].change.hlc_timestamp)
            &&& end == stored_hlc(stored, column) || exists|k: int|
                0 <= k < eligible.len() && #[trigger] contends(
                    group,
                    eligible,
                    decisions,
                    k,
                    column,
                ) && end == group[eligible[k] as int].change.hlc_timestamp
        }),
{
    let n = eligible.len();
    let staged = staging(group, stored, eligible, decisions, n).staged;
    lemma_winners_write_distinct_columns(group, stored, eligible, decisions, n);
    lemma_winner_is_newest(group, stored, eligible, decisions, n, column);
    lemma_stored_after_write(stored, staged, group, column);
}

/// Two batches commute: merged one after the other in either order, they leave
/// every column with the same timestamp.
#[verifier::rlimit(60)]
#[verifier::spinoff_prover]
pub proof fn lemma_two_batches_commute(
    stored: Seq<(Seq<char>, JsonView)>,
    group_a: Seq<IndexedView>,
    eligible_a: Seq<usize>,
    decisions_a: Seq<DecisionView>,
    group_b: Seq<IndexedView>,
    eligible_b: Seq<usize>,
    decisions_b: Seq<DecisionView>,
    column: Seq<char>,
)
    requires
        keys_ascend(stored),
    ensures
        hlc_key(
            stored_hlc(
                merged_hlcs(
                    merged_hlcs(stored, group_a, eligible_a, decisions_a),
                    group_b,
                    eligible_b,
                    decisions_b,
                ),
                column,
            ),
        ) == hlc_key(
            stored_hlc(
                merged_hlcs(
                    merged_hlcs(stored, group_b, eligible_b, decisions_b),
                    group_a,
                    eligible_a,
                    decisions_a,
                ),
                column,
            ),
        ),
{
    let after_a = merged_hlcs(stored, group_a, eligible_a, decisions_a);
    let after_b = merged_hlcs(stored, group_b, eligible_b, decisions_b);
    lemma_merge_keeps_newest(stored, group_a, eligible_a, decisions_a, column);
    lemma_merge_keeps_newest(stored, group_b, eligible_b, decisions_b, column);
    lemma_merge_keeps_newest(after_a, group_b, eligible_b, decisions_b, column);
    lemma_merge_keeps_newest(after_b, group_a, eligible_a, decisions_a, column);
}

/// What is staged for a change is what the policy gave for it.
pub open spec fn stages(at: usize, decision: DecisionView, staged: StagedView) -> bool {
    staged.at == at && (decision matches DecisionView::Accept { value, signature } && staged.value
        == value && staged.signature == signature)
}

/// Only columns that were cleared for the row are written: every staged column
/// is one of the eligible changes, with the value and the signature that the
/// policy gave for it.
pub proof fn lemma_only_eligible_columns_are_written(
    group: Seq<IndexedView>,
    stored: Seq<(Seq<char>, JsonView)>,
    eligible: Seq<usize>,
    decisions: Seq<DecisionView>,
    n: nat,
    j: int,
)
    requires
        n <= eligible.len(),
        0 <= j < staging(group, stored, eligible, decisions, n).staged.len(),
    ensures
        exists|k: int|
            0 <= k < n && stages(
                #[trigger] eligible[k],
                decisions[k],
                staging(group, stored, eligible, decisions, n).staged[j],
            ),
    decreases n,
{
    if n > 0 {
        let m = (n - 1) as nat;
        let st = staging(group, stored, eligible, decisions, m);
        let after = staging(group, stored, eligible, decisions, n);
        let p = holder(st.staged, group, group[eligible[n - 1] as int].change.column_name) as int;
        lemma_holder(st.staged, group, group[eligible[n - 1] as int].change.column_name);
        if after.staged == st.staged {
            lemma_only_eligible_columns_are_written(group, stored, eligible, decisions, m, j);
        } else if j == after.staged.len() - 1 {
            assert(stages(eligible[n - 1], decisions[n - 1], after.staged[j]));
        } else {
            let i = if p < st.staged.len() && j >= p {
                j + 1
            } else {
                j
            };
            assert(after.staged[j] == st.staged[i]) by {
                if p < st.staged.len() {
                    assert(after.staged[j] == st.staged.remove(p)[j]);
                }
            }
            lemma_only_eligible_columns_are_written(group, stored, eligible, decisions, m, i);
        }
        let k = choose|k: int|
            0 <= k < n && stages(#[trigger] eligible[k], decisions[k], after.staged[j]);
        assert(stages(eligible[k], decisions[k], after.staged[j]));
    }
}

/// The changes are to different columns.
pub open spec fn different_columns(group: Seq<IndexedView>, eligible: Seq<usize>) -> bool {
    forall|i: int, j: int|
        #![trigger eligible[i], eligible[j]]
        0 <= i < j < eligible.len() ==> group[eligible[i] as int].change.column_name
            != group[eligible[j] as int].change.column_name
}

/// The change carries a full timestamp that is newer than what is stored for
/// its column.
pub open spec fn newer_than_stored(
    stored: Seq<(Seq<char>, JsonView)>,
    change: IndexedView,
) -> bool {
    change.change.hlc_timestamp.contains('/') && hlc_before(
        stored_hlc(stored, change.change.column_name),
        change.change.hlc_timestamp,
    )
}

/// A row takes everything that is news to it: changes to different columns,
/// each newer than what is stored and admitted by the policy, are all written,
/// in order, and nothing is skipped. So a replica without the row takes all of
/// what a scan sends of it.
pub proof fn lemma_news_is_taken(
    group: Seq<IndexedView>,
    stored: Seq<(Seq<char>, JsonView)>,
    eligible: Seq<usize>,
    decisions: Seq<DecisionView>,
    n: nat,
)
    requires
        n <= eligible.len(),
        different_columns(group, eligible),
        forall|k: int| 0 <= k < n ==> (#[trigger] decisions[k]) is Accept,
        forall|k: int|
            0 <= k < n ==> newer_than_stored(stored, group[#[trigger] eligible[k] as int]),
    ensures
        ({
            let st = staging(group, stored, eligible, decisions, n);
            &&& st.skips.len() == 0
            &&& st.staged.len() == n
            &&& forall|k: int|
                0 <= k < n ==> stages(eligible[k], decisions[k], #[trigger] st.staged[k])
        }),
    decreases n,
{
    if n > 0 {
        let m = (n - 1) as nat;
        lemma_news_is_taken(group, stored, eligible, decisions, m);
        let st = staging(group, stored, eligible, decisions, m);
        let after = staging(group, stored, eligible, decisions, n);
        let column = group[eligible[m as int] as int].change.column_name;
        lemma_holder(st.staged, group, column);
        let p = holder(st.staged, group, column) as int;
        if p < st.staged.len() {
            assert(stages(eligible[p], decisions[p], st.staged[p]));
            assert(group[eligible[p] as int].change.column_name == column);
            assert(eligible[p] != eligible[m as int] || p == m);
        }
        assert(p == st.staged.len());
        assert(decisions[m as int] is Accept);
        assert(newer_than_stored(stored, group[eligible[m as int] as int]));
        assert forall|k: int| 0 <= k < n implies stages(
            eligible[k],
            decisions[k],
            #[trigger] after.staged[k],
        ) by {
            if k < m {
                assert(after.staged[k] == st.staged[k]);
            }
        }
    }
}

} // verus!
