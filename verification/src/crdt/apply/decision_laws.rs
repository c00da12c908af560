//! What the decisions of a merge come to, in terms of the timestamps and names
//! that they are about.

use crate::crdt::apply::batch_merge::after_classify;
use crate::crdt::apply::batch_merge::after_decide;
use crate::crdt::apply::batch_merge::after_open;
use crate::crdt::apply::batch_merge::MergeView;
use crate::crdt::apply::batch_merge::StageView;
use crate::crdt::apply::delete_propagation::brings_delete;
use crate::crdt::apply::delete_propagation::delete_log_id;
use crate::crdt::apply::delete_propagation::delete_plan;
use crate::crdt::apply::delete_propagation::identity_matches;
use crate::crdt::apply::delete_propagation::key_has;
use crate::crdt::apply::delete_propagation::propagates;
use crate::crdt::apply::delete_propagation::shadows;
use crate::crdt::apply::delete_propagation::usable_entries;
use crate::crdt::apply::delete_propagation::usable_entry;
use crate::crdt::apply::delete_propagation::DeletedView;
use crate::crdt::apply::delete_propagation::EntryView;
use crate::crdt::apply::engine::eligible_at;
use crate::crdt::apply::engine::eligible_of;
use crate::crdt::apply::engine::held_back;
use crate::crdt::apply::engine::ineligible_of;
use crate::crdt::apply::engine::picked_skips;
use crate::crdt::apply::engine::row_refusal;
use crate::crdt::apply::engine::row_staging;
use crate::crdt::apply::engine::staged_at;
use crate::crdt::apply::engine::wants_signatures;
use crate::crdt::apply::engine::OpenView;
use crate::crdt::apply::engine::ReadyView;
use crate::crdt::apply::engine::StagedRowView;
use crate::crdt::apply::engine::StoredRow;
use crate::crdt::apply::lww::lemma_winners_are_newer_than_stored;
use crate::crdt::apply::lww::staged_hlc;
use crate::crdt::apply::merge_laws::lemma_only_eligible_columns_are_written;
use crate::crdt::apply::merge_laws::stages;
use crate::crdt::apply::policy_types::decision_views;
use crate::crdt::apply::policy_types::DecisionView;
use crate::crdt::apply::policy_types::IndexedView;
use crate::crdt::apply::policy_types::RowDecision;
use crate::crdt::apply::report::counted_all;
use crate::crdt::apply::report::ApplyReport;
use crate::crdt::apply::report::SkipReason;
use crate::crdt::apply::report::SkippedChange;
use crate::crdt::apply::row::holder;
use crate::crdt::apply::row::ineligible;
use crate::crdt::apply::row::lemma_holder;
use crate::crdt::apply::row::staging;
use crate::crdt::apply::row::stored_hlc;
use crate::crdt::apply::row::StagedView;
use crate::crdt::apply::write::lemma_newest;
use crate::crdt::apply::write::lemma_untouched_signatures_stay;
use crate::crdt::apply::write::newest;
use crate::crdt::apply::write::row_hlc_after;
use crate::crdt::apply::write::staged_hlcs;
use crate::crdt::columns::lemma_suffix_rule;
use crate::crdt::columns::local_name;
use crate::crdt::columns::COLUMN_HLCS_COLUMN;
use crate::crdt::columns::HLC_TIMESTAMP_COLUMN;
use crate::crdt::hlc::hlc_before;
use crate::crdt::hlc::lemma_full_timestamps_compare;
use crate::crdt::hlc::lemma_hlc_order_is_strict_weak;
use crate::crdt::hlc::timestamp_value;
use crate::crdt::identifier::safe_identifier;
use crate::crdt::scanner::change::ChangeView;
use crate::crdt::scanner::emit::lemma_sent_columns_may_be_written;
use crate::crdt::scanner::emit::names_distinct;
use crate::crdt::schema::column_names;
use crate::crdt::schema::data_names;
use crate::crdt::schema::is_data_column;
use crate::crdt::schema::is_key_column;
use crate::crdt::schema::lemma_columns_are_told_apart;
use crate::crdt::schema::pk_names;
use crate::crdt::schema::ColumnView;
use crate::json::json_object;
use crate::json::object_equal;
use crate::json::JsonView;
use vstd::prelude::*;

verus! {

/// Between a delete and a write of the same row the newer one stands, and the
/// delete where they carry one timestamp: it removes the row that is there, and
/// holds back the insert that is to come. A row that is not there is no obstacle.
pub proof fn lemma_delete_or_write_by_time(delete: Seq<char>, write: Seq<char>)
    requires
        timestamp_value(delete) is Ok,
        timestamp_value(write) is Ok,
    ensures
        ({
            let d = timestamp_value(delete)->Ok_0;
            let w = timestamp_value(write)->Ok_0;
            let newer = w.time > d.time || w.time == d.time && w.node > d.node;
            &&& propagates(delete, Some(write)) <==> !newer
            &&& shadows(delete, write) <==> !newer
            &&& propagates(delete, None)
        }),
{
    lemma_full_timestamps_compare(delete, write, 0);
}

/// A fresh row is held back exactly where the log has a delete of the same table
/// and key that no staged column is newer than.
pub proof fn lemma_held_back_by_a_delete(
    r: ReadyView,
    staged: Seq<StagedView>,
    log: Seq<DeletedView>,
)
    requires
        staged.len() > 0,
    ensures
        held_back(r, staged, log) <==> !r.exists && exists|i: int|
            0 <= i < log.len() && (#[trigger] log[i]).table_name == r.open.table_name
                && object_equal(log[i].row_pks, r.open.row_pks) && forall|k: int|
                0 <= k < staged.len() ==> !hlc_before(
                    log[i].hlc,
                    r.open.changes[(#[trigger] staged[k]).at].change.hlc_timestamp,
                ),
{
    let hlcs = staged_hlcs(staged, r.open.changes);
    let top = newest(hlcs);
    lemma_newest(hlcs);
    assert forall|d: Seq<char>| #[trigger] shadows(d, top) == forall|k: int|
        0 <= k < staged.len() ==> !hlc_before(
            d,
            r.open.changes[(#[trigger] staged[k]).at].change.hlc_timestamp,
        ) by {
        if shadows(d, top) {
            assert forall|k: int| 0 <= k < staged.len() implies !hlc_before(
                d,
                r.open.changes[(#[trigger] staged[k]).at].change.hlc_timestamp,
            ) by {
                assert(!hlc_before(top, hlcs[k]));
                lemma_hlc_order_is_strict_weak(d, top, hlcs[k]);
            }
        } else {
            let k = choose|k: int| 0 <= k < hlcs.len() && hlcs[k] == top;
            assert(hlc_before(d, r.open.changes[staged[k].at].change.hlc_timestamp));
        }
    }
}

/// The schema has a column of this name.
pub open spec fn names_column(schema: Seq<ColumnView>, name: Seq<char>) -> bool {
    exists|i: int| 0 <= i < schema.len() && (#[trigger] schema[i]).name == name
}

/// The key has a member of this name.
pub open spec fn has_member(key: Seq<(Seq<char>, JsonView)>, name: Seq<char>) -> bool {
    exists|j: int| 0 <= j < key.len() && #[trigger] key[j].0 == name
}

/// A primary-key column has this name.
pub open spec fn is_key_name(schema: Seq<ColumnView>, name: Seq<char>) -> bool {
    exists|i: int| 0 <= i < schema.len() && (#[trigger] schema[i]).is_pk && schema[i].name == name
}

/// The key names the primary key: each of its columns, and nothing else.
pub open spec fn names_primary_key(
    schema: Seq<ColumnView>,
    key: Seq<(Seq<char>, JsonView)>,
) -> bool {
    &&& key.len() > 0
    &&& forall|name: Seq<char>| #[trigger]
        is_key_name(schema, name) <==> #[trigger] has_member(key, name)
}

/// The changes of a row are merged exactly where its table is there and carries
/// both timestamp columns, and its key can be read, names exactly the primary key
/// and has only names that may stand in SQL.
pub proof fn lemma_row_is_merged_where_it_is_known(schema: Seq<ColumnView>, row_pks: Seq<char>)
    ensures
        row_refusal(schema, row_pks) is None <==> {
            &&& names_column(schema, HLC_TIMESTAMP_COLUMN@)
            &&& names_column(schema, COLUMN_HLCS_COLUMN@)
            &&& json_object(row_pks) matches Some(key)
            &&& names_primary_key(schema, key)
            &&& forall|j: int| 0 <= j < key.len() ==> safe_identifier((#[trigger] key[j]).0)
        },
{
    if let Some(key) = json_object(row_pks) {
        lemma_identity(schema, key);
    }
    if names_column(schema, HLC_TIMESTAMP_COLUMN@) {
        let i = choose|i: int|
            0 <= i < schema.len() && (#[trigger] schema[i]).name == HLC_TIMESTAMP_COLUMN@;
        assert(schema[i].name == HLC_TIMESTAMP_COLUMN@);
    }
    if names_column(schema, COLUMN_HLCS_COLUMN@) {
        let i = choose|i: int|
            0 <= i < schema.len() && (#[trigger] schema[i]).name == COLUMN_HLCS_COLUMN@;
        assert(schema[i].name == COLUMN_HLCS_COLUMN@);
    }
}

#[verifier::rlimit(60)]
#[verifier::spinoff_prover]
proof fn lemma_identity(schema: Seq<ColumnView>, key: Seq<(Seq<char>, JsonView)>)
    ensures
        key.len() > 0 && identity_matches(pk_names(schema), key) <==> names_primary_key(
            schema,
            key,
        ),
        identity_matches(pk_names(schema), key) ==> key.len() > 0,
{
    let pks = pk_names(schema);
    let (at, _) = lemma_columns_are_told_apart(schema);
    assert forall|name: Seq<char>| #[trigger] is_key_name(schema, name) == pks.contains(name) by {
        if is_key_name(schema, name) {
            let i = choose|i: int|
                0 <= i < schema.len() && (#[trigger] schema[i]).is_pk && schema[i].name == name;
            assert(at.contains(i));
            let k = choose|k: int| 0 <= k < at.len() && at[k] == i;
            assert(pks[k] == name);
        }
        if pks.contains(name) {
            let k = choose|k: int| 0 <= k < pks.len() && pks[k] == name;
            assert(schema[at[k]].is_pk);
        }
    }
    if identity_matches(pks, key) {
        assert(key_has(key, pks[0]));
        assert forall|name: Seq<char>| #[trigger]
            is_key_name(schema, name) == #[trigger] has_member(key, name) by {
            if pks.contains(name) {
                let k = choose|k: int| 0 <= k < pks.len() && pks[k] == name;
                assert(key_has(key, pks[k]));
            }
            if has_member(key, name) {
                let j = choose|j: int| 0 <= j < key.len() && #[trigger] key[j].0 == name;
                assert(pks.contains(key[j].0));
            }
        }
    }
    if names_primary_key(schema, key) {
        assert(key[0].0 == key[0].0);
        assert(has_member(key, key[0].0));
        assert(is_key_name(schema, key[0].0));
        assert forall|k: int| 0 <= k < pks.len() implies key_has(key, #[trigger] pks[k]) by {
            assert(is_key_name(schema, pks[k]));
            assert(has_member(key, pks[k]));
        }
        assert forall|j: int| 0 <= j < key.len() implies pks.contains(#[trigger] key[j].0) by {
            assert(has_member(key, key[j].0));
            assert(is_key_name(schema, key[j].0));
        }
    }
}

/// The row's timestamp is the newest of what is written and, where the row was
/// there, of what it carried; of two equal ones, what is written.
pub proof fn lemma_row_carries_the_newest(current: Seq<char>, written: Seq<char>)
    ensures
        row_hlc_after(false, current, written) == written,
        row_hlc_after(true, current, written) == current || row_hlc_after(true, current, written)
            == written,
        !hlc_before(row_hlc_after(true, current, written), current),
        !hlc_before(row_hlc_after(true, current, written), written),
        !hlc_before(written, current) ==> row_hlc_after(true, current, written) == written,
{
}

/// The entries of the log that can hold anything back: those with a timestamp
/// whose key can be read, all of them and in order; `at` are their positions.
pub open spec fn entries_in_order(
    rows: Seq<EntryView>,
    usable: Seq<DeletedView>,
    at: Seq<int>,
) -> bool {
    &&& at.len() == usable.len()
    &&& forall|i: int, j: int|
        #![trigger at[i], at[j]]
        0 <= i < j < at.len() ==> at[i] < at[j]
    &&& forall|i: int|
        0 <= i < at.len() ==> 0 <= #[trigger] at[i] < rows.len() && rows[at[i]].hlc == Some(
            usable[i].hlc,
        ) && json_object(rows[at[i]].row_pks) == Some(usable[i].row_pks)
            && rows[at[i]].table_name == usable[i].table_name
    &&& forall|k: int|
        0 <= k < rows.len() && (#[trigger] rows[k]).hlc is Some && json_object(rows[k].row_pks)
            is Some ==> at.contains(k)
}

/// No usable entry of the log is lost, and none is made up.
pub proof fn lemma_usable_entries(rows: Seq<EntryView>) -> (at: Seq<int>)
    ensures
        entries_in_order(rows, usable_entries(rows), at),
    decreases rows.len(),
{
    if rows.len() == 0 {
        Seq::empty()
    } else {
        let rest = rows.drop_last();
        let n = rows.len() - 1;
        let before = lemma_usable_entries(rest);
        let pushed = usable_entry(rows.last()) is Some;
        let at = if pushed {
            before.push(n)
        } else {
            before
        };
        let usable = usable_entries(rows);
        assert forall|i: int| 0 <= i < at.len() implies 0 <= #[trigger] at[i] < rows.len()
            && rows[at[i]].hlc == Some(usable[i].hlc) && json_object(rows[at[i]].row_pks) == Some(
            usable[i].row_pks,
        ) && rows[at[i]].table_name == usable[i].table_name by {
            if i < before.len() {
                assert(at[i] == before[i]);
                assert(rest[before[i]] == rows[before[i]]);
                assert(usable[i] == usable_entries(rest)[i]);
            }
        }
        assert forall|k: int|
            0 <= k < rows.len() && (#[trigger] rows[k]).hlc is Some && json_object(
                rows[k].row_pks,
            ) is Some implies at.contains(k) by {
            if k < n {
                assert(rest[k] == rows[k]);
                assert(before.contains(k));
                let i = choose|i: int| 0 <= i < before.len() && before[i] == k;
                assert(at[i] == k);
            } else {
                assert(at[at.len() - 1] == k);
            }
        }
        at
    }
}

/// The change is news: it has a node and is newer than what is stored for its
/// column.
pub open spec fn news(stored: Seq<(Seq<char>, JsonView)>, c: IndexedView) -> bool {
    c.change.hlc_timestamp.contains('/') && hlc_before(
        stored_hlc(stored, c.change.column_name),
        c.change.hlc_timestamp,
    )
}

/// The change at `j` beats the one at `k`: it was admitted to the same column, has
/// a node and is not older, or the other has no node.
pub open spec fn beats(
    group: Seq<IndexedView>,
    eligible: Seq<usize>,
    decisions: Seq<DecisionView>,
    j: int,
    k: int,
) -> bool {
    let mine = group[eligible[j] as int].change;
    let other = group[eligible[k] as int].change;
    &&& j != k
    &&& decisions[j] is Accept
    &&& mine.column_name == other.column_name
    &&& mine.hlc_timestamp.contains('/')
    &&& !other.hlc_timestamp.contains('/') || !hlc_before(mine.hlc_timestamp, other.hlc_timestamp)
}

/// Some of the first `n` changes beats the one at `k`.
pub open spec fn beaten(
    group: Seq<IndexedView>,
    eligible: Seq<usize>,
    decisions: Seq<DecisionView>,
    n: nat,
    k: int,
) -> bool {
    exists|j: int| 0 <= j < n && #[trigger] beats(group, eligible, decisions, j, k)
}

/// Why the change at `k` was skipped, in terms of the row and its batch: the
/// policy said so; or it is stale, being no newer than what is stored for its
/// column, or without a node; or it was beaten by another change of the batch to
/// the same column.
pub open spec fn skipped_for(
    group: Seq<IndexedView>,
    stored: Seq<(Seq<char>, JsonView)>,
    eligible: Seq<usize>,
    decisions: Seq<DecisionView>,
    n: nat,
    k: int,
    skip: SkippedChange,
) -> bool {
    &&& 0 <= k < n
    &&& skip.input_index == group[eligible[k] as int].input_index
    &&& match skip.reason {
        SkipReason::Policy => decisions[k] is Skip,
        SkipReason::Stale => decisions[k] is Accept && !news(stored, group[eligible[k] as int]),
        SkipReason::SupersededInBatch => decisions[k] is Accept && beaten(
            group,
            eligible,
            decisions,
            n,
            k,
        ),
        _ => false,
    }
}

/// The reason of every skip is a true one.
pub proof fn lemma_every_skip_is_justified(
    group: Seq<IndexedView>,
    stored: Seq<(Seq<char>, JsonView)>,
    eligible: Seq<usize>,
    decisions: Seq<DecisionView>,
    n: nat,
    i: int,
)
    requires
        n <= eligible.len(),
        0 <= i < staging(group, stored, eligible, decisions, n).skips.len(),
    ensures
        exists|k: int| #[trigger]
            skipped_for(
                group,
                stored,
                eligible,
                decisions,
                n,
                k,
                staging(group, stored, eligible, decisions, n).skips[i],
            ),
    decreases n,
{
    if n > 0 {
        let m = (n - 1) as nat;
        let st = staging(group, stored, eligible, decisions, m);
        let after = staging(group, stored, eligible, decisions, n);
        let skip = after.skips[i];
        if i < st.skips.len() {
            assert(skip == st.skips[i]);
            lemma_every_skip_is_justified(group, stored, eligible, decisions, m, i);
            let k = choose|k: int| #[trigger]
                skipped_for(group, stored, eligible, decisions, m, k, st.skips[i]);
            if beaten(group, eligible, decisions, m, k) {
                let j = choose|j: int|
                    0 <= j < m && #[trigger] beats(group, eligible, decisions, j, k);
                assert(beats(group, eligible, decisions, j, k));
                assert(beaten(group, eligible, decisions, n, k));
            }
            assert(skipped_for(group, stored, eligible, decisions, n, k, skip));
        } else {
            lemma_last_skip(group, stored, eligible, decisions, m);
        }
    }
}

#[verifier::rlimit(60)]
#[verifier::spinoff_prover]
proof fn lemma_last_skip(
    group: Seq<IndexedView>,
    stored: Seq<(Seq<char>, JsonView)>,
    eligible: Seq<usize>,
    decisions: Seq<DecisionView>,
    m: nat,
)
    requires
        m < eligible.len(),
        staging(group, stored, eligible, decisions, m + 1).skips.len() > staging(
            group,
            stored,
            eligible,
            decisions,
            m,
        ).skips.len(),
    ensures
        exists|k: int| #[trigger]
            skipped_for(
                group,
                stored,
                eligible,
                decisions,
                m + 1,
                k,
                staging(group, stored, eligible, decisions, m + 1).skips.last(),
            ),
{
    let n = m + 1;
    let st = staging(group, stored, eligible, decisions, m);
    let after = staging(group, stored, eligible, decisions, n);
    let skip = after.skips.last();
    let at = eligible[m as int] as int;
    let c = group[at].change;
    let p = holder(st.staged, group, c.column_name) as int;
    lemma_holder(st.staged, group, c.column_name);
    if decisions[m as int] is Accept && p < st.staged.len() {
        lemma_only_eligible_columns_are_written(group, stored, eligible, decisions, m, p);
        lemma_winners_are_newer_than_stored(group, stored, eligible, decisions, m);
        let j = choose|j: int|
            0 <= j < m && stages(#[trigger] eligible[j], decisions[j], st.staged[p]);
        let held = group[eligible[j] as int].change;
        assert(staged_hlc(st.staged[p], group).contains('/'));
        assert(held.column_name == c.column_name);
        lemma_hlc_order_is_strict_weak(held.hlc_timestamp, c.hlc_timestamp, c.hlc_timestamp);
        if c.hlc_timestamp.contains('/') && hlc_before(held.hlc_timestamp, c.hlc_timestamp) {
            assert(beats(group, eligible, decisions, m as int, j));
            assert(beaten(group, eligible, decisions, n, j));
            assert(skipped_for(group, stored, eligible, decisions, n, j, skip));
        } else {
            assert(beats(group, eligible, decisions, j, m as int));
            assert(beaten(group, eligible, decisions, n, m as int));
            assert(skipped_for(group, stored, eligible, decisions, n, m as int, skip));
        }
    } else {
        assert(skipped_for(group, stored, eligible, decisions, n, m as int, skip));
    }
}

/// A column of the table that carries data has this name.
pub open spec fn is_data_name(schema: Seq<ColumnView>, name: Seq<char>) -> bool {
    exists|i: int|
        0 <= i < schema.len() && (#[trigger] schema[i]).name == name && is_data_column(schema[i])
}

proof fn lemma_data_name(schema: Seq<ColumnView>, name: Seq<char>)
    requires
        names_distinct(schema),
    ensures
        is_data_name(schema, name) <==> ineligible(
            name,
            column_names(schema),
            pk_names(schema),
        ) is None,
{
    lemma_sent_columns_may_be_written(schema, name);
    let (_, at) = lemma_columns_are_told_apart(schema);
    let data = data_names(schema);
    if is_data_name(schema, name) {
        let i = choose|i: int|
            0 <= i < schema.len() && (#[trigger] schema[i]).name == name && is_data_column(
                schema[i],
            );
        assert(at.contains(i));
        let k = choose|k: int| 0 <= k < at.len() && at[k] == i;
        assert(data[k] == name);
    }
    if data.contains(name) {
        let k = choose|k: int| 0 <= k < data.len() && data[k] == name;
        assert(is_data_column(schema[at[k]]));
    }
}

/// Of the changes of a row, exactly those to data columns of its table may be
/// written, in order; all others are skipped, in order.
#[verifier::rlimit(60)]
#[verifier::spinoff_prover]
pub proof fn lemma_only_data_columns_may_be_written(
    changes: Seq<IndexedView>,
    schema: Seq<ColumnView>,
    n: nat,
)
    requires
        names_distinct(schema),
        n <= changes.len() <= usize::MAX,
    ensures
        ({
            let eligible = eligible_of(changes, schema, n);
            &&& forall|i: int, j: int|
                #![trigger eligible[i], eligible[j]]
                0 <= i < j < eligible.len() ==> eligible[i] < eligible[j]
            &&& forall|i: int| 0 <= i < eligible.len() ==> (#[trigger] eligible[i]) < n
            &&& forall|k: int|
                0 <= k < n ==> (eligible.contains(k as usize) <==> is_data_name(
                    schema,
                    (#[trigger] changes[k]).change.column_name,
                ))
        }),
        ({
            let others = ineligible_of(changes, schema, n);
            &&& forall|i: int|
                0 <= i < others.len() ==> exists|k: int|
                    0 <= k < n && (#[trigger] changes[k]).input_index == (
                    #[trigger] others[i]).input_index && !is_data_name(
                        schema,
                        changes[k].change.column_name,
                    )
        }),
    decreases n,
{
    if n > 0 {
        let m = (n - 1) as nat;
        lemma_only_data_columns_may_be_written(changes, schema, m);
        let before = eligible_of(changes, schema, m);
        let eligible = eligible_of(changes, schema, n);
        let name = changes[n - 1].change.column_name;
        lemma_data_name(schema, name);
        assert forall|k: int| 0 <= k < n implies (eligible.contains(k as usize) <==> is_data_name(
            schema,
            (#[trigger] changes[k]).change.column_name,
        )) by {
            if eligible.contains(k as usize) {
                let i = choose|i: int| 0 <= i < eligible.len() && eligible[i] == k as usize;
                if i < before.len() {
                    assert(before[i] == k as usize);
                }
            }
            if k < m && before.contains(k as usize) {
                let i = choose|i: int| 0 <= i < before.len() && before[i] == k as usize;
                assert(eligible[i] == k as usize);
            }
            if k == m && is_data_name(schema, name) {
                assert(eligible[eligible.len() - 1] == k as usize);
            }
        }
        let rest = ineligible_of(changes, schema, m);
        let others = ineligible_of(changes, schema, n);
        assert forall|i: int| 0 <= i < others.len() implies exists|k: int|
            0 <= k < n && (#[trigger] changes[k]).input_index == (#[trigger] others[i]).input_index
                && !is_data_name(schema, changes[k].change.column_name) by {
            if i < rest.len() {
                assert(others[i] == rest[i]);
                let k = choose|k: int|
                    0 <= k < m && (#[trigger] changes[k]).input_index == rest[i].input_index
                        && !is_data_name(schema, changes[k].change.column_name);
                assert(changes[k].input_index == others[i].input_index);
            } else {
                assert(changes[n - 1].input_index == others[i].input_index);
            }
        }
    }
}

/// A delete of this table and key that no staged column is newer than.
pub open spec fn deleted_since(
    r: ReadyView,
    staged: Seq<StagedView>,
    log: Seq<DeletedView>,
) -> bool {
    exists|i: int|
        0 <= i < log.len() && (#[trigger] log[i]).table_name == r.open.table_name && object_equal(
            log[i].row_pks,
            r.open.row_pks,
        ) && forall|k: int|
            0 <= k < staged.len() ==> !hlc_before(
                log[i].hlc,
                r.open.changes[(#[trigger] staged[k]).at].change.hlc_timestamp,
            )
}

/// What becomes of a row once the policy has spoken. It is written where some
/// column won and no delete holds it back; its timestamp is then the newest of
/// what won and, where the row was there, of what it carried. Otherwise nothing of
/// it is written.
#[verifier::rlimit(60)]
#[verifier::spinoff_prover]
pub proof fn lemma_what_becomes_of_a_row(
    m: MergeView,
    r: ReadyView,
    decision: RowDecision,
    log: Seq<DeletedView>,
)
    requires
        m.stage == StageView::Ready(r),
    ensures
        ({
            let after = after_decide(m, decision, log);
            &&& after.landed == m.landed
            &&& after.report.applied == m.report.applied
            &&& after.pending == m.pending
            &&& match decision {
                RowDecision::Skip => after.stage is Idle && after.skipped.len() == m.skipped.len()
                    + r.eligible.len() && forall|i: int|
                    m.skipped.len() <= i < after.skipped.len() ==> (
                    #[trigger] after.skipped[i]).reason == SkipReason::Policy,
                RowDecision::Columns(d) => {
                    let staged = staging(
                        r.open.changes,
                        r.column_hlcs,
                        r.eligible,
                        decision_views(d@),
                        r.eligible.len(),
                    ).staged;
                    if staged.len() > 0 && (r.exists || !deleted_since(r, staged, log)) {
                        after.stage matches StageView::Staged(s) && s.ready == r && s.staged
                            == staged && newest_of_row(s)
                    } else {
                        after.stage is Idle && (staged.len() > 0 ==> forall|i: int|
                            after.skipped.len() - staged.len() <= i < after.skipped.len() ==> (
                            #[trigger] after.skipped[i]).reason == SkipReason::ShadowedByDelete)
                    }
                },
            }
        }),
{
    let after = after_decide(m, decision, log);
    match decision {
        RowDecision::Skip => {
            lemma_counted_applied(m.report, after.skipped.skip(m.skipped.len() as int));
            assert(after.skipped.skip(m.skipped.len() as int) =~= picked_skips(
                r.open.changes,
                eligible_at(r.eligible),
                SkipReason::Policy,
            ));
        },
        RowDecision::Columns(d) => {
            let st = row_staging(r, decision_views(d@));
            lemma_counted_applied(m.report, st.skips);
            lemma_counted_applied(
                m.report,
                st.skips + picked_skips(
                    r.open.changes,
                    staged_at(st.staged),
                    SkipReason::ShadowedByDelete,
                ),
            );
            if st.staged.len() > 0 {
                lemma_held_back_by_a_delete(r, st.staged, log);
                let hlcs = staged_hlcs(st.staged, r.open.changes);
                lemma_newest(hlcs);
                let top = newest(hlcs);
                lemma_row_carries_the_newest(r.row_hlc, top);
                if let StageView::Staged(s) = after.stage {
                    let k = choose|k: int| 0 <= k < hlcs.len() && hlcs[k] == top;
                    assert(r.open.changes[s.staged[k].at].change.hlc_timestamp == top);
                    assert forall|j: int| 0 <= j < s.staged.len() implies !hlc_before(
                        s.row_hlc,
                        s.ready.open.changes[(#[trigger] s.staged[j]).at].change.hlc_timestamp,
                    ) by {
                        assert(!hlc_before(top, hlcs[j]));
                        lemma_hlc_order_is_strict_weak(s.row_hlc, top, hlcs[j]);
                    }
                }
            }
        },
    }
}

/// The timestamp of the row is one of those written or the one that it carried,
/// and none of these is newer.
pub open spec fn newest_of_row(s: StagedRowView) -> bool {
    &&& s.ready.exists ==> !hlc_before(s.row_hlc, s.ready.row_hlc)
    &&& forall|k: int|
        0 <= k < s.staged.len() ==> !hlc_before(
            s.row_hlc,
            s.ready.open.changes[(#[trigger] s.staged[k]).at].change.hlc_timestamp,
        )
    &&& s.ready.exists && s.row_hlc == s.ready.row_hlc || exists|k: int|
        0 <= k < s.staged.len() && s.ready.open.changes[(
        #[trigger] s.staged[k]).at].change.hlc_timestamp == s.row_hlc
}

proof fn lemma_counted_applied(r: ApplyReport, skips: Seq<SkippedChange>)
    ensures
        counted_all(r, skips).applied == r.applied,
    decreases skips.len(),
{
    if skips.len() > 0 {
        lemma_counted_applied(r, skips.drop_last());
    }
}

/// The name is one that the library keeps for itself, or one of the key.
pub open spec fn is_reserved_name(schema: Seq<ColumnView>, name: Seq<char>) -> bool {
    name == "haex_hlc_no_sync"@ || name == "haex_column_hlcs_no_sync"@ || name
        == "haex_column_sigs_no_sync"@ || exists|i: int|
        0 <= i < schema.len() && (#[trigger] schema[i]).name == name && is_key_column(schema[i])
}

/// The reason why a column is not written is the first that holds: the table has
/// none of that name, the column is reserved, or its name keeps it out of sync.
pub proof fn lemma_why_a_column_is_not_written(schema: Seq<ColumnView>, name: Seq<char>)
    ensures
        ineligible(name, column_names(schema), pk_names(schema)) == if !names_column(
            schema,
            name,
        ) {
            Some(SkipReason::UnknownColumn)
        } else if is_reserved_name(schema, name) {
            Some(SkipReason::ReservedColumn)
        } else if exists|stem: Seq<char>| name == #[trigger] local_name(stem) {
            Some(SkipReason::NoSyncColumn)
        } else {
            None::<SkipReason>
        },
{
    lemma_suffix_rule(name);
    let (at, _) = lemma_columns_are_told_apart(schema);
    let pks = pk_names(schema);
    if pks.contains(name) {
        let k = choose|k: int| 0 <= k < pks.len() && pks[k] == name;
        assert(schema[at[k]].name == name && is_key_column(schema[at[k]]));
    }
    if exists|i: int|
        0 <= i < schema.len() && (#[trigger] schema[i]).name == name && is_key_column(schema[i]) {
        let i = choose|i: int|
            0 <= i < schema.len() && (#[trigger] schema[i]).name == name && is_key_column(
                schema[i],
            );
        assert(at.contains(i));
        let k = choose|k: int| 0 <= k < at.len() && at[k] == i;
        assert(pks[k] == name);
    }
    let names = column_names(schema);
    if names_column(schema, name) {
        let i = choose|i: int| 0 <= i < schema.len() && (#[trigger] schema[i]).name == name;
        assert(names[i] == name);
    }
    if names.contains(name) {
        let i = choose|i: int| 0 <= i < names.len() && names[i] == name;
        assert(schema[i].name == name);
    }
}

/// Stored signatures are read of a row that is there, in a table that has them,
/// where some column of the row gets a signature or loses its own; and only then.
pub proof fn lemma_when_signatures_are_read(s: StagedRowView)
    ensures
        wants_signatures(s) <==> {
            &&& s.ready.exists
            &&& names_column(s.ready.open.schema, "haex_column_sigs_no_sync"@)
            &&& exists|j: int|
                0 <= j < s.staged.len() && (#[trigger] s.staged[j]).signature is Replace
        },
{
    lemma_untouched_signatures_stay(Seq::empty(), s.staged, s.ready.open.changes);
}

/// Rows are taken one by one, in order. The next one is opened under its own
/// table, key and changes where it can be merged, and is skipped as a whole where
/// it cannot.
pub proof fn lemma_next_row_is_opened(m: MergeView, schema: Seq<ColumnView>)
    requires
        m.stage is Idle,
        m.pending.len() > 0,
    ensures
        ({
            let after = after_open(m, schema);
            let row = m.pending[0];
            &&& after.pending == m.pending.skip(1)
            &&& after.landed == m.landed
            &&& after.newest == m.newest
            &&& match after.stage {
                StageView::Open(o) => {
                    &&& o.table_name == row.table_name
                    &&& o.row_pks_json == row.row_pks
                    &&& json_object(row.row_pks) == Some(o.row_pks)
                    &&& o.schema == schema
                    &&& o.changes == row.changes
                    &&& after.skipped == m.skipped
                    &&& schema.len() > 0
                },
                StageView::Idle => {
                    &&& after.skipped.len() == m.skipped.len() + row.changes.len()
                    &&& forall|i: int|
                        0 <= i < row.changes.len() ==> {
                            let skip = #[trigger] after.skipped[m.skipped.len() + i];
                            &&& skip.input_index == row.changes[i].input_index
                            &&& row_refusal(schema, row.row_pks) == Some(skip.reason)
                        }
                },
                _ => false,
            }
        }),
{
    assert(m.pending.drop_first() =~= m.pending.skip(1));
}

/// An open row is merged into what is stored of it: the row is there where
/// something was stored, with the timestamps that were stored, and with none where
/// these are missing or cannot be read.
pub proof fn lemma_row_is_seen_as_stored(m: MergeView, o: OpenView, stored: Option<StoredRow>)
    requires
        m.stage == StageView::Open(o),
    ensures
        ({
            let after = after_classify(m, stored);
            &&& after.pending == m.pending
            &&& after.landed == m.landed
            &&& after.newest == m.newest
            &&& after.stage matches StageView::Ready(r) && {
                &&& r.open == o
                &&& r.exists <==> stored is Some
                &&& match stored {
                    Some(s) => {
                        &&& s.row_hlc matches Some(h) ==> r.row_hlc == h@
                        &&& s.row_hlc is None ==> r.row_hlc.len() == 0
                        &&& match s.column_hlcs {
                            Some(text) => match json_object(text@) {
                                Some(map) => r.column_hlcs == map,
                                None => r.column_hlcs.len() == 0,
                            },
                            None => r.column_hlcs.len() == 0,
                        }
                    },
                    None => r.row_hlc.len() == 0 && r.column_hlcs.len() == 0,
                }
            }
        }),
{
}

/// A logged delete is carried out exactly where it has a timestamp, its table may
/// stand in SQL, its key can be read, names exactly the primary key and has only
/// names that may stand in SQL, and the table has its timestamp column.
pub proof fn lemma_when_a_delete_is_carried_out(e: EntryView, schema: Seq<ColumnView>)
    ensures
        delete_plan(e, schema) is Some <==> {
            &&& e.hlc is Some
            &&& safe_identifier(e.table_name)
            &&& names_column(schema, HLC_TIMESTAMP_COLUMN@)
            &&& json_object(e.row_pks) matches Some(key) && names_primary_key(schema, key)
                && forall|i: int| 0 <= i < key.len() ==> safe_identifier((#[trigger] key[i]).0)
        },
        delete_plan(e, schema) matches Some(plan) ==> Some(plan.delete_hlc) == e.hlc,
{
    if let Some(key) = json_object(e.row_pks) {
        lemma_identity(schema, key);
    }
}

/// A batch brings the delete with this id where a change of it is one of that
/// entry of the log and the policy did not drop that change. A change that was
/// skipped for another reason counts: the entry is there already.
pub proof fn lemma_which_deletes_a_batch_brings(
    changes: Seq<ChangeView>,
    skipped: Seq<SkippedChange>,
    i: int,
    id: Seq<char>,
)
    ensures
        brings_delete(changes, skipped, i, id) <==> delete_log_id(changes[i]) == Some(id)
            && forall|k: int|
            0 <= k < skipped.len() && (#[trigger] skipped[k]).reason == SkipReason::Policy
                ==> skipped[k].input_index != i,
{
}

/// The reason why a row is not merged is the first that holds: its table is not
/// there, lacks a timestamp column, or is not the one that the key names a row of.
pub proof fn lemma_why_a_row_is_not_merged(schema: Seq<ColumnView>, row_pks: Seq<char>)
    ensures
        row_refusal(schema, row_pks) == Some(SkipReason::MissingTable) <==> schema.len() == 0,
        row_refusal(schema, row_pks) == Some(SkipReason::MissingCrdtMetadata) <==> schema.len() > 0
            && !(names_column(schema, HLC_TIMESTAMP_COLUMN@) && names_column(
            schema,
            COLUMN_HLCS_COLUMN@,
        )),
        row_refusal(schema, row_pks) matches Some(reason) ==> reason is MissingTable
            || reason is MissingCrdtMetadata || reason is InvalidRowIdentity,
{
    if names_column(schema, HLC_TIMESTAMP_COLUMN@) {
        let i = choose|i: int|
            0 <= i < schema.len() && (#[trigger] schema[i]).name == HLC_TIMESTAMP_COLUMN@;
        assert(schema[i].name == HLC_TIMESTAMP_COLUMN@);
    }
    if names_column(schema, COLUMN_HLCS_COLUMN@) {
        let i = choose|i: int|
            0 <= i < schema.len() && (#[trigger] schema[i]).name == COLUMN_HLCS_COLUMN@;
        assert(schema[i].name == COLUMN_HLCS_COLUMN@);
    }
}

} // verus!
