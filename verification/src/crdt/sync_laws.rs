//! What one replica sends, another takes.

use crate::crdt::apply::engine::eligible_of;
use crate::crdt::apply::engine::ineligible_of;
use crate::crdt::apply::merge_laws::different_columns;
use crate::crdt::apply::merge_laws::lemma_news_is_taken;
use crate::crdt::apply::merge_laws::newer_than_stored;
use crate::crdt::apply::merge_laws::stages;
use crate::crdt::apply::policy_types::DecisionView;
use crate::crdt::apply::policy_types::IndexedView;
use crate::crdt::apply::row::ineligible;
use crate::crdt::apply::row::staging;
use crate::crdt::scanner::change::ChangeView;
use crate::crdt::scanner::emit::cell_hlcs;
use crate::crdt::scanner::emit::cell_sigs;
use crate::crdt::scanner::emit::cell_text;
use crate::crdt::scanner::emit::column_changes;
use crate::crdt::scanner::emit::lemma_sent_changes_are_wanted;
use crate::crdt::scanner::emit::lemma_sent_columns_may_be_written;
use crate::crdt::scanner::emit::names_distinct;
use crate::crdt::scanner::emit::row_changes;
use crate::crdt::scanner::plan::FiltersView;
use crate::crdt::scanner::plan::ScanPlanView;
use crate::crdt::schema::column_names;
use crate::crdt::schema::data_names;
use crate::crdt::schema::lemma_data_names;
use crate::crdt::schema::pk_names;
use crate::crdt::schema::ColumnView;
use crate::json::JsonView;
use vstd::prelude::*;

verus! {

/// A table has each of its data columns once.
proof fn lemma_data_columns_are_distinct(schema: Seq<ColumnView>)
    requires
        names_distinct(schema),
    ensures
        data_names(schema).no_duplicates(),
    decreases schema.len(),
{
    if schema.len() > 0 {
        let rest = schema.drop_last();
        assert(names_distinct(rest)) by {
            assert forall|i: int, j: int|
                #![trigger rest[i], rest[j]]
                0 <= i < j < rest.len() implies rest[i].name != rest[j].name by {
                assert(rest[i] == schema[i]);
                assert(rest[j] == schema[j]);
            }
        }
        lemma_data_columns_are_distinct(rest);
        let last = schema.last().name;
        lemma_data_names(rest, last);
        if data_names(rest).contains(last) {
            let i = choose|i: int|
                0 <= i < rest.len() && (#[trigger] rest[i]).name == last && !rest[i].is_pk;
            assert(schema[i].name != schema[schema.len() - 1].name);
        }
    }
}

/// A scan sends each column of a row at most once.
proof fn lemma_sent_columns_are_distinct(
    plan: ScanPlanView,
    cells: Seq<JsonView>,
    hlcs: Seq<(Seq<char>, Seq<char>)>,
    sigs: Seq<(Seq<char>, JsonView)>,
    row_hlc: Option<Seq<char>>,
    after: Option<Seq<char>>,
    device: Seq<char>,
    origin: Option<u128>,
    n: nat,
)
    requires
        n <= plan.data.len(),
        plan.data.no_duplicates(),
    ensures
        ({
            let sent = column_changes(
                plan,
                cells,
                hlcs,
                sigs,
                row_hlc,
                after,
                device,
                origin,
                n,
            );
            &&& forall|i: int|
                0 <= i < sent.len() ==> plan.data.take(n as int).contains(
                    (#[trigger] sent[i]).column_name,
                )
            &&& forall|i: int, j: int|
                #![trigger sent[i], sent[j]]
                0 <= i < j < sent.len() ==> sent[i].column_name != sent[j].column_name
        }),
    decreases n,
{
    if n > 0 {
        let m = (n - 1) as nat;
        lemma_sent_columns_are_distinct(
            plan,
            cells,
            hlcs,
            sigs,
            row_hlc,
            after,
            device,
            origin,
            m,
        );
        let before = column_changes(plan, cells, hlcs, sigs, row_hlc, after, device, origin, m);
        let sent = column_changes(plan, cells, hlcs, sigs, row_hlc, after, device, origin, n);
        let had = plan.data.take(m as int);
        let has = plan.data.take(n as int);
        assert(has[m as int] == plan.data[m as int]);
        assert forall|i: int| 0 <= i < before.len() implies has.contains(
            (#[trigger] before[i]).column_name,
        ) && before[i].column_name != plan.data[m as int] by {
            assert(had.contains(before[i].column_name));
            let k = choose|k: int| 0 <= k < had.len() && had[k] == before[i].column_name;
            assert(has[k] == before[i].column_name);
            assert(plan.data[k] != plan.data[m as int]);
        }
        assert forall|i: int| 0 <= i < sent.len() implies has.contains(
            (#[trigger] sent[i]).column_name,
        ) by {
            if i < before.len() {
                assert(sent[i] == before[i]);
            } else {
                assert(sent[i].column_name == has[m as int]);
            }
        }
        assert forall|i: int, j: int|
            #![trigger sent[i], sent[j]]
            0 <= i < j < sent.len() implies sent[i].column_name != sent[j].column_name by {
            assert(sent[i] == before[i]);
            if j < before.len() {
                assert(sent[j] == before[j]);
            }
        }
    }
}

proof fn lemma_all_eligible(batch: Seq<IndexedView>, schema: Seq<ColumnView>, n: nat)
    requires
        n <= batch.len() <= usize::MAX,
        forall|i: int|
            0 <= i < n ==> ineligible(
                (#[trigger] batch[i]).change.column_name,
                column_names(schema),
                pk_names(schema),
            ) is None,
    ensures
        eligible_of(batch, schema, n) == Seq::new(n, |i: int| i as usize),
        ineligible_of(batch, schema, n).len() == 0,
    decreases n,
{
    if n > 0 {
        lemma_all_eligible(batch, schema, (n - 1) as nat);
        assert(ineligible(
            batch[n - 1].change.column_name,
            column_names(schema),
            pk_names(schema),
        ) is None);
    }
    assert(eligible_of(batch, schema, n) =~= Seq::new(n, |i: int| i as usize));
}

/// `batch` holds changes that a scan sent, each once, in any order.
pub open spec fn delivered(sent: Seq<ChangeView>, batch: Seq<IndexedView>) -> bool {
    &&& forall|i: int| 0 <= i < batch.len() ==> sent.contains((#[trigger] batch[i]).change)
    &&& forall|i: int, j: int|
        #![trigger batch[i], batch[j]]
        0 <= i < j < batch.len() ==> batch[i].change != batch[j].change
}

/// What a scan sends of a row, a replica of the same shape takes where all of it
/// is news: no column is refused, none is skipped, and each is written with the
/// value that the policy gave for it. In particular a replica without the row
/// takes every column with a full timestamp.
pub proof fn lemma_what_is_sent_is_taken(
    schema: Seq<ColumnView>,
    plan: ScanPlanView,
    cells: Seq<JsonView>,
    after: Option<Seq<char>>,
    device: Seq<char>,
    f: FiltersView,
    batch: Seq<IndexedView>,
    stored: Seq<(Seq<char>, JsonView)>,
    decisions: Seq<DecisionView>,
)
    requires
        names_distinct(schema),
        plan.data == data_names(schema),
        delivered(row_changes(plan, cells, after, device, f), batch),
        batch.len() <= usize::MAX,
        forall|k: int| 0 <= k < batch.len() ==> (#[trigger] decisions[k]) is Accept,
        forall|k: int| 0 <= k < batch.len() ==> newer_than_stored(stored, #[trigger] batch[k]),
    ensures
        ineligible_of(batch, schema, batch.len()).len() == 0,
        ({
            let eligible = eligible_of(batch, schema, batch.len());
            let st = staging(batch, stored, eligible, decisions, eligible.len());
            &&& eligible.len() == batch.len()
            &&& st.skips.len() == 0
            &&& st.staged.len() == batch.len()
            &&& forall|k: int|
                0 <= k < batch.len() ==> stages(k as usize, decisions[k], #[trigger] st.staged[k])
        }),
{
    let n = batch.len();
    let at = (plan.pks.len() + plan.data.len()) as int;
    let hlcs = cell_hlcs(cells[at + 1]);
    let sigs = if plan.has_sigs {
        cell_sigs(cells[at + 2])
    } else {
        Seq::empty()
    };
    let row_hlc = cell_text(cells[at]);
    let sent = row_changes(plan, cells, after, device, f);
    lemma_data_columns_are_distinct(schema);
    lemma_sent_columns_are_distinct(
        plan,
        cells,
        hlcs,
        sigs,
        row_hlc,
        after,
        device,
        f.origin_node,
        plan.data.len(),
    );
    lemma_sent_changes_are_wanted(
        plan,
        cells,
        hlcs,
        sigs,
        row_hlc,
        after,
        device,
        f.origin_node,
        plan.data.len(),
    );
    assert forall|i: int| 0 <= i < n implies ineligible(
        (#[trigger] batch[i]).change.column_name,
        column_names(schema),
        pk_names(schema),
    ) is None by {
        assert(sent.contains(batch[i].change));
        let k = choose|k: int| 0 <= k < sent.len() && sent[k] == batch[i].change;
        assert(plan.data.contains(sent[k].column_name));
        lemma_sent_columns_may_be_written(schema, sent[k].column_name);
    }
    lemma_all_eligible(batch, schema, n);
    let eligible = eligible_of(batch, schema, n);
    assert forall|i: int, j: int|
        #![trigger eligible[i], eligible[j]]
        0 <= i < j < eligible.len() implies batch[eligible[i] as int].change.column_name
        != batch[eligible[j] as int].change.column_name by {
        assert(eligible[i] == i as usize && eligible[j] == j as usize);
        assert(sent.contains(batch[i].change) && sent.contains(batch[j].change));
        let a = choose|a: int| 0 <= a < sent.len() && sent[a] == batch[i].change;
        let b = choose|b: int| 0 <= b < sent.len() && sent[b] == batch[j].change;
        if a < b {
            assert(sent[a].column_name != sent[b].column_name);
        } else if b < a {
            assert(sent[b].column_name != sent[a].column_name);
        } else {
            assert(batch[i].change == batch[j].change);
        }
    }
    assert(different_columns(batch, eligible));
    assert forall|k: int| 0 <= k < n implies newer_than_stored(
        stored,
        batch[#[trigger] eligible[k] as int],
    ) by {
        assert(eligible[k] == k as usize);
        assert(newer_than_stored(stored, batch[k]));
    }
    lemma_news_is_taken(batch, stored, eligible, decisions, n);
    let st = staging(batch, stored, eligible, decisions, n);
    assert forall|k: int| 0 <= k < n implies stages(
        k as usize,
        decisions[k],
        #[trigger] st.staged[k],
    ) by {
        assert(eligible[k] == k as usize);
    }
}

} // verus!
