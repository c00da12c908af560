//! The laws of whole batches: replicas converge whatever the order of delivery,
//! and a batch that is merged again changes nothing.
//!
//! A change that may be written and that the policy admits is an offer of a
//! value to a column. What a merge leaves of a row is told by the offers alone,
//! not by their order.

use crate::crdt::apply::batch::changes_in;
use crate::crdt::apply::batch::holds_change;
use crate::crdt::apply::batch::in_a_group;
use crate::crdt::apply::batch::lemma_groups_are_keyed;
use crate::crdt::apply::batch::lemma_merge_order_counts;
use crate::crdt::apply::batch::merge_order;
use crate::crdt::apply::batch::row_group_views;
use crate::crdt::apply::batch::RowGroup;
use crate::crdt::apply::batch::RowGroupView;
use crate::crdt::apply::batch_merge::balanced;
use crate::crdt::apply::batch_merge::started;
use crate::crdt::apply::batch_merge::MergeView;
use crate::crdt::apply::convergence::lemma_values_after_write;
use crate::crdt::apply::delete_propagation::row_shadowed;
use crate::crdt::apply::delete_propagation::shadows;
use crate::crdt::apply::delete_propagation::DeletedView;
use crate::crdt::apply::engine::eligible_of;
use crate::crdt::apply::engine::lemma_eligible;
use crate::crdt::apply::engine::row_refusal;
use crate::crdt::apply::engine::timestamps_checked;
use crate::crdt::apply::lww::contends;
use crate::crdt::apply::lww::lemma_winner_is_newest;
use crate::crdt::apply::lww::lemma_winners_are_newer_than_stored;
use crate::crdt::apply::lww::lemma_winners_write_distinct_columns;
use crate::crdt::apply::lww::staged_column;
use crate::crdt::apply::lww::staged_hlc;
use crate::crdt::apply::merge_laws::lemma_only_eligible_columns_are_written;
use crate::crdt::apply::merge_laws::lemma_stored_after_write;
use crate::crdt::apply::merge_laws::stages;
use crate::crdt::apply::policy_types::DecisionView;
use crate::crdt::apply::policy_types::IndexedView;
use crate::crdt::apply::preflight::readable;
use crate::crdt::apply::replica::applied_in;
use crate::crdt::apply::replica::between_rows;
use crate::crdt::apply::replica::eligible_in;
use crate::crdt::apply::replica::held;
use crate::crdt::apply::replica::lands;
use crate::crdt::apply::replica::lemma_merge_follows_rules;
use crate::crdt::apply::replica::mergeable;
use crate::crdt::apply::replica::replica_after;
use crate::crdt::apply::replica::row_after;
use crate::crdt::apply::replica::row_id;
use crate::crdt::apply::replica::rows_merged;
use crate::crdt::apply::replica::staged_in;
use crate::crdt::apply::replica::steps_fit;
use crate::crdt::apply::replica::verdicts_on;
use crate::crdt::apply::replica::written_hlc;
use crate::crdt::apply::replica::MergeStep;
use crate::crdt::apply::replica::Replica;
use crate::crdt::apply::replica::RowId;
use crate::crdt::apply::replica::RowState;
use crate::crdt::apply::replica::Rules;
use crate::crdt::apply::report::empty_report;
use crate::crdt::apply::row::holder;
use crate::crdt::apply::row::ineligible;
use crate::crdt::apply::row::lemma_holder;
use crate::crdt::apply::row::running_hlc;
use crate::crdt::apply::row::stored_hlc;
use crate::crdt::apply::write::lemma_newest;
use crate::crdt::apply::write::newest;
use crate::crdt::apply::write::staged_hlcs;
use crate::crdt::hlc::hlc_before;
use crate::crdt::hlc::hlc_key;
use crate::crdt::hlc::timestamp_value;
use crate::crdt::scanner::change::ChangeView;
use crate::crdt::scanner::change::ColumnChange;
use crate::crdt::schema::column_names;
use crate::crdt::schema::pk_names;
use crate::crdt::schema::ColumnView;
use crate::crdt::value::SqlView;
use crate::json::json_object;
use crate::json::keys_ascend;
use crate::json::member;
use crate::json::object_equal;
use vstd::prelude::*;

verus! {

/// A value for a column of a row, under a timestamp.
pub struct Offer {
    pub row: RowId,
    pub column: Seq<char>,
    pub hlc: Seq<char>,
    pub value: SqlView,
}

/// Some offers.
pub type Offers = spec_fn(Offer) -> bool;

/// `o` is one of the offers.
pub open spec fn among(offers: Offers, o: Offer) -> bool {
    offers(o)
}

/// The change makes this offer: its row can be merged, its column may be
/// written, its timestamp has a node part, and the policy admits it.
pub open spec fn makes(c: ChangeView, rules: Rules, o: Offer) -> bool {
    let schema = (rules.schema_of)(c.table_name);
    &&& row_refusal(schema, c.row_pks) is None
    &&& o.row == (c.table_name, json_object(c.row_pks)->Some_0)
    &&& ineligible(c.column_name, column_names(schema), pk_names(schema)) is None
    &&& c.hlc_timestamp.contains('/')
    &&& (rules.verdict)(c) matches DecisionView::Accept { value, .. } && o.value == value
    &&& o.column == c.column_name
    &&& o.hlc == c.hlc_timestamp
}

/// The changes of a group are about its row.
pub open spec fn group_sound(g: RowGroupView) -> bool {
    &&& g.changes.len() <= usize::MAX
    &&& forall|k: int|
        0 <= k < g.changes.len() ==> (#[trigger] g.changes[k]).change.table_name == g.table_name
            && g.changes[k].change.row_pks == g.row_pks
}

/// The offers of a group.
pub open spec fn group_offers(g: RowGroupView, rules: Rules) -> Offers {
    |o: Offer|
        exists|k: int|
            0 <= k < g.changes.len() && #[trigger] makes(g.changes[k].change, rules, o)
}

/// The offers of some groups.
pub open spec fn offers_in(groups: Seq<RowGroupView>, rules: Rules) -> Offers {
    |o: Offer|
        exists|g: int|
            0 <= g < groups.len() && #[trigger] among(group_offers(groups[g], rules), o)
}

/// What a column holds after some offers: the newest of its own and of theirs.
pub open spec fn column_follows(
    from: RowState,
    to: RowState,
    offers: Offers,
    id: RowId,
    column: Seq<char>,
) -> bool {
    let was = stored_hlc(from.column_hlcs, column);
    let end = stored_hlc(to.column_hlcs, column);
    &&& !hlc_before(end, was)
    &&& forall|o: Offer| #[trigger]
        among(offers, o) && o.row == id && o.column == column ==> !hlc_before(end, o.hlc)
    &&& {
        ||| {
            &&& end == was
            &&& to.values.dom().contains(column) == from.values.dom().contains(column)
            &&& to.values[column] == from.values[column]
        }
        ||| exists|o: Offer| #[trigger]
            among(offers, o) && o.row == id && o.column == column && hlc_before(was, o.hlc) && end
                == o.hlc && to.values.dom().contains(column) && to.values[column] == o.value
    }
}

/// The offer is newer than what the row held for its column.
pub open spec fn is_news(from: RowState, o: Offer) -> bool {
    hlc_before(stored_hlc(from.column_hlcs, o.column), o.hlc)
}

/// What a row is after some offers, none of them held back.
pub open spec fn row_follows(from: RowState, to: RowState, offers: Offers, id: RowId) -> bool {
    &&& keys_ascend(to.column_hlcs)
    &&& forall|column: Seq<char>| #[trigger] column_follows(from, to, offers, id, column)
    &&& from.exists ==> to.exists && !hlc_before(to.row_hlc, from.row_hlc)
    &&& forall|o: Offer| #[trigger]
        among(offers, o) && o.row == id && is_news(from, o) ==> to.exists && !hlc_before(
            to.row_hlc,
            o.hlc,
        )
    &&& to.exists ==> {
        ||| from.exists && to.row_hlc == from.row_hlc
        ||| exists|o: Offer| #[trigger]
            among(offers, o) && o.row == id && is_news(from, o) && to.row_hlc == o.hlc
    }
    &&& !to.exists ==> to == from
}

/// Two rows are alike: there is one or there is none, its timestamps are
/// numerically equal, and so are the timestamps of its columns, which hold the
/// same values.
pub open spec fn rows_alike(a: RowState, b: RowState) -> bool {
    &&& a.exists == b.exists
    &&& a.exists ==> hlc_key(a.row_hlc) == hlc_key(b.row_hlc)
    &&& forall|column: Seq<char>| #[trigger] columns_alike(a, b, column)
}

/// The column has the same timestamp and value in both rows.
pub open spec fn columns_alike(a: RowState, b: RowState, column: Seq<char>) -> bool {
    &&& hlc_key(stored_hlc(a.column_hlcs, column)) == hlc_key(stored_hlc(b.column_hlcs, column))
    &&& a.values.dom().contains(column) == b.values.dom().contains(column)
    &&& a.values[column] == b.values[column]
}

/// A column and a timestamp together name one value.
pub open spec fn offers_agree(offers: Offers) -> bool {
    forall|a: Offer, b: Offer| #[trigger]
        among(offers, a) && #[trigger] among(offers, b) && a.row == b.row && a.column == b.column
            && hlc_key(a.hlc) == hlc_key(b.hlc) ==> a.value == b.value
}

/// Every position whose column may be written is among the eligible ones.
proof fn lemma_eligible_complete(
    changes: Seq<IndexedView>,
    schema: Seq<ColumnView>,
    n: nat,
    p: int,
)
    requires
        0 <= p < n <= changes.len() <= usize::MAX,
        ineligible(
            changes[p].change.column_name,
            column_names(schema),
            pk_names(schema),
        ) is None,
    ensures
        eligible_of(changes, schema, n).contains(p as usize),
    decreases n,
{
    let all = eligible_of(changes, schema, n);
    let before = eligible_of(changes, schema, (n - 1) as nat);
    if p == n - 1 {
        assert(all[before.len() as int] == p as usize);
    } else {
        lemma_eligible_complete(changes, schema, (n - 1) as nat, p);
        let k = choose|k: int| 0 <= k < before.len() && before[k] == p as usize;
        assert(all[k] == p as usize);
    }
}

/// Every eligible position is one whose column may be written.
proof fn lemma_eligible_sound(
    changes: Seq<IndexedView>,
    schema: Seq<ColumnView>,
    n: nat,
    k: int,
)
    requires
        n <= changes.len() <= usize::MAX,
        0 <= k < eligible_of(changes, schema, n).len(),
    ensures
        eligible_of(changes, schema, n)[k] < n,
        ineligible(
            changes[eligible_of(changes, schema, n)[k] as int].change.column_name,
            column_names(schema),
            pk_names(schema),
        ) is None,
    decreases n,
{
    lemma_eligible(changes, schema, n);
    if n > 0 {
        let before = eligible_of(changes, schema, (n - 1) as nat);
        if k < before.len() {
            lemma_eligible_sound(changes, schema, (n - 1) as nat, k);
        }
    }
}

/// What contends for a column is an offer of the group.
proof fn lemma_contender_is_offer(g: RowGroupView, rules: Rules, k: int, column: Seq<char>) -> (o:
    Offer)
    requires
        group_sound(g),
        mergeable(g, rules),
        0 <= k < eligible_in(g, rules).len(),
        contends(g.changes, eligible_in(g, rules), verdicts_on(g, rules), k, column),
    ensures
        among(group_offers(g, rules), o),
        o.row == row_id(g),
        o.column == column,
        o.hlc == g.changes[eligible_in(g, rules)[k] as int].change.hlc_timestamp,
        verdicts_on(g, rules)[k] matches DecisionView::Accept { value, .. } && o.value == value,
{
    let schema = (rules.schema_of)(g.table_name);
    lemma_eligible_sound(g.changes, schema, g.changes.len(), k);
    let at = eligible_in(g, rules)[k] as int;
    let c = g.changes[at].change;
    let value = verdicts_on(g, rules)[k]->Accept_value;
    let o = Offer { row: row_id(g), column, hlc: c.hlc_timestamp, value };
    assert(makes(g.changes[at].change, rules, o));
    o
}

/// An offer of the group contends for its column.
proof fn lemma_offer_contends(g: RowGroupView, rules: Rules, o: Offer) -> (k: int)
    requires
        group_sound(g),
        among(group_offers(g, rules), o),
    ensures
        mergeable(g, rules),
        o.row == row_id(g),
        0 <= k < eligible_in(g, rules).len(),
        contends(g.changes, eligible_in(g, rules), verdicts_on(g, rules), k, o.column),
        o.hlc == g.changes[eligible_in(g, rules)[k] as int].change.hlc_timestamp,
{
    let p = choose|p: int|
        0 <= p < g.changes.len() && #[trigger] makes(g.changes[p].change, rules, o);
    let schema = (rules.schema_of)(g.table_name);
    lemma_eligible_complete(g.changes, schema, g.changes.len(), p);
    let e = eligible_in(g, rules);
    let k = choose|k: int| 0 <= k < e.len() && e[k] == p as usize;
    assert(g.changes[e[k] as int] == g.changes[p]);
    k
}

/// The staged column at `j` is an offer of the group that is news to the row.
proof fn lemma_staged_is_offer(row: RowState, g: RowGroupView, rules: Rules, j: int) -> (o: Offer)
    requires
        group_sound(g),
        mergeable(g, rules),
        0 <= j < staged_in(row, g, rules).len(),
    ensures
        among(group_offers(g, rules), o),
        o.row == row_id(g),
        o.column == staged_column(staged_in(row, g, rules)[j], g.changes),
        o.hlc == staged_hlc(staged_in(row, g, rules)[j], g.changes),
        o.value == staged_in(row, g, rules)[j].value,
        is_news(row, o),
{
    let e = eligible_in(g, rules);
    let dv = verdicts_on(g, rules);
    let staged = staged_in(row, g, rules);
    lemma_winners_are_newer_than_stored(g.changes, row.column_hlcs, e, dv, e.len());
    lemma_only_eligible_columns_are_written(g.changes, row.column_hlcs, e, dv, e.len(), j);
    let k = choose|k: int| 0 <= k < e.len() && stages(#[trigger] e[k], dv[k], staged[j]);
    let column = staged_column(staged[j], g.changes);
    assert(contends(g.changes, e, dv, k, column));
    lemma_contender_is_offer(g, rules, k, column)
}

/// An offer that is news to the row is no newer than what is written.
proof fn lemma_news_is_covered(row: RowState, g: RowGroupView, rules: Rules, o: Offer)
    requires
        group_sound(g),
        among(group_offers(g, rules), o),
        is_news(row, o),
    ensures
        staged_in(row, g, rules).len() > 0,
        !hlc_before(written_hlc(row, g, rules), o.hlc),
{
    let e = eligible_in(g, rules);
    let dv = verdicts_on(g, rules);
    let staged = staged_in(row, g, rules);
    let k = lemma_offer_contends(g, rules, o);
    lemma_winner_is_newest(g.changes, row.column_hlcs, e, dv, e.len(), o.column);
    let end = running_hlc(staged, g.changes, row.column_hlcs, o.column);
    assert(!hlc_before(end, g.changes[e[k] as int].change.hlc_timestamp));
    lemma_holder(staged, g.changes, o.column);
    let p = holder(staged, g.changes, o.column) as int;
    assert(p < staged.len());
    let hlcs = staged_hlcs(staged, g.changes);
    lemma_newest(hlcs);
    assert(hlcs[p] == end);
}

/// What is written is an offer of the group that is news to the row.
proof fn lemma_written_is_offer(row: RowState, g: RowGroupView, rules: Rules) -> (o: Offer)
    requires
        group_sound(g),
        mergeable(g, rules),
        staged_in(row, g, rules).len() > 0,
    ensures
        among(group_offers(g, rules), o),
        o.row == row_id(g),
        is_news(row, o),
        o.hlc == written_hlc(row, g, rules),
{
    let hlcs = staged_hlcs(staged_in(row, g, rules), g.changes);
    lemma_newest(hlcs);
    let j = choose|j: int| 0 <= j < hlcs.len() && hlcs[j] == newest(hlcs);
    lemma_staged_is_offer(row, g, rules, j)
}

/// A group that is not held back leaves its row as its offers say.
proof fn lemma_group_follows(
    row: RowState,
    g: RowGroupView,
    rules: Rules,
    log: Seq<DeletedView>,
)
    requires
        group_sound(g),
        keys_ascend(row.column_hlcs),
        mergeable(g, rules) && staged_in(row, g, rules).len() > 0 ==> !held(row, g, rules, log),
    ensures
        row_follows(row, row_after(row, g, rules, log), group_offers(g, rules), row_id(g)),
{
    let id = row_id(g);
    let offers = group_offers(g, rules);
    let to = row_after(row, g, rules, log);
    let e = eligible_in(g, rules);
    let dv = verdicts_on(g, rules);
    let staged = staged_in(row, g, rules);
    lemma_winners_write_distinct_columns(g.changes, row.column_hlcs, e, dv, e.len());
    assert forall|column: Seq<char>| #[trigger] column_follows(row, to, offers, id, column) by {
        lemma_winner_is_newest(g.changes, row.column_hlcs, e, dv, e.len(), column);
        lemma_stored_after_write(row.column_hlcs, staged, g.changes, column);
        lemma_values_after_write(row.values, staged, g.changes, column);
        let was = stored_hlc(row.column_hlcs, column);
        let end = stored_hlc(to.column_hlcs, column);
        if mergeable(g, rules) && staged.len() == 0 {
            assert(holder(staged, g.changes, column) == 0);
        }
        assert forall|o: Offer| #[trigger]
            among(offers, o) && o.row == id && o.column == column implies !hlc_before(
            end,
            o.hlc,
        ) by {
            let k = lemma_offer_contends(g, rules, o);
        }
        if lands(row, g, rules, log) {
            if exists|j: int|
                0 <= j < staged.len() && staged_column(#[trigger] staged[j], g.changes)
                    == column {
                let j = choose|j: int|
                    0 <= j < staged.len() && staged_column(#[trigger] staged[j], g.changes)
                        == column;
                let o = lemma_staged_is_offer(row, g, rules, j);
                assert(among(offers, o));
            }
        }
    }
    lemma_stored_after_write(row.column_hlcs, staged, g.changes, Seq::empty());
    assert forall|o: Offer| #[trigger]
        among(offers, o) && o.row == id && is_news(row, o) implies to.exists && !hlc_before(
        to.row_hlc,
        o.hlc,
    ) by {
        let k = lemma_offer_contends(g, rules, o);
        lemma_news_is_covered(row, g, rules, o);
    }
    if lands(row, g, rules, log) {
        let o = lemma_written_is_offer(row, g, rules);
        assert(among(offers, o));
    }
}

/// Offers made one after the other are all of them at once.
proof fn lemma_follows_compose(
    a: RowState,
    b: RowState,
    c: RowState,
    first: Offers,
    second: Offers,
    both: Offers,
    id: RowId,
)
    requires
        row_follows(a, b, first, id),
        row_follows(b, c, second, id),
        forall|o: Offer| #[trigger]
            among(both, o) <==> among(first, o) || among(second, o),
    ensures
        row_follows(a, c, both, id),
{
    assert forall|column: Seq<char>| #[trigger] column_follows(a, c, both, id, column) by {
        assert(column_follows(a, b, first, id, column));
        assert(column_follows(b, c, second, id, column));
        let was = stored_hlc(a.column_hlcs, column);
        let mid = stored_hlc(b.column_hlcs, column);
        let end = stored_hlc(c.column_hlcs, column);
        if exists|o: Offer| #[trigger]
            among(second, o) && o.row == id && o.column == column && hlc_before(mid, o.hlc) && end
                == o.hlc && c.values.dom().contains(column) && c.values[column] == o.value {
            let o = choose|o: Offer| #[trigger]
                among(second, o) && o.row == id && o.column == column && hlc_before(mid, o.hlc)
                    && end == o.hlc && c.values.dom().contains(column) && c.values[column]
                    == o.value;
            assert(among(both, o));
        } else if exists|o: Offer| #[trigger]
            among(first, o) && o.row == id && o.column == column && hlc_before(was, o.hlc) && mid
                == o.hlc && b.values.dom().contains(column) && b.values[column] == o.value {
            let o = choose|o: Offer| #[trigger]
                among(first, o) && o.row == id && o.column == column && hlc_before(was, o.hlc)
                    && mid == o.hlc && b.values.dom().contains(column) && b.values[column]
                    == o.value;
            assert(among(both, o));
        }
    }
    assert forall|o: Offer| #[trigger]
        among(both, o) && o.row == id && is_news(a, o) implies c.exists && !hlc_before(
        c.row_hlc,
        o.hlc,
    ) by {
        assert(column_follows(a, b, first, id, o.column));
        if among(second, o) && !is_news(b, o) {
            let mid = stored_hlc(b.column_hlcs, o.column);
            let f = choose|f: Offer| #[trigger]
                among(first, f) && f.row == id && f.column == o.column && hlc_before(
                    stored_hlc(a.column_hlcs, o.column),
                    f.hlc,
                ) && mid == f.hlc;
            assert(among(first, f) && is_news(a, f));
        }
    }
    if c.exists {
        if b.exists && c.row_hlc == b.row_hlc {
            if !(a.exists && b.row_hlc == a.row_hlc) {
                let o = choose|o: Offer| #[trigger]
                    among(first, o) && o.row == id && is_news(a, o) && b.row_hlc == o.hlc;
                assert(among(both, o));
            }
        } else {
            let o = choose|o: Offer| #[trigger]
                among(second, o) && o.row == id && is_news(b, o) && c.row_hlc == o.hlc;
            assert(among(both, o));
            assert(column_follows(a, b, first, id, o.column));
        }
    }
}

/// What a row is after some offers does not depend on how it came to them.
proof fn lemma_follows_alike(
    from: RowState,
    a: RowState,
    b: RowState,
    first: Offers,
    second: Offers,
    id: RowId,
)
    requires
        row_follows(from, a, first, id),
        row_follows(from, b, second, id),
        forall|o: Offer| #[trigger] among(first, o) <==> among(second, o),
        offers_agree(first),
    ensures
        rows_alike(a, b),
{
    assert forall|column: Seq<char>| #[trigger] columns_alike(a, b, column) by {
        assert(column_follows(from, a, first, id, column));
        assert(column_follows(from, b, second, id, column));
        let was = stored_hlc(from.column_hlcs, column);
        let end_a = stored_hlc(a.column_hlcs, column);
        let end_b = stored_hlc(b.column_hlcs, column);
        if end_a != was {
            let o = choose|o: Offer| #[trigger]
                among(first, o) && o.row == id && o.column == column && hlc_before(was, o.hlc)
                    && end_a == o.hlc && a.values.dom().contains(column) && a.values[column]
                    == o.value;
            assert(among(second, o));
        }
        if end_b != was {
            let o = choose|o: Offer| #[trigger]
                among(second, o) && o.row == id && o.column == column && hlc_before(was, o.hlc)
                    && end_b == o.hlc && b.values.dom().contains(column) && b.values[column]
                    == o.value;
            assert(among(first, o));
        }
    }
    if a.exists && !(from.exists && a.row_hlc == from.row_hlc) {
        let o = choose|o: Offer| #[trigger]
            among(first, o) && o.row == id && is_news(from, o) && a.row_hlc == o.hlc;
        assert(among(second, o));
    }
    if b.exists && !(from.exists && b.row_hlc == from.row_hlc) {
        let o = choose|o: Offer| #[trigger]
            among(second, o) && o.row == id && is_news(from, o) && b.row_hlc == o.hlc;
        assert(among(first, o));
    }
}

/// A row that got no offers is as it was.
proof fn lemma_follows_nothing(row: RowState, offers: Offers, id: RowId)
    requires
        keys_ascend(row.column_hlcs),
        forall|o: Offer| #[trigger] among(offers, o) ==> o.row != id,
    ensures
        row_follows(row, row, offers, id),
{
    assert forall|column: Seq<char>| #[trigger] column_follows(
        row,
        row,
        offers,
        id,
        column,
    ) by {}
}

/// The offers of one group more.
proof fn lemma_offers_in_last(groups: Seq<RowGroupView>, rules: Rules)
    requires
        groups.len() > 0,
    ensures
        forall|o: Offer| #[trigger]
            among(offers_in(groups, rules), o) <==> among(
                offers_in(groups.drop_last(), rules),
                o,
            ) || among(group_offers(groups.last(), rules), o),
{
    let rest = groups.drop_last();
    assert forall|o: Offer| #[trigger]
        among(offers_in(groups, rules), o) <==> among(offers_in(rest, rules), o) || among(
            group_offers(groups.last(), rules),
            o,
        ) by {
        if among(offers_in(groups, rules), o) {
            let g = choose|g: int|
                0 <= g < groups.len() && #[trigger] among(group_offers(groups[g], rules), o);
            if g < rest.len() {
                assert(among(group_offers(rest[g], rules), o));
            }
        }
        if among(offers_in(rest, rules), o) {
            let g = choose|g: int|
                0 <= g < rest.len() && #[trigger] among(group_offers(rest[g], rules), o);
            assert(among(group_offers(groups[g], rules), o));
        }
        if among(group_offers(groups.last(), rules), o) {
            assert(among(group_offers(groups[groups.len() - 1], rules), o));
        }
    }
}

/// An offer of a group is for its row.
proof fn lemma_offers_are_for_the_row(g: RowGroupView, rules: Rules)
    requires
        group_sound(g),
    ensures
        forall|o: Offer| #[trigger]
            among(group_offers(g, rules), o) ==> o.row == row_id(g) && mergeable(g, rules),
{
    assert forall|o: Offer| #[trigger] among(group_offers(g, rules), o) implies o.row == row_id(g)
        && mergeable(g, rules) by {
        let k = lemma_offer_contends(g, rules, o);
    }
}

/// Every group is about its row.
pub open spec fn groups_sound(groups: Seq<RowGroupView>) -> bool {
    forall|g: int| 0 <= g < groups.len() ==> group_sound(#[trigger] groups[g])
}

/// No entry of the delete log names the row of an offer.
pub open spec fn free_of_deletes(offers: Offers, log: Seq<DeletedView>) -> bool {
    forall|o: Offer, i: int|
        #![trigger among(offers, o), log[i]]
        among(offers, o) && 0 <= i < log.len() ==> !(log[i].table_name == o.row.0 && object_equal(
            log[i].row_pks,
            o.row.1,
        ))
}

/// The timestamps of every row's columns can be read back in order.
pub open spec fn in_order(s: Replica) -> bool {
    forall|id: RowId| keys_ascend(#[trigger] s(id).column_hlcs)
}

/// Groups that the delete log does not touch leave every row as their offers
/// say.
proof fn lemma_groups_follow(
    s: Replica,
    groups: Seq<RowGroupView>,
    rules: Rules,
    log: Seq<DeletedView>,
    id: RowId,
)
    requires
        groups_sound(groups),
        in_order(s),
        free_of_deletes(offers_in(groups, rules), log),
    ensures
        row_follows(s(id), replica_after(s, groups, rules, log)(id), offers_in(groups, rules), id),
    decreases groups.len(),
{
    let offers = offers_in(groups, rules);
    if groups.len() == 0 {
        assert forall|o: Offer| #[trigger] among(offers, o) implies o.row != id by {}
        lemma_follows_nothing(s(id), offers, id);
    } else {
        let rest = groups.drop_last();
        let g = groups.last();
        assert(group_sound(groups[groups.len() - 1]));
        assert forall|h: int| 0 <= h < rest.len() implies group_sound(#[trigger] rest[h]) by {
            assert(rest[h] == groups[h]);
        }
        lemma_offers_in_last(groups, rules);
        assert(free_of_deletes(offers_in(rest, rules), log)) by {
            assert forall|o: Offer, i: int|
                #![trigger among(offers_in(rest, rules), o), log[i]]
                among(offers_in(rest, rules), o) && 0 <= i < log.len() implies !(
            log[i].table_name == o.row.0 && object_equal(log[i].row_pks, o.row.1)) by {
                assert(among(offers, o));
            }
        }
        lemma_groups_follow(s, rest, rules, log, id);
        lemma_offers_are_for_the_row(g, rules);
        let mid = replica_after(s, rest, rules, log)(id);
        let end = replica_after(s, groups, rules, log)(id);
        let last = group_offers(g, rules);
        if id == row_id(g) {
            if mergeable(g, rules) && staged_in(mid, g, rules).len() > 0 && held(
                mid,
                g,
                rules,
                log,
            ) {
                let o = lemma_written_is_offer(mid, g, rules);
                assert(among(offers, o));
                let i = choose|i: int|
                    0 <= i < log.len() && (#[trigger] log[i]).table_name == id.0 && object_equal(
                        log[i].row_pks,
                        id.1,
                    ) && shadows(log[i].hlc, written_hlc(mid, g, rules));
                assert(false);
            }
            lemma_group_follows(mid, g, rules, log);
        } else {
            lemma_follows_nothing(mid, last, id);
        }
        lemma_follows_compose(s(id), mid, end, offers_in(rest, rules), last, offers, id);
    }
}

/// The offers of a batch.
pub open spec fn batch_offers(changes: Seq<ColumnChange>, rules: Rules) -> Offers {
    |o: Offer|
        exists|i: int| 0 <= i < changes.len() && #[trigger] makes(changes[i]@, rules, o)
}

/// The groups of a batch are about their rows, and make the offers of the batch.
proof fn lemma_batch_offers(changes: Seq<ColumnChange>, groups: Seq<RowGroup>, rules: Rules)
    requires
        merge_order(changes, groups),
        changes.len() <= usize::MAX,
    ensures
        groups_sound(row_group_views(groups)),
        forall|o: Offer| #[trigger]
            among(offers_in(row_group_views(groups), rules), o) <==> among(
                batch_offers(changes, rules),
                o,
            ),
{
    let views = row_group_views(groups);
    lemma_merge_order_counts(changes, groups);
    assert forall|g: int| 0 <= g < views.len() implies group_sound(#[trigger] views[g]) by {
        lemma_group_is_part(groups, g);
        assert(views[g] == groups[g]@);
        assert forall|k: int| 0 <= k < views[g].changes.len() implies (
        #[trigger] views[g].changes[k]).change.table_name == views[g].table_name
            && views[g].changes[k].change.row_pks == views[g].row_pks by {
            let c = groups[g].changes@[k];
            assert(views[g].changes[k] == c@);
        }
    }
    assert forall|o: Offer| #[trigger]
        among(offers_in(views, rules), o) <==> among(batch_offers(changes, rules), o) by {
        if among(offers_in(views, rules), o) {
            let g = choose|g: int|
                0 <= g < views.len() && #[trigger] among(group_offers(views[g], rules), o);
            let k = choose|k: int|
                0 <= k < views[g].changes.len() && #[trigger] makes(
                    views[g].changes[k].change,
                    rules,
                    o,
                );
            let c = groups[g].changes@[k];
            assert(views[g].changes[k] == c@);
            assert(makes(changes[c.input_index as int]@, rules, o));
        }
        if among(batch_offers(changes, rules), o) {
            let i = choose|i: int|
                0 <= i < changes.len() && #[trigger] makes(changes[i]@, rules, o);
            assert(in_a_group(groups, i));
            let (g, k) = choose|g: int, k: int| #[trigger] holds_change(groups, g, k, i as usize);
            let c = groups[g].changes@[k];
            assert(c.change == changes[i]);
            assert(views[g].changes[k] == c@);
            assert(makes(views[g].changes[k].change, rules, o));
            assert(among(group_offers(views[g], rules), o));
        }
    }
}

proof fn lemma_group_is_part(groups: Seq<RowGroup>, g: int)
    requires
        0 <= g < groups.len(),
    ensures
        groups[g].changes@.len() <= changes_in(groups),
    decreases groups.len(),
{
    if g < groups.len() - 1 {
        lemma_group_is_part(groups.drop_last(), g);
    }
}

/// Merging groups in two parts is merging them at once.
proof fn lemma_replica_after_concat(
    s: Replica,
    a: Seq<RowGroupView>,
    b: Seq<RowGroupView>,
    rules: Rules,
    log: Seq<DeletedView>,
)
    ensures
        replica_after(replica_after(s, a, rules, log), b, rules, log) == replica_after(
            s,
            a + b,
            rules,
            log,
        ),
    decreases b.len(),
{
    if b.len() == 0 {
        assert(a + b =~= a);
    } else {
        lemma_replica_after_concat(s, a, b.drop_last(), rules, log);
        assert((a + b).drop_last() =~= a + b.drop_last());
        assert((a + b).last() == b.last());
    }
}

/// Replicas converge: two batches that the delete log does not touch leave every
/// row alike, in whichever order they are merged. The row exists or not, its
/// timestamp, and the timestamps and values of its columns: all are those of the
/// newest write. A column and a timestamp are taken to name one value.
pub proof fn lemma_batches_converge(
    a: Seq<ColumnChange>,
    b: Seq<ColumnChange>,
    a_first: Seq<RowGroup>,
    b_second: Seq<RowGroup>,
    b_first: Seq<RowGroup>,
    a_second: Seq<RowGroup>,
    s: Replica,
    rules: Rules,
    log: Seq<DeletedView>,
    id: RowId,
)
    requires
        merge_order(a, a_first),
        merge_order(b, b_second),
        merge_order(b, b_first),
        merge_order(a, a_second),
        a.len() <= usize::MAX,
        b.len() <= usize::MAX,
        in_order(s),
        free_of_deletes(batch_offers(a, rules), log),
        free_of_deletes(batch_offers(b, rules), log),
        offers_agree(batch_offers(a + b, rules)),
    ensures
        rows_alike(
            replica_after(
                replica_after(s, row_group_views(a_first), rules, log),
                row_group_views(b_second),
                rules,
                log,
            )(id),
            replica_after(
                replica_after(s, row_group_views(b_first), rules, log),
                row_group_views(a_second),
                rules,
                log,
            )(id),
        ),
{
    let ab = row_group_views(a_first) + row_group_views(b_second);
    let ba = row_group_views(b_first) + row_group_views(a_second);
    let all = batch_offers(a + b, rules);
    lemma_batch_offers(a, a_first, rules);
    lemma_batch_offers(b, b_second, rules);
    lemma_batch_offers(b, b_first, rules);
    lemma_batch_offers(a, a_second, rules);
    lemma_two_batch_offers(a, b, rules);
    lemma_offers_in_concat(row_group_views(a_first), row_group_views(b_second), rules);
    lemma_offers_in_concat(row_group_views(b_first), row_group_views(a_second), rules);
    assert forall|o: Offer| #[trigger] among(offers_in(ab, rules), o) <==> among(all, o) by {}
    assert forall|o: Offer| #[trigger] among(offers_in(ba, rules), o) <==> among(all, o) by {}
    lemma_free(offers_in(ab, rules), batch_offers(a, rules), batch_offers(b, rules), log);
    lemma_free(offers_in(ba, rules), batch_offers(a, rules), batch_offers(b, rules), log);
    lemma_groups_follow(s, ab, rules, log, id);
    lemma_groups_follow(s, ba, rules, log, id);
    lemma_replica_after_concat(s, row_group_views(a_first), row_group_views(b_second), rules, log);
    lemma_replica_after_concat(s, row_group_views(b_first), row_group_views(a_second), rules, log);
    assert(offers_agree(offers_in(ab, rules))) by {
        assert forall|x: Offer, y: Offer| #[trigger]
            among(offers_in(ab, rules), x) && #[trigger] among(offers_in(ab, rules), y) && x.row
                == y.row && x.column == y.column && hlc_key(x.hlc) == hlc_key(y.hlc) implies x.value
            == y.value by {
            assert(among(all, x) && among(all, y));
        }
    }
    lemma_follows_alike(
        s(id),
        replica_after(s, ab, rules, log)(id),
        replica_after(s, ba, rules, log)(id),
        offers_in(ab, rules),
        offers_in(ba, rules),
        id,
    );
}

proof fn lemma_free(all: Offers, a: Offers, b: Offers, log: Seq<DeletedView>)
    requires
        free_of_deletes(a, log),
        free_of_deletes(b, log),
        forall|o: Offer| #[trigger] among(all, o) ==> among(a, o) || among(b, o),
    ensures
        free_of_deletes(all, log),
{
    assert forall|o: Offer, i: int|
        #![trigger among(all, o), log[i]]
        among(all, o) && 0 <= i < log.len() implies !(log[i].table_name == o.row.0 && object_equal(
        log[i].row_pks,
        o.row.1,
    )) by {
        if among(a, o) {
        } else {
            assert(among(b, o));
        }
    }
}

proof fn lemma_two_batch_offers(a: Seq<ColumnChange>, b: Seq<ColumnChange>, rules: Rules)
    ensures
        forall|o: Offer| #[trigger]
            among(batch_offers(a + b, rules), o) <==> among(batch_offers(a, rules), o) || among(
                batch_offers(b, rules),
                o,
            ),
{
    let all = a + b;
    assert forall|o: Offer| #[trigger]
        among(batch_offers(all, rules), o) <==> among(batch_offers(a, rules), o) || among(
            batch_offers(b, rules),
            o,
        ) by {
        if among(batch_offers(all, rules), o) {
            let i = choose|i: int| 0 <= i < all.len() && #[trigger] makes(all[i]@, rules, o);
            if i < a.len() {
                assert(makes(a[i]@, rules, o));
            } else {
                assert(makes(b[i - a.len()]@, rules, o));
            }
        }
        if among(batch_offers(a, rules), o) {
            let i = choose|i: int| 0 <= i < a.len() && #[trigger] makes(a[i]@, rules, o);
            assert(makes(all[i]@, rules, o));
        }
        if among(batch_offers(b, rules), o) {
            let i = choose|i: int| 0 <= i < b.len() && #[trigger] makes(b[i]@, rules, o);
            assert(makes(all[a.len() + i]@, rules, o));
        }
    }
}

proof fn lemma_offers_in_concat(a: Seq<RowGroupView>, b: Seq<RowGroupView>, rules: Rules)
    requires
        groups_sound(a),
        groups_sound(b),
    ensures
        groups_sound(a + b),
        forall|o: Offer| #[trigger]
            among(offers_in(a + b, rules), o) <==> among(offers_in(a, rules), o) || among(
                offers_in(b, rules),
                o,
            ),
{
    let all = a + b;
    assert forall|g: int| 0 <= g < all.len() implies group_sound(#[trigger] all[g]) by {
        if g < a.len() {
            assert(all[g] == a[g]);
        } else {
            assert(all[g] == b[g - a.len()]);
        }
    }
    assert forall|o: Offer| #[trigger]
        among(offers_in(all, rules), o) <==> among(offers_in(a, rules), o) || among(
            offers_in(b, rules),
            o,
        ) by {
        if among(offers_in(all, rules), o) {
            let g = choose|g: int|
                0 <= g < all.len() && #[trigger] among(group_offers(all[g], rules), o);
            if g < a.len() {
                assert(among(group_offers(a[g], rules), o));
            } else {
                assert(among(group_offers(b[g - a.len()], rules), o));
            }
        }
        if among(offers_in(a, rules), o) {
            let g = choose|g: int|
                0 <= g < a.len() && #[trigger] among(group_offers(a[g], rules), o);
            assert(among(group_offers(all[g], rules), o));
        }
        if among(offers_in(b, rules), o) {
            let g = choose|g: int|
                0 <= g < b.len() && #[trigger] among(group_offers(b[g], rules), o);
            assert(among(group_offers(all[a.len() + g], rules), o));
        }
    }
}

/// Nothing is stored of a row that is not there, and no column of one that is
/// carries a newer timestamp than the row.
pub open spec fn row_sound(row: RowState) -> bool {
    &&& keys_ascend(row.column_hlcs)
    &&& !row.exists ==> row.column_hlcs.len() == 0
    &&& row.exists ==> forall|column: Seq<char>|
        !hlc_before(row.row_hlc, #[trigger] stored_hlc(row.column_hlcs, column))
}

/// The offers have nothing more to say to the row: it is there and holds nothing
/// older, or it is not there and the delete log holds them all back.
pub open spec fn settled(row: RowState, offers: Offers, id: RowId, log: Seq<DeletedView>) -> bool {
    &&& !row.exists ==> row.column_hlcs.len() == 0
    &&& forall|o: Offer| #[trigger]
        among(offers, o) && o.row == id ==> if row.exists {
            !hlc_before(stored_hlc(row.column_hlcs, o.column), o.hlc) && !hlc_before(
                row.row_hlc,
                o.hlc,
            )
        } else {
            row_shadowed(id.0, id.1, o.hlc, log) || !hlc_before(Seq::empty(), o.hlc)
        }
}

/// A group merged into a sound row settles its offers.
proof fn lemma_group_settles(
    row: RowState,
    g: RowGroupView,
    rules: Rules,
    log: Seq<DeletedView>,
)
    requires
        group_sound(g),
        row_sound(row),
    ensures
        settled(row_after(row, g, rules, log), group_offers(g, rules), row_id(g), log),
{
    let id = row_id(g);
    let offers = group_offers(g, rules);
    let to = row_after(row, g, rules, log);
    let staged = staged_in(row, g, rules);
    if mergeable(g, rules) && staged.len() > 0 && held(row, g, rules, log) {
        assert forall|o: Offer| #[trigger] among(offers, o) && o.row == id implies row_shadowed(
            id.0,
            id.1,
            o.hlc,
            log,
        ) || !hlc_before(Seq::empty(), o.hlc) by {
            assert(member(row.column_hlcs, o.column) is None);
            if is_news(row, o) {
                lemma_news_is_covered(row, g, rules, o);
                lemma_shadow_reaches_older(id, written_hlc(row, g, rules), o.hlc, log);
            }
        }
    } else {
        lemma_group_follows(row, g, rules, log);
        assert forall|o: Offer| #[trigger] among(offers, o) && o.row == id implies (if to.exists {
            !hlc_before(stored_hlc(to.column_hlcs, o.column), o.hlc) && !hlc_before(
                to.row_hlc,
                o.hlc,
            )
        } else {
            row_shadowed(id.0, id.1, o.hlc, log) || !hlc_before(Seq::empty(), o.hlc)
        }) by {
            assert(column_follows(row, to, offers, id, o.column));
            if !row.exists {
                assert(member(row.column_hlcs, o.column) is None);
            } else {
                assert(!hlc_before(row.row_hlc, stored_hlc(row.column_hlcs, o.column)));
            }
        }
    }
}

proof fn lemma_shadow_reaches_older(
    id: RowId,
    newer: Seq<char>,
    older: Seq<char>,
    log: Seq<DeletedView>,
)
    requires
        row_shadowed(id.0, id.1, newer, log),
        !hlc_before(newer, older),
    ensures
        row_shadowed(id.0, id.1, older, log),
{
    let i = choose|i: int|
        0 <= i < log.len() && (#[trigger] log[i]).table_name == id.0 && object_equal(
            log[i].row_pks,
            id.1,
        ) && shadows(log[i].hlc, newer);
    assert(shadows(log[i].hlc, older));
}

/// No row has two groups.
pub open spec fn rows_distinct(groups: Seq<RowGroupView>, rules: Rules) -> bool {
    forall|g: int, h: int|
        #![trigger groups[g], groups[h]]
        0 <= g < h < groups.len() && mergeable(groups[g], rules) && mergeable(groups[h], rules)
            ==> row_id(groups[g]) != row_id(groups[h])
}

/// Groups that are not about a row leave it as it was and make it no offers.
proof fn lemma_row_untouched(
    s: Replica,
    groups: Seq<RowGroupView>,
    rules: Rules,
    log: Seq<DeletedView>,
    id: RowId,
)
    requires
        groups_sound(groups),
        forall|g: int|
            0 <= g < groups.len() && mergeable(#[trigger] groups[g], rules) ==> row_id(groups[g])
                != id,
    ensures
        replica_after(s, groups, rules, log)(id) == s(id),
        forall|o: Offer| #[trigger] among(offers_in(groups, rules), o) ==> o.row != id,
    decreases groups.len(),
{
    if groups.len() > 0 {
        let rest = groups.drop_last();
        assert forall|g: int| 0 <= g < rest.len() implies group_sound(#[trigger] rest[g]) && (
        mergeable(rest[g], rules) ==> row_id(rest[g]) != id) by {
            assert(rest[g] == groups[g]);
        }
        lemma_row_untouched(s, rest, rules, log, id);
        lemma_offers_in_last(groups, rules);
        assert(groups[groups.len() - 1] == groups.last());
        lemma_offers_are_for_the_row(groups.last(), rules);
    }
}

/// A merge settles the offers of its groups.
proof fn lemma_groups_settle(
    s: Replica,
    groups: Seq<RowGroupView>,
    rules: Rules,
    log: Seq<DeletedView>,
    id: RowId,
)
    requires
        groups_sound(groups),
        rows_distinct(groups, rules),
        row_sound(s(id)),
    ensures
        settled(replica_after(s, groups, rules, log)(id), offers_in(groups, rules), id, log),
    decreases groups.len(),
{
    if groups.len() > 0 {
        let rest = groups.drop_last();
        let g = groups.last();
        assert(groups[groups.len() - 1] == g);
        assert forall|h: int| 0 <= h < rest.len() implies group_sound(#[trigger] rest[h]) by {
            assert(rest[h] == groups[h]);
        }
        assert forall|x: int, y: int|
            #![trigger rest[x], rest[y]]
            0 <= x < y < rest.len() && mergeable(rest[x], rules) && mergeable(
                rest[y],
                rules,
            ) implies row_id(rest[x]) != row_id(rest[y]) by {
            assert(rest[x] == groups[x] && rest[y] == groups[y]);
        }
        lemma_groups_settle(s, rest, rules, log, id);
        lemma_offers_in_last(groups, rules);
        lemma_offers_are_for_the_row(g, rules);
        if id == row_id(g) && mergeable(g, rules) {
            assert forall|h: int|
                0 <= h < rest.len() && mergeable(#[trigger] rest[h], rules) implies row_id(rest[h])
                != id by {
                assert(rest[h] == groups[h]);
                assert(row_id(groups[h]) != row_id(groups[groups.len() - 1]));
            }
            lemma_row_untouched(s, rest, rules, log, id);
            lemma_group_settles(s(id), g, rules, log);
        }
    }
}

/// What became of a row after a merge: nothing, or a delete of the log that is
/// at least as new removed it.
pub open spec fn kept_or_deleted(
    merged: RowState,
    now: RowState,
    id: RowId,
    log: Seq<DeletedView>,
) -> bool {
    ||| now == merged
    ||| {
        &&& merged.exists
        &&& !now.exists
        &&& now.column_hlcs.len() == 0
        &&& row_shadowed(id.0, id.1, merged.row_hlc, log)
    }
}

/// Settled offers stay settled when rows are deleted and the log grows.
proof fn lemma_stays_settled(
    merged: RowState,
    now: RowState,
    offers: Offers,
    id: RowId,
    log: Seq<DeletedView>,
    later: Seq<DeletedView>,
)
    requires
        settled(merged, offers, id, log),
        kept_or_deleted(merged, now, id, later),
        forall|i: int| 0 <= i < log.len() ==> later.contains(#[trigger] log[i]),
    ensures
        settled(now, offers, id, later),
{
    assert forall|o: Offer| #[trigger] among(offers, o) && o.row == id && !now.exists implies
        row_shadowed(id.0, id.1, o.hlc, later) || !hlc_before(Seq::empty(), o.hlc) by {
        if merged.exists {
            lemma_shadow_reaches_older(id, merged.row_hlc, o.hlc, later);
        } else if row_shadowed(id.0, id.1, o.hlc, log) {
            let i = choose|i: int|
                0 <= i < log.len() && (#[trigger] log[i]).table_name == id.0 && object_equal(
                    log[i].row_pks,
                    id.1,
                ) && shadows(log[i].hlc, o.hlc);
            assert(later.contains(log[i]));
            let j = choose|j: int| 0 <= j < later.len() && later[j] == log[i];
            assert(later[j].table_name == id.0);
        }
    }
}

/// A group whose offers are settled writes nothing.
proof fn lemma_settled_writes_nothing(
    row: RowState,
    g: RowGroupView,
    rules: Rules,
    offers: Offers,
    log: Seq<DeletedView>,
)
    requires
        group_sound(g),
        settled(row, offers, row_id(g), log),
        forall|o: Offer| #[trigger] among(group_offers(g, rules), o) ==> among(offers, o),
    ensures
        !lands(row, g, rules, log),
{
    if lands(row, g, rules, log) {
        let o = lemma_written_is_offer(row, g, rules);
        assert(among(offers, o));
        if !row.exists {
            assert(member(row.column_hlcs, o.column) is None);
        }
        assert(false);
    }
}

proof fn lemma_settled_replay(
    s: Replica,
    groups: Seq<RowGroupView>,
    rules: Rules,
    offers: Offers,
    log: Seq<DeletedView>,
)
    requires
        groups_sound(groups),
        forall|id: RowId| #[trigger] settled(s(id), offers, id, log),
        forall|o: Offer| #[trigger] among(offers_in(groups, rules), o) ==> among(offers, o),
    ensures
        applied_in(s, groups, rules, log) == 0,
        forall|id: RowId| #[trigger] replica_after(s, groups, rules, log)(id) == s(id),
    decreases groups.len(),
{
    if groups.len() > 0 {
        let rest = groups.drop_last();
        let g = groups.last();
        assert(groups[groups.len() - 1] == g);
        assert forall|h: int| 0 <= h < rest.len() implies group_sound(#[trigger] rest[h]) by {
            assert(rest[h] == groups[h]);
        }
        lemma_offers_in_last(groups, rules);
        assert forall|o: Offer| #[trigger] among(offers_in(rest, rules), o) implies among(
            offers,
            o,
        ) by {
            assert(among(offers_in(groups, rules), o));
        }
        lemma_settled_replay(s, rest, rules, offers, log);
        assert forall|o: Offer| #[trigger] among(group_offers(g, rules), o) implies among(
            offers,
            o,
        ) by {
            assert(among(offers_in(groups, rules), o));
        }
        let before = replica_after(s, rest, rules, log);
        assert(before(row_id(g)) == s(row_id(g)));
        assert(settled(s(row_id(g)), offers, row_id(g), log));
        lemma_settled_writes_nothing(s(row_id(g)), g, rules, offers, log);
        assert forall|id: RowId| #[trigger] replica_after(s, groups, rules, log)(id) == s(id) by {
            assert(before(id) == s(id));
        }
    }
}

/// Within the batch, a row is named in one way.
pub open spec fn one_spelling(changes: Seq<ColumnChange>) -> bool {
    forall|i: int, j: int|
        #![trigger changes[i], changes[j]]
        0 <= i < changes.len() && 0 <= j < changes.len() && changes[i]@.table_name
            == changes[j]@.table_name && json_object(changes[i]@.row_pks) is Some && json_object(
            changes[i]@.row_pks,
        ) == json_object(changes[j]@.row_pks) ==> changes[i]@.row_pks == changes[j]@.row_pks
}

/// A batch that names each row in one way has one group for each row.
proof fn lemma_rows_distinct(changes: Seq<ColumnChange>, groups: Seq<RowGroup>, rules: Rules)
    requires
        merge_order(changes, groups),
        one_spelling(changes),
    ensures
        rows_distinct(row_group_views(groups), rules),
{
    let views = row_group_views(groups);
    assert forall|g: int, h: int|
        #![trigger views[g], views[h]]
        0 <= g < h < views.len() && mergeable(views[g], rules) && mergeable(
            views[h],
            rules,
        ) implies row_id(views[g]) != row_id(views[h]) by {
        assert(views[g] == groups[g]@ && views[h] == groups[h]@);
        lemma_groups_are_keyed(changes, groups, g, h);
        if row_id(views[g]) == row_id(views[h]) {
            let c = groups[g].changes@[0];
            let d = groups[h].changes@[0];
            let i = c.input_index as int;
            let j = d.input_index as int;
            assert(changes[i]@.row_pks == changes[j]@.row_pks);
        }
    }
}

/// A batch that was merged changes nothing when it is merged again: nothing is
/// applied, and every row is as it was. Between the two merges the delete log may
/// have grown, and rows may have been deleted that it holds an entry for which is
/// at least as new. This holds where the batch names each row in one way:
/// `{"id":"x"}` and `{"id": "x"}` in one batch are two groups of one row, and the
/// second may bring back a row whose first group was held back.
pub proof fn lemma_batch_replay_applies_nothing(
    changes: Seq<ColumnChange>,
    once: Seq<RowGroup>,
    again: Seq<RowGroup>,
    s: Replica,
    now: Replica,
    rules: Rules,
    log: Seq<DeletedView>,
    later: Seq<DeletedView>,
)
    requires
        merge_order(changes, once),
        merge_order(changes, again),
        changes.len() <= usize::MAX,
        one_spelling(changes),
        forall|id: RowId| row_sound(#[trigger] s(id)),
        forall|id: RowId|
            kept_or_deleted(
                replica_after(s, row_group_views(once), rules, log)(id),
                #[trigger] now(id),
                id,
                later,
            ),
        forall|i: int| 0 <= i < log.len() ==> later.contains(#[trigger] log[i]),
    ensures
        applied_in(now, row_group_views(again), rules, later) == 0,
        forall|id: RowId| #[trigger]
            replica_after(now, row_group_views(again), rules, later)(id) == now(id),
{
    let first = row_group_views(once);
    let second = row_group_views(again);
    lemma_batch_offers(changes, once, rules);
    lemma_batch_offers(changes, again, rules);
    lemma_rows_distinct(changes, once, rules);
    let offers = offers_in(first, rules);
    assert forall|id: RowId| #[trigger] settled(now(id), offers, id, later) by {
        assert(row_sound(s(id)));
        lemma_groups_settle(s, first, rules, log, id);
        lemma_stays_settled(
            replica_after(s, first, rules, log)(id),
            now(id),
            offers,
            id,
            log,
            later,
        );
    }
    assert forall|o: Offer| #[trigger] among(offers_in(second, rules), o) implies among(
        offers,
        o,
    ) by {
        assert(among(batch_offers(changes, rules), o));
    }
    lemma_settled_replay(now, second, rules, offers, later);
}

/// A batch that is about to be merged, with every timestamp checked, stands
/// between two rows.
pub proof fn lemma_started(changes: Seq<ColumnChange>, m: MergeView)
    requires
        started(changes, m),
        balanced(m),
        forall|i: int| 0 <= i < changes.len() ==> readable((#[trigger] changes[i])@),
    ensures
        between_rows(m),
{
    reveal(between_rows);
    let groups = choose|groups: Seq<RowGroup>| #[trigger]
        merge_order(changes, groups) && m.pending == row_group_views(groups);
    assert forall|g: int| 0 <= g < m.pending.len() implies timestamps_checked(
        (#[trigger] m.pending[g]).changes,
    ) by {
        let cs = m.pending[g].changes;
        assert(m.pending[g] == groups[g]@);
        assert forall|k: int|
            0 <= k < cs.len() && (#[trigger] cs[k]).change.hlc_timestamp.contains('/') implies
            timestamp_value(cs[k].change.hlc_timestamp) is Ok by {
            let c = groups[g].changes@[k];
            assert(cs[k] == c@);
            assert(readable(changes[c.input_index as int]@));
        }
    }
}

/// The second merge of a batch reports that nothing was applied.
pub proof fn lemma_second_merge_applies_nothing(
    changes: Seq<ColumnChange>,
    once: Seq<RowGroup>,
    m: MergeView,
    steps: Seq<MergeStep>,
    s: Replica,
    now: Replica,
    rules: Rules,
    log: Seq<DeletedView>,
    later: Seq<DeletedView>,
)
    requires
        merge_order(changes, once),
        changes.len() <= usize::MAX,
        one_spelling(changes),
        forall|id: RowId| row_sound(#[trigger] s(id)),
        forall|id: RowId|
            kept_or_deleted(
                replica_after(s, row_group_views(once), rules, log)(id),
                #[trigger] now(id),
                id,
                later,
            ),
        forall|i: int| 0 <= i < log.len() ==> later.contains(#[trigger] log[i]),
        started(changes, m),
        between_rows(m),
        steps.len() == m.pending.len(),
        steps_fit(m, now, steps, rules, later),
    ensures
        rows_merged(m, steps, later).pending.len() == 0,
        rows_merged(m, steps, later).report.applied == 0,
        forall|id: RowId| #[trigger] replica_after(now, m.pending, rules, later)(id) == now(id),
{
    let again = choose|groups: Seq<RowGroup>| #[trigger]
        merge_order(changes, groups) && m.pending == row_group_views(groups) && m.report
            == empty_report();
    lemma_batch_replay_applies_nothing(changes, once, again, s, now, rules, log, later);
    lemma_merge_follows_rules(m, now, steps, rules, later);
    assert(m.pending.take(steps.len() as int) =~= m.pending);
}

} // verus!
