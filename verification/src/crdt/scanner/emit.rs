//! The changes that one row gives.

use crate::crdt::apply::pk_where::json_views;
use crate::crdt::apply::row::ineligible;
use crate::crdt::columns::is_metadata_column;
use crate::crdt::columns::is_synced_column;
use crate::crdt::columns::lemma_metadata_is_not_synced;
use crate::crdt::hlc::hlc_before;
use crate::crdt::hlc::hlc_is_from_node;
use crate::crdt::hlc::hlc_is_newer;
use crate::crdt::hlc::is_from_node;
use crate::crdt::scanner::change::change_views;
use crate::crdt::scanner::change::ChangeView;
use crate::crdt::scanner::change::ColumnChange;
use crate::crdt::scanner::plan::FiltersView;
use crate::crdt::scanner::plan::ScanFilters;
use crate::crdt::scanner::plan::ScanPlan;
use crate::crdt::scanner::plan::ScanPlanView;
use crate::crdt::schema::column_names;
use crate::crdt::schema::data_names;
use crate::crdt::schema::lemma_data_names;
use crate::crdt::schema::pk_names;
use crate::crdt::schema::ColumnView;
use crate::json::json_object;
use crate::json::json_string_map;
use crate::json::member;
use crate::json::members;
use crate::json::object_text;
use crate::json::read_string_map;
use crate::json::string_members;
use crate::json::write_object;
use crate::json::JsonObject;
use crate::json::JsonValue;
use crate::json::JsonView;
use crate::text::list_contains;
use crate::text::opt_text;
use vstd::prelude::*;

verus! {

/// The key columns of a row with their cells, in declaration order.
pub open spec fn key_members(pks: Seq<Seq<char>>, cells: Seq<JsonView>) -> Seq<
    (Seq<char>, JsonView),
> {
    Seq::new(pks.len(), |i: int| (pks[i], cells[i]))
}

/// The primary-key JSON of a row: the key columns in declaration order.
pub open spec fn row_key(pks: Seq<Seq<char>>, cells: Seq<JsonView>) -> Seq<char> {
    object_text(key_members(pks, cells))
}

/// Number of cells in a scanned row.
pub open spec fn row_width(plan: ScanPlanView) -> nat {
    plan.pks.len() + plan.data.len() + 2 + if plan.has_sigs {
        1nat
    } else {
        0
    }
}

/// The value of a key, if there is one.
pub open spec fn text_member(map: Seq<(Seq<char>, Seq<char>)>, key: Seq<char>) -> Option<Seq<char>>
    decreases map.len(),
{
    if map.len() == 0 {
        None
    } else if map.last().0 == key {
        Some(map.last().1)
    } else {
        text_member(map.drop_last(), key)
    }
}

/// The value of a key, if there is one.
fn find_text_member<'a>(map: &'a [(String, String)], key: &str) -> (r: Option<&'a str>)
    ensures
        opt_text(r) == text_member(string_members(map@), key@),
{
    let ghost all = string_members(map@);
    let mut i: usize = map.len();
    assert(all.take(i as int) =~= all);
    while i > 0
        invariant
            i <= map.len(),
            all == string_members(map@),
            text_member(all, key@) == text_member(all.take(i as int), key@),
        decreases i,
    {
        let ghost now = all.take(i as int);
        assert(now.drop_last() =~= all.take(i - 1));
        assert(now.last() == all[i - 1]);
        i -= 1;
        if map[i].0.as_str().eq(key) {
            return Some(map[i].1.as_str());
        }
    }
    None
}

/// A timestamp that is there and not empty.
pub open spec fn usable_text(s: Option<Seq<char>>) -> Option<Seq<char>> {
    match s {
        Some(t) => if t.len() == 0 {
            None
        } else {
            Some(t)
        },
        None => None,
    }
}

/// The timestamp that a column is sent under: its own, else the row's, else
/// none.
pub open spec fn column_hlc(
    hlcs: Seq<(Seq<char>, Seq<char>)>,
    row_hlc: Option<Seq<char>>,
    column: Seq<char>,
) -> Option<Seq<char>> {
    match usable_text(text_member(hlcs, column)) {
        Some(h) => Some(h),
        None => usable_text(row_hlc),
    }
}

/// The timestamp is strictly newer than the cursor, and of the wanted origin.
pub open spec fn wanted(hlc: Seq<char>, after: Option<Seq<char>>, origin: Option<u128>) -> bool {
    &&& after matches Some(threshold) ==> hlc_before(threshold, hlc)
    &&& origin matches Some(node) ==> is_from_node(hlc, node as nat)
}

/// The changes of the first `n` data columns of a row.
pub open spec fn column_changes(
    plan: ScanPlanView,
    cells: Seq<JsonView>,
    hlcs: Seq<(Seq<char>, Seq<char>)>,
    sigs: Seq<(Seq<char>, JsonView)>,
    row_hlc: Option<Seq<char>>,
    after: Option<Seq<char>>,
    device: Seq<char>,
    origin: Option<u128>,
    n: nat,
) -> Seq<ChangeView>
    decreases n,
{
    if n == 0 {
        Seq::empty()
    } else {
        let before = column_changes(
            plan,
            cells,
            hlcs,
            sigs,
            row_hlc,
            after,
            device,
            origin,
            (n - 1) as nat,
        );
        let column = plan.data[n - 1];
        match column_hlc(hlcs, row_hlc, column) {
            Some(hlc) => if wanted(hlc, after, origin) {
                before.push(
                    ChangeView {
                        table_name: plan.table_name,
                        row_pks: row_key(plan.pks, cells),
                        column_name: column,
                        hlc_timestamp: hlc,
                        value: cells[plan.pks.len() + n - 1],
                        device_id: device,
                        sig: member(sigs, column),
                    },
                )
            } else {
                before
            },
            None => before,
        }
    }
}

fn write_key(plan: &ScanPlan, cells: &[JsonValue]) -> (r: String)
    requires
        cells@.len() >= plan.pk_columns@.len(),
    ensures
        r@ == row_key(plan@.pks, json_views(cells@)),
{
    let mut entries: Vec<(String, JsonValue)> = Vec::new();
    let mut i: usize = 0;
    while i < plan.pk_columns.len()
        invariant
            i <= plan.pk_columns.len(),
            cells@.len() >= plan.pk_columns@.len(),
            entries@.len() == i,
            forall|j: int|
                0 <= j < i ==> (#[trigger] entries@[j]).0@ == plan.pk_columns@[j]@
                    && entries@[j].1@ == cells@[j]@,
        decreases plan.pk_columns.len() - i,
    {
        entries.push((plan.pk_columns[i].clone(), cells[i].copy()));
        i += 1;
    }
    assert(members(entries@) =~= Seq::new(
        plan@.pks.len(),
        |i: int| (plan@.pks[i], json_views(cells@)[i]),
    ));
    write_object(entries.as_slice())
}

/// Emits the changes of a row whose timestamps and signatures have been read:
/// every data column with a usable timestamp that is newer than the cursor and
/// of the wanted origin, in declaration order.
pub fn emit_columns(
    plan: &ScanPlan,
    cells: &[JsonValue],
    column_hlcs: &[(String, String)],
    column_sigs: &JsonObject,
    row_hlc: Option<&str>,
    after_hlc: Option<&str>,
    device_id: &str,
    origin_node: Option<u128>,
    out: &mut Vec<ColumnChange>,
)
    requires
        cells@.len() == row_width(plan@),
    ensures
        change_views(final(out)@) == change_views(old(out)@) + column_changes(
            plan@,
            json_views(cells@),
            string_members(column_hlcs@),
            column_sigs@,
            opt_text(row_hlc),
            opt_text(after_hlc),
            device_id@,
            origin_node,
            plan@.data.len(),
        ),
{
    let ghost cv = json_views(cells@);
    let ghost hv = string_members(column_hlcs@);
    let key = write_key(plan, cells);
    let pks: usize = plan.pk_columns.len();
    let width: usize = cells.len();
    let mut i: usize = 0;
    assert(change_views(out@) =~= change_views(old(out)@) + Seq::<ChangeView>::empty());
    while i < plan.data_columns.len()
        invariant
            i <= plan.data_columns.len(),
            width == cells@.len() == row_width(plan@),
            pks == plan@.pks.len(),
            cv == json_views(cells@),
            hv == string_members(column_hlcs@),
            key@ == row_key(plan@.pks, cv),
            change_views(out@) == change_views(old(out)@) + column_changes(
                plan@,
                cv,
                hv,
                column_sigs@,
                opt_text(row_hlc),
                opt_text(after_hlc),
                device_id@,
                origin_node,
                i as nat,
            ),
        decreases plan.data_columns.len() - i,
    {
        let column = plan.data_columns[i].as_str();
        assert(plan@.data[i as int] == column@);
        let own = match find_text_member(column_hlcs, column) {
            Some(h) => if h.is_empty() {
                None
            } else {
                Some(h)
            },
            None => None,
        };
        let hlc = match own {
            Some(h) => Some(h),
            None => match row_hlc {
                Some(h) => if h.is_empty() {
                    None
                } else {
                    Some(h)
                },
                None => None,
            },
        };
        assert(opt_text(hlc) == column_hlc(hv, opt_text(row_hlc), column@));
        let ghost before = change_views(out@);
        match hlc {
            Some(h) => {
                let newer = match after_hlc {
                    Some(threshold) => hlc_is_newer(h, threshold),
                    None => true,
                };
                let ours = match origin_node {
                    Some(node) => hlc_is_from_node(h, node),
                    None => true,
                };
                if newer && ours {
                    let sig: Option<JsonValue> = match column_sigs.get(column) {
                        Some(v) => Some(v.copy()),
                        None => None,
                    };
                    assert(cv[pks + i] == cells@[pks + i]@);
                    let change = ColumnChange {
                        table_name: plan.table_name.clone(),
                        row_pks: key.clone(),
                        column_name: column.to_owned(),
                        hlc_timestamp: h.to_owned(),
                        value: cells[pks + i].copy(),
                        device_id: device_id.to_owned(),
                        sig,
                    };
                    let ghost one = change@;
                    out.push(change);
                    assert(change_views(out@) =~= before.push(one));
                }
            },
            None => {},
        }
        i += 1;
        assert(change_views(out@) =~= change_views(old(out)@) + column_changes(
            plan@,
            cv,
            hv,
            column_sigs@,
            opt_text(row_hlc),
            opt_text(after_hlc),
            device_id@,
            origin_node,
            i as nat,
        ));
    }
}

/// The column timestamps in a cell: none where it is not a JSON object of
/// strings.
pub open spec fn cell_hlcs(cell: JsonView) -> Seq<(Seq<char>, Seq<char>)> {
    match cell {
        JsonView::Text(s) => match json_string_map(s) {
            Some(m) => m,
            None => Seq::empty(),
        },
        _ => Seq::empty(),
    }
}

/// The signatures in a cell: none where it is not a JSON object.
pub open spec fn cell_sigs(cell: JsonView) -> Seq<(Seq<char>, JsonView)> {
    match cell {
        JsonView::Text(s) => match json_object(s) {
            Some(m) => m,
            None => Seq::empty(),
        },
        _ => Seq::empty(),
    }
}

/// The text in a cell, if it holds one.
pub open spec fn cell_text(cell: JsonView) -> Option<Seq<char>> {
    match cell {
        JsonView::Text(s) => Some(s),
        _ => None,
    }
}

/// The row is in the list of wanted rows, where there is such a list.
pub open spec fn row_wanted(f: FiltersView, key: Seq<char>) -> bool {
    f.row_pks matches Some(list) ==> list.contains(key)
}

/// The changes of a scanned row.
pub open spec fn row_changes(
    plan: ScanPlanView,
    cells: Seq<JsonView>,
    after: Option<Seq<char>>,
    device: Seq<char>,
    f: FiltersView,
) -> Seq<ChangeView> {
    let at = (plan.pks.len() + plan.data.len()) as int;
    if row_wanted(f, row_key(plan.pks, cells)) {
        column_changes(
            plan,
            cells,
            cell_hlcs(cells[at + 1]),
            if plan.has_sigs {
                cell_sigs(cells[at + 2])
            } else {
                Seq::empty()
            },
            cell_text(cells[at]),
            after,
            device,
            f.origin_node,
            plan.data.len(),
        )
    } else {
        Seq::empty()
    }
}

/// Emits the changes of a scanned row; `cells` are its values in the order of
/// the plan's columns.
pub fn emit_row_changes(
    plan: &ScanPlan,
    cells: &[JsonValue],
    after_hlc: Option<&str>,
    device_id: &str,
    filters: &ScanFilters<'_>,
    out: &mut Vec<ColumnChange>,
)
    requires
        cells@.len() == row_width(plan@),
    ensures
        change_views(final(out)@) == change_views(old(out)@) + row_changes(
            plan@,
            json_views(cells@),
            opt_text(after_hlc),
            device_id@,
            filters@,
        ),
{
    let ghost cv = json_views(cells@);
    match filters.row_pks {
        Some(list) => {
            let key = write_key(plan, cells);
            if !list_contains(list, key.as_str()) {
                assert(change_views(out@) =~= change_views(old(out)@) + Seq::<ChangeView>::empty());
                return;
            }
        },
        None => {},
    }
    let width: usize = cells.len();
    assert(width >= plan.pk_columns@.len() + plan.data_columns@.len() + 2);
    let at: usize = plan.pk_columns.len() + plan.data_columns.len();
    assert(cv[at as int] == cells@[at as int]@);
    assert(cv[at + 1] == cells@[at + 1]@);
    let hlcs: Vec<(String, String)> = match cells[at + 1].as_text() {
        Some(s) => match read_string_map(s) {
            Some(m) => m,
            None => Vec::new(),
        },
        None => Vec::new(),
    };
    assert(string_members(hlcs@) =~= cell_hlcs(cv[at + 1]));
    let sigs = if plan.has_sigs {
        assert(cv[at + 2] == cells@[at + 2]@);
        match cells[at + 2].as_text() {
            Some(s) => match JsonObject::parse(s) {
                Some(m) => m,
                None => JsonObject::empty(),
            },
            None => JsonObject::empty(),
        }
    } else {
        JsonObject::empty()
    };
    let row_hlc = cells[at].as_text();
    emit_columns(
        plan,
        cells,
        hlcs.as_slice(),
        &sigs,
        row_hlc,
        after_hlc,
        device_id,
        filters.origin_node,
        out,
    );
}

/// What a change says: it is of the scanned table and row, names a data
/// column, and its timestamp is wanted.
pub open spec fn change_in_order(
    c: ChangeView,
    plan: ScanPlanView,
    cells: Seq<JsonView>,
    after: Option<Seq<char>>,
    device: Seq<char>,
    origin: Option<u128>,
) -> bool {
    &&& c.table_name == plan.table_name
    &&& c.row_pks == row_key(plan.pks, cells)
    &&& plan.data.contains(c.column_name)
    &&& c.hlc_timestamp.len() > 0
    &&& wanted(c.hlc_timestamp, after, origin)
    &&& c.device_id == device
}

/// Everything that is sent is newer than the cursor, of the wanted origin and
/// a data column of the row.
pub proof fn lemma_sent_changes_are_wanted(
    plan: ScanPlanView,
    cells: Seq<JsonView>,
    hlcs: Seq<(Seq<char>, Seq<char>)>,
    sigs: Seq<(Seq<char>, JsonView)>,
    row_hlc: Option<Seq<char>>,
    after: Option<Seq<char>>,
    device: Seq<char>,
    origin: Option<u128>,
    n: nat,
)
    requires
        n <= plan.data.len(),
    ensures
        ({
            let sent = column_changes(
                plan,
                cells,
                hlcs,
                sigs,
                row_hlc,
                after,
                device,
                origin,
                n,
            );
            forall|i: int|
                0 <= i < sent.len() ==> change_in_order(
                    #[trigger] sent[i],
                    plan,
                    cells,
                    after,
                    device,
                    origin,
                )
        }),
    decreases n,
{
    if n > 0 {
        lemma_sent_changes_are_wanted(
            plan,
            cells,
            hlcs,
            sigs,
            row_hlc,
            after,
            device,
            origin,
            (n - 1) as nat,
        );
        assert(plan.data.contains(plan.data[n - 1]));
        let before = column_changes(
            plan,
            cells,
            hlcs,
            sigs,
            row_hlc,
            after,
            device,
            origin,
            (n - 1) as nat,
        );
        let sent = column_changes(plan, cells, hlcs, sigs, row_hlc, after, device, origin, n);
        assert forall|i: int| 0 <= i < sent.len() implies change_in_order(
            #[trigger] sent[i],
            plan,
            cells,
            after,
            device,
            origin,
        ) by {
            if i < before.len() {
                assert(sent[i] == before[i]);
            }
        }
    }
}

/// Neither a metadata column nor any other column that takes no part in sync
/// is ever sent.
pub proof fn lemma_only_synced_columns_are_sent(
    schema: Seq<ColumnView>,
    plan: ScanPlanView,
    cells: Seq<JsonView>,
    after: Option<Seq<char>>,
    device: Seq<char>,
    f: FiltersView,
    i: int,
)
    requires
        plan.data == data_names(schema),
        0 <= i < row_changes(plan, cells, after, device, f).len(),
    ensures
        ({
            let column = row_changes(plan, cells, after, device, f)[i].column_name;
            &&& is_synced_column(column)
            &&& !is_metadata_column(column)
        }),
{
    let at = (plan.pks.len() + plan.data.len()) as int;
    lemma_sent_changes_are_wanted(
        plan,
        cells,
        cell_hlcs(cells[at + 1]),
        if plan.has_sigs {
            cell_sigs(cells[at + 2])
        } else {
            Seq::empty()
        },
        cell_text(cells[at]),
        after,
        device,
        f.origin_node,
        plan.data.len(),
    );
    let column = row_changes(plan, cells, after, device, f)[i].column_name;
    lemma_data_names(schema, column);
    if is_metadata_column(column) {
        lemma_metadata_is_not_synced(column);
    }
}

/// No two columns have the same name.
pub open spec fn names_distinct(schema: Seq<ColumnView>) -> bool {
    forall|i: int, j: int|
        #![trigger schema[i], schema[j]]
        0 <= i < j < schema.len() ==> schema[i].name != schema[j].name
}

/// A primary-key name is the name of a primary-key column.
proof fn lemma_pk_names(schema: Seq<ColumnView>, name: Seq<char>)
    ensures
        pk_names(schema).contains(name) <==> exists|i: int|
            0 <= i < schema.len() && (#[trigger] schema[i]).name == name && schema[i].is_pk,
    decreases schema.len(),
{
    if schema.len() > 0 {
        let rest = schema.drop_last();
        let n = schema.len() - 1;
        lemma_pk_names(rest, name);
        let mine = pk_names(rest);
        let all = pk_names(schema);
        if all.contains(name) {
            let k = choose|k: int| 0 <= k < all.len() && all[k] == name;
            if k < mine.len() {
                assert(mine[k] == name);
                let i = choose|i: int|
                    0 <= i < rest.len() && (#[trigger] rest[i]).name == name && rest[i].is_pk;
                assert(schema[i] == rest[i]);
            } else {
                assert(schema[n].name == name);
            }
        }
        if exists|i: int|
            0 <= i < schema.len() && (#[trigger] schema[i]).name == name && schema[i].is_pk {
            let i = choose|i: int|
                0 <= i < schema.len() && (#[trigger] schema[i]).name == name && schema[i].is_pk;
            if i < n {
                assert(rest[i] == schema[i]);
                let k = choose|k: int| 0 <= k < mine.len() && mine[k] == name;
                assert(all[k] == name);
            } else {
                assert(all[all.len() - 1] == name);
            }
        }
    }
}

/// The two sides agree on which columns take part: what a scan of a table sends
/// is what a merge into a table of the same shape may write.
pub proof fn lemma_sent_columns_may_be_written(schema: Seq<ColumnView>, column: Seq<char>)
    requires
        names_distinct(schema),
    ensures
        data_names(schema).contains(column) <==> ineligible(
            column,
            column_names(schema),
            pk_names(schema),
        ) is None,
{
    lemma_data_names(schema, column);
    lemma_pk_names(schema, column);
    if is_metadata_column(column) {
        lemma_metadata_is_not_synced(column);
    }
    let names = column_names(schema);
    if data_names(schema).contains(column) {
        let i = choose|i: int|
            0 <= i < schema.len() && (#[trigger] schema[i]).name == column && !schema[i].is_pk
                && is_synced_column(column);
        assert(names[i] == column);
        if pk_names(schema).contains(column) {
            let j = choose|j: int|
                0 <= j < schema.len() && (#[trigger] schema[j]).name == column && schema[j].is_pk;
            assert(i != j);
            if i < j {
                assert(schema[i].name != schema[j].name);
            } else {
                assert(schema[j].name != schema[i].name);
            }
        }
    }
    if ineligible(column, names, pk_names(schema)) is None {
        let i = choose|i: int| 0 <= i < names.len() && names[i] == column;
        assert(schema[i].name == column);
    }
}

} // verus!
