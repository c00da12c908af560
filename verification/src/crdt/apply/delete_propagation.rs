//! The delete log: carrying deletes to their target rows, and keeping deleted
//! rows deleted.
//!
//! A delete is an operation with a timestamp. It removes the target row unless
//! the row is strictly newer; and it holds back an insert of the row unless the
//! insert is strictly newer. The tie goes to the delete on both sides.

use crate::crdt::apply::pk_where::build_pk_where_from_map;
use crate::crdt::apply::pk_where::json_views;
use crate::crdt::apply::pk_where::pk_bound;
use crate::crdt::apply::pk_where::pk_clause;
use crate::crdt::apply::pk_where::pk_usable;
use crate::crdt::apply::report::ApplyReport;
use crate::crdt::apply::report::SkipReason;
use crate::crdt::apply::report::SkippedChange;
use crate::crdt::apply::write::Statement;
use crate::crdt::apply::write::StatementView;
use crate::crdt::columns::DELETED_ROWS_TABLE;
use crate::crdt::columns::HLC_TIMESTAMP_COLUMN;
use crate::crdt::hlc::hlc_before;
use crate::crdt::hlc::hlc_is_newer;
use crate::crdt::identifier::is_safe_identifier;
use crate::crdt::identifier::safe_identifier;
use crate::crdt::scanner::change::change_views;
use crate::crdt::scanner::change::ChangeView;
use crate::crdt::scanner::change::ColumnChange;
use crate::crdt::schema::has_column;
use crate::crdt::schema::pk_columns;
use crate::crdt::schema::pk_names;
use crate::crdt::schema::schema_has_column;
use crate::crdt::schema::schema_view;
use crate::crdt::schema::ColumnInfo;
use crate::crdt::schema::ColumnView;
use crate::crdt::value::sql_of_json;
use crate::crdt::value::sql_views;
use crate::crdt::value::value_of_json;
use crate::crdt::value::SqlValue;
use crate::crdt::value::SqlView;
use crate::json::json_object;
use crate::json::json_text;
use crate::json::member;
use crate::json::object_equal;
use crate::json::JsonObject;
use crate::json::JsonValue;
use crate::json::JsonView;
use crate::text::list_contains;
use crate::text::opt_text;
use crate::text::texts;
use vstd::prelude::*;

verus! {

/// A delete removes the target row unless the row is strictly newer. An absent
/// row, or one without a timestamp, is no obstacle.
pub open spec fn propagates(delete_hlc: Seq<char>, target: Option<Seq<char>>) -> bool {
    match target {
        None => true,
        Some(t) => !hlc_before(delete_hlc, t),
    }
}

/// A delete holds back an insert unless the insert is strictly newer.
pub open spec fn shadows(delete_hlc: Seq<char>, insert_hlc: Seq<char>) -> bool {
    !hlc_before(delete_hlc, insert_hlc)
}

/// Whether a delete-log entry is honoured, given the timestamp of the target
/// row if there is one.
pub fn should_propagate_delete(delete_log_hlc: &str, target_row_hlc: Option<&str>) -> (r: bool)
    ensures
        r == propagates(delete_log_hlc@, opt_text(target_row_hlc)),
{
    match target_row_hlc {
        None => true,
        Some(target) => !hlc_is_newer(target, delete_log_hlc),
    }
}

/// Whether a delete-log entry holds back an insert of the same row.
pub fn delete_shadows_insert(delete_hlc: &str, insert_hlc: &str) -> (r: bool)
    ensures
        r == shadows(delete_hlc@, insert_hlc@),
{
    !hlc_is_newer(insert_hlc, delete_hlc)
}

/// The two rules agree: a row that a delete would remove is one whose insert it
/// would hold back, so a delete and an insert leave the same in either order of
/// arrival.
pub proof fn lemma_delete_and_insert_commute(delete_hlc: Seq<char>, row_hlc: Seq<char>)
    ensures
        propagates(delete_hlc, Some(row_hlc)) == shadows(delete_hlc, row_hlc),
        shadows(delete_hlc, delete_hlc),
{
}

/// A delete that holds back an insert also holds back every older one.
pub proof fn lemma_shadow_is_monotone(delete_hlc: Seq<char>, newer: Seq<char>, older: Seq<char>)
    requires
        shadows(delete_hlc, newer),
        !hlc_before(newer, older),
    ensures
        shadows(delete_hlc, older),
{
}

/// The timestamp of a target row after some deletes were carried to it; `None`
/// once it is gone.
pub open spec fn target_after(deletes: Seq<Seq<char>>, target: Option<Seq<char>>) -> Option<
    Seq<char>,
>
    decreases deletes.len(),
{
    if deletes.len() == 0 {
        target
    } else {
        let before = target_after(deletes.drop_last(), target);
        if propagates(deletes.last(), before) {
            None
        } else {
            before
        }
    }
}

proof fn lemma_target_after(deletes: Seq<Seq<char>>, target: Option<Seq<char>>)
    ensures
        target_after(deletes, target) == target || target_after(deletes, target) is None,
        target_after(deletes, target) is Some ==> forall|i: int|
            0 <= i < deletes.len() ==> !propagates(#[trigger] deletes[i], target),
        (forall|i: int| 0 <= i < deletes.len() ==> !propagates(#[trigger] deletes[i], target))
            ==> target_after(deletes, target) == target,
    decreases deletes.len(),
{
    if deletes.len() > 0 {
        let rest = deletes.drop_last();
        lemma_target_after(rest, target);
        assert(deletes[deletes.len() - 1] == deletes.last());
        if target_after(deletes, target) is Some {
            assert forall|i: int| 0 <= i < deletes.len() implies !propagates(
                #[trigger] deletes[i],
                target,
            ) by {
                if i < rest.len() {
                    assert(rest[i] == deletes[i]);
                }
            }
        }
        if forall|i: int| 0 <= i < deletes.len() ==> !propagates(#[trigger] deletes[i], target) {
            assert forall|i: int| 0 <= i < rest.len() implies !propagates(
                #[trigger] rest[i],
                target,
            ) by {
                assert(rest[i] == deletes[i]);
            }
        }
    }
}

/// Deletes that were carried out change nothing when they are carried out again:
/// the row is gone, or is newer than all of them.
pub proof fn lemma_repeated_deletes_change_nothing(
    deletes: Seq<Seq<char>>,
    target: Option<Seq<char>>,
)
    ensures
        target_after(deletes, target_after(deletes, target)) == target_after(deletes, target),
{
    lemma_target_after(deletes, target);
    lemma_target_after(deletes, target_after(deletes, target));
}

/// One entry of the delete log, ready for comparison.
#[derive(Debug)]
pub struct DeletedRow {
    pub table_name: String,
    pub row_pks: JsonObject,
    pub hlc: String,
}

/// What a [`DeletedRow`] stands for.
pub struct DeletedView {
    pub table_name: Seq<char>,
    pub row_pks: Seq<(Seq<char>, JsonView)>,
    pub hlc: Seq<char>,
}

impl View for DeletedRow {
    type V = DeletedView;

    open spec fn view(&self) -> DeletedView {
        DeletedView { table_name: self.table_name@, row_pks: self.row_pks@, hlc: self.hlc@ }
    }
}

/// What a list of entries stands for.
pub open spec fn deleted_views(v: Seq<DeletedRow>) -> Seq<DeletedView> {
    v.map_values(|d: DeletedRow| d@)
}

/// One row of the delete log as it is read: target table, primary-key JSON and
/// timestamp.
#[derive(Debug)]
pub struct DeleteLogEntry {
    pub table_name: String,
    pub row_pks: String,
    pub hlc: Option<String>,
}

/// What a [`DeleteLogEntry`] stands for.
pub struct EntryView {
    pub table_name: Seq<char>,
    pub row_pks: Seq<char>,
    pub hlc: Option<Seq<char>>,
}

impl View for DeleteLogEntry {
    type V = EntryView;

    open spec fn view(&self) -> EntryView {
        EntryView {
            table_name: self.table_name@,
            row_pks: self.row_pks@,
            hlc: match self.hlc {
                Some(h) => Some(h@),
                None => None,
            },
        }
    }
}

/// What a list of log rows stands for.
pub open spec fn entry_views(v: Seq<DeleteLogEntry>) -> Seq<EntryView> {
    v.map_values(|e: DeleteLogEntry| e@)
}

/// The entry that a log row stands for, if it can take part in a comparison:
/// it has a timestamp and its key can be read.
pub open spec fn usable_entry(e: EntryView) -> Option<DeletedView> {
    match (e.hlc, json_object(e.row_pks)) {
        (Some(hlc), Some(row_pks)) => Some(
            DeletedView { table_name: e.table_name, row_pks, hlc },
        ),
        _ => None,
    }
}

/// The usable entries of the log, in order.
pub open spec fn usable_entries(rows: Seq<EntryView>) -> Seq<DeletedView>
    decreases rows.len(),
{
    if rows.len() == 0 {
        Seq::empty()
    } else {
        match usable_entry(rows.last()) {
            Some(d) => usable_entries(rows.drop_last()).push(d),
            None => usable_entries(rows.drop_last()),
        }
    }
}

/// The query for the whole delete log.
pub open spec fn delete_log_sql() -> Seq<char> {
    "SELECT table_name, row_pks, "@ + HLC_TIMESTAMP_COLUMN@ + " FROM \""@ + DELETED_ROWS_TABLE@
        + "\""@
}

/// The query for the whole delete log.
pub fn load_delete_log_sql() -> (r: String)
    ensures
        r@ == delete_log_sql(),
{
    let mut s = "SELECT table_name, row_pks, ".to_owned();
    s.push_str(HLC_TIMESTAMP_COLUMN);
    s.push_str(" FROM \"");
    s.push_str(DELETED_ROWS_TABLE);
    s.push_str("\"");
    s
}

/// The delete log made ready for comparisons. Rows without a timestamp or with
/// a key that cannot be read are left out: they hold back nothing.
pub fn load_delete_shadow_map(rows: Vec<DeleteLogEntry>) -> (r: Vec<DeletedRow>)
    ensures
        deleted_views(r@) == usable_entries(entry_views(rows@)),
{
    let ghost all = rows@;
    let mut out: Vec<DeletedRow> = Vec::new();
    assert(deleted_views(out@) =~= usable_entries(entry_views(all).take(0)));
    for row in it: rows.into_iter()
        invariant
            it.seq() == all,
            deleted_views(out@) == usable_entries(entry_views(all).take(it.index() as int)),
    {
        let ghost next = entry_views(all).take(it.index() + 1);
        let ghost before = deleted_views(out@);
        assert(next.drop_last() =~= entry_views(all).take(it.index() as int));
        assert(next.last() == row@);
        match row.hlc {
            Some(hlc) => match JsonObject::parse(row.row_pks.as_str()) {
                Some(row_pks) => {
                    let fresh = DeletedRow { table_name: row.table_name, row_pks, hlc };
                    let ghost one = fresh@;
                    out.push(fresh);
                    assert(deleted_views(out@) =~= before.push(one));
                },
                None => {},
            },
            None => {},
        }
    }
    assert(entry_views(all).take(all.len() as int) =~= entry_views(all));
    out
}

/// Some entry for the same key holds the insert back.
pub open spec fn suppressed(
    insert_pks: Seq<(Seq<char>, JsonView)>,
    insert_hlc: Seq<char>,
    candidates: Seq<DeletedView>,
) -> bool {
    exists|i: int|
        0 <= i < candidates.len() && object_equal((#[trigger] candidates[i]).row_pks, insert_pks)
            && shadows(candidates[i].hlc, insert_hlc)
}

/// Whether an insert is held back by one of the entries for its table. Keys
/// are compared as JSON: a number and a string never match.
pub fn insert_suppressed_by_deletes(
    insert_pks: &JsonObject,
    insert_hlc: &str,
    candidates: &[DeletedRow],
) -> (r: bool)
    ensures
        r == suppressed(insert_pks@, insert_hlc@, deleted_views(candidates@)),
{
    let ghost cv = deleted_views(candidates@);
    let mut i: usize = 0;
    while i < candidates.len()
        invariant
            i <= candidates.len(),
            cv == deleted_views(candidates@),
            forall|j: int|
                0 <= j < i ==> !(object_equal((#[trigger] cv[j]).row_pks, insert_pks@) && shadows(
                    cv[j].hlc,
                    insert_hlc@,
                )),
        decreases candidates.len() - i,
    {
        assert(cv[i as int] == candidates@[i as int]@);
        if candidates[i].row_pks.same_as(insert_pks) && delete_shadows_insert(
            candidates[i].hlc.as_str(),
            insert_hlc,
        ) {
            return true;
        }
        i += 1;
    }
    false
}

/// Some entry for the same table and key holds the insert back.
pub open spec fn row_shadowed(
    table: Seq<char>,
    insert_pks: Seq<(Seq<char>, JsonView)>,
    insert_hlc: Seq<char>,
    log: Seq<DeletedView>,
) -> bool {
    exists|i: int|
        0 <= i < log.len() && (#[trigger] log[i]).table_name == table && object_equal(
            log[i].row_pks,
            insert_pks,
        ) && shadows(log[i].hlc, insert_hlc)
}

/// Whether an insert into `table_name` is held back by the delete log.
pub fn insert_shadowed(
    table_name: &str,
    row_pks: &JsonObject,
    insert_hlc: &str,
    log: &[DeletedRow],
) -> (r: bool)
    ensures
        r == row_shadowed(table_name@, row_pks@, insert_hlc@, deleted_views(log@)),
{
    let ghost cv = deleted_views(log@);
    let mut i: usize = 0;
    while i < log.len()
        invariant
            i <= log.len(),
            cv == deleted_views(log@),
            forall|j: int|
                0 <= j < i ==> !((#[trigger] cv[j]).table_name == table_name@ && object_equal(
                    cv[j].row_pks,
                    row_pks@,
                ) && shadows(cv[j].hlc, insert_hlc@)),
        decreases log.len() - i,
    {
        assert(cv[i as int] == log@[i as int]@);
        if log[i].table_name.as_str().eq(table_name) && log[i].row_pks.same_as(row_pks)
            && delete_shadows_insert(log[i].hlc.as_str(), insert_hlc) {
            return true;
        }
        i += 1;
    }
    false
}

/// The key has a column of this name.
pub open spec fn key_has(row_pks: Seq<(Seq<char>, JsonView)>, name: Seq<char>) -> bool {
    exists|j: int| 0 <= j < row_pks.len() && #[trigger] row_pks[j].0 == name
}

/// The key names exactly the primary-key columns of the table.
pub open spec fn identity_matches(
    pks: Seq<Seq<char>>,
    row_pks: Seq<(Seq<char>, JsonView)>,
) -> bool {
    &&& pks.len() > 0
    &&& forall|i: int| 0 <= i < pks.len() ==> key_has(row_pks, #[trigger] pks[i])
    &&& forall|j: int| 0 <= j < row_pks.len() ==> pks.contains(#[trigger] row_pks[j].0)
}

/// Whether a key names exactly the primary-key columns `pks`, of which there
/// is at least one.
pub fn key_names_exactly(pks: &[String], row_pks: &JsonObject) -> (r: bool)
    ensures
        r == identity_matches(texts(pks@), row_pks@),
{
    let ghost names = texts(pks@);
    if pks.len() == 0 {
        return false;
    }
    let mut i: usize = 0;
    while i < pks.len()
        invariant
            i <= pks.len(),
            names == texts(pks@),
            forall|k: int| 0 <= k < i ==> key_has(row_pks@, #[trigger] names[k]),
        decreases pks.len() - i,
    {
        let mut j: usize = 0;
        let n: usize = row_pks.len();
        while j < n && !row_pks.key_at(j).eq(pks[i].as_str())
            invariant
                i < pks.len(),
                j <= n,
                n == row_pks@.len(),
                names == texts(pks@),
                forall|k: int| 0 <= k < j ==> #[trigger] row_pks@[k].0 != names[i as int],
            decreases n - j,
        {
            j += 1;
        }
        if j == n {
            assert(!key_has(row_pks@, names[i as int]));
            return false;
        }
        assert(row_pks@[j as int].0 == names[i as int]);
        i += 1;
    }
    let n: usize = row_pks.len();
    let mut j: usize = 0;
    while j < n
        invariant
            j <= n,
            n == row_pks@.len(),
            names == texts(pks@),
            names.len() > 0,
            forall|k: int| 0 <= k < names.len() ==> key_has(row_pks@, #[trigger] names[k]),
            forall|k: int| 0 <= k < j ==> names.contains(#[trigger] row_pks@[k].0),
        decreases n - j,
    {
        if !list_contains(pks, row_pks.key_at(j)) {
            assert(!names.contains(row_pks@[j as int].0));
            return false;
        }
        j += 1;
    }
    true
}

/// How a key value of a delete entry is bound: integers of 64 bits as integers,
/// other numbers as floating point, strings as text, and booleans, arrays and
/// objects as their compact text.
pub open spec fn sql_of_key(v: JsonView) -> SqlView {
    match v {
        JsonView::Bool(b) => SqlView::Text(if b {
            "true"@
        } else {
            "false"@
        }),
        _ => sql_of_json(v),
    }
}

/// The SQL value that a key value of a delete entry is bound as.
pub fn json_to_sql_value(v: &JsonValue) -> (r: SqlValue)
    ensures
        r@ == sql_of_key(v@),
{
    match v {
        JsonValue::Bool(b) => SqlValue::Text(
            if *b {
                "true".to_owned()
            } else {
                "false".to_owned()
            },
        ),
        _ => value_of_json(v),
    }
}

/// The SQL values to bind for the key of a delete entry.
pub open spec fn delete_params(row_pks: Seq<(Seq<char>, JsonView)>) -> Seq<SqlView> {
    pk_bound(row_pks).map_values(|v: JsonView| sql_of_key(v))
}

fn bind_delete_key(values: &[JsonValue]) -> (r: Vec<SqlValue>)
    ensures
        sql_views(r@) == json_views(values@).map_values(|v: JsonView| sql_of_key(v)),
{
    let mut out: Vec<SqlValue> = Vec::new();
    let mut i: usize = 0;
    while i < values.len()
        invariant
            i <= values.len(),
            out.len() == i,
            forall|j: int| 0 <= j < i ==> (#[trigger] out@[j])@ == sql_of_key(values@[j]@),
        decreases values.len() - i,
    {
        out.push(json_to_sql_value(&values[i]));
        i += 1;
    }
    assert(sql_views(out@) =~= json_views(values@).map_values(|v: JsonView| sql_of_key(v)));
    out
}

/// What carries one delete to its target: a query for the timestamp of the
/// target row, the delete itself, and the timestamp of the delete.
#[derive(Debug)]
pub struct DeletePlan {
    pub select_hlc: Statement,
    pub delete: Statement,
    pub delete_hlc: String,
}

/// What a [`DeletePlan`] stands for.
pub struct DeletePlanView {
    pub select_hlc: StatementView,
    pub delete: StatementView,
    pub delete_hlc: Seq<char>,
}

impl View for DeletePlan {
    type V = DeletePlanView;

    open spec fn view(&self) -> DeletePlanView {
        DeletePlanView {
            select_hlc: self.select_hlc@,
            delete: self.delete@,
            delete_hlc: self.delete_hlc@,
        }
    }
}

/// The plan for an entry whose target table has this schema, if the entry can
/// be carried out: its target name is safe, it has a timestamp, its key can be
/// read and names exactly the target's primary key, and the target carries a
/// row timestamp.
pub open spec fn delete_plan(e: EntryView, schema: Seq<ColumnView>) -> Option<DeletePlanView> {
    match usable_entry(e) {
        Some(d) => if safe_identifier(e.table_name) && identity_matches(pk_names(schema), d.row_pks)
            && pk_usable(d.row_pks) && has_column(schema, HLC_TIMESTAMP_COLUMN@) {
            Some(
                DeletePlanView {
                    select_hlc: StatementView {
                        sql: "SELECT "@ + HLC_TIMESTAMP_COLUMN@ + " FROM \""@ + e.table_name
                            + "\" WHERE "@ + pk_clause(d.row_pks),
                        params: delete_params(d.row_pks),
                    },
                    delete: StatementView {
                        sql: "DELETE FROM \""@ + e.table_name + "\" WHERE "@ + pk_clause(
                            d.row_pks,
                        ),
                        params: delete_params(d.row_pks),
                    },
                    delete_hlc: d.hlc,
                },
            )
        } else {
            None
        },
        None => None,
    }
}

/// Whether the schema of the target table is worth reading: its name is safe.
pub fn delete_target_is_safe(entry: &DeleteLogEntry) -> (r: bool)
    ensures
        r == safe_identifier(entry@.table_name),
{
    is_safe_identifier(entry.table_name.as_str())
}

/// How to carry a delete-log entry to its target table. `None` means that the
/// entry is passed over: deleting by part of a key would remove other rows.
pub fn plan_delete(entry: &DeleteLogEntry, schema: &[ColumnInfo]) -> (r: Option<DeletePlan>)
    ensures
        match (r, delete_plan(entry@, schema_view(schema@))) {
            (Some(got), Some(want)) => got@ == want,
            (None, None) => true,
            _ => false,
        },
{
    if !is_safe_identifier(entry.table_name.as_str()) {
        return None;
    }
    let hlc = match &entry.hlc {
        Some(h) => h,
        None => {
            return None;
        },
    };
    let row_pks = match JsonObject::parse(entry.row_pks.as_str()) {
        Some(m) => m,
        None => {
            return None;
        },
    };
    let pks = pk_columns(schema);
    if !key_names_exactly(pks.as_slice(), &row_pks) {
        return None;
    }
    if !schema_has_column(schema, HLC_TIMESTAMP_COLUMN) {
        return None;
    }
    let (clause, values) = match build_pk_where_from_map(&row_pks) {
        Some(parts) => parts,
        None => {
            return None;
        },
    };
    let mut select = "SELECT ".to_owned();
    select.push_str(HLC_TIMESTAMP_COLUMN);
    select.push_str(" FROM \"");
    select.push_str(entry.table_name.as_str());
    select.push_str("\" WHERE ");
    select.push_str(clause.as_str());
    let mut delete = "DELETE FROM \"".to_owned();
    delete.push_str(entry.table_name.as_str());
    delete.push_str("\" WHERE ");
    delete.push_str(clause.as_str());
    Some(
        DeletePlan {
            select_hlc: Statement { sql: select, params: bind_delete_key(values.as_slice()) },
            delete: Statement { sql: delete, params: bind_delete_key(values.as_slice()) },
            delete_hlc: hlc.clone(),
        },
    )
}

/// The query for one entry of the delete log: its id is the parameter.
pub fn delete_entry_sql() -> (r: String)
    ensures
        r@ == delete_log_sql() + " WHERE id = ?1"@,
{
    let mut s = load_delete_log_sql();
    s.push_str(" WHERE id = ?1");
    s
}

/// Decides a planned delete against the timestamp found on the target row.
/// True means: carry it out. A row that is newer stays and is counted.
pub fn settle_delete(
    plan: &DeletePlan,
    target_row_hlc: Option<&str>,
    report: &mut ApplyReport,
) -> (r: bool)
    requires
        old(report).skipped_delete_target_newer < usize::MAX,
    ensures
        r == propagates(plan@.delete_hlc, opt_text(target_row_hlc)),
        *final(report) == if r {
            *old(report)
        } else {
            (ApplyReport {
                skipped_delete_target_newer: (old(report).skipped_delete_target_newer + 1) as usize,
                ..*old(report)
            })
        },
{
    if should_propagate_delete(plan.delete_hlc.as_str(), target_row_hlc) {
        true
    } else {
        report.skipped_delete_target_newer = report.skipped_delete_target_newer + 1;
        false
    }
}

/// The id of the delete-log row that a change belongs to, if it is one.
pub open spec fn delete_log_id(c: ChangeView) -> Option<Seq<char>> {
    if c.table_name == DELETED_ROWS_TABLE@ {
        match json_object(c.row_pks) {
            Some(row_pks) => match member(row_pks, "id"@) {
                Some(JsonView::Text(id)) => Some(id),
                _ => None,
            },
            None => None,
        }
    } else {
        None
    }
}

/// The policy dropped the change at `i`.
pub open spec fn dropped_by_policy(skipped: Seq<SkippedChange>, i: int) -> bool {
    exists|k: int|
        0 <= k < skipped.len() && #[trigger] skipped[k].input_index == i && skipped[k].reason
            == SkipReason::Policy
}

/// The change at `i` brings in the delete `id`: it belongs to that log row and
/// the policy did not drop it.
pub open spec fn brings_delete(
    changes: Seq<ChangeView>,
    skipped: Seq<SkippedChange>,
    i: int,
    id: Seq<char>,
) -> bool {
    delete_log_id(changes[i]) == Some(id) && !dropped_by_policy(skipped, i)
}

fn was_dropped_by_policy(skipped: &[SkippedChange], i: usize) -> (r: bool)
    ensures
        r == dropped_by_policy(skipped@, i as int),
{
    let mut k: usize = 0;
    while k < skipped.len()
        invariant
            k <= skipped.len(),
            forall|j: int|
                0 <= j < k ==> !(#[trigger] skipped@[j].input_index == i && skipped@[j].reason
                    == SkipReason::Policy),
        decreases skipped.len() - k,
    {
        if skipped[k].input_index == i && skipped[k].reason == SkipReason::Policy {
            return true;
        }
        k += 1;
    }
    false
}

fn log_id_of(c: &ColumnChange) -> (r: Option<String>)
    ensures
        match (r, delete_log_id(c@)) {
            (Some(got), Some(want)) => got@ == want,
            (None, None) => true,
            _ => false,
        },
{
    if !c.table_name.as_str().eq(DELETED_ROWS_TABLE) {
        return None;
    }
    match JsonObject::parse(c.row_pks.as_str()) {
        Some(row_pks) => match row_pks.get("id") {
            Some(v) => match v.as_text() {
                Some(id) => Some(id.to_owned()),
                None => None,
            },
            None => None,
        },
        None => None,
    }
}

/// The ids of the delete-log rows that a batch brings in, each once. A replay
/// whose columns are stale still counts; one that the policy dropped does not.
pub fn collect_inbound_delete_log_ids(
    changes: &[ColumnChange],
    skipped: &[SkippedChange],
) -> (r: Vec<String>)
    ensures
        forall|id: Seq<char>| #[trigger]
            texts(r@).contains(id) <==> exists|i: int|
                0 <= i < changes@.len() && #[trigger] brings_delete(
                    change_views(changes@),
                    skipped@,
                    i,
                    id,
                ),
        forall|i: int, j: int|
            #![trigger texts(r@)[i], texts(r@)[j]]
            0 <= i < j < r@.len() ==> texts(r@)[i] != texts(r@)[j],
{
    let ghost cv = change_views(changes@);
    let mut ids: Vec<String> = Vec::new();
    let mut i: usize = 0;
    assert(texts(ids@) =~= Seq::<Seq<char>>::empty());
    while i < changes.len()
        invariant
            i <= changes.len(),
            cv == change_views(changes@),
            forall|id: Seq<char>| #[trigger]
                texts(ids@).contains(id) <==> exists|k: int|
                    0 <= k < i && #[trigger] brings_delete(cv, skipped@, k, id),
            forall|a: int, b: int|
                #![trigger texts(ids@)[a], texts(ids@)[b]]
                0 <= a < b < ids@.len() ==> texts(ids@)[a] != texts(ids@)[b],
        decreases changes.len() - i,
    {
        let ghost before = texts(ids@);
        assert(cv[i as int] == changes@[i as int]@);
        let found = log_id_of(&changes[i]);
        match found {
            Some(id) => {
                let ghost name = id@;
                if !was_dropped_by_policy(skipped, i) {
                    assert(brings_delete(cv, skipped@, i as int, name));
                    if !list_contains(ids.as_slice(), id.as_str()) {
                        ids.push(id);
                        assert(texts(ids@) =~= before.push(name));
                        assert(texts(ids@)[before.len() as int] == name);
                    }
                }
                proof {
                    let now = texts(ids@);
                    assert forall|x: Seq<char>| #[trigger] now.contains(x) <==> exists|k: int|
                        0 <= k < i + 1 && #[trigger] brings_delete(cv, skipped@, k, x) by {
                        if now.contains(x) {
                            let g = choose|g: int| 0 <= g < now.len() && now[g] == x;
                            if g < before.len() {
                                assert(before[g] == x);
                                assert(before.contains(x));
                                let k = choose|k: int|
                                    0 <= k < i && #[trigger] brings_delete(cv, skipped@, k, x);
                                assert(brings_delete(cv, skipped@, k, x));
                            } else {
                                assert(brings_delete(cv, skipped@, i as int, x));
                            }
                        }
                        if exists|k: int|
                            0 <= k < i + 1 && #[trigger] brings_delete(cv, skipped@, k, x) {
                            let k = choose|k: int|
                                0 <= k < i + 1 && #[trigger] brings_delete(cv, skipped@, k, x);
                            if k < i {
                                assert(before.contains(x));
                                let g = choose|g: int| 0 <= g < before.len() && before[g] == x;
                                assert(now[g] == x);
                            } else {
                                assert(x == name);
                                if before.contains(x) {
                                    let g = choose|g: int|
                                        0 <= g < before.len() && before[g] == x;
                                    assert(now[g] == x);
                                } else {
                                    assert(now[before.len() as int] == x);
                                }
                            }
                        }
                    }
                    assert forall|a: int, b: int|
                        #![trigger now[a], now[b]]
                        0 <= a < b < now.len() implies now[a] != now[b] by {
                        assert(now[a] == before[a]);
                        if b < before.len() {
                            assert(now[b] == before[b]);
                        } else {
                            assert(before.contains(before[a]));
                        }
                    }
                }
            },
            None => {
                assert forall|x: Seq<char>| #[trigger] before.contains(x) <==> exists|k: int|
                    0 <= k < i + 1 && #[trigger] brings_delete(cv, skipped@, k, x) by {
                    if exists|k: int|
                        0 <= k < i + 1 && #[trigger] brings_delete(cv, skipped@, k, x) {
                        let k = choose|k: int|
                            0 <= k < i + 1 && #[trigger] brings_delete(cv, skipped@, k, x);
                        assert(k < i);
                    }
                    if before.contains(x) {
                        let k = choose|k: int|
                            0 <= k < i && #[trigger] brings_delete(cv, skipped@, k, x);
                        assert(brings_delete(cv, skipped@, k, x));
                    }
                }
            },
        }
        i += 1;
    }
    ids
}

/// A delete looks for a key value as every write does, save that a truth value is
/// looked for as the word that JSON has for it.
pub proof fn lemma_key_values_of_deletes(v: JsonView)
    ensures
        v is Bool ==> sql_of_key(v) == SqlView::Text(json_text(v)),
        !(v is Bool) ==> sql_of_key(v) == sql_of_json(v),
{
}

/// A change is about an entry of the delete log where it is a change of that table
/// and the `id` of its key is this text.
pub proof fn lemma_log_ids(c: ChangeView, id: Seq<char>)
    ensures
        delete_log_id(c) == Some(id) <==> c.table_name == DELETED_ROWS_TABLE@ && exists|
            key: Seq<(Seq<char>, JsonView)>,
        | #[trigger]
            member(key, "id"@) == Some(JsonView::Text(id)) && json_object(c.row_pks) == Some(key),
{
    if let Some(key) = json_object(c.row_pks) {
        if member(key, "id"@) == Some(JsonView::Text(id)) {
            assert(json_object(c.row_pks) == Some(key));
        }
    }
}

proof fn lemma_kept_was_there(
    log: Seq<DeletedView>,
    wanted: spec_fn(DeletedView) -> bool,
    k: int,
)
    requires
        0 <= k < log.filter(wanted).len(),
    ensures
        log.contains(log.filter(wanted)[k]),
    decreases log.len(),
{
    reveal(Seq::filter);
    if log.len() > 0 {
        let rest = log.drop_last();
        if k < rest.filter(wanted).len() {
            lemma_kept_was_there(rest, wanted, k);
            let i = choose|i: int| 0 <= i < rest.len() && rest[i] == rest.filter(wanted)[k];
            assert(log[i] == rest[i]);
        } else {
            assert(log[log.len() - 1] == log.last());
        }
    }
}

/// Held against the deletes of its own table, a row is shadowed by the log exactly
/// where one of them suppresses it.
pub proof fn lemma_only_deletes_of_the_table_matter(
    table: Seq<char>,
    insert_pks: Seq<(Seq<char>, JsonView)>,
    insert_hlc: Seq<char>,
    log: Seq<DeletedView>,
)
    ensures
        row_shadowed(table, insert_pks, insert_hlc, log) <==> suppressed(
            insert_pks,
            insert_hlc,
            log.filter(|d: DeletedView| d.table_name == table),
        ),
        suppressed(insert_pks, insert_hlc, log) <==> exists|i: int|
            0 <= i < log.len() && object_equal((#[trigger] log[i]).row_pks, insert_pks)
                && !hlc_before(log[i].hlc, insert_hlc),
{
    broadcast use vstd::seq_lib::group_filter_ensures;

    let of_table = |d: DeletedView| d.table_name == table;
    let ours = log.filter(of_table);
    if row_shadowed(table, insert_pks, insert_hlc, log) {
        let i = choose|i: int|
            0 <= i < log.len() && (#[trigger] log[i]).table_name == table && object_equal(
                log[i].row_pks,
                insert_pks,
            ) && shadows(log[i].hlc, insert_hlc);
        assert(of_table(log[i]));
        assert(ours.contains(log[i]));
        let k = choose|k: int| 0 <= k < ours.len() && ours[k] == log[i];
        assert(object_equal(ours[k].row_pks, insert_pks));
    }
    if suppressed(insert_pks, insert_hlc, ours) {
        let k = choose|k: int|
            0 <= k < ours.len() && object_equal((#[trigger] ours[k]).row_pks, insert_pks)
                && shadows(ours[k].hlc, insert_hlc);
        assert(of_table(ours[k]));
        lemma_kept_was_there(log, of_table, k);
        let i = choose|i: int| 0 <= i < log.len() && log[i] == ours[k];
        assert(log[i].table_name == table);
    }
}

} // verus!
