//! What a scan reads.

use crate::crdt::columns::lemma_metadata_columns_differ;
use crate::crdt::columns::COLUMN_HLCS_COLUMN;
use crate::crdt::columns::COLUMN_SIGS_COLUMN;
use crate::crdt::columns::HLC_TIMESTAMP_COLUMN;
use crate::crdt::columns::TABLE_CRDT_DIRTY_TABLES;
use crate::crdt::identifier::is_safe_identifier;
use crate::crdt::identifier::safe_identifier;
use crate::crdt::schema::data_names;
use crate::crdt::schema::has_column;
use crate::crdt::schema::partition_columns;
use crate::crdt::schema::pk_names;
use crate::crdt::schema::schema_has_column;
use crate::crdt::schema::schema_view;
use crate::crdt::schema::ColumnInfo;
use crate::crdt::schema::ColumnView;
use crate::error::DatabaseError;
use crate::text::copy_texts;
use crate::text::join_texts;
use crate::text::joined;
use crate::text::texts;
use crate::text::wrap_each;
use crate::text::wrapped_each;
use vstd::prelude::*;

verus! {

/// The query for the tables that have changes to send: the longest waiting
/// first, equally long waiting ones by name.
pub open spec fn dirty_tables_sql() -> Seq<char> {
    "SELECT table_name FROM "@ + TABLE_CRDT_DIRTY_TABLES@
        + " ORDER BY last_modified ASC, table_name ASC"@
}

/// The query for the tables that have changes to send.
pub fn scan_dirty_tables_sql() -> (r: String)
    ensures
        r@ == dirty_tables_sql(),
{
    let mut s = "SELECT table_name FROM ".to_owned();
    s.push_str(TABLE_CRDT_DIRTY_TABLES);
    s.push_str(" ORDER BY last_modified ASC, table_name ASC");
    s
}

/// What a scan is restricted to. By default nothing is.
#[derive(Clone, Copy, Debug)]
pub struct ScanFilters<'a> {
    /// Only columns whose timestamp was issued by this node.
    pub origin_node: Option<u128>,
    /// Only rows whose primary-key JSON is one of these.
    pub row_pks: Option<&'a [String]>,
    /// Only rows where this column equals this value. The value is bound as
    /// text. Any column may be filtered on, whether it is sent or not.
    pub column_eq: Option<(&'a str, &'a str)>,
}

/// What a [`ScanFilters`] stands for.
pub struct FiltersView {
    pub origin_node: Option<u128>,
    pub row_pks: Option<Seq<Seq<char>>>,
    pub column_eq: Option<(Seq<char>, Seq<char>)>,
}

impl<'a> View for ScanFilters<'a> {
    type V = FiltersView;

    open spec fn view(&self) -> FiltersView {
        FiltersView {
            origin_node: self.origin_node,
            row_pks: match self.row_pks {
                Some(v) => Some(texts(v@)),
                None => None,
            },
            column_eq: match self.column_eq {
                Some((c, v)) => Some((c@, v@)),
                None => None,
            },
        }
    }
}

impl<'a> Default for ScanFilters<'a> {
    fn default() -> (r: Self)
        ensures
            r.origin_node is None,
            r.row_pks is None,
            r.column_eq is None,
    {
        ScanFilters { origin_node: None, row_pks: None, column_eq: None }
    }
}

/// The filter names a column that cannot stand in a query.
pub open spec fn filter_unsafe(f: FiltersView) -> bool {
    f.column_eq matches Some((c, _)) && !safe_identifier(c)
}

/// The filter names a column that the table does not have.
pub open spec fn filter_unknown(f: FiltersView, schema: Seq<ColumnView>) -> bool {
    f.column_eq matches Some((c, _)) && !has_column(schema, c)
}

/// The report of an unsafe filter.
pub open spec fn unsafe_filter_reason(table: Seq<char>, column: Seq<char>) -> Seq<char> {
    "Unsafe filter column name '"@ + column + "' for table '"@ + table + "'"@
}

/// Refuses a filter on a column whose name cannot stand in a query, whatever
/// the table looks like.
pub fn check_filter_column(table_name: &str, filters: &ScanFilters<'_>) -> (r: Result<
    (),
    DatabaseError,
>)
    ensures
        !filter_unsafe(filters@) <==> r is Ok,
        filter_unsafe(filters@) ==> (r matches Err(DatabaseError::ValidationError { reason })
            && reason@ == unsafe_filter_reason(table_name@, filters@.column_eq->Some_0.0)),
{
    match filters.column_eq {
        Some((column, _)) => {
            if !is_safe_identifier(column) {
                let mut s = "Unsafe filter column name '".to_owned();
                s.push_str(column);
                s.push_str("' for table '");
                s.push_str(table_name);
                s.push_str("'");
                return Err(DatabaseError::ValidationError { reason: s });
            }
            Ok(())
        },
        None => Ok(()),
    }
}

/// The columns that a scan reads: key, data, metadata.
pub open spec fn select_names(
    pks: Seq<Seq<char>>,
    data: Seq<Seq<char>>,
    has_sigs: bool,
) -> Seq<Seq<char>> {
    let base = pks + data + seq![HLC_TIMESTAMP_COLUMN@, COLUMN_HLCS_COLUMN@];
    if has_sigs {
        base.push(COLUMN_SIGS_COLUMN@)
    } else {
        base
    }
}

/// Rows where the filter column has the filter's value.
pub open spec fn filter_predicate(column: Seq<char>) -> Seq<char> {
    "\""@ + column + "\" = ?1"@
}

/// The conditions of a scan. There is none on the timestamps: text order is not
/// the order of timestamps, so no row is left out before its columns are looked
/// at one by one.
pub open spec fn scan_predicates(f: FiltersView) -> Seq<Seq<char>> {
    match f.column_eq {
        Some((c, _)) => seq![filter_predicate(c)],
        None => Seq::empty(),
    }
}

/// The values bound to a scan.
pub open spec fn scan_params(f: FiltersView) -> Seq<Seq<char>> {
    match f.column_eq {
        Some((_, v)) => seq![v],
        None => Seq::empty(),
    }
}

/// The query of a scan.
pub open spec fn scan_sql(
    table: Seq<char>,
    names: Seq<Seq<char>>,
    predicates: Seq<Seq<char>>,
) -> Seq<char> {
    let from = "SELECT "@ + joined(wrapped_each(names, "\""@, "\""@), ", "@) + " FROM \""@ + table
        + "\""@;
    if predicates.len() == 0 {
        from
    } else {
        from + " WHERE "@ + joined(predicates, " AND "@)
    }
}

/// A scan that is ready to run.
#[derive(Debug)]
pub struct ScanPlan {
    pub table_name: String,
    pub pk_columns: Vec<String>,
    pub data_columns: Vec<String>,
    pub has_sigs: bool,
    pub sql: String,
    pub params: Vec<String>,
}

/// What a [`ScanPlan`] stands for.
pub struct ScanPlanView {
    pub table_name: Seq<char>,
    pub pks: Seq<Seq<char>>,
    pub data: Seq<Seq<char>>,
    pub has_sigs: bool,
    pub sql: Seq<char>,
    pub params: Seq<Seq<char>>,
}

impl View for ScanPlan {
    type V = ScanPlanView;

    open spec fn view(&self) -> ScanPlanView {
        ScanPlanView {
            table_name: self.table_name@,
            pks: texts(self.pk_columns@),
            data: texts(self.data_columns@),
            has_sigs: self.has_sigs,
            sql: self.sql@,
            params: texts(self.params@),
        }
    }
}

/// The scan of a table with this schema.
pub open spec fn scan_plan(
    table: Seq<char>,
    schema: Seq<ColumnView>,
    f: FiltersView,
) -> ScanPlanView {
    let has_sigs = has_column(schema, COLUMN_SIGS_COLUMN@);
    ScanPlanView {
        table_name: table,
        pks: pk_names(schema),
        data: data_names(schema),
        has_sigs,
        sql: scan_sql(
            table,
            select_names(pk_names(schema), data_names(schema), has_sigs),
            scan_predicates(f),
        ),
        params: scan_params(f),
    }
}

/// The metadata columns that a scan needs and the table lacks.
pub open spec fn missing_metadata(schema: Seq<ColumnView>) -> Seq<Seq<char>> {
    let first = if has_column(schema, HLC_TIMESTAMP_COLUMN@) {
        Seq::empty()
    } else {
        seq![HLC_TIMESTAMP_COLUMN@]
    };
    if has_column(schema, COLUMN_HLCS_COLUMN@) {
        first
    } else {
        first.push(COLUMN_HLCS_COLUMN@)
    }
}

/// The query that shows a table's columns.
pub open spec fn table_info_sql(table: Seq<char>) -> Seq<char> {
    "PRAGMA table_info(\""@ + table + "\")"@
}

/// `e` says that the table cannot be scanned, for this reason.
pub open spec fn cannot_scan(e: DatabaseError, table: Seq<char>, why: Seq<char>) -> bool {
    e matches DatabaseError::ExecutionError { sql, reason, table: Some(t) } && sql@
        == table_info_sql(table) && reason@ == why && t@ == table
}

/// The report of a table without primary key.
pub open spec fn no_pk_reason(table: Seq<char>) -> Seq<char> {
    "Table '"@ + table + "' has no primary key"@
}

/// The report of missing metadata columns.
pub open spec fn missing_reason(table: Seq<char>, missing: Seq<Seq<char>>) -> Seq<char> {
    "Table '"@ + table + "' is missing required CRDT metadata column(s): "@ + joined(
        missing,
        ", "@,
    )
}

fn refuse_scan(table_name: &str, reason: String) -> (r: DatabaseError)
    ensures
        cannot_scan(r, table_name@, reason@),
{
    let mut sql = "PRAGMA table_info(\"".to_owned();
    sql.push_str(table_name);
    sql.push_str("\")");
    DatabaseError::ExecutionError { sql, reason, table: Some(table_name.to_owned()) }
}

fn list_missing(schema: &[ColumnInfo]) -> (r: Vec<String>)
    ensures
        texts(r@) == missing_metadata(schema_view(schema@)),
{
    let mut missing: Vec<String> = Vec::new();
    if !schema_has_column(schema, HLC_TIMESTAMP_COLUMN) {
        missing.push(HLC_TIMESTAMP_COLUMN.to_owned());
    }
    if !schema_has_column(schema, COLUMN_HLCS_COLUMN) {
        missing.push(COLUMN_HLCS_COLUMN.to_owned());
    }
    assert(texts(missing@) =~= missing_metadata(schema_view(schema@)));
    missing
}

fn write_scan(
    table_name: &str,
    pks: &[String],
    data: &[String],
    has_sigs: bool,
    predicates: &[String],
) -> (r: String)
    ensures
        r@ == scan_sql(
            table_name@,
            select_names(texts(pks@), texts(data@), has_sigs),
            texts(predicates@),
        ),
{
    let mut names = copy_texts(pks);
    let mut rest = copy_texts(data);
    names.append(&mut rest);
    names.push(HLC_TIMESTAMP_COLUMN.to_owned());
    names.push(COLUMN_HLCS_COLUMN.to_owned());
    if has_sigs {
        names.push(COLUMN_SIGS_COLUMN.to_owned());
    }
    assert(texts(names@) =~= select_names(texts(pks@), texts(data@), has_sigs));
    let quoted = wrap_each(names.as_slice(), "\"", "\"");
    let mut s = "SELECT ".to_owned();
    s.push_str(join_texts(quoted.as_slice(), ", ").as_str());
    s.push_str(" FROM \"");
    s.push_str(table_name);
    s.push_str("\"");
    if predicates.len() > 0 {
        s.push_str(" WHERE ");
        s.push_str(join_texts(predicates, " AND ").as_str());
    }
    s
}

/// Plans the scan of a table: nothing to scan where there is no table or no
/// column to filter on, an error where the filter cannot stand in a query or
/// the table lacks a primary key or its timestamps.
/// Every row that the filter on a column lets through is read, whatever its
/// timestamps.
pub fn plan_scan(table_name: &str, schema: &[ColumnInfo], filters: &ScanFilters<'_>) -> (r: Result<
    Option<ScanPlan>,
    DatabaseError,
>)
    ensures
        ({
            let sv = schema_view(schema@);
            if filter_unsafe(filters@) {
                r matches Err(DatabaseError::ValidationError { reason }) && reason@
                    == unsafe_filter_reason(table_name@, filters@.column_eq->Some_0.0)
            } else if sv.len() == 0 {
                r matches Ok(None)
            } else if pk_names(sv).len() == 0 {
                r matches Err(e) && cannot_scan(e, table_name@, no_pk_reason(table_name@))
            } else if missing_metadata(sv).len() > 0 {
                r matches Err(e) && cannot_scan(
                    e,
                    table_name@,
                    missing_reason(table_name@, missing_metadata(sv)),
                )
            } else if filter_unknown(filters@, sv) {
                r matches Ok(None)
            } else {
                r matches Ok(Some(plan)) && plan@ == scan_plan(table_name@, sv, filters@)
            }
        }),
{
    match check_filter_column(table_name, filters) {
        Ok(()) => {},
        Err(e) => {
            return Err(e);
        },
    }
    if schema.len() == 0 {
        return Ok(None);
    }
    let (pk_columns, data_columns) = partition_columns(schema);
    assert(texts(pk_columns@).len() == pk_columns@.len());
    if pk_columns.len() == 0 {
        let mut reason = "Table '".to_owned();
        reason.push_str(table_name);
        reason.push_str("' has no primary key");
        return Err(refuse_scan(table_name, reason));
    }
    let missing = list_missing(schema);
    assert(texts(missing@).len() == missing@.len());
    if missing.len() > 0 {
        let mut reason = "Table '".to_owned();
        reason.push_str(table_name);
        reason.push_str("' is missing required CRDT metadata column(s): ");
        reason.push_str(join_texts(missing.as_slice(), ", ").as_str());
        return Err(refuse_scan(table_name, reason));
    }
    let mut predicates: Vec<String> = Vec::new();
    let mut params: Vec<String> = Vec::new();
    match filters.column_eq {
        Some((column, value)) => {
            if !schema_has_column(schema, column) {
                return Ok(None);
            }
            let mut s = "\"".to_owned();
            s.push_str(column);
            s.push_str("\" = ?1");
            predicates.push(s);
            params.push(value.to_owned());
        },
        None => {},
    }
    assert(texts(predicates@) =~= scan_predicates(filters@));
    assert(texts(params@) =~= scan_params(filters@));
    let has_sigs = schema_has_column(schema, COLUMN_SIGS_COLUMN);
    let sql = write_scan(
        table_name,
        pk_columns.as_slice(),
        data_columns.as_slice(),
        has_sigs,
        predicates.as_slice(),
    );
    Ok(
        Some(
            ScanPlan {
                table_name: table_name.to_owned(),
                pk_columns,
                data_columns,
                has_sigs,
                sql,
                params,
            },
        ),
    )
}

/// A filter is on an unknown column exactly where no column has its name.
pub proof fn lemma_unknown_filters(f: FiltersView, schema: Seq<ColumnView>)
    ensures
        filter_unknown(f, schema) <==> (f.column_eq matches Some((c, _)) && forall|i: int|
            0 <= i < schema.len() ==> (#[trigger] schema[i]).name != c),
{
}

/// What a table lacks to be scanned is the row's timestamp or the column
/// timestamps, or both, and each is named.
pub proof fn lemma_what_a_scan_misses(schema: Seq<ColumnView>, name: Seq<char>)
    ensures
        missing_metadata(schema).contains(name) <==> (name == HLC_TIMESTAMP_COLUMN@ || name
            == COLUMN_HLCS_COLUMN@) && forall|i: int|
            0 <= i < schema.len() ==> (#[trigger] schema[i]).name != name,
        missing_metadata(schema).no_duplicates(),
{
    lemma_metadata_columns_differ();
    let missing = missing_metadata(schema);
    if !has_column(schema, HLC_TIMESTAMP_COLUMN@) {
        assert(missing[0] == HLC_TIMESTAMP_COLUMN@);
    }
    if !has_column(schema, COLUMN_HLCS_COLUMN@) {
        assert(missing[missing.len() - 1] == COLUMN_HLCS_COLUMN@);
    }
}

} // verus!
