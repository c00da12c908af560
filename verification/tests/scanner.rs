//! The scanner, run against an in-memory database.

use haex_crdt::crdt::clock::{device_uuid_to_hlc_node, HlcService};
use haex_crdt::crdt::columns::{
    COLUMN_HLCS_COLUMN, COLUMN_SIGS_COLUMN, DELETED_ROWS_TABLE, HLC_FUNCTION_NAME,
    HLC_TIMESTAMP_COLUMN, TABLE_CRDT_CONFIGS, TABLE_CRDT_DIRTY_TABLES, UUID_FUNCTION_NAME,
};
use haex_crdt::crdt::scanner::change::ColumnChange;
use haex_crdt::crdt::scanner::emit::emit_row_changes;
use haex_crdt::crdt::scanner::plan::{
    check_filter_column, plan_scan, scan_dirty_tables_sql, ScanFilters,
};
use haex_crdt::crdt::schema::ColumnInfo;
use haex_crdt::crdt::transformer::CrdtTransformer;
use haex_crdt::crdt::trigger::{
    plan_crdt_columns, plan_triggers, table_schema_sql, TriggerInstallerConfig,
};
use haex_crdt::error::DatabaseError;
use haex_crdt::json::JsonValue;
use rusqlite::functions::FunctionFlags;
use rusqlite::types::ValueRef;
use rusqlite::Connection;
use std::collections::HashSet;
use uuid::Uuid;

fn table_schema(conn: &Connection, table: &str) -> Vec<ColumnInfo> {
    let mut stmt = conn.prepare(&table_schema_sql(table).unwrap()).unwrap();
    stmt.query_map([], |row| {
        Ok(ColumnInfo {
            name: row.get("name")?,
            column_type: row.get("type")?,
            is_pk: row.get::<_, i64>("pk")? > 0,
        })
    })
    .unwrap()
    .map(|r| r.unwrap())
    .collect()
}

fn cell(value: ValueRef<'_>) -> JsonValue {
    match value {
        ValueRef::Null => JsonValue::Null,
        ValueRef::Integer(i) => JsonValue::parse(&i.to_string()).unwrap(),
        ValueRef::Text(t) => JsonValue::Text(String::from_utf8(t.to_vec()).unwrap()),
        other => panic!("no such cell in these tests: {other:?}"),
    }
}

fn scan_dirty_tables(conn: &Connection) -> Vec<String> {
    let mut stmt = conn.prepare(&scan_dirty_tables_sql()).unwrap();
    stmt.query_map([], |r| r.get(0)).unwrap().map(|r| r.unwrap()).collect()
}

fn scan_table_for_local_changes(
    conn: &Connection,
    table: &str,
    after_hlc: Option<&str>,
    device_id: &str,
    filters: ScanFilters<'_>,
) -> Result<Vec<ColumnChange>, DatabaseError> {
    check_filter_column(table, &filters)?;
    let schema = table_schema(conn, table);
    let mut out = Vec::new();
    let Some(plan) = plan_scan(table, &schema, &filters)? else {
        return Ok(out);
    };
    let mut stmt = conn.prepare(&plan.sql).unwrap();
    let width = stmt.column_count();
    let mut rows = stmt.query(rusqlite::params_from_iter(plan.params.iter())).unwrap();
    while let Some(row) = rows.next().unwrap() {
        let cells: Vec<JsonValue> = (0..width).map(|i| cell(row.get_ref(i).unwrap())).collect();
        emit_row_changes(&plan, &cells, after_hlc, device_id, &filters, &mut out);
    }
    Ok(out)
}

fn make_fixture() -> (Connection, HlcService, Uuid) {
    let conn = Connection::open_in_memory().unwrap();
    let device_uuid = Uuid::new_v4();
    let hlc = HlcService::new_with_uuid(device_uuid.as_bytes());
    for (name, answer) in [(UUID_FUNCTION_NAME, "uuid-1"), (HLC_FUNCTION_NAME, "1/abc")] {
        conn.create_scalar_function(
            name,
            0,
            FunctionFlags::SQLITE_UTF8 | FunctionFlags::SQLITE_INNOCUOUS,
            move |_| Ok(answer),
        )
        .expect("function");
    }
    conn.execute_batch(&format!(
        "CREATE TABLE {TABLE_CRDT_CONFIGS} (
             key TEXT PRIMARY KEY NOT NULL,
             value TEXT,
             type TEXT
         );
         CREATE TABLE {TABLE_CRDT_DIRTY_TABLES} (
             table_name TEXT PRIMARY KEY NOT NULL,
             last_modified TEXT
         );
         INSERT INTO {TABLE_CRDT_CONFIGS} (key, type, value)
         VALUES ('triggers_enabled', 'system', '1');
         CREATE TABLE {DELETED_ROWS_TABLE} (
             id TEXT PRIMARY KEY NOT NULL,
             table_name TEXT NOT NULL,
             row_pks TEXT NOT NULL,
             {HLC_TIMESTAMP_COLUMN} TEXT,
             {COLUMN_HLCS_COLUMN} TEXT NOT NULL DEFAULT '{{}}',
             {COLUMN_SIGS_COLUMN} TEXT NOT NULL DEFAULT '{{}}'
         );"
    ))
    .expect("bookkeeping");
    (conn, hlc, device_uuid)
}

fn install_triggers(conn: &Connection, table: &str) {
    let config = TriggerInstallerConfig { additional_skip_columns: Vec::new() };
    let schema = table_schema(conn, table);
    for sql in plan_triggers(table, &schema, false, &config).unwrap().unwrap() {
        conn.execute_batch(&sql).unwrap();
    }
}

fn create_crdt_table(conn: &Connection, name: &str, extra_cols: &str) {
    let sep = if extra_cols.is_empty() { "" } else { "," };
    conn.execute(
        &format!("CREATE TABLE {name} (id TEXT PRIMARY KEY NOT NULL{sep} {extra_cols})"),
        [],
    )
    .unwrap();
    for sql in plan_crdt_columns(name, &table_schema(conn, name)) {
        conn.execute(&sql, []).unwrap();
    }
    install_triggers(conn, name);
}

fn insert_row_via_transformer(conn: &Connection, hlc: &mut HlcService, sql: &str) -> String {
    let ts = hlc.new_timestamp().unwrap();
    hlc.update_with_timestamp(&ts).unwrap();
    let rewritten = CrdtTransformer::new().transform_execute_statement(sql, ts).unwrap();
    conn.execute(&rewritten.sql, []).unwrap();
    ts.to_text()
}

fn keys(changes: &[ColumnChange]) -> HashSet<&str> {
    changes.iter().map(|c| c.row_pks.as_str()).collect()
}

fn columns(changes: &[ColumnChange]) -> Vec<&str> {
    changes.iter().map(|c| c.column_name.as_str()).collect()
}

#[test]
fn scan_dirty_tables_returns_empty_when_none_marked() {
    let (conn, _hlc, _dev) = make_fixture();
    assert!(scan_dirty_tables(&conn).is_empty());
}

#[test]
fn scan_dirty_tables_returns_tables_the_trigger_marked() {
    let (conn, mut hlc, _dev) = make_fixture();
    create_crdt_table(&conn, "items", "body TEXT");
    create_crdt_table(&conn, "notes", "body TEXT");

    insert_row_via_transformer(&conn, &mut hlc, "INSERT INTO items (id, body) VALUES ('i1', 'a')");
    insert_row_via_transformer(&conn, &mut hlc, "INSERT INTO notes (id, body) VALUES ('n1', 'a')");

    let dirty = scan_dirty_tables(&conn);
    assert!(dirty.contains(&"items".to_string()));
    assert!(dirty.contains(&"notes".to_string()));
}

#[test]
fn scan_returns_empty_for_missing_table() {
    let (conn, _hlc, dev) = make_fixture();
    assert!(scan_table_for_local_changes(
        &conn,
        "no_such",
        None,
        &dev.to_string(),
        ScanFilters::default()
    )
    .unwrap()
    .is_empty());
}

#[test]
fn scan_rejects_table_without_primary_key() {
    let (conn, _hlc, dev) = make_fixture();
    conn.execute(
        &format!(
            "CREATE TABLE t (a TEXT, {HLC_TIMESTAMP_COLUMN} TEXT, \
             {COLUMN_HLCS_COLUMN} TEXT NOT NULL DEFAULT '{{}}')"
        ),
        [],
    )
    .unwrap();
    let err =
        scan_table_for_local_changes(&conn, "t", None, &dev.to_string(), ScanFilters::default())
            .unwrap_err();
    assert!(matches!(err, DatabaseError::ExecutionError { .. }));
}

#[test]
fn scan_rejects_table_without_required_crdt_metadata() {
    let (conn, _hlc, dev) = make_fixture();
    conn.execute("CREATE TABLE t (id TEXT PRIMARY KEY NOT NULL, body TEXT)", []).unwrap();

    let err =
        scan_table_for_local_changes(&conn, "t", None, &dev.to_string(), ScanFilters::default())
            .unwrap_err();
    match err {
        DatabaseError::ExecutionError { reason, table, .. } => {
            assert_eq!(table.as_deref(), Some("t"));
            assert!(reason.contains(HLC_TIMESTAMP_COLUMN));
            assert!(reason.contains(COLUMN_HLCS_COLUMN));
        }
        other => panic!("expected a descriptive metadata error, got {other:?}"),
    }
}

#[test]
fn scan_emits_one_change_per_data_column_after_insert() {
    let (conn, mut hlc, dev) = make_fixture();
    create_crdt_table(&conn, "items", "name TEXT, body TEXT");
    insert_row_via_transformer(
        &conn,
        &mut hlc,
        "INSERT INTO items (id, name, body) VALUES ('i1', 'a', 'b')",
    );

    let changes = scan_table_for_local_changes(
        &conn,
        "items",
        None,
        &dev.to_string(),
        ScanFilters::default(),
    )
    .unwrap();
    let cols: HashSet<&str> = columns(&changes).into_iter().collect();
    assert_eq!(cols.len(), 2);
    assert!(cols.contains("name"));
    assert!(cols.contains("body"));
    for c in &changes {
        assert_eq!(c.row_pks, r#"{"id":"i1"}"#);
        assert_eq!(c.table_name, "items");
        assert_eq!(c.device_id, dev.to_string());
    }
}

#[test]
fn scan_excludes_pks_and_crdt_meta_from_emitted_columns() {
    let (conn, mut hlc, dev) = make_fixture();
    create_crdt_table(&conn, "items", "name TEXT");
    insert_row_via_transformer(&conn, &mut hlc, "INSERT INTO items (id, name) VALUES ('i1', 'a')");

    let changes = scan_table_for_local_changes(
        &conn,
        "items",
        None,
        &dev.to_string(),
        ScanFilters::default(),
    )
    .unwrap();
    assert_eq!(changes.len(), 1);
    for c in &changes {
        assert_ne!(c.column_name, "id", "PK must not emit");
        assert_ne!(c.column_name, HLC_TIMESTAMP_COLUMN);
        assert_ne!(c.column_name, COLUMN_HLCS_COLUMN);
        assert_ne!(c.column_name, COLUMN_SIGS_COLUMN);
    }
}

#[test]
fn scan_with_cursor_only_emits_columns_newer_than_it() {
    let (conn, mut hlc, dev) = make_fixture();
    create_crdt_table(&conn, "items", "name TEXT, body TEXT");
    let t1 = insert_row_via_transformer(
        &conn,
        &mut hlc,
        "INSERT INTO items (id, name, body) VALUES ('i1', 'a', 'b')",
    );
    // Update only the `body` column so its per-column HLC advances past t1.
    insert_row_via_transformer(&conn, &mut hlc, "UPDATE items SET body = 'b2' WHERE id = 'i1'");

    let changes = scan_table_for_local_changes(
        &conn,
        "items",
        Some(&t1),
        &dev.to_string(),
        ScanFilters::default(),
    )
    .unwrap();
    assert_eq!(columns(&changes), vec!["body"]);
    assert_eq!(changes[0].value.as_text(), Some("b2"));
}

#[test]
fn sig_is_none_when_column_sigs_are_absent() {
    let (conn, mut hlc, dev) = make_fixture();
    create_crdt_table(&conn, "items", "name TEXT");
    insert_row_via_transformer(&conn, &mut hlc, "INSERT INTO items (id, name) VALUES ('i1', 'a')");
    let changes = scan_table_for_local_changes(
        &conn,
        "items",
        None,
        &dev.to_string(),
        ScanFilters::default(),
    )
    .unwrap();
    assert!(changes.iter().all(|c| c.sig.is_none()));
}

#[test]
fn sig_passes_through_as_raw_json_when_present() {
    let (conn, mut hlc, dev) = make_fixture();
    create_crdt_table(&conn, "items", "name TEXT");
    insert_row_via_transformer(&conn, &mut hlc, "INSERT INTO items (id, name) VALUES ('i1', 'a')");
    conn.execute(
        &format!("UPDATE items SET {COLUMN_SIGS_COLUMN} = ?1 WHERE id = 'i1'"),
        [r#"{"name": "sig-bytes-b64", "phantom": {"space_a": "nested"}}"#],
    )
    .unwrap();
    let changes = scan_table_for_local_changes(
        &conn,
        "items",
        None,
        &dev.to_string(),
        ScanFilters::default(),
    )
    .unwrap();
    let for_name = changes.iter().find(|c| c.column_name == "name").unwrap();
    assert_eq!(for_name.sig.as_ref().unwrap().as_text(), Some("sig-bytes-b64"));
}

// The origin of a change.

fn only_this_nodes_writes_are_sent() {
    let (conn, mut hlc, dev) = make_fixture();
    create_crdt_table(&conn, "items", "name TEXT");
    insert_row_via_transformer(&conn, &mut hlc, "INSERT INTO items (id, name) VALUES ('i1', 'ours')");
    let foreign_hlc = "42/deadbeefdeadbeefdeadbeefdeadbe";
    let foreign_column_hlcs = format!("{{\"name\":\"{foreign_hlc}\"}}");
    conn.execute(
        &format!(
            "INSERT INTO items (id, name, {HLC_TIMESTAMP_COLUMN}, {COLUMN_HLCS_COLUMN}) \
             VALUES ('i2', 'theirs', ?1, ?2)"
        ),
        [foreign_hlc, foreign_column_hlcs.as_str()],
    )
    .unwrap();

    let our_node = device_uuid_to_hlc_node(&dev.to_string()).expect("dev uuid parses");
    let changes = scan_table_for_local_changes(
        &conn,
        "items",
        None,
        &dev.to_string(),
        ScanFilters { origin_node: Some(our_node), ..Default::default() },
    )
    .unwrap();
    let names: Vec<Option<&str>> = changes.iter().map(|c| c.value.as_text()).collect();
    assert_eq!(names, vec![Some("ours")]);
}

#[test]
fn filters_origin_node_filter_emits_only_this_nodes_writes() {
    only_this_nodes_writes_are_sent();
}

#[test]
fn origin_node_origin_node_filter_emits_only_this_nodes_writes() {
    only_this_nodes_writes_are_sent();
}

// Rows of a given list.

fn only_listed_rows_are_sent() {
    let (conn, mut hlc, dev) = make_fixture();
    create_crdt_table(&conn, "items", "name TEXT");
    insert_row_via_transformer(&conn, &mut hlc, "INSERT INTO items (id, name) VALUES ('i1', 'a')");
    insert_row_via_transformer(&conn, &mut hlc, "INSERT INTO items (id, name) VALUES ('i2', 'b')");
    insert_row_via_transformer(&conn, &mut hlc, "INSERT INTO items (id, name) VALUES ('i3', 'c')");

    let wanted = vec![r#"{"id":"i1"}"#.to_string(), r#"{"id":"i3"}"#.to_string()];
    let changes = scan_table_for_local_changes(
        &conn,
        "items",
        None,
        &dev.to_string(),
        ScanFilters { row_pks: Some(&wanted), ..Default::default() },
    )
    .unwrap();
    let pks = keys(&changes);
    assert_eq!(pks.len(), 2);
    assert!(pks.contains(r#"{"id":"i1"}"#));
    assert!(pks.contains(r#"{"id":"i3"}"#));
    assert!(!pks.contains(r#"{"id":"i2"}"#));
}

#[test]
fn filters_row_pks_filter_restricts_scan_to_allow_listed_rows() {
    only_listed_rows_are_sent();
}

#[test]
fn row_pks_row_pks_filter_restricts_scan_to_allow_listed_rows() {
    only_listed_rows_are_sent();
}

fn composite_keys_keep_declaration_order() {
    let (conn, mut hlc, _dev) = make_fixture();
    conn.execute(
        &format!(
            "CREATE TABLE composites (
                 col_b TEXT NOT NULL,
                 col_a TEXT NOT NULL,
                 body TEXT,
                 {HLC_TIMESTAMP_COLUMN} TEXT,
                 {COLUMN_HLCS_COLUMN} TEXT NOT NULL DEFAULT '{{}}',
                 {COLUMN_SIGS_COLUMN} TEXT NOT NULL DEFAULT '{{}}',
                 PRIMARY KEY (col_b, col_a)
             )"
        ),
        [],
    )
    .unwrap();
    install_triggers(&conn, "composites");
    insert_row_via_transformer(
        &conn,
        &mut hlc,
        "INSERT INTO composites (col_b, col_a, body) VALUES ('yy', 'xx', 'hi')",
    );

    let dev = "test-device";
    let wrong = vec![r#"{"col_a":"xx","col_b":"yy"}"#.to_string()];
    let changes = scan_table_for_local_changes(
        &conn,
        "composites",
        None,
        dev,
        ScanFilters { row_pks: Some(&wrong), ..Default::default() },
    )
    .unwrap();
    assert!(
        changes.is_empty(),
        "alphabetical-order key encoding must not match; got: {changes:?}"
    );

    let right = vec![r#"{"col_b":"yy","col_a":"xx"}"#.to_string()];
    let changes = scan_table_for_local_changes(
        &conn,
        "composites",
        None,
        dev,
        ScanFilters { row_pks: Some(&right), ..Default::default() },
    )
    .unwrap();
    assert!(!changes.is_empty(), "schema-declaration form must match");
    for c in &changes {
        assert_eq!(c.row_pks, r#"{"col_b":"yy","col_a":"xx"}"#);
    }
}

#[test]
fn filters_row_pks_filter_composite_pk_matches_schema_declaration_order() {
    composite_keys_keep_declaration_order();
}

#[test]
fn row_pks_row_pks_filter_composite_pk_matches_schema_declaration_order() {
    composite_keys_keep_declaration_order();
}

// Rows with a given value.

fn where_column_is<'a>(column: &'a str, value: &'a str) -> ScanFilters<'a> {
    ScanFilters { column_eq: Some((column, value)), ..Default::default() }
}

fn only_matching_rows_are_sent() {
    let (conn, mut hlc, dev) = make_fixture();
    create_crdt_table(&conn, "items", "bucket TEXT, name TEXT");
    insert_row_via_transformer(
        &conn,
        &mut hlc,
        "INSERT INTO items (id, bucket, name) VALUES ('i1', 'b1', 'a')",
    );
    insert_row_via_transformer(
        &conn,
        &mut hlc,
        "INSERT INTO items (id, bucket, name) VALUES ('i2', 'b2', 'b')",
    );

    let changes = scan_table_for_local_changes(
        &conn,
        "items",
        None,
        &dev.to_string(),
        where_column_is("bucket", "b1"),
    )
    .unwrap();
    let pks = keys(&changes);
    assert_eq!(pks.len(), 1, "only the b1 row may be scanned: {changes:?}");
    assert!(pks.contains(r#"{"id":"i1"}"#));
}

#[test]
fn filters_column_eq_filter_restricts_scan_to_matching_rows() {
    only_matching_rows_are_sent();
}

#[test]
fn column_eq_column_eq_filter_restricts_scan_to_matching_rows() {
    only_matching_rows_are_sent();
}

fn an_absent_column_matches_no_row() {
    let (conn, mut hlc, dev) = make_fixture();
    create_crdt_table(&conn, "items", "name TEXT");
    insert_row_via_transformer(&conn, &mut hlc, "INSERT INTO items (id, name) VALUES ('i1', 'a')");

    let changes = scan_table_for_local_changes(
        &conn,
        "items",
        None,
        &dev.to_string(),
        where_column_is("no_such_column", "whatever"),
    )
    .unwrap();
    assert!(changes.is_empty(), "must fail closed, got: {changes:?}");
}

#[test]
fn filters_column_eq_filter_naming_an_absent_column_yields_no_rows() {
    an_absent_column_matches_no_row();
}

#[test]
fn column_eq_column_eq_filter_naming_an_absent_column_yields_no_rows() {
    an_absent_column_matches_no_row();
}

fn a_value_filter_composes_with_the_cursor() {
    let (conn, mut hlc, dev) = make_fixture();
    create_crdt_table(&conn, "items", "bucket TEXT, name TEXT");
    let t1 = insert_row_via_transformer(
        &conn,
        &mut hlc,
        "INSERT INTO items (id, bucket, name) VALUES ('i1', 'b1', 'a')",
    );
    insert_row_via_transformer(
        &conn,
        &mut hlc,
        "INSERT INTO items (id, bucket, name) VALUES ('i2', 'b2', 'b')",
    );
    // Both rows change after t1; only the b1 one may survive the filter.
    insert_row_via_transformer(&conn, &mut hlc, "UPDATE items SET name = 'a2' WHERE id = 'i1'");
    insert_row_via_transformer(
        &conn,
        &mut hlc,
        "UPDATE items SET name = 'b_updated' WHERE id = 'i2'",
    );

    let changes = scan_table_for_local_changes(
        &conn,
        "items",
        Some(&t1),
        &dev.to_string(),
        where_column_is("bucket", "b1"),
    )
    .unwrap();
    let cols: Vec<(&str, Option<&str>)> =
        changes.iter().map(|c| (c.column_name.as_str(), c.value.as_text())).collect();
    assert_eq!(
        cols,
        vec![("name", Some("a2"))],
        "only i1's post-cursor name change may surface: {changes:?}"
    );
}

#[test]
fn filters_column_eq_filter_composes_with_after_hlc_cursor() {
    a_value_filter_composes_with_the_cursor();
}

#[test]
fn column_eq_column_eq_filter_composes_with_after_hlc_cursor() {
    a_value_filter_composes_with_the_cursor();
}

fn a_filter_value_is_taken_literally() {
    let (conn, mut hlc, dev) = make_fixture();
    create_crdt_table(&conn, "items", "bucket TEXT, name TEXT");
    insert_row_via_transformer(
        &conn,
        &mut hlc,
        "INSERT INTO items (id, bucket, name) VALUES ('i1', 'o''brien_%', 'a')",
    );
    insert_row_via_transformer(
        &conn,
        &mut hlc,
        "INSERT INTO items (id, bucket, name) VALUES ('i2', 'obrien_x', 'b')",
    );

    let changes = scan_table_for_local_changes(
        &conn,
        "items",
        None,
        &dev.to_string(),
        where_column_is("bucket", "o'brien_%"),
    )
    .unwrap();
    let pks = keys(&changes);
    assert_eq!(pks.len(), 1, "literal match only: {changes:?}");
    assert!(pks.contains(r#"{"id":"i1"}"#));
}

#[test]
fn filters_column_eq_filter_value_with_sql_metacharacters_matches_literally() {
    a_filter_value_is_taken_literally();
}

#[test]
fn column_eq_column_eq_filter_value_with_sql_metacharacters_matches_literally() {
    a_filter_value_is_taken_literally();
}

fn an_unsafe_filter_column_is_refused() {
    let (conn, mut hlc, dev) = make_fixture();
    conn.execute(
        &format!(
            r#"CREATE TABLE items (
                 id TEXT PRIMARY KEY NOT NULL,
                 bucket TEXT, "bucket"" OR 1=1 OR ""bucket_no_trigger" TEXT,
                 {HLC_TIMESTAMP_COLUMN} TEXT,
                 {COLUMN_HLCS_COLUMN} TEXT NOT NULL DEFAULT '{{}}',
                 {COLUMN_SIGS_COLUMN} TEXT NOT NULL DEFAULT '{{}}'
             )"#
        ),
        [],
    )
    .unwrap();
    insert_row_via_transformer(&conn, &mut hlc, "INSERT INTO items (id, bucket) VALUES ('i1', 'b1')");
    insert_row_via_transformer(&conn, &mut hlc, "INSERT INTO items (id, bucket) VALUES ('i2', 'b2')");

    let err = scan_table_for_local_changes(
        &conn,
        "items",
        None,
        &dev.to_string(),
        where_column_is(r#"bucket" OR 1=1 OR "bucket_no_trigger"#, "matches-nothing"),
    )
    .unwrap_err();
    assert!(
        matches!(err, DatabaseError::ValidationError { .. }),
        "an unsafe filter identifier must be an error, not a silent scan: {err:?}"
    );
}

#[test]
fn filters_column_eq_filter_rejects_an_identifier_unsafe_column_name() {
    an_unsafe_filter_column_is_refused();
}

#[test]
fn column_eq_column_eq_filter_rejects_an_identifier_unsafe_column_name() {
    an_unsafe_filter_column_is_refused();
}

fn missing_metadata_comes_before_an_absent_filter_column() {
    let (conn, _hlc, dev) = make_fixture();
    conn.execute("CREATE TABLE t (id TEXT PRIMARY KEY NOT NULL, body TEXT)", []).unwrap();

    let err = scan_table_for_local_changes(
        &conn,
        "t",
        None,
        &dev.to_string(),
        where_column_is("no_such_column", "x"),
    )
    .unwrap_err();
    assert!(
        matches!(err, DatabaseError::ExecutionError { .. }),
        "the metadata error must outrank the absent-column fail-closed rule: {err:?}"
    );
}

#[test]
fn filters_missing_crdt_metadata_outranks_an_absent_filter_column() {
    missing_metadata_comes_before_an_absent_filter_column();
}

#[test]
fn column_eq_missing_crdt_metadata_outranks_an_absent_filter_column() {
    missing_metadata_comes_before_an_absent_filter_column();
}

fn an_unsafe_filter_column_comes_before_the_schema() {
    let (conn, _hlc, dev) = make_fixture();
    conn.execute("CREATE TABLE t (id TEXT PRIMARY KEY NOT NULL, body TEXT)", []).unwrap();

    let err = scan_table_for_local_changes(
        &conn,
        "t",
        None,
        &dev.to_string(),
        where_column_is(r#"body" OR 1=1 OR "body"#, "matches-nothing"),
    )
    .unwrap_err();
    assert!(
        matches!(err, DatabaseError::ValidationError { .. }),
        "an unusable filter name must not depend on table state: {err:?}"
    );
}

#[test]
fn filters_column_eq_filter_rejects_an_unsafe_name_before_any_schema_check() {
    an_unsafe_filter_column_comes_before_the_schema();
}

#[test]
fn column_eq_column_eq_filter_rejects_an_unsafe_name_before_any_schema_check() {
    an_unsafe_filter_column_comes_before_the_schema();
}

#[test]
fn column_eq_filter_may_target_a_no_trigger_column() {
    let (conn, mut hlc, dev) = make_fixture();
    create_crdt_table(&conn, "items", "bucket_no_trigger TEXT, name TEXT");
    insert_row_via_transformer(
        &conn,
        &mut hlc,
        "INSERT INTO items (id, bucket_no_trigger, name) VALUES ('i1', 'b1', 'a')",
    );
    insert_row_via_transformer(
        &conn,
        &mut hlc,
        "INSERT INTO items (id, bucket_no_trigger, name) VALUES ('i2', 'b2', 'b')",
    );

    let changes = scan_table_for_local_changes(
        &conn,
        "items",
        None,
        &dev.to_string(),
        where_column_is("bucket_no_trigger", "b1"),
    )
    .unwrap();
    let mut cols = columns(&changes);
    cols.sort_unstable();
    assert_eq!(
        cols,
        vec!["bucket_no_trigger", "name"],
        "filtering on a `_no_trigger` column neither withholds it nor the \
         row's tracked columns: {changes:?}"
    );
    assert!(
        changes.iter().all(|c| c.row_pks == r#"{"id":"i1"}"#),
        "only the matching row may be returned: {changes:?}"
    );
}

#[test]
fn column_eq_filter_may_target_a_no_sync_column() {
    let (conn, mut hlc, dev) = make_fixture();
    create_crdt_table(&conn, "items", "bucket_no_sync TEXT, name TEXT");
    insert_row_via_transformer(
        &conn,
        &mut hlc,
        "INSERT INTO items (id, bucket_no_sync, name) VALUES ('i1', 'b1', 'a')",
    );
    insert_row_via_transformer(
        &conn,
        &mut hlc,
        "INSERT INTO items (id, bucket_no_sync, name) VALUES ('i2', 'b2', 'b')",
    );

    let changes = scan_table_for_local_changes(
        &conn,
        "items",
        None,
        &dev.to_string(),
        where_column_is("bucket_no_sync", "b1"),
    )
    .unwrap();
    assert_eq!(
        columns(&changes),
        vec!["name"],
        "the filter column restricts rows without shipping: {changes:?}"
    );
    assert_eq!(changes[0].row_pks, r#"{"id":"i1"}"#);
}

#[test]
fn a_column_without_a_timestamp_of_its_own_travels_under_that_of_the_row() {
    let (conn, _hlc, dev) = make_fixture();
    create_crdt_table(&conn, "items", "name TEXT, body TEXT");
    conn.execute(
        &format!("UPDATE {TABLE_CRDT_CONFIGS} SET value = '0' WHERE key = 'triggers_enabled'"),
        [],
    )
    .unwrap();
    conn.execute(
        &format!(
            "INSERT INTO items (id, name, body, {HLC_TIMESTAMP_COLUMN}, {COLUMN_HLCS_COLUMN}) \
             VALUES ('i1', 'a', 'b', '7/abc', '{{\"name\":\"5/abc\"}}')"
        ),
        [],
    )
    .unwrap();
    let changes = scan_table_for_local_changes(
        &conn,
        "items",
        None,
        &dev.to_string(),
        ScanFilters::default(),
    )
    .unwrap();
    let stamped: Vec<(&str, &str)> = changes
        .iter()
        .map(|c| (c.column_name.as_str(), c.hlc_timestamp.as_str()))
        .collect();
    assert_eq!(stamped, vec![("name", "5/abc"), ("body", "7/abc")]);
}

#[test]
fn a_cursor_is_compared_by_number() {
    let (conn, mut hlc, dev) = make_fixture();
    create_crdt_table(&conn, "items", "name TEXT");
    insert_row_via_transformer(&conn, &mut hlc, "INSERT INTO items (id, name) VALUES ('i1', 'a')");
    conn.execute(
        "UPDATE items SET haex_hlc_no_sync = '100/a', haex_column_hlcs_no_sync = '{\"name\":\"100/a\"}'",
        [],
    )
    .unwrap();
    let scan = |after: &str| {
        let filters = ScanFilters::default();
        scan_table_for_local_changes(&conn, "items", Some(after), &dev.to_string(), filters).unwrap()
    };
    assert_eq!(columns(&scan("99/a")), vec!["name"]);
    assert!(scan("100/a").is_empty());
    assert!(scan("101/a").is_empty());
}
