//! The trigger installer, run against an in-memory database.

use haex_crdt::crdt::columns::{
    COLUMN_HLCS_COLUMN, COLUMN_SIGS_COLUMN, DELETED_ROWS_TABLE, HLC_FUNCTION_NAME,
    HLC_TIMESTAMP_COLUMN, TABLE_CRDT_CONFIGS, TABLE_CRDT_DIRTY_TABLES, UUID_FUNCTION_NAME,
};
use haex_crdt::crdt::identifier::is_safe_identifier;
use haex_crdt::crdt::schema::ColumnInfo;
use haex_crdt::crdt::trigger::{
    drop_triggers_sql, generate_delete_trigger_sql, lacks_trigger, plan_crdt_columns,
    plan_triggers, required_trigger_names, table_schema_sql, CrdtSetupError,
    TriggerInstallerConfig, TriggerSetupResult,
};
use haex_crdt::error::DatabaseError;
use rusqlite::functions::FunctionFlags;
use rusqlite::Connection;
use std::sync::atomic::{AtomicU64, Ordering};

fn get_table_schema(conn: &Connection, table: &str) -> Result<Vec<ColumnInfo>, CrdtSetupError> {
    let sql = table_schema_sql(table)?;
    let mut stmt = conn.prepare(&sql).unwrap();
    let rows = stmt
        .query_map([], |row| {
            Ok(ColumnInfo {
                name: row.get("name")?,
                column_type: row.get("type")?,
                is_pk: row.get::<_, i64>("pk")? > 0,
            })
        })
        .unwrap();
    Ok(rows.map(|r| r.unwrap()).collect())
}

fn setup_triggers_for_table(
    conn: &Connection,
    table: &str,
    recreate: bool,
    config: &TriggerInstallerConfig,
) -> Result<TriggerSetupResult, CrdtSetupError> {
    let schema = get_table_schema(conn, table)?;
    match plan_triggers(table, &schema, recreate, config)? {
        Some(statements) => {
            for sql in statements {
                conn.execute_batch(&sql).unwrap();
            }
            Ok(TriggerSetupResult::Success)
        }
        None => Ok(TriggerSetupResult::TableNotFound),
    }
}

fn drop_triggers_for_table(conn: &Connection, table: &str) -> Result<(), CrdtSetupError> {
    conn.execute_batch(&drop_triggers_sql(table)?).unwrap();
    Ok(())
}

fn ensure_crdt_columns(conn: &Connection, table: &str) -> Result<bool, CrdtSetupError> {
    let schema = get_table_schema(conn, table)?;
    let statements = plan_crdt_columns(table, &schema);
    for sql in &statements {
        conn.execute(sql, []).unwrap();
    }
    Ok(!statements.is_empty())
}

fn ensure_crdt_columns_and_triggers(
    conn: &Connection,
    table: &str,
    config: &TriggerInstallerConfig,
) -> Result<(bool, bool), CrdtSetupError> {
    let added = ensure_crdt_columns(conn, table)?;
    let mut stmt = conn.prepare("SELECT name FROM sqlite_master WHERE type = 'trigger'").unwrap();
    let installed: Vec<String> =
        stmt.query_map([], |r| r.get(0)).unwrap().map(|r| r.unwrap()).collect();
    drop(stmt);
    let created = lacks_trigger(table, &installed)
        && setup_triggers_for_table(conn, table, false, config)? == TriggerSetupResult::Success;
    Ok((added, created))
}

fn register_test_udfs(conn: &Connection) {
    let uuids = AtomicU64::new(0);
    let hlcs = AtomicU64::new(0);
    conn.create_scalar_function(
        UUID_FUNCTION_NAME,
        0,
        FunctionFlags::SQLITE_UTF8 | FunctionFlags::SQLITE_INNOCUOUS,
        move |_| Ok(format!("test-uuid-{}", uuids.fetch_add(1, Ordering::Relaxed))),
    )
    .expect("register gen_uuid");
    conn.create_scalar_function(
        HLC_FUNCTION_NAME,
        0,
        FunctionFlags::SQLITE_UTF8 | FunctionFlags::SQLITE_INNOCUOUS,
        move |_| Ok(format!("hlc-{:016}", hlcs.fetch_add(1, Ordering::Relaxed))),
    )
    .expect("register current_hlc");
}

fn setup_crdt_bookkeeping(conn: &Connection) {
    conn.execute_batch(&format!(
        "CREATE TABLE {TABLE_CRDT_CONFIGS} (
             key TEXT PRIMARY KEY NOT NULL,
             value TEXT,
             type TEXT
         );
         CREATE TABLE {TABLE_CRDT_DIRTY_TABLES} (
             table_name TEXT PRIMARY KEY NOT NULL,
             last_modified TEXT
         );
         INSERT INTO {TABLE_CRDT_CONFIGS} (key, value, type)
         VALUES ('triggers_enabled', '1', 'boolean');

         CREATE TABLE {DELETED_ROWS_TABLE} (
             id TEXT PRIMARY KEY NOT NULL,
             table_name TEXT NOT NULL,
             row_pks TEXT NOT NULL,
             {HLC_TIMESTAMP_COLUMN} TEXT,
             {COLUMN_HLCS_COLUMN} TEXT NOT NULL DEFAULT '{{}}',
             {COLUMN_SIGS_COLUMN} TEXT NOT NULL DEFAULT '{{}}'
         );"
    ))
    .expect("setup CRDT bookkeeping tables");
}

#[test]
fn ensure_crdt_columns_adds_all_three_when_missing() {
    let conn = Connection::open_in_memory().unwrap();
    conn.execute(
        "CREATE TABLE test_table (id TEXT PRIMARY KEY, name TEXT)",
        [],
    )
    .unwrap();

    let tx = conn.unchecked_transaction().unwrap();
    let result = ensure_crdt_columns(&tx, "test_table").unwrap();
    assert!(result, "should have added columns");
    tx.commit().unwrap();

    let columns = get_table_schema(&conn, "test_table").unwrap();
    let names: Vec<&str> = columns.iter().map(|c| c.name.as_str()).collect();
    assert!(names.contains(&HLC_TIMESTAMP_COLUMN));
    assert!(names.contains(&COLUMN_HLCS_COLUMN));
    assert!(names.contains(&COLUMN_SIGS_COLUMN));
}

#[test]
fn ensure_crdt_columns_is_idempotent_when_columns_present() {
    let conn = Connection::open_in_memory().unwrap();
    conn.execute(
        &format!(
            "CREATE TABLE test_table (
                id TEXT PRIMARY KEY,
                name TEXT,
                {HLC_TIMESTAMP_COLUMN} TEXT,
                {COLUMN_HLCS_COLUMN} TEXT NOT NULL DEFAULT '{{}}',
                {COLUMN_SIGS_COLUMN} TEXT NOT NULL DEFAULT '{{}}'
            )"
        ),
        [],
    )
    .unwrap();

    let tx = conn.unchecked_transaction().unwrap();
    let result = ensure_crdt_columns(&tx, "test_table").unwrap();
    assert!(!result, "should not have added any columns");
    tx.commit().unwrap();
}

#[test]
fn ensure_crdt_columns_backfills_partial_state() {
    let conn = Connection::open_in_memory().unwrap();
    conn.execute(
        &format!(
            "CREATE TABLE test_table (
                id TEXT PRIMARY KEY,
                name TEXT,
                {HLC_TIMESTAMP_COLUMN} TEXT
            )"
        ),
        [],
    )
    .unwrap();

    let tx = conn.unchecked_transaction().unwrap();
    let result = ensure_crdt_columns(&tx, "test_table").unwrap();
    assert!(result, "should have added missing columns");
    tx.commit().unwrap();

    let names: Vec<String> = get_table_schema(&conn, "test_table")
        .unwrap()
        .into_iter()
        .map(|c| c.name)
        .collect();
    assert!(names.contains(&HLC_TIMESTAMP_COLUMN.to_string()));
    assert!(names.contains(&COLUMN_HLCS_COLUMN.to_string()));
    assert!(names.contains(&COLUMN_SIGS_COLUMN.to_string()));
}

#[test]
fn ensure_crdt_columns_returns_false_on_nonexistent_table() {
    let conn = Connection::open_in_memory().unwrap();
    let tx = conn.unchecked_transaction().unwrap();
    let result = ensure_crdt_columns(&tx, "nonexistent_table").unwrap();
    assert!(!result);
}

fn setup_trigger_fixture() -> Connection {
    let conn = Connection::open_in_memory().expect("open in-memory db");
    register_test_udfs(&conn);
    setup_crdt_bookkeeping(&conn);

    conn.execute_batch(&format!(
        "CREATE TABLE items (
             id TEXT PRIMARY KEY NOT NULL,
             name TEXT,
             body TEXT,
             {HLC_TIMESTAMP_COLUMN} TEXT,
             {COLUMN_HLCS_COLUMN} TEXT NOT NULL DEFAULT '{{}}',
             {COLUMN_SIGS_COLUMN} TEXT NOT NULL DEFAULT '{{}}'
         );"
    ))
    .expect("create items table");

    let tx = conn.unchecked_transaction().unwrap();
    assert!(matches!(
        setup_triggers_for_table(&tx, "items", false, &TriggerInstallerConfig::default()).unwrap(),
        TriggerSetupResult::Success
    ));
    tx.commit().unwrap();

    conn
}

#[test]
fn setup_returns_table_not_found_when_table_missing() {
    let conn = Connection::open_in_memory().unwrap();
    let tx = conn.unchecked_transaction().unwrap();
    assert!(matches!(
        setup_triggers_for_table(
            &tx,
            "no_such_table",
            false,
            &TriggerInstallerConfig::default()
        )
        .unwrap(),
        TriggerSetupResult::TableNotFound
    ));
}

#[test]
fn setup_errors_when_hlc_column_missing() {
    let conn = Connection::open_in_memory().unwrap();
    conn.execute("CREATE TABLE items (id TEXT PRIMARY KEY)", [])
        .unwrap();
    let tx = conn.unchecked_transaction().unwrap();
    let err = setup_triggers_for_table(&tx, "items", false, &TriggerInstallerConfig::default())
        .unwrap_err();
    assert!(matches!(err, CrdtSetupError::HlcColumnMissing { .. }));
}

#[test]
fn setup_errors_when_primary_key_missing() {
    let conn = Connection::open_in_memory().unwrap();
    conn.execute(
        &format!(
            "CREATE TABLE items (
                id TEXT,
                {HLC_TIMESTAMP_COLUMN} TEXT
            )"
        ),
        [],
    )
    .unwrap();
    let tx = conn.unchecked_transaction().unwrap();
    let err = setup_triggers_for_table(&tx, "items", false, &TriggerInstallerConfig::default())
        .unwrap_err();
    assert!(matches!(err, CrdtSetupError::PrimaryKeyMissing { .. }));
}

#[test]
fn insert_populates_column_hlcs_and_marks_table_dirty() {
    let conn = setup_trigger_fixture();

    conn.execute(
        &format!("INSERT INTO items (id, name, body, {HLC_TIMESTAMP_COLUMN}) VALUES ('i1', 'a', 'b', 'hlc-seed')"),
        [],
    )
    .unwrap();

    let (hlcs_json,): (String,) = conn
        .query_row(
            &format!("SELECT {COLUMN_HLCS_COLUMN} FROM items WHERE id = 'i1'"),
            [],
            |r| Ok((r.get(0)?,)),
        )
        .unwrap();
    let parsed: serde_json::Value = serde_json::from_str(&hlcs_json).unwrap();
    assert_eq!(parsed["name"], "hlc-seed");
    assert_eq!(parsed["body"], "hlc-seed");

    let dirty: i64 = conn
        .query_row(
            &format!("SELECT COUNT(*) FROM {TABLE_CRDT_DIRTY_TABLES} WHERE table_name = 'items'"),
            [],
            |r| r.get(0),
        )
        .unwrap();
    assert_eq!(dirty, 1);
}

#[test]
fn missing_triggers_enabled_config_defaults_to_enabled_for_all_triggers() {
    let conn = setup_trigger_fixture();
    conn.execute(
        &format!("DELETE FROM {TABLE_CRDT_CONFIGS} WHERE key = 'triggers_enabled'"),
        [],
    )
    .unwrap();

    conn.execute(
        &format!("INSERT INTO items (id, name, body, {HLC_TIMESTAMP_COLUMN}) VALUES ('i1', 'a', 'b', 'hlc-1')"),
        [],
    )
    .unwrap();
    conn.execute(
        &format!("UPDATE items SET body = 'b2', {HLC_TIMESTAMP_COLUMN} = 'hlc-2' WHERE id = 'i1'"),
        [],
    )
    .unwrap();

    let hlcs_json: String = conn
        .query_row(
            &format!("SELECT {COLUMN_HLCS_COLUMN} FROM items WHERE id = 'i1'"),
            [],
            |r| r.get(0),
        )
        .unwrap();
    let parsed: serde_json::Value = serde_json::from_str(&hlcs_json).unwrap();
    assert_eq!(parsed["body"], "hlc-2");

    conn.execute("DELETE FROM items WHERE id = 'i1'", [])
        .unwrap();

    let delete_events: i64 = conn
        .query_row(
            &format!("SELECT COUNT(*) FROM {DELETED_ROWS_TABLE}"),
            [],
            |r| r.get(0),
        )
        .unwrap();
    assert_eq!(delete_events, 1);

    let dirty_tables: i64 = conn
        .query_row(
            &format!("SELECT COUNT(*) FROM {TABLE_CRDT_DIRTY_TABLES}"),
            [],
            |r| r.get(0),
        )
        .unwrap();
    assert_eq!(
        dirty_tables, 2,
        "INSERT/UPDATE and delete-log triggers must run"
    );
}

#[test]
fn update_advances_only_changed_columns_hlc() {
    let conn = setup_trigger_fixture();

    conn.execute(
        &format!("INSERT INTO items (id, name, body, {HLC_TIMESTAMP_COLUMN}) VALUES ('i1', 'a', 'b', 'hlc-1')"),
        [],
    )
    .unwrap();
    conn.execute(
        &format!("UPDATE items SET body = 'b2', {HLC_TIMESTAMP_COLUMN} = 'hlc-2' WHERE id = 'i1'"),
        [],
    )
    .unwrap();

    let (hlcs_json,): (String,) = conn
        .query_row(
            &format!("SELECT {COLUMN_HLCS_COLUMN} FROM items WHERE id = 'i1'"),
            [],
            |r| Ok((r.get(0)?,)),
        )
        .unwrap();
    let parsed: serde_json::Value = serde_json::from_str(&hlcs_json).unwrap();
    assert_eq!(parsed["name"], "hlc-1", "unchanged column keeps its HLC");
    assert_eq!(parsed["body"], "hlc-2", "changed column advances its HLC");
}

#[test]
fn update_that_touches_only_meta_column_does_not_mark_dirty() {
    let conn = setup_trigger_fixture();
    conn.execute(
        &format!("INSERT INTO items (id, name, body, {HLC_TIMESTAMP_COLUMN}) VALUES ('i1', 'a', 'b', 'hlc-1')"),
        [],
    )
    .unwrap();
    conn.execute(
        &format!("DELETE FROM {TABLE_CRDT_DIRTY_TABLES} WHERE table_name = 'items'"),
        [],
    )
    .unwrap();

    conn.execute(
        &format!("UPDATE items SET {HLC_TIMESTAMP_COLUMN} = 'hlc-2' WHERE id = 'i1'"),
        [],
    )
    .unwrap();

    let dirty: i64 = conn
        .query_row(
            &format!("SELECT COUNT(*) FROM {TABLE_CRDT_DIRTY_TABLES} WHERE table_name = 'items'"),
            [],
            |r| r.get(0),
        )
        .unwrap();
    assert_eq!(dirty, 0, "meta-only UPDATE must not re-mark items dirty");
}

#[test]
fn delete_records_event_row_and_marks_deleted_rows_dirty() {
    let conn = setup_trigger_fixture();
    conn.execute(
        &format!("INSERT INTO items (id, name, body, {HLC_TIMESTAMP_COLUMN}) VALUES ('i1', 'a', 'b', 'hlc-1')"),
        [],
    )
    .unwrap();

    conn.execute("DELETE FROM items WHERE id = 'i1'", [])
        .unwrap();

    let (table_name, row_pks): (String, String) = conn
        .query_row(
            &format!("SELECT table_name, row_pks FROM {DELETED_ROWS_TABLE}"),
            [],
            |r| Ok((r.get(0)?, r.get(1)?)),
        )
        .unwrap();
    assert_eq!(table_name, "items");
    assert_eq!(row_pks, r#"{"id":"i1"}"#);

    let dirty: i64 = conn
        .query_row(
            &format!("SELECT COUNT(*) FROM {TABLE_CRDT_DIRTY_TABLES} WHERE table_name = ?"),
            [DELETED_ROWS_TABLE],
            |r| r.get(0),
        )
        .unwrap();
    assert_eq!(dirty, 1);
}

#[test]
fn triggers_disabled_flag_suppresses_all_three_triggers() {
    let conn = setup_trigger_fixture();
    conn.execute(
        &format!("UPDATE {TABLE_CRDT_CONFIGS} SET value = '0' WHERE key = 'triggers_enabled'"),
        [],
    )
    .unwrap();

    conn.execute(
        &format!("INSERT INTO items (id, name, body, {HLC_TIMESTAMP_COLUMN}) VALUES ('i1', 'a', 'b', 'hlc-1')"),
        [],
    )
    .unwrap();
    conn.execute(
        &format!("UPDATE items SET body = 'b2', {HLC_TIMESTAMP_COLUMN} = 'hlc-2' WHERE id = 'i1'"),
        [],
    )
    .unwrap();
    conn.execute("DELETE FROM items WHERE id = 'i1'", [])
        .unwrap();

    let dirty: i64 = conn
        .query_row(
            &format!("SELECT COUNT(*) FROM {TABLE_CRDT_DIRTY_TABLES}"),
            [],
            |r| r.get(0),
        )
        .unwrap();
    assert_eq!(dirty, 0);

    let delete_events: i64 = conn
        .query_row(
            &format!("SELECT COUNT(*) FROM {DELETED_ROWS_TABLE}"),
            [],
            |r| r.get(0),
        )
        .unwrap();
    assert_eq!(delete_events, 0);
}

#[test]
fn recreate_triggers_replaces_existing_triggers_without_error() {
    let conn = setup_trigger_fixture();
    let tx = conn.unchecked_transaction().unwrap();
    assert!(matches!(
        setup_triggers_for_table(&tx, "items", true, &TriggerInstallerConfig::default()).unwrap(),
        TriggerSetupResult::Success
    ));
    tx.commit().unwrap();
}

#[test]
fn drop_triggers_removes_all_three_installed_triggers() {
    let conn = setup_trigger_fixture();

    let count_before: i64 = conn
        .query_row(
            "SELECT COUNT(*) FROM sqlite_master WHERE type = 'trigger' AND name LIKE 'z_dirty_items_%'",
            [],
            |r| r.get(0),
        )
        .unwrap();
    assert_eq!(count_before, 3, "expected 3 triggers after setup");

    let tx = conn.unchecked_transaction().unwrap();
    drop_triggers_for_table(&tx, "items").unwrap();
    tx.commit().unwrap();

    let count_after: i64 = conn
        .query_row(
            "SELECT COUNT(*) FROM sqlite_master WHERE type = 'trigger' AND name LIKE 'z_dirty_items_%'",
            [],
            |r| r.get(0),
        )
        .unwrap();
    assert_eq!(count_after, 0);
}

#[test]
fn setup_on_deleted_rows_table_does_not_install_self_referencing_delete_trigger() {
    let conn = Connection::open_in_memory().unwrap();
    register_test_udfs(&conn);
    setup_crdt_bookkeeping(&conn);

    let tx = conn.unchecked_transaction().unwrap();
    assert!(matches!(
        setup_triggers_for_table(
            &tx,
            DELETED_ROWS_TABLE,
            false,
            &TriggerInstallerConfig::default()
        )
        .unwrap(),
        TriggerSetupResult::Success
    ));
    tx.commit().unwrap();

    let delete_trigger_name = format!("z_dirty_{DELETED_ROWS_TABLE}_delete");
    let count: i64 = conn
        .query_row(
            "SELECT COUNT(*) FROM sqlite_master WHERE type = 'trigger' AND name = ?",
            [&delete_trigger_name],
            |r| r.get(0),
        )
        .unwrap();
    assert_eq!(count, 0, "no DELETE trigger on the delete-event log itself");
}

#[test]
fn ensure_on_deleted_rows_table_is_idempotent_without_delete_trigger() {
    let conn = Connection::open_in_memory().unwrap();
    register_test_udfs(&conn);
    setup_crdt_bookkeeping(&conn);

    let tx = conn.unchecked_transaction().unwrap();
    assert_eq!(
        ensure_crdt_columns_and_triggers(
            &tx,
            DELETED_ROWS_TABLE,
            &TriggerInstallerConfig::default()
        )
        .unwrap(),
        (false, true)
    );
    tx.commit().unwrap();

    let tx = conn.unchecked_transaction().unwrap();
    assert_eq!(
        ensure_crdt_columns_and_triggers(
            &tx,
            DELETED_ROWS_TABLE,
            &TriggerInstallerConfig::default()
        )
        .unwrap(),
        (false, false)
    );
}

#[test]
fn setup_recreates_any_missing_trigger() {
    let conn = setup_trigger_fixture();
    conn.execute_batch(
        "DROP TRIGGER z_dirty_items_update;
         DROP TRIGGER z_dirty_items_delete;",
    )
    .unwrap();

    let tx = conn.unchecked_transaction().unwrap();
    let result =
        ensure_crdt_columns_and_triggers(&tx, "items", &TriggerInstallerConfig::default()).unwrap();
    tx.commit().unwrap();

    assert_eq!(result, (false, true));
    let trigger_count: i64 = conn
        .query_row(
            "SELECT COUNT(*) FROM sqlite_master WHERE type = 'trigger' AND name LIKE 'z_dirty_items_%'",
            [],
            |r| r.get(0),
        )
        .unwrap();
    assert_eq!(trigger_count, 3);
}

#[test]
fn setup_rejects_unsafe_tracked_column_names_before_sql_generation() {
    let conn = Connection::open_in_memory().unwrap();
    conn.execute(
        &format!(
            "CREATE TABLE items (
                id TEXT PRIMARY KEY,
                \"bad'column\" TEXT,
                {HLC_TIMESTAMP_COLUMN} TEXT
            )"
        ),
        [],
    )
    .unwrap();

    let tx = conn.unchecked_transaction().unwrap();
    let err = setup_triggers_for_table(&tx, "items", false, &TriggerInstallerConfig::default())
        .unwrap_err();
    assert!(matches!(err, CrdtSetupError::UnsafeIdentifier { .. }));
}

#[test]
fn setup_rejects_unsafe_primary_key_names_before_sql_generation() {
    let conn = Connection::open_in_memory().unwrap();
    conn.execute(
        &format!(
            "CREATE TABLE items (
                \"bad\"\"key\" TEXT PRIMARY KEY,
                {HLC_TIMESTAMP_COLUMN} TEXT
            )"
        ),
        [],
    )
    .unwrap();

    let tx = conn.unchecked_transaction().unwrap();
    let err = setup_triggers_for_table(&tx, "items", false, &TriggerInstallerConfig::default())
        .unwrap_err();
    assert!(matches!(err, CrdtSetupError::UnsafeIdentifier { .. }));
}

#[test]
fn setup_accepts_hyphenated_column_names() {
    let conn = Connection::open_in_memory().unwrap();
    register_test_udfs(&conn);
    setup_crdt_bookkeeping(&conn);
    conn.execute_batch(&format!(
        "CREATE TABLE items (
             id TEXT PRIMARY KEY,
             \"display-name\" TEXT,
             {HLC_TIMESTAMP_COLUMN} TEXT,
             {COLUMN_HLCS_COLUMN} TEXT NOT NULL DEFAULT '{{}}',
             {COLUMN_SIGS_COLUMN} TEXT NOT NULL DEFAULT '{{}}'
         );"
    ))
    .unwrap();

    let tx = conn.unchecked_transaction().unwrap();
    setup_triggers_for_table(&tx, "items", false, &TriggerInstallerConfig::default()).unwrap();
    tx.commit().unwrap();

    conn.execute(
        &format!("INSERT INTO items (id, \"display-name\", {HLC_TIMESTAMP_COLUMN}) VALUES ('i1', 'a', 'hlc-1')"),
        [],
    )
    .unwrap();
    conn.execute(
        &format!("UPDATE items SET \"display-name\" = 'b', {HLC_TIMESTAMP_COLUMN} = 'hlc-2' WHERE id = 'i1'"),
        [],
    )
    .unwrap();

    let hlcs_json: String = conn
        .query_row(
            &format!("SELECT {COLUMN_HLCS_COLUMN} FROM items WHERE id = 'i1'"),
            [],
            |r| r.get(0),
        )
        .unwrap();
    let parsed: serde_json::Value = serde_json::from_str(&hlcs_json).unwrap();
    assert_eq!(parsed["display-name"], "hlc-2");
}

#[test]
fn ensure_crdt_columns_and_triggers_installs_both_on_bare_table() {
    let conn = Connection::open_in_memory().unwrap();
    register_test_udfs(&conn);
    setup_crdt_bookkeeping(&conn);
    conn.execute("CREATE TABLE items (id TEXT PRIMARY KEY, name TEXT)", [])
        .unwrap();

    let tx = conn.unchecked_transaction().unwrap();
    let (cols_added, triggers_created) =
        ensure_crdt_columns_and_triggers(&tx, "items", &TriggerInstallerConfig::default()).unwrap();
    tx.commit().unwrap();

    assert!(cols_added);
    assert!(triggers_created);

    let trigger_count: i64 = conn
        .query_row(
            "SELECT COUNT(*) FROM sqlite_master WHERE type = 'trigger' AND name LIKE 'z_dirty_items_%'",
            [],
            |r| r.get(0),
        )
        .unwrap();
    assert_eq!(trigger_count, 3);
}

#[test]
fn is_safe_identifier_accepts_alnum_underscore_hyphen_rejects_empty_and_symbols() {
    assert!(is_safe_identifier("plain"));
    assert!(is_safe_identifier("with_underscore"));
    assert!(is_safe_identifier("with-hyphen"));
    assert!(is_safe_identifier("digits123"));

    assert!(!is_safe_identifier(""));
    assert!(!is_safe_identifier("with space"));
    assert!(!is_safe_identifier("quotes\""));
    assert!(!is_safe_identifier("semi;colon"));
}

#[test]
fn crdt_setup_error_converts_into_database_error_crdt_setup_variant() {
    let err = CrdtSetupError::PrimaryKeyMissing {
        table_name: "t".to_string(),
    };
    let db_err: DatabaseError = err.into();
    assert!(matches!(db_err, DatabaseError::CrdtSetup(_)));
}

fn setup_fixture_with_updated_at(config: &TriggerInstallerConfig) -> Connection {
    let conn = Connection::open_in_memory().expect("open in-memory db");
    register_test_udfs(&conn);
    setup_crdt_bookkeeping(&conn);
    conn.execute_batch(&format!(
        "CREATE TABLE items (
             id INTEGER PRIMARY KEY,
             value TEXT,
             updated_at TEXT,
             {HLC_TIMESTAMP_COLUMN} TEXT,
             {COLUMN_HLCS_COLUMN} TEXT NOT NULL DEFAULT '{{}}',
             {COLUMN_SIGS_COLUMN} TEXT NOT NULL DEFAULT '{{}}'
         );"
    ))
    .expect("create items table with updated_at");

    let tx = conn.unchecked_transaction().unwrap();
    setup_triggers_for_table(&tx, "items", false, config).unwrap();
    tx.commit().unwrap();
    conn
}

fn read_items_trigger_bodies(conn: &Connection) -> String {
    let mut stmt = conn
        .prepare(
            "SELECT sql FROM sqlite_master \
             WHERE type = 'trigger' \
               AND name IN ('z_dirty_items_insert', 'z_dirty_items_update')",
        )
        .unwrap();
    let rows: Vec<String> = stmt
        .query_map([], |r| r.get::<_, String>(0))
        .unwrap()
        .map(|r| r.unwrap())
        .collect();
    rows.join("\n")
}

#[test]
fn installer_omits_additional_skip_column_from_trigger_body() {
    let config = TriggerInstallerConfig {
        additional_skip_columns: vec!["updated_at".to_string()],
    };
    let conn = setup_fixture_with_updated_at(&config);

    let bodies = read_items_trigger_bodies(&conn);
    assert!(
        !bodies.contains("updated_at"),
        "trigger body must not reference the configured skip column: {bodies}"
    );
    assert!(
        bodies.contains("\"value\""),
        "trigger body must still reference the tracked column `value`: {bodies}"
    );
}

#[test]
fn installer_default_config_matches_previous_behavior() {
    let default_conn = setup_fixture_with_updated_at(&TriggerInstallerConfig::default());
    let default_bodies = read_items_trigger_bodies(&default_conn);

    assert!(
        default_bodies.contains("\"updated_at\""),
        "default config must track `updated_at` like any other data column: {default_bodies}"
    );
    assert!(
        default_bodies.contains("\"value\""),
        "default config must track `value` (regression sentinel): {default_bodies}"
    );

    let json_pair_hlc = format!("'{HLC_TIMESTAMP_COLUMN}',");
    let json_pair_hlcs = format!("'{COLUMN_HLCS_COLUMN}',");
    let json_pair_sigs = format!("'{COLUMN_SIGS_COLUMN}',");
    assert!(
        !default_bodies.contains(&json_pair_hlc),
        "default config must skip HLC meta column"
    );
    assert!(
        !default_bodies.contains(&json_pair_hlcs),
        "default config must skip column-hlcs meta column"
    );
    assert!(
        !default_bodies.contains(&json_pair_sigs),
        "default config must skip column-sigs meta column"
    );
    assert!(
        !default_bodies.contains("'id',"),
        "default config must skip the primary key `id`"
    );
}

#[test]
fn installer_cannot_un_skip_hard_required_columns() {
    let config = TriggerInstallerConfig {
        additional_skip_columns: vec![
            HLC_TIMESTAMP_COLUMN.to_string(),
            "id".to_string(),
            COLUMN_HLCS_COLUMN.to_string(),
        ],
    };
    let conn = setup_fixture_with_updated_at(&config);
    let bodies = read_items_trigger_bodies(&conn);

    assert!(bodies.contains("\"value\""));
    assert!(bodies.contains("\"updated_at\""));
    assert!(!bodies.contains(&format!("'{HLC_TIMESTAMP_COLUMN}',")));
    assert!(!bodies.contains(&format!("'{COLUMN_HLCS_COLUMN}',")));
    assert!(!bodies.contains("'id',"));
}

#[test]
fn configured_skip_column_still_updates_row_but_does_not_mark_dirty() {
    let config = TriggerInstallerConfig {
        additional_skip_columns: vec!["updated_at".to_string()],
    };
    let conn = setup_fixture_with_updated_at(&config);

    conn.execute(
        &format!(
            "INSERT INTO items (id, value, updated_at, {HLC_TIMESTAMP_COLUMN}) \
             VALUES (1, 'v0', '2026-09-07T00:00:00Z', 'hlc-1')"
        ),
        [],
    )
    .unwrap();
    let dirty_after_insert: i64 = conn
        .query_row(
            &format!("SELECT COUNT(*) FROM {TABLE_CRDT_DIRTY_TABLES} WHERE table_name = 'items'"),
            [],
            |r| r.get(0),
        )
        .unwrap();
    assert_eq!(dirty_after_insert, 1);

    conn.execute(
        &format!("DELETE FROM {TABLE_CRDT_DIRTY_TABLES} WHERE table_name = 'items'"),
        [],
    )
    .unwrap();

    conn.execute(
        &format!(
            "UPDATE items SET updated_at = '2026-09-07T00:00:05Z', \
             {HLC_TIMESTAMP_COLUMN} = 'hlc-2' WHERE id = 1"
        ),
        [],
    )
    .unwrap();
    let dirty_after_update: i64 = conn
        .query_row(
            &format!("SELECT COUNT(*) FROM {TABLE_CRDT_DIRTY_TABLES} WHERE table_name = 'items'"),
            [],
            |r| r.get(0),
        )
        .unwrap();
    assert_eq!(
        dirty_after_update, 0,
        "UPDATE touching only skipped columns must not mark the row dirty"
    );

    let stored_updated_at: String = conn
        .query_row("SELECT updated_at FROM items WHERE id = 1", [], |r| {
            r.get(0)
        })
        .unwrap();
    assert_eq!(stored_updated_at, "2026-09-07T00:00:05Z");
}

fn setup_single_tracked_column() -> Connection {
    let conn = Connection::open_in_memory().expect("open in-memory db");
    register_test_udfs(&conn);
    setup_crdt_bookkeeping(&conn);
    conn.execute_batch(&format!(
        "CREATE TABLE prefs (
             pk TEXT PRIMARY KEY NOT NULL,
             value TEXT,
             {HLC_TIMESTAMP_COLUMN} TEXT,
             {COLUMN_HLCS_COLUMN} TEXT NOT NULL DEFAULT '{{}}',
             {COLUMN_SIGS_COLUMN} TEXT NOT NULL DEFAULT '{{}}'
         );"
    ))
    .expect("create prefs table");
    let tx = conn.unchecked_transaction().unwrap();
    setup_triggers_for_table(&tx, "prefs", false, &TriggerInstallerConfig::default()).unwrap();
    tx.commit().unwrap();
    conn
}

#[test]
fn upsert_twice_on_single_tracked_column_table_succeeds() {
    let conn = setup_single_tracked_column();

    conn.execute(
        &format!(
            "INSERT INTO prefs (pk, value, {HLC_TIMESTAMP_COLUMN}) \
             VALUES ('a', 'v1', 'hlc-1') \
             ON CONFLICT (pk) DO UPDATE SET \
                 value = excluded.value, \
                 {HLC_TIMESTAMP_COLUMN} = excluded.{HLC_TIMESTAMP_COLUMN}"
        ),
        [],
    )
    .expect("first upsert should succeed");

    conn.execute(
        &format!(
            "UPDATE {TABLE_CRDT_DIRTY_TABLES} SET last_modified = 'sentinel' \
             WHERE table_name = 'prefs'"
        ),
        [],
    )
    .expect("set dirty-table timestamp sentinel");

    conn.execute(
        &format!(
            "INSERT INTO prefs (pk, value, {HLC_TIMESTAMP_COLUMN}) \
             VALUES ('a', 'v2', 'hlc-2') \
             ON CONFLICT (pk) DO UPDATE SET \
                 value = excluded.value, \
                 {HLC_TIMESTAMP_COLUMN} = excluded.{HLC_TIMESTAMP_COLUMN}"
        ),
        [],
    )
    .expect("second upsert must not fail with UNIQUE constraint on dirty_tables");

    let last_modified: String = conn
        .query_row(
            &format!(
                "SELECT last_modified FROM {TABLE_CRDT_DIRTY_TABLES} \
                 WHERE table_name = 'prefs'"
            ),
            [],
            |r| r.get(0),
        )
        .unwrap();
    assert_ne!(
        last_modified, "sentinel",
        "repeat upsert refreshes the dirty-table timestamp"
    );

    let dirty: i64 = conn
        .query_row(
            &format!("SELECT COUNT(*) FROM {TABLE_CRDT_DIRTY_TABLES} WHERE table_name = 'prefs'"),
            [],
            |r| r.get(0),
        )
        .unwrap();
    assert_eq!(
        dirty, 1,
        "table stays marked dirty exactly once across repeat upserts"
    );
}

fn setup_both_suffixes() -> Connection {
    let conn = Connection::open_in_memory().expect("open in-memory db");
    register_test_udfs(&conn);
    setup_crdt_bookkeeping(&conn);
    conn.execute_batch(&format!(
        "CREATE TABLE items (
             id TEXT PRIMARY KEY NOT NULL,
             value TEXT,
             local_meta_no_trigger TEXT,
             last_pull_cursor_no_sync TEXT,
             {HLC_TIMESTAMP_COLUMN} TEXT,
             {COLUMN_HLCS_COLUMN} TEXT NOT NULL DEFAULT '{{}}',
             {COLUMN_SIGS_COLUMN} TEXT NOT NULL DEFAULT '{{}}'
         );"
    ))
    .expect("create items table");
    let tx = conn.unchecked_transaction().unwrap();
    setup_triggers_for_table(&tx, "items", false, &TriggerInstallerConfig::default()).unwrap();
    tx.commit().unwrap();
    conn
}

#[test]
fn update_of_no_sync_suffixed_column_does_not_mark_dirty() {
    let conn = setup_both_suffixes();
    conn.execute(
        &format!(
            "INSERT INTO items (id, value, last_pull_cursor_no_sync, {HLC_TIMESTAMP_COLUMN})
             VALUES ('r1', 'v', 'cursor-1', 'hlc-1')"
        ),
        [],
    )
    .unwrap();
    conn.execute(
        &format!("DELETE FROM {TABLE_CRDT_DIRTY_TABLES} WHERE table_name = 'items'"),
        [],
    )
    .unwrap();

    conn.execute(
        &format!(
            "UPDATE items SET last_pull_cursor_no_sync = 'cursor-2', \
             {HLC_TIMESTAMP_COLUMN} = 'hlc-2' WHERE id = 'r1'"
        ),
        [],
    )
    .unwrap();

    let dirty: i64 = conn
        .query_row(
            &format!("SELECT COUNT(*) FROM {TABLE_CRDT_DIRTY_TABLES} WHERE table_name = 'items'"),
            [],
            |r| r.get(0),
        )
        .unwrap();
    assert_eq!(
        dirty, 0,
        "writing a `_no_sync` column must not queue a sync round for a \
         change that can never travel"
    );
}

#[test]
fn delete_trigger_logs_every_key_column_in_order() {
    let pks = vec!["b".to_string(), "a".to_string()];
    let sql = generate_delete_trigger_sql("items", &pks);
    assert!(sql.contains("json_object('b', OLD.\"b\", 'a', OLD.\"a\")"), "{sql}");
    assert!(sql.starts_with("CREATE TRIGGER IF NOT EXISTS \"z_dirty_items_delete\""), "{sql}");
}

#[test]
fn unsafe_table_names_are_refused_before_sql_is_written() {
    assert!(matches!(table_schema_sql("a\"b"), Err(CrdtSetupError::UnsafeTable { .. })));
    assert!(matches!(drop_triggers_sql(""), Err(CrdtSetupError::UnsafeTable { .. })));
    let refused = plan_triggers("a;b", &[], false, &TriggerInstallerConfig::default());
    assert!(matches!(refused, Err(CrdtSetupError::UnsafeTable { .. })));
}

#[test]
fn setup_errors_say_what_is_wrong() {
    let e = CrdtSetupError::HlcColumnMissing {
        table_name: "t".to_string(),
        column_name: HLC_TIMESTAMP_COLUMN.to_string(),
    };
    assert_eq!(
        e.message(),
        "table 't' is missing the required hlc column 'haex_hlc_no_sync'"
    );
    let e = CrdtSetupError::UnsafeIdentifier { name: "x y".to_string() };
    assert_eq!(e.message(), "column 'x y' is not a safe SQL identifier");
}

#[test]
fn required_triggers_leave_the_delete_log_without_one_for_deletes() {
    assert_eq!(
        required_trigger_names("t"),
        vec!["z_dirty_t_insert", "z_dirty_t_update", "z_dirty_t_delete"]
    );
    assert_eq!(required_trigger_names(DELETED_ROWS_TABLE).len(), 2);
}
