//! Putting a table with rows under management.

use haex_crdt::crdt::apply::preimage::column_sig_preimage_from_parts;
use haex_crdt::crdt::apply::write::Statement;
use haex_crdt::crdt::clock::HlcService;
use haex_crdt::crdt::columns::{
    COLUMN_HLCS_COLUMN, COLUMN_SIGS_COLUMN, DELETED_ROWS_TABLE, HLC_FUNCTION_NAME,
    HLC_TIMESTAMP_COLUMN, TABLE_CRDT_CONFIGS, TABLE_CRDT_DIRTY_TABLES, UUID_FUNCTION_NAME,
};
use haex_crdt::crdt::scanner::change::ColumnChange;
use haex_crdt::crdt::scanner::emit::emit_row_changes;
use haex_crdt::crdt::scanner::plan::{plan_scan, scan_dirty_tables_sql, ScanFilters};
use haex_crdt::crdt::schema::ColumnInfo;
use haex_crdt::crdt::trigger::{
    lacks_trigger, plan_crdt_columns, plan_triggers, table_schema_sql, TriggerInstallerConfig,
};
use haex_crdt::crdt::value::SqlValue;
use haex_crdt::database::config::InstallCrdtOptions;
use haex_crdt::database::install::{
    build_column_hlcs_json, build_column_sigs_json, check_install_name, hex, mark_dirty,
    plan_backfill, plan_install, serialize_row_pks, stamp_row, stamp_rows, write_signature_map,
    BackfillPlan, InstallStep,
};
use haex_crdt::error::{DatabaseError, Error};
use haex_crdt::json::JsonValue;
use haex_crdt::signature::{NoopSignatureProvider, SignatureProvider};
use rusqlite::functions::FunctionFlags;
use rusqlite::types::{Value, ValueRef};
use rusqlite::Connection;

struct EchoSignatureProvider;

impl SignatureProvider for EchoSignatureProvider {
    fn sign_column(&self, preimage: &[u8]) -> Result<Vec<u8>, Error> {
        Ok(preimage.to_vec())
    }

    fn verify_column(&self, _preimage: &[u8], _sig: &JsonValue) -> Result<(), Error> {
        Ok(())
    }

    fn author_id(&self) -> String {
        String::new()
    }

    fn on_before_apply(&self, _changes: &[ColumnChange]) -> Result<(), Error> {
        Ok(())
    }
}

struct RefusingProvider;

impl SignatureProvider for RefusingProvider {
    fn sign_column(&self, _preimage: &[u8]) -> Result<Vec<u8>, Error> {
        Err(Error::Message("no key".to_string()))
    }

    fn verify_column(&self, _preimage: &[u8], _sig: &JsonValue) -> Result<(), Error> {
        Ok(())
    }

    fn author_id(&self) -> String {
        String::new()
    }

    fn on_before_apply(&self, _changes: &[ColumnChange]) -> Result<(), Error> {
        Ok(())
    }
}

fn table_schema(conn: &Connection, table: &str) -> Vec<ColumnInfo> {
    let mut stmt = conn.prepare(&table_schema_sql(table).unwrap()).unwrap();
    stmt.query_map([], |row| {
        Ok(ColumnInfo {
            name: row.get("name")?,
            column_type: row.get("type")?,
            is_pk: row.get::<_, i64>("pk")? > 0,
        })
    })
    .unwrap()
    .map(|r| r.unwrap())
    .collect()
}

fn cell(value: ValueRef<'_>) -> JsonValue {
    match value {
        ValueRef::Null => JsonValue::Null,
        ValueRef::Integer(i) => JsonValue::parse(&i.to_string()).unwrap(),
        ValueRef::Text(t) => JsonValue::Text(String::from_utf8(t.to_vec()).unwrap()),
        other => panic!("no such cell in these tests: {other:?}"),
    }
}

fn owned(value: ValueRef<'_>) -> SqlValue {
    match value {
        ValueRef::Null => SqlValue::Null,
        ValueRef::Integer(i) => SqlValue::Integer(i),
        ValueRef::Real(f) => SqlValue::Real(f.to_string()),
        ValueRef::Text(t) => SqlValue::Text(String::from_utf8(t.to_vec()).unwrap()),
        ValueRef::Blob(b) => SqlValue::Blob(b.to_vec()),
    }
}

fn bound(v: &SqlValue) -> Value {
    match v {
        SqlValue::Null => Value::Null,
        SqlValue::Integer(i) => Value::Integer(*i),
        SqlValue::Real(text) => Value::Real(text.parse().unwrap()),
        SqlValue::Text(s) => Value::Text(s.clone()),
        SqlValue::Blob(b) => Value::Blob(b.clone()),
    }
}

fn ensure_columns_and_triggers(tx: &Connection, table: &str) {
    for sql in plan_crdt_columns(table, &table_schema(tx, table)) {
        tx.execute(&sql, []).unwrap();
    }
    let mut stmt = tx.prepare("SELECT name FROM sqlite_master WHERE type = 'trigger'").unwrap();
    let installed: Vec<String> =
        stmt.query_map([], |r| r.get(0)).unwrap().map(|r| r.unwrap()).collect();
    if lacks_trigger(table, &installed) {
        let config = TriggerInstallerConfig { additional_skip_columns: Vec::new() };
        let schema = table_schema(tx, table);
        for sql in plan_triggers(table, &schema, false, &config).unwrap().unwrap() {
            tx.execute_batch(&sql).unwrap();
        }
    }
}

fn backfill<P: SignatureProvider>(
    tx: &Connection,
    table: &str,
    hlc: &mut HlcService,
    provider: &P,
) -> Result<usize, Error> {
    let plan = plan_backfill(table, &table_schema(tx, table))
        .map_err(|e| Error::Message(format!("{e:?}")))?;
    let keys = plan.pk_columns.len();
    let width = keys + plan.data_columns.len();
    let mut stmt = tx.prepare(&plan.select_sql).unwrap();
    let mut rows = stmt.query([]).unwrap();
    let mut legacy = Vec::new();
    while let Some(row) = rows.next().unwrap() {
        let cells: Vec<JsonValue> = (0..width).map(|i| cell(row.get_ref(i).unwrap())).collect();
        let key: Vec<SqlValue> = (0..keys).map(|i| owned(row.get_ref(i).unwrap())).collect();
        legacy.push((cells, key));
    }
    if legacy.is_empty() {
        return Ok(0);
    }
    let hlc_str = hlc.new_timestamp().unwrap().to_text();
    let mut touched = 0;
    for update in stamp_rows(&plan, legacy, &hlc_str, provider)? {
        touched += run(tx, &update);
    }
    Ok(touched)
}

fn run(tx: &Connection, statement: &Statement) -> usize {
    tx.execute(&statement.sql, rusqlite::params_from_iter(statement.params.iter().map(bound)))
        .unwrap()
}

fn install_crdt<P: SignatureProvider>(
    conn: &mut Connection,
    table: &str,
    opts: InstallCrdtOptions,
    hlc: &mut HlcService,
    provider: &P,
) -> Result<(), Error> {
    check_install_name(table)?;
    let tx = conn.transaction().unwrap();
    let step = plan_install(table, &table_schema(&tx, table), opts)?;
    ensure_columns_and_triggers(&tx, table);
    if step == InstallStep::Install {
        let touched = backfill(&tx, table, hlc, provider)?;
        if let Some(mark) = mark_dirty(table, touched) {
            run(&tx, &mark);
        }
    }
    tx.commit().unwrap();
    Ok(())
}

fn dirty_tables(conn: &Connection) -> Vec<String> {
    let mut stmt = conn.prepare(&scan_dirty_tables_sql()).unwrap();
    stmt.query_map([], |r| r.get(0)).unwrap().map(|r| r.unwrap()).collect()
}

fn scan(conn: &Connection, table: &str) -> Vec<ColumnChange> {
    let filters = ScanFilters::default();
    let mut out = Vec::new();
    let plan = plan_scan(table, &table_schema(conn, table), &filters).unwrap().unwrap();
    let mut stmt = conn.prepare(&plan.sql).unwrap();
    let width = stmt.column_count();
    let mut rows = stmt.query(rusqlite::params_from_iter(plan.params.iter())).unwrap();
    while let Some(row) = rows.next().unwrap() {
        let cells: Vec<JsonValue> = (0..width).map(|i| cell(row.get_ref(i).unwrap())).collect();
        emit_row_changes(&plan, &cells, None, "dev", &filters, &mut out);
    }
    out
}

fn make_fixture(tables: &str) -> (Connection, HlcService) {
    let conn = Connection::open_in_memory().unwrap();
    let hlc = HlcService::new_with_uuid(uuid::Uuid::new_v4().as_bytes());
    for (name, answer) in [(UUID_FUNCTION_NAME, "uuid-1"), (HLC_FUNCTION_NAME, "1/abc")] {
        conn.create_scalar_function(
            name,
            0,
            FunctionFlags::SQLITE_UTF8 | FunctionFlags::SQLITE_INNOCUOUS,
            move |_| Ok(answer),
        )
        .expect("function");
    }
    conn.execute_batch(&format!(
        "CREATE TABLE {TABLE_CRDT_CONFIGS} (
             key TEXT PRIMARY KEY NOT NULL,
             value TEXT,
             type TEXT
         );
         CREATE TABLE {TABLE_CRDT_DIRTY_TABLES} (
             table_name TEXT PRIMARY KEY NOT NULL,
             last_modified TEXT
         );
         CREATE TABLE {DELETED_ROWS_TABLE} (
             id TEXT PRIMARY KEY NOT NULL,
             table_name TEXT NOT NULL,
             row_pks TEXT NOT NULL,
             {HLC_TIMESTAMP_COLUMN} TEXT,
             {COLUMN_HLCS_COLUMN} TEXT NOT NULL DEFAULT '{{}}',
             {COLUMN_SIGS_COLUMN} TEXT NOT NULL DEFAULT '{{}}'
         );
         {tables}"
    ))
    .expect("bookkeeping");
    (conn, hlc)
}

fn an_empty_table_is_not_backfilled() {
    let (mut conn, mut hlc) =
        make_fixture("CREATE TABLE items_no_sync (id TEXT PRIMARY KEY NOT NULL, body TEXT);");
    install_crdt(
        &mut conn,
        "items_no_sync",
        InstallCrdtOptions::default(),
        &mut hlc,
        &NoopSignatureProvider,
    )
    .unwrap();
    let dirty = dirty_tables(&conn);
    assert!(
        !dirty.contains(&"items_no_sync".to_string()),
        "empty backfill must not mark dirty; dirty={dirty:?}"
    );
}

#[test]
fn install_crdt_install_crdt_on_empty_table_installs_columns_and_triggers_without_backfill() {
    an_empty_table_is_not_backfilled();
}

#[test]
fn tests_install_crdt_on_empty_table_installs_columns_and_triggers_without_backfill() {
    an_empty_table_is_not_backfilled();
}

const LEGACY: &str = "CREATE TABLE legacy_items_no_sync (id TEXT PRIMARY KEY NOT NULL, body TEXT);
     INSERT INTO legacy_items_no_sync (id, body) VALUES ('r1', 'legacy-a');
     INSERT INTO legacy_items_no_sync (id, body) VALUES ('r2', 'legacy-b');";

fn rows_are_backfilled() {
    let (mut conn, mut hlc) = make_fixture(LEGACY);
    install_crdt(
        &mut conn,
        "legacy_items_no_sync",
        InstallCrdtOptions::default(),
        &mut hlc,
        &NoopSignatureProvider,
    )
    .unwrap();
    let dirty = dirty_tables(&conn);
    assert!(
        dirty.contains(&"legacy_items_no_sync".to_string()),
        "backfill must mark the table dirty; got {dirty:?}"
    );
    let changes = scan(&conn, "legacy_items_no_sync");
    assert_eq!(
        changes.len(),
        2,
        "backfill must populate every row; got {} changes: {changes:?}",
        changes.len(),
    );
    assert!(changes.iter().all(|c| c.column_name == "body"));
    assert_eq!(changes[0].hlc_timestamp, changes[1].hlc_timestamp);
    assert!(changes.iter().all(|c| c.sig.is_none()));
}

#[test]
fn install_crdt_install_crdt_backfills_pre_existing_rows_and_marks_dirty() {
    rows_are_backfilled();
}

#[test]
fn tests_install_crdt_backfills_pre_existing_rows_and_marks_dirty() {
    rows_are_backfilled();
}

fn rows_are_signed() {
    let (mut conn, mut hlc) = make_fixture(LEGACY);
    install_crdt(
        &mut conn,
        "legacy_items_no_sync",
        InstallCrdtOptions::default(),
        &mut hlc,
        &EchoSignatureProvider,
    )
    .unwrap();
    let changes = scan(&conn, "legacy_items_no_sync");
    assert_eq!(changes.len(), 2);
    for change in changes {
        let expected = column_sig_preimage_from_parts(
            "legacy_items_no_sync",
            &change.row_pks,
            "body",
            &change.hlc_timestamp,
            &change.value,
        );
        assert_eq!(change.sig.unwrap().as_text(), Some(hex(&expected).as_str()));
    }
}

#[test]
fn install_crdt_install_crdt_backfill_signs_each_row_value_and_primary_key() {
    rows_are_signed();
}

#[test]
fn tests_install_crdt_backfill_signs_each_row_value_and_primary_key() {
    rows_are_signed();
}

const PLAIN: &str = "CREATE TABLE t_no_sync (id TEXT PRIMARY KEY NOT NULL);";

fn a_second_install_is_refused() {
    let (mut conn, mut hlc) = make_fixture(PLAIN);
    let opts = InstallCrdtOptions::default();
    install_crdt(&mut conn, "t_no_sync", opts, &mut hlc, &NoopSignatureProvider).unwrap();
    match install_crdt(&mut conn, "t_no_sync", opts, &mut hlc, &NoopSignatureProvider) {
        Err(Error::CrdtAlreadyInstalled { table }) => assert_eq!(table, "t_no_sync"),
        other => panic!("re-install must be refused: {other:?}"),
    }
}

#[test]
fn install_crdt_install_crdt_refuses_to_reinstall_by_default() {
    a_second_install_is_refused();
}

#[test]
fn tests_install_crdt_refuses_to_reinstall_by_default() {
    a_second_install_is_refused();
}

fn a_second_install_may_be_allowed() {
    let (mut conn, mut hlc) = make_fixture(PLAIN);
    let first = InstallCrdtOptions::default();
    install_crdt(&mut conn, "t_no_sync", first, &mut hlc, &NoopSignatureProvider).unwrap();
    let again = InstallCrdtOptions { allow_reinstall: true };
    install_crdt(&mut conn, "t_no_sync", again, &mut hlc, &NoopSignatureProvider)
        .expect("reinstall path must succeed on already-managed table");
}

#[test]
fn install_crdt_install_crdt_allow_reinstall_only_refreshes_triggers() {
    a_second_install_may_be_allowed();
}

#[test]
fn tests_install_crdt_allow_reinstall_only_refreshes_triggers() {
    a_second_install_may_be_allowed();
}

fn an_unsafe_table_name_is_refused() {
    let (mut conn, mut hlc) = make_fixture("");
    let opts = InstallCrdtOptions::default();
    match install_crdt(&mut conn, "evil; DROP TABLE", opts, &mut hlc, &NoopSignatureProvider) {
        Err(Error::Message(msg)) => assert!(msg.contains("evil") || msg.contains("Invalid")),
        other => panic!("unsafe identifier must be rejected: {other:?}"),
    }
}

#[test]
fn install_crdt_install_crdt_rejects_unsafe_identifiers() {
    an_unsafe_table_name_is_refused();
}

#[test]
fn tests_install_crdt_rejects_unsafe_identifiers() {
    an_unsafe_table_name_is_refused();
}

#[test]
fn a_table_without_a_key_cannot_be_backfilled() {
    let schema =
        vec![ColumnInfo { name: "a".to_string(), column_type: "TEXT".to_string(), is_pk: false }];
    match plan_backfill("t", &schema).unwrap_err() {
        DatabaseError::CrdtSetup(reason) => {
            assert_eq!(reason, "install_crdt: table 't' has no primary key — cannot backfill")
        }
        other => panic!("unexpected error: {other:?}"),
    }
}

#[test]
fn a_provider_that_cannot_sign_fails_the_install() {
    let (mut conn, mut hlc) = make_fixture(LEGACY);
    let err = install_crdt(
        &mut conn,
        "legacy_items_no_sync",
        InstallCrdtOptions::default(),
        &mut hlc,
        &RefusingProvider,
    )
    .unwrap_err();
    assert!(matches!(err, Error::Message(m) if m == "no key"));
    assert!(dirty_tables(&conn).is_empty());
    assert_eq!(table_schema(&conn, "legacy_items_no_sync").len(), 2);
}

#[test]
fn texts_of_a_backfill() {
    let names = vec!["b".to_string(), "a".to_string()];
    assert_eq!(build_column_hlcs_json(&names, "7/ab"), r#"{"a":"7/ab","b":"7/ab"}"#);
    let values = vec![JsonValue::Text("x\"".to_string()), JsonValue::Null];
    assert_eq!(serialize_row_pks(&names, &values), r#"{"b":"x\"","a":null}"#);
    assert_eq!(hex(&[0, 10, 255]), "000aff");
    assert_eq!(write_signature_map(&names, &[vec![1], vec![]]), r#"{"b":"01"}"#);
    let values = vec![JsonValue::Null, JsonValue::Null];
    let unsigned =
        build_column_sigs_json("t", "{}", &names, &values, "7/ab", &NoopSignatureProvider);
    assert_eq!(unsigned.unwrap(), "{}");
}

/// Signs with the last byte of what it is given and refuses a value of `null`.
struct LastByteProvider;

impl SignatureProvider for LastByteProvider {
    fn sign_column(&self, preimage: &[u8]) -> Result<Vec<u8>, Error> {
        if preimage.ends_with(b"null") {
            return Err(Error::Message(format!("{} bytes", preimage.len())));
        }
        Ok(vec![*preimage.last().unwrap()])
    }

    fn verify_column(&self, _preimage: &[u8], _sig: &JsonValue) -> Result<(), Error> {
        Ok(())
    }

    fn author_id(&self) -> String {
        String::new()
    }

    fn on_before_apply(&self, _changes: &[ColumnChange]) -> Result<(), Error> {
        Ok(())
    }
}

fn items_plan() -> BackfillPlan {
    let column = |name: &str, is_pk: bool| ColumnInfo {
        name: name.to_string(),
        column_type: "TEXT".to_string(),
        is_pk,
    };
    plan_backfill("items", &[column("a", false), column("id", true), column("b", false)]).unwrap()
}

fn item(id: i64, a: JsonValue, b: JsonValue) -> (Vec<JsonValue>, Vec<SqlValue>) {
    let key = JsonValue::parse(&id.to_string()).unwrap();
    (vec![key, a, b], vec![SqlValue::Integer(id)])
}

fn number(n: i64) -> JsonValue {
    JsonValue::parse(&n.to_string()).unwrap()
}

#[test]
fn each_row_is_stamped_with_the_one_timestamp_and_its_own_signatures() {
    let rows = vec![item(1, number(7), number(8)), item(2, number(9), number(0))];
    let plan = items_plan();
    let statements = stamp_rows(&plan, rows, "5/ab", &LastByteProvider).unwrap();
    assert_eq!(statements.len(), 2);
    for (statement, (sigs, id)) in
        statements.iter().zip([(r#"{"a":"37","b":"38"}"#, 1), (r#"{"a":"39","b":"30"}"#, 2)])
    {
        assert_eq!(statement.sql, plan.update_sql);
        assert_eq!(
            statement.params.iter().map(bound).collect::<Vec<_>>(),
            vec![
                Value::Text("5/ab".to_string()),
                Value::Text(r#"{"a":"5/ab","b":"5/ab"}"#.to_string()),
                Value::Text(sigs.to_string()),
                Value::Integer(id),
            ]
        );
    }
    let own = stamp_row(
        &plan,
        "5/ab",
        r#"{"a":"5/ab","b":"5/ab"}"#,
        r#"{"a":"37","b":"38"}"#,
        vec![SqlValue::Integer(1)],
    );
    assert_eq!(format!("{own:?}"), format!("{:?}", statements[0]));
}

#[test]
fn signatures_cover_the_key_and_the_value_of_the_row() {
    let rows = vec![item(12, number(7), number(8))];
    let statements = stamp_rows(&items_plan(), rows, "5/ab", &EchoSignatureProvider).unwrap();
    let signed = |column: &str, value: i64| {
        hex(&column_sig_preimage_from_parts(
            "items",
            r#"{"id":12}"#,
            column,
            "5/ab",
            &number(value),
        ))
    };
    assert_eq!(
        bound(&statements[0].params[2]),
        Value::Text(format!(r#"{{"a":"{}","b":"{}"}}"#, signed("a", 7), signed("b", 8)))
    );
}

#[test]
fn the_first_refusal_to_sign_ends_the_stamping() {
    let rows = vec![
        item(1, number(7), number(8)),
        item(2, number(9), JsonValue::Null),
        item(333, JsonValue::Null, number(0)),
    ];
    let refused = column_sig_preimage_from_parts(
        "items",
        r#"{"id":2}"#,
        "b",
        "5/ab",
        &JsonValue::Null,
    );
    match stamp_rows(&items_plan(), rows, "5/ab", &LastByteProvider).unwrap_err() {
        Error::Message(m) => assert_eq!(m, format!("{} bytes", refused.len())),
        other => panic!("unexpected error: {other:?}"),
    }
    assert!(stamp_rows(&items_plan(), Vec::new(), "5/ab", &RefusingProvider).unwrap().is_empty());
}

#[test]
fn a_table_is_marked_only_where_a_row_was_stamped() {
    assert!(mark_dirty("items", 0).is_none());
    let mark = mark_dirty("items", 2).unwrap();
    assert!(mark.sql.starts_with(&format!("INSERT INTO {TABLE_CRDT_DIRTY_TABLES} ")));
    assert_eq!(
        mark.params.iter().map(bound).collect::<Vec<_>>(),
        vec![Value::Text("items".to_string())]
    );
}
