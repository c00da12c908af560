//! Merging of remote batches, run against an in-memory database.

use haex_crdt::crdt::apply::batch_merge::{BatchMerge, MergeStage};
use haex_crdt::crdt::apply::delete_propagation::{
    collect_inbound_delete_log_ids, delete_entry_sql, delete_target_is_safe, load_delete_log_sql,
    load_delete_shadow_map, plan_delete, settle_delete, DeleteLogEntry, DeletedRow,
};
use haex_crdt::crdt::apply::engine::{toggle_triggers_sql, Failure, StoredRow};
use haex_crdt::crdt::apply::finish::advance_after_commit;
use haex_crdt::crdt::apply::policy::ApplyPolicy;
use haex_crdt::crdt::apply::policy_types::{
    ColumnDecision, ConstraintDecision, RowDecision, RowInput, RowWrite, SignatureWrite,
};
use haex_crdt::crdt::apply::preflight::preflight_batch;
use haex_crdt::crdt::apply::preimage::column_sig_preimage;
use haex_crdt::crdt::apply::report::{ApplyOutcome, ApplyReport, SkipReason};
use haex_crdt::crdt::apply::signature_policy::SignatureApplyPolicy;
use haex_crdt::crdt::apply::write::{Statement, ROW_SAVEPOINT};
use haex_crdt::crdt::clock::{device_uuid_to_hlc_node, HlcService};
use haex_crdt::crdt::columns::{
    COLUMN_HLCS_COLUMN, COLUMN_SIGS_COLUMN, DELETED_ROWS_TABLE, HLC_TIMESTAMP_COLUMN,
    TABLE_CRDT_CONFIGS, TABLE_CRDT_DIRTY_TABLES,
};
use haex_crdt::crdt::hlc::{
    hlc_is_newer, HlcTimestamp, MAX_REMOTE_HLC_DRIFT, TIME_UNITS_PER_SECOND,
};
use haex_crdt::crdt::scanner::change::ColumnChange;
use haex_crdt::crdt::scanner::emit::emit_row_changes;
use haex_crdt::crdt::scanner::plan::{plan_scan, ScanFilters};
use haex_crdt::crdt::schema::ColumnInfo;
use haex_crdt::crdt::transformer::CrdtTransformer;
use haex_crdt::crdt::trigger::table_schema_sql;
use haex_crdt::crdt::value::SqlValue;
use haex_crdt::error::Error;
use haex_crdt::json::{JsonObject, JsonValue};
use haex_crdt::signature::{NoopSignatureProvider, SignatureProvider};
use rusqlite::types::{Value, ValueRef};
use rusqlite::{Connection, OptionalExtension, TransactionBehavior};
use std::sync::atomic::{AtomicBool, AtomicUsize, Ordering};
use std::sync::Arc;

/// What a merge can end in: an error of the library, or one of SQLite.
#[derive(Debug)]
enum Fault {
    Lib(Error),
    Sqlite(rusqlite::Error),
}

impl From<Error> for Fault {
    fn from(e: Error) -> Self {
        Fault::Lib(e)
    }
}

impl From<rusqlite::Error> for Fault {
    fn from(e: rusqlite::Error) -> Self {
        Fault::Sqlite(e)
    }
}

fn bound(v: &SqlValue) -> Value {
    match v {
        SqlValue::Null => Value::Null,
        SqlValue::Integer(i) => Value::Integer(*i),
        SqlValue::Real(text) => Value::Real(text.parse().unwrap()),
        SqlValue::Text(s) => Value::Text(s.clone()),
        SqlValue::Blob(b) => Value::Blob(b.clone()),
    }
}

fn params_of(statement: &Statement) -> rusqlite::ParamsFromIter<Vec<Value>> {
    rusqlite::params_from_iter(statement.params.iter().map(bound).collect())
}

fn table_schema(conn: &Connection, table: &str) -> Result<Vec<ColumnInfo>, Fault> {
    let mut stmt = conn.prepare(&table_schema_sql(table).unwrap())?;
    let rows = stmt.query_map([], |row| {
        Ok(ColumnInfo {
            name: row.get("name")?,
            column_type: row.get("type")?,
            is_pk: row.get::<_, i64>("pk")? > 0,
        })
    })?;
    Ok(rows.collect::<Result<_, _>>()?)
}

fn read_delete_log(conn: &Connection) -> Result<Vec<DeleteLogEntry>, Fault> {
    let mut stmt = conn.prepare(&load_delete_log_sql())?;
    let rows = stmt.query_map([], |row| {
        Ok(DeleteLogEntry { table_name: row.get(0)?, row_pks: row.get(1)?, hlc: row.get(2)? })
    })?;
    Ok(rows.collect::<Result<_, _>>()?)
}

/// Writes a row in a savepoint, which stays open. The error code of an insert
/// that broke a constraint comes back, with the error.
fn write_row(
    tx: &Connection,
    write: &Statement,
) -> Result<Result<usize, (i32, rusqlite::Error)>, Fault> {
    tx.execute_batch(&format!("SAVEPOINT {ROW_SAVEPOINT}"))?;
    Ok(tx.execute(&write.sql, params_of(write)).map_err(|e| {
        let code = e.sqlite_error().map_or(0, |f| f.extended_code);
        (code, e)
    }))
}

/// Takes one step of a merge; `None` once no row is left.
fn merge_step<P: ApplyPolicy<Connection>>(
    tx: &Connection,
    policy: &mut P,
    merge: BatchMerge,
    log: &[DeletedRow],
) -> Result<Result<BatchMerge, BatchMerge>, Fault> {
    match merge.stage() {
        MergeStage::Idle => {
            let Some(table) = merge.next_table() else {
                return Ok(Err(merge));
            };
            let schema = table_schema(tx, table)?;
            Ok(Ok(merge.open_row(schema)))
        }
        MergeStage::Open(row) => {
            let fetch = row.fetch();
            let stored = tx
                .query_row(&fetch.sql, params_of(&fetch), |row| {
                    Ok(StoredRow { column_hlcs: row.get(0)?, row_hlc: row.get(1)? })
                })
                .optional()?;
            Ok(Ok(merge.classify_row(stored)))
        }
        MergeStage::Ready(row) => {
            let decision = policy.prepare_row(tx, row.input())?;
            Ok(Ok(merge.decide_row(decision, log)?))
        }
        MergeStage::Staged(row) => {
            let signatures = if row.needs_signatures() {
                let fetch = row.fetch_signatures();
                tx.query_row(&fetch.sql, params_of(&fetch), |row| row.get(0)).ok()
            } else {
                None
            };
            match write_row(tx, &row.statement(&signatures))? {
                Ok(rows) if row.on_changed(rows) => {
                    tx.execute_batch(&format!("RELEASE SAVEPOINT {ROW_SAVEPOINT}"))?;
                    policy.after_row(tx, row.written())?;
                    Ok(Ok(merge.confirm_row()))
                }
                Ok(rows) => Err(rusqlite::Error::StatementChangedRows(rows).into()),
                Err((code, e)) => match row.on_failure(code) {
                    Failure::Abort => Err(e.into()),
                    Failure::Constraint(reason) => {
                        tx.execute_batch(&format!(
                            "ROLLBACK TO SAVEPOINT {ROW_SAVEPOINT}; RELEASE SAVEPOINT {ROW_SAVEPOINT}"
                        ))?;
                        let decision = policy.on_insert_constraint(tx, row.written(), code)?;
                        merge.recover_row(decision, reason).map(Ok).ok_or(e.into())
                    }
                },
            }
        }
    }
}

fn propagate_deletes(
    tx: &Connection,
    ids: &[String],
    report: &mut ApplyReport,
) -> Result<(), Fault> {
    for id in ids {
        let entry = tx
            .query_row(&delete_entry_sql(), [id], |row| {
                Ok(DeleteLogEntry {
                    table_name: row.get(0)?,
                    row_pks: row.get(1)?,
                    hlc: row.get(2)?,
                })
            })
            .optional()?;
        let Some(entry) = entry else {
            continue;
        };
        if !delete_target_is_safe(&entry) {
            continue;
        }
        let schema = table_schema(tx, &entry.table_name)?;
        let Some(plan) = plan_delete(&entry, &schema) else {
            continue;
        };
        let target: Option<Option<String>> = tx
            .query_row(&plan.select_hlc.sql, params_of(&plan.select_hlc), |row| row.get(0))
            .optional()?;
        if settle_delete(&plan, target.flatten().as_deref(), report) {
            tx.execute(&plan.delete.sql, params_of(&plan.delete))?;
        }
    }
    Ok(())
}

fn merge_batch<P: ApplyPolicy<Connection>>(
    conn: &mut Connection,
    changes: Vec<ColumnChange>,
    policy: &mut P,
    newest: &mut Option<String>,
) -> Result<ApplyOutcome, Fault> {
    let tx = conn.transaction_with_behavior(TransactionBehavior::Immediate)?;
    tx.execute(&toggle_triggers_sql(), ["0"])?;
    policy.begin(&tx, &changes)?;
    let log = load_delete_shadow_map(read_delete_log(&tx)?);
    let mut merge = BatchMerge::start(changes.clone())?;
    let (mut outcome, landed) = loop {
        match merge_step(&tx, policy, merge, &log)? {
            Ok(next) => merge = next,
            Err(done) => match done.finish() {
                Ok(all) => break all,
                Err(_) => unreachable!("rows are left"),
            },
        }
    };
    *newest = landed;
    let ids = collect_inbound_delete_log_ids(&changes, &outcome.skipped);
    propagate_deletes(&tx, &ids, &mut outcome.report)?;
    policy.before_commit(&tx, &changes, &outcome)?;
    tx.execute(&toggle_triggers_sql(), ["1"])?;
    tx.commit()?;
    Ok(outcome)
}

fn apply_remote_changes<P: ApplyPolicy<Connection>>(
    conn: &mut Connection,
    changes: Vec<ColumnChange>,
    hlc: &mut HlcService,
    policy: &mut P,
) -> Result<ApplyOutcome, Fault> {
    preflight_batch(&changes, policy)?;
    let foreign_keys: bool = conn.query_row("PRAGMA foreign_keys", [], |r| r.get(0))?;
    conn.execute("PRAGMA foreign_keys = OFF", [])?;
    let mut newest = None;
    let merged = merge_batch(conn, changes, policy, &mut newest);
    if foreign_keys {
        conn.execute("PRAGMA foreign_keys = ON", [])?;
    }
    Ok(advance_after_commit(merged?, hlc, newest)?)
}

fn apply_unsigned(
    conn: &mut Connection,
    changes: Vec<ColumnChange>,
    hlc: &mut HlcService,
) -> Result<ApplyReport, Fault> {
    let mut policy = SignatureApplyPolicy::new(&NoopSignatureProvider);
    Ok(apply_remote_changes(conn, changes, hlc, &mut policy)?.report)
}

fn text(s: &str) -> JsonValue {
    JsonValue::Text(s.to_string())
}

fn json(s: &str) -> JsonValue {
    JsonValue::parse(s).unwrap()
}

fn make_fixture() -> (Connection, HlcService) {
    let hlc = HlcService::new_with_uuid(uuid::Uuid::new_v4().as_bytes());
    let conn = Connection::open_in_memory().unwrap();
    conn.execute_batch(&format!(
        "CREATE TABLE {TABLE_CRDT_CONFIGS} (
             key TEXT PRIMARY KEY NOT NULL,
             value TEXT,
             type TEXT
         );
         CREATE TABLE {TABLE_CRDT_DIRTY_TABLES} (
             table_name TEXT PRIMARY KEY NOT NULL,
             last_modified TEXT
         );
         INSERT INTO {TABLE_CRDT_CONFIGS} (key, type, value)
         VALUES ('triggers_enabled', 'system', '1');
         CREATE TABLE {DELETED_ROWS_TABLE} (
             id TEXT PRIMARY KEY NOT NULL,
             table_name TEXT NOT NULL,
             row_pks TEXT NOT NULL,
             {HLC_TIMESTAMP_COLUMN} TEXT,
             {COLUMN_HLCS_COLUMN} TEXT NOT NULL DEFAULT '{{}}',
             {COLUMN_SIGS_COLUMN} TEXT NOT NULL DEFAULT '{{}}'
         );"
    ))
    .expect("bookkeeping");
    (conn, hlc)
}

fn create_crdt_table(conn: &Connection, name: &str, extra_cols: &str) {
    let sep = if extra_cols.is_empty() { "" } else { "," };
    conn.execute_batch(&format!(
        "CREATE TABLE {name} (
             id TEXT PRIMARY KEY NOT NULL{sep} {extra_cols}
             , {HLC_TIMESTAMP_COLUMN} TEXT
             , {COLUMN_HLCS_COLUMN} TEXT NOT NULL DEFAULT '{{}}'
             , {COLUMN_SIGS_COLUMN} TEXT NOT NULL DEFAULT '{{}}'
         );"
    ))
    .unwrap_or_else(|e| panic!("create {name}: {e}"));
}

fn change(table: &str, pk_id: &str, col: &str, hlc: &str, value: JsonValue) -> ColumnChange {
    ColumnChange {
        table_name: table.to_string(),
        row_pks: format!(r#"{{"id":"{pk_id}"}}"#),
        column_name: col.to_string(),
        hlc_timestamp: hlc.to_string(),
        value,
        device_id: String::new(),
        sig: None,
    }
}

const HOUR: u64 = 3_600_000_000_000;

fn units(nanos: u64) -> u64 {
    (u128::from(nanos) * u128::from(TIME_UNITS_PER_SECOND) / 1_000_000_000) as u64
}

fn hlc_ahead_of_now(hlc: &mut HlcService, nanos: u64) -> String {
    let now = hlc.new_timestamp().unwrap();
    HlcTimestamp { time: now.time + units(nanos), node: 1 }.to_text()
}

fn hlc_behind_now(hlc: &mut HlcService, nanos: u64) -> String {
    let now = hlc.new_timestamp().unwrap();
    HlcTimestamp { time: now.time - units(nanos), node: 1 }.to_text()
}

fn count(conn: &Connection, sql: &str) -> i64 {
    conn.query_row(sql, [], |r| r.get(0)).unwrap()
}

fn one_text(conn: &Connection, sql: &str) -> String {
    conn.query_row(sql, [], |r| r.get(0)).unwrap()
}

fn row_hlc(conn: &Connection, id: &str) -> String {
    one_text(conn, &format!("SELECT {HLC_TIMESTAMP_COLUMN} FROM items WHERE id = '{id}'"))
}

fn column_hlcs(conn: &Connection, id: &str) -> String {
    one_text(conn, &format!("SELECT {COLUMN_HLCS_COLUMN} FROM items WHERE id = '{id}'"))
}

fn column_sigs(conn: &Connection, id: &str) -> String {
    one_text(conn, &format!("SELECT {COLUMN_SIGS_COLUMN} FROM items WHERE id = '{id}'"))
}

fn item_ids(conn: &Connection) -> Vec<String> {
    conn.prepare("SELECT id FROM items")
        .unwrap()
        .query_map([], |r| r.get(0))
        .unwrap()
        .collect::<Result<_, _>>()
        .unwrap()
}

const HLC1: &str = "0000000000000001/abcdef0000000000000000000000";
const HLC2: &str = "0000000000000002/abcdef0000000000000000000000";
const HLC3: &str = "0000000000000003/abcdef0000000000000000000000";
/// Newer than the three above, and far in the past all the same.
const HLC_ATTACKER: &str = "9999999999999999/dead000000000000000000000000";

// Last writer wins, column by column.

#[test]
fn insert_creates_a_new_row_with_incoming_hlc() {
    let (mut conn, mut hlc) = make_fixture();
    create_crdt_table(&conn, "items", "body TEXT");

    let changes = vec![change("items", "r1", "body", HLC2, text("hello"))];
    let report = apply_unsigned(&mut conn, changes, &mut hlc).unwrap();

    assert_eq!(report.applied, 1);
    assert_eq!(one_text(&conn, "SELECT body FROM items WHERE id = 'r1'"), "hello");
    assert_eq!(row_hlc(&conn, "r1"), HLC2);
}

#[test]
fn lww_winner_overwrites_older_value_and_loser_is_dropped() {
    let (mut conn, mut hlc) = make_fixture();
    create_crdt_table(&conn, "items", "body TEXT");
    let body = "SELECT body FROM items WHERE id = 'r1'";

    let first = vec![change("items", "r1", "body", HLC2, text("v2"))];
    apply_unsigned(&mut conn, first, &mut hlc).unwrap();

    let newer = vec![change("items", "r1", "body", HLC3, text("v3"))];
    let report = apply_unsigned(&mut conn, newer, &mut hlc).unwrap();
    assert_eq!(report.applied, 1);
    assert_eq!(one_text(&conn, body), "v3");

    let older = vec![change("items", "r1", "body", HLC1, text("v1"))];
    let report = apply_unsigned(&mut conn, older, &mut hlc).unwrap();
    assert_eq!(report.applied, 0);
    assert_eq!(report.skipped_stale, 1);
    assert_eq!(one_text(&conn, body), "v3", "older HLC must NOT overwrite newer value");
}

#[test]
fn per_column_lww_lets_older_and_newer_updates_coexist_within_one_row() {
    let (mut conn, mut hlc) = make_fixture();
    create_crdt_table(&conn, "items", "body TEXT, title TEXT");

    let first = vec![
        change("items", "r1", "body", HLC2, text("body-v2")),
        change("items", "r1", "title", HLC2, text("title-v2")),
    ];
    apply_unsigned(&mut conn, first, &mut hlc).unwrap();

    let second = vec![
        change("items", "r1", "body", HLC1, text("body-v1")),
        change("items", "r1", "title", HLC3, text("title-v3")),
    ];
    let report = apply_unsigned(&mut conn, second, &mut hlc).unwrap();
    assert_eq!(report.applied, 1);
    assert_eq!(report.skipped_stale, 1);

    let body = one_text(&conn, "SELECT body FROM items WHERE id = 'r1'");
    let title = one_text(&conn, "SELECT title FROM items WHERE id = 'r1'");
    assert_eq!(body, "body-v2", "older `body` write must have lost");
    assert_eq!(title, "title-v3", "newer `title` write must have won");
}

#[test]
fn unknown_column_is_counted_and_does_not_abort_the_batch() {
    let (mut conn, mut hlc) = make_fixture();
    create_crdt_table(&conn, "items", "body TEXT");

    let batch = vec![
        change("items", "r1", "body", HLC2, text("v")),
        change("items", "r1", "future_field", HLC2, text("v")),
    ];
    let report = apply_unsigned(&mut conn, batch, &mut hlc).unwrap();
    assert_eq!(report.applied, 1);
    assert_eq!(report.skipped_unknown_column, 1);
    assert_eq!(one_text(&conn, "SELECT body FROM items WHERE id = 'r1'"), "v");
}

#[test]
fn unknown_table_counts_every_incoming_column_change_as_skipped() {
    let (mut conn, mut hlc) = make_fixture();
    let batch = vec![
        change("not_installed", "r1", "a", HLC2, text("x")),
        change("not_installed", "r1", "b", HLC2, text("y")),
    ];
    let report = apply_unsigned(&mut conn, batch, &mut hlc).unwrap();
    assert_eq!(report.applied, 0);
    assert_eq!(report.skipped_unknown_table, 2);
}

#[test]
fn hlc_service_advances_past_the_highest_received_timestamp() {
    let (mut conn, mut hlc) = make_fixture();
    create_crdt_table(&conn, "items", "body TEXT");
    let batch = vec![change("items", "r1", "body", HLC3, text("v"))];
    apply_unsigned(&mut conn, batch, &mut hlc).unwrap();
    let next = hlc.new_timestamp().unwrap().to_text();
    assert!(next.as_str() > HLC3, "local HLC {next} must be past incoming {HLC3}");
}

#[test]
fn incoming_write_does_not_regress_row_hlc_when_older_than_stored() {
    let (mut conn, mut hlc) = make_fixture();
    create_crdt_table(&conn, "items", "body TEXT, title TEXT");

    let batch = vec![
        change("items", "r1", "body", HLC3, text("body-3")),
        change("items", "r1", "title", HLC1, text("title-1")),
    ];
    apply_unsigned(&mut conn, batch, &mut hlc).unwrap();
    assert_eq!(row_hlc(&conn, "r1"), HLC3);
}

#[test]
fn a_later_batch_with_an_older_column_keeps_the_row_timestamp() {
    let (mut conn, mut hlc) = make_fixture();
    create_crdt_table(&conn, "items", "body TEXT, title TEXT");
    let first = vec![change("items", "r1", "body", HLC3, text("body-3"))];
    apply_unsigned(&mut conn, first, &mut hlc).unwrap();
    let second = vec![change("items", "r1", "title", HLC2, text("title-2"))];
    let report = apply_unsigned(&mut conn, second, &mut hlc).unwrap();
    assert_eq!(report.applied, 1);
    assert_eq!(row_hlc(&conn, "r1"), HLC3);
    assert_eq!(
        column_hlcs(&conn, "r1"),
        format!(r#"{{"body":"{HLC3}","title":"{HLC2}"}}"#)
    );
}

#[test]
fn a_superseded_change_of_the_same_batch_is_counted() {
    let (mut conn, mut hlc) = make_fixture();
    create_crdt_table(&conn, "items", "body TEXT");
    let batch = vec![
        change("items", "r1", "body", HLC3, text("last")),
        change("items", "r1", "body", HLC1, text("first")),
        change("items", "r1", "body", HLC2, text("second")),
    ];
    let mut policy = SignatureApplyPolicy::new(&NoopSignatureProvider);
    let outcome = apply_remote_changes(&mut conn, batch, &mut hlc, &mut policy).unwrap();
    assert_eq!(outcome.report.applied, 1);
    assert_eq!(outcome.report.skipped_superseded_in_batch, 2);
    assert_eq!(outcome.skipped.len(), 2);
    assert_eq!(one_text(&conn, "SELECT body FROM items WHERE id = 'r1'"), "last");
}

#[test]
fn two_replicas_that_merge_the_same_batches_in_either_order_agree() {
    let a = vec![
        change("items", "r1", "body", HLC2, text("a-body")),
        change("items", "r1", "title", HLC1, text("a-title")),
    ];
    let b = vec![
        change("items", "r1", "body", HLC1, text("b-body")),
        change("items", "r1", "title", HLC3, text("b-title")),
    ];
    let mut states = Vec::new();
    for order in [[&a, &b], [&b, &a]] {
        let (mut conn, mut hlc) = make_fixture();
        create_crdt_table(&conn, "items", "body TEXT, title TEXT");
        for batch in order {
            apply_unsigned(&mut conn, batch.clone(), &mut hlc).unwrap();
            // A replay changes nothing.
            assert_eq!(apply_unsigned(&mut conn, batch.clone(), &mut hlc).unwrap().applied, 0);
        }
        states.push((
            one_text(&conn, "SELECT body FROM items"),
            one_text(&conn, "SELECT title FROM items"),
            row_hlc(&conn, "r1"),
            column_hlcs(&conn, "r1"),
        ));
    }
    assert_eq!(states[0], states[1]);
    assert_eq!(states[0].0, "a-body");
    assert_eq!(states[0].1, "b-title");
}

// The limit on clock drift.

const MARGIN: u64 = HOUR;

#[test]
fn an_over_drift_change_is_refused_before_anything_is_written() {
    let (mut conn, mut hlc) = make_fixture();
    create_crdt_table(&conn, "items", "body TEXT");

    let poisoned = hlc_ahead_of_now(&mut hlc, MAX_REMOTE_HLC_DRIFT + MARGIN);
    let batch = vec![
        change("items", "r1", "body", HLC2, text("hello")),
        change("items", "r2", "body", &poisoned, text("theirs")),
    ];
    let err = apply_unsigned(&mut conn, batch, &mut hlc)
        .expect_err("a batch carrying an over-drift HLC must be refused");
    assert!(
        matches!(err, Fault::Lib(Error::RemoteHlcDriftTooLarge { .. })),
        "expected a drift refusal, got: {err:?}"
    );
    assert_eq!(
        count(&conn, "SELECT COUNT(*) FROM items"),
        0,
        "a refused batch must leave no row behind, not even its valid changes"
    );
}

#[test]
fn the_drift_refusal_names_the_timestamp_and_the_measured_drift() {
    let (mut conn, mut hlc) = make_fixture();
    create_crdt_table(&conn, "items", "body TEXT");

    let poisoned = hlc_ahead_of_now(&mut hlc, MAX_REMOTE_HLC_DRIFT + MARGIN);
    let batch = vec![change("items", "r1", "body", &poisoned, text("theirs"))];
    match apply_unsigned(&mut conn, batch, &mut hlc).expect_err("refused") {
        Fault::Lib(Error::RemoteHlcDriftTooLarge { hlc, drift, limit }) => {
            assert_eq!(hlc, poisoned, "the offending timestamp must be named");
            assert_eq!(limit, MAX_REMOTE_HLC_DRIFT);
            let expected = MAX_REMOTE_HLC_DRIFT + MARGIN;
            assert!(
                drift <= expected && drift + 5_000_000_000 > expected,
                "drift must be the real measurement, give or take the elapsed wall clock: {drift}"
            );
        }
        other => panic!("expected RemoteHlcDriftTooLarge, got {other:?}"),
    }
}

#[test]
fn a_timestamp_just_inside_the_tolerance_is_accepted_and_advances_the_clock() {
    let (mut conn, mut hlc) = make_fixture();
    create_crdt_table(&conn, "items", "body TEXT");

    let ahead = hlc_ahead_of_now(&mut hlc, MAX_REMOTE_HLC_DRIFT - MARGIN);
    let batch = vec![change("items", "r1", "body", &ahead, text("theirs"))];
    let report = apply_unsigned(&mut conn, batch, &mut hlc)
        .expect("a timestamp inside the tolerance must be accepted");

    assert_eq!(report.applied, 1);
    assert_eq!(one_text(&conn, "SELECT body FROM items WHERE id = 'r1'"), "theirs");
    let next = hlc.new_timestamp().expect("timestamp").to_text();
    assert!(
        hlc_is_newer(&next, &ahead),
        "the local clock must have advanced past the accepted remote HLC: {next} vs {ahead}"
    );
}

#[test]
fn a_timestamp_far_in_the_past_is_accepted() {
    let (mut conn, mut hlc) = make_fixture();
    create_crdt_table(&conn, "items", "body TEXT");

    let behind = hlc_behind_now(&mut hlc, 30 * 24 * HOUR);
    let batch = vec![change("items", "r1", "body", &behind, text("stale but valid"))];
    let report = apply_unsigned(&mut conn, batch, &mut hlc)
        .expect("a past timestamp is never a drift refusal");
    assert_eq!(report.applied, 1);
    assert_eq!(one_text(&conn, "SELECT body FROM items WHERE id = 'r1'"), "stale but valid");
}

#[test]
fn a_malformed_timestamp_is_not_a_drift_refusal() {
    let (mut conn, mut hlc) = make_fixture();
    create_crdt_table(&conn, "items", "body TEXT");

    let batch = vec![change("items", "r1", "body", "not-a-timestamp", text("x"))];
    let report = apply_unsigned(&mut conn, batch, &mut hlc)
        .expect("a malformed HLC must not be refused as drift");
    assert_eq!(report.applied, 0);
    assert_eq!(report.skipped_stale, 1);
    assert_eq!(count(&conn, "SELECT COUNT(*) FROM items"), 0);
}

#[test]
fn an_over_drift_change_the_write_loop_would_drop_still_fails_the_batch() {
    let (mut conn, mut hlc) = make_fixture();
    create_crdt_table(&conn, "items", "body TEXT");

    let poisoned = hlc_ahead_of_now(&mut hlc, MAX_REMOTE_HLC_DRIFT + MARGIN);
    let batch = vec![
        change("items", "r1", "body", HLC2, text("hello")),
        change("items", "r1", HLC_TIMESTAMP_COLUMN, &poisoned, text("whatever")),
    ];
    let err = apply_unsigned(&mut conn, batch, &mut hlc)
        .expect_err("the drift gate runs before the reserved-column guard");
    assert!(
        matches!(err, Fault::Lib(Error::RemoteHlcDriftTooLarge { .. })),
        "expected a drift refusal, got: {err:?}"
    );
    assert_eq!(
        count(&conn, "SELECT COUNT(*) FROM items"),
        0,
        "nothing may land from a refused batch"
    );
}

// Signatures.

fn signed(change: ColumnChange, sig: JsonValue) -> ColumnChange {
    ColumnChange { sig: Some(sig), ..change }
}

struct RejectAt {
    fail_at: usize,
    calls: Arc<AtomicUsize>,
}

impl SignatureProvider for RejectAt {
    fn sign_column(&self, _p: &[u8]) -> Result<Vec<u8>, Error> {
        Ok(Vec::new())
    }

    fn verify_column(&self, _p: &[u8], sig: &JsonValue) -> Result<(), Error> {
        let n = self.calls.fetch_add(1, Ordering::Relaxed);
        let target = JsonObject::parse(&sig.to_json()).and_then(|m| match m.get("idx") {
            Some(JsonValue::Number { integer: Some(i), .. }) => Some(*i as usize),
            _ => None,
        });
        if target == Some(self.fail_at) || n == self.fail_at {
            Err(Error::UnexpectedSignatureUnderNoop)
        } else {
            Ok(())
        }
    }

    fn author_id(&self) -> String {
        String::new()
    }

    fn on_before_apply(&self, _changes: &[ColumnChange]) -> Result<(), Error> {
        Ok(())
    }
}

struct HookProvider {
    hook_fired: Arc<AtomicBool>,
    reject: bool,
}

impl SignatureProvider for HookProvider {
    fn sign_column(&self, _p: &[u8]) -> Result<Vec<u8>, Error> {
        Ok(Vec::new())
    }

    fn verify_column(&self, _p: &[u8], _sig: &JsonValue) -> Result<(), Error> {
        Ok(())
    }

    fn author_id(&self) -> String {
        String::new()
    }

    fn on_before_apply(&self, _changes: &[ColumnChange]) -> Result<(), Error> {
        self.hook_fired.store(true, Ordering::Relaxed);
        if self.reject {
            Err(Error::UnexpectedSignatureUnderNoop)
        } else {
            Ok(())
        }
    }
}

#[test]
fn on_before_apply_rejection_aborts_the_batch_before_any_write() {
    let (mut conn, mut hlc) = make_fixture();
    create_crdt_table(&conn, "items", "body TEXT");

    let fired = Arc::new(AtomicBool::new(false));
    let provider = HookProvider { hook_fired: fired.clone(), reject: true };
    let err = apply_remote_changes(
        &mut conn,
        vec![change("items", "r1", "body", HLC1, text("v"))],
        &mut hlc,
        &mut SignatureApplyPolicy::new(&provider),
    )
    .unwrap_err();
    assert!(matches!(err, Fault::Lib(Error::UnexpectedSignatureUnderNoop)));
    assert!(fired.load(Ordering::Relaxed), "hook must have fired");
    assert_eq!(count(&conn, "SELECT COUNT(*) FROM items"), 0, "no write may have landed");
}

#[test]
fn preflight_rejection_reports_offender_index_and_leaves_db_untouched() {
    let (mut conn, mut hlc) = make_fixture();
    create_crdt_table(&conn, "items", "body TEXT");

    let calls = Arc::new(AtomicUsize::new(0));
    let provider = RejectAt { fail_at: 1, calls: calls.clone() };
    let batch = vec![
        signed(change("items", "r1", "body", HLC1, text("a")), json(r#"{"idx": 0}"#)),
        signed(change("items", "r2", "body", HLC2, text("b")), json(r#"{"idx": 1}"#)),
    ];
    let err = apply_remote_changes(
        &mut conn,
        batch,
        &mut hlc,
        &mut SignatureApplyPolicy::new(&provider),
    )
    .unwrap_err();
    match err {
        Fault::Lib(Error::SignatureVerificationFailed { first_failed_change }) => {
            assert_eq!(first_failed_change, 1);
        }
        other => panic!("wrong variant: {other:?}"),
    }
    assert_eq!(
        count(&conn, "SELECT COUNT(*) FROM items"),
        0,
        "sig-fail must roll back the first change too"
    );
    assert_eq!(calls.load(Ordering::Relaxed), 2);
}

#[test]
fn noop_provider_rejects_batch_carrying_non_null_signatures() {
    let (mut conn, mut hlc) = make_fixture();
    create_crdt_table(&conn, "items", "body TEXT");

    let batch =
        vec![signed(change("items", "r1", "body", HLC1, text("v")), text("real-sig"))];
    let err = apply_remote_changes(
        &mut conn,
        batch,
        &mut hlc,
        &mut SignatureApplyPolicy::new(&NoopSignatureProvider),
    )
    .unwrap_err();
    assert!(matches!(
        err,
        Fault::Lib(Error::SignatureVerificationFailed { first_failed_change: 0 })
    ));
}

#[test]
fn accepted_sig_lands_in_column_sigs_json_map() {
    let (mut conn, mut hlc) = make_fixture();
    create_crdt_table(&conn, "items", "body TEXT");

    let accept_all =
        HookProvider { hook_fired: Arc::new(AtomicBool::new(false)), reject: false };
    let sig = json(r#"{"authorDid": "did:key:zAlice", "sig": "base64bytes"}"#);
    let batch = vec![signed(change("items", "r1", "body", HLC1, text("v")), sig.clone())];
    apply_remote_changes(
        &mut conn,
        batch,
        &mut hlc,
        &mut SignatureApplyPolicy::new(&accept_all),
    )
    .unwrap();
    let sigs = JsonObject::parse(&column_sigs(&conn, "r1")).unwrap();
    assert!(sigs.get("body").unwrap().same_as(&sig));

    // An unsigned newer value must not retain a signature for the old value.
    let unsigned = vec![change("items", "r1", "body", HLC2, text("unsigned-new-value"))];
    apply_unsigned(&mut conn, unsigned, &mut hlc).unwrap();
    let sigs = JsonObject::parse(&column_sigs(&conn, "r1")).unwrap();
    assert!(sigs.get("body").is_none());
}

#[test]
fn preimage_is_deterministic_and_field_sensitive() {
    let c1 = change("items", "r1", "body", HLC1, text("v"));
    let c2 = change("items", "r1", "body", HLC1, text("v"));
    assert_eq!(column_sig_preimage(&c1), column_sig_preimage(&c2));

    let c3 = change("items", "r1", "title", HLC1, text("v"));
    assert_ne!(column_sig_preimage(&c1), column_sig_preimage(&c3));
}

// The delete log.

fn insert_target(conn: &mut Connection, hlc: &mut HlcService) {
    let batch = vec![change("items", "r1", "body", HLC1, text("original"))];
    apply_unsigned(conn, batch, hlc).unwrap();
}

fn delete_log_batch(
    delete_id: &str,
    target_table: &str,
    target_pk_id: &str,
    delete_hlc: &str,
) -> Vec<ColumnChange> {
    let target_pks = format!(r#"{{"id":"{target_pk_id}"}}"#);
    vec![
        change(DELETED_ROWS_TABLE, delete_id, "table_name", delete_hlc, text(target_table)),
        change(DELETED_ROWS_TABLE, delete_id, "row_pks", delete_hlc, text(&target_pks)),
    ]
}

fn log_count(conn: &Connection, id: &str) -> i64 {
    count(conn, &format!("SELECT COUNT(*) FROM {DELETED_ROWS_TABLE} WHERE id = '{id}'"))
}

#[test]
fn delete_log_entry_fans_out_to_target_row() {
    let (mut conn, mut hlc) = make_fixture();
    create_crdt_table(&conn, "items", "body TEXT");
    insert_target(&mut conn, &mut hlc);

    apply_unsigned(&mut conn, delete_log_batch("del-1", "items", "r1", HLC2), &mut hlc).unwrap();

    assert_eq!(
        count(&conn, "SELECT COUNT(*) FROM items WHERE id = 'r1'"),
        0,
        "delete-log propagation must remove target row"
    );
    assert_eq!(log_count(&conn, "del-1"), 1, "delete-log entry must stay for peer relay");
}

#[test]
fn delete_log_does_not_propagate_when_target_row_is_strictly_newer() {
    let (mut conn, mut hlc) = make_fixture();
    create_crdt_table(&conn, "items", "body TEXT");

    let batch = vec![change("items", "r1", "body", HLC3, text("kept"))];
    apply_unsigned(&mut conn, batch, &mut hlc).unwrap();
    let report =
        apply_unsigned(&mut conn, delete_log_batch("del-1", "items", "r1", HLC2), &mut hlc).unwrap();
    assert_eq!(report.skipped_delete_target_newer, 1);
    assert_eq!(
        count(&conn, "SELECT COUNT(*) FROM items WHERE id = 'r1'"),
        1,
        "newer row must survive an older delete"
    );
}

#[test]
fn insert_shadowed_by_prior_delete_is_suppressed_and_counted() {
    let (mut conn, mut hlc) = make_fixture();
    create_crdt_table(&conn, "items", "body TEXT");

    apply_unsigned(&mut conn, delete_log_batch("del-1", "items", "r1", HLC2), &mut hlc).unwrap();

    let batch = vec![change("items", "r1", "body", HLC1, text("resurrected"))];
    let report = apply_unsigned(&mut conn, batch, &mut hlc).unwrap();
    assert_eq!(report.applied, 0, "resurrection insert must be suppressed");
    assert_eq!(report.skipped_shadowed_by_delete, 1);
    assert_eq!(
        count(&conn, "SELECT COUNT(*) FROM items WHERE id = 'r1'"),
        0,
        "shadowed insert must not land"
    );
}

#[test]
fn insert_strictly_newer_than_all_deletes_wins_and_lands() {
    let (mut conn, mut hlc) = make_fixture();
    create_crdt_table(&conn, "items", "body TEXT");

    apply_unsigned(&mut conn, delete_log_batch("del-1", "items", "r1", HLC1), &mut hlc).unwrap();

    let batch = vec![change("items", "r1", "body", HLC3, text("legit-repost"))];
    let report = apply_unsigned(&mut conn, batch, &mut hlc).unwrap();
    assert_eq!(report.applied, 1);
    assert_eq!(report.skipped_shadowed_by_delete, 0);
    assert_eq!(one_text(&conn, "SELECT body FROM items WHERE id = 'r1'"), "legit-repost");
}

#[test]
fn null_delete_hlc_is_skipped_without_aborting_apply() {
    let (mut conn, mut hlc) = make_fixture();
    create_crdt_table(&conn, "items", "body TEXT");
    insert_target(&mut conn, &mut hlc);
    conn.execute(
        &format!(
            "INSERT INTO {DELETED_ROWS_TABLE}
             (id, table_name, row_pks, {HLC_TIMESTAMP_COLUMN}, {COLUMN_HLCS_COLUMN})
             VALUES ('del-null', 'items', '{{\"id\":\"r1\"}}', NULL, '{{}}')"
        ),
        [],
    )
    .unwrap();

    let batch = vec![change(
        DELETED_ROWS_TABLE,
        "del-null",
        "unknown_column",
        HLC2,
        text("ignored"),
    )];
    let report = apply_unsigned(&mut conn, batch, &mut hlc).unwrap();
    assert_eq!(report.skipped_unknown_column, 1);
    assert_eq!(count(&conn, "SELECT COUNT(*) FROM items WHERE id = 'r1'"), 1);
}

#[test]
fn target_delete_error_rolls_back_the_delete_log_apply() {
    let (mut conn, mut hlc) = make_fixture();
    create_crdt_table(&conn, "items", "body TEXT");
    insert_target(&mut conn, &mut hlc);
    conn.execute_batch(
        "CREATE TRIGGER reject_item_delete
         BEFORE DELETE ON items
         BEGIN
             SELECT RAISE(ABORT, 'delete rejected');
         END;",
    )
    .unwrap();

    let batch = delete_log_batch("del-rollback", "items", "r1", HLC2);
    assert!(apply_unsigned(&mut conn, batch, &mut hlc).is_err());

    assert_eq!(
        count(&conn, "SELECT COUNT(*) FROM items WHERE id = 'r1'"),
        1,
        "failed propagation must not remove the target row"
    );
    assert_eq!(
        log_count(&conn, "del-rollback"),
        0,
        "failed propagation must roll back the log row"
    );
}

#[test]
fn delete_target_without_crdt_metadata_is_skipped() {
    let (mut conn, mut hlc) = make_fixture();
    conn.execute(
        "CREATE TABLE plain_items (id TEXT PRIMARY KEY NOT NULL, body TEXT)",
        [],
    )
    .unwrap();

    let batch = delete_log_batch("del-plain", "plain_items", "r1", HLC2);
    apply_unsigned(&mut conn, batch, &mut hlc).unwrap();
    assert_eq!(log_count(&conn, "del-plain"), 1, "malformed target must not abort the batch");
}

// Columns that a peer may not write.

#[test]
fn insert_keeps_the_computed_row_hlc_over_a_remote_one() {
    let (mut conn, mut hlc) = make_fixture();
    create_crdt_table(&conn, "items", "body TEXT");

    let changes = vec![
        change("items", "r1", "body", HLC2, text("hello")),
        change("items", "r1", HLC_TIMESTAMP_COLUMN, HLC_ATTACKER, text(HLC_ATTACKER)),
    ];
    let report = apply_unsigned(&mut conn, changes, &mut hlc).unwrap();
    assert_eq!(
        row_hlc(&conn, "r1"),
        HLC2,
        "the row HLC must be the crate's computed value, not the peer's"
    );
    assert_eq!(report.applied, 1, "only the body change may apply");
    assert_eq!(report.skipped_reserved_column, 1);
}

#[test]
fn insert_keeps_the_computed_column_hlc_map_over_a_remote_one() {
    let (mut conn, mut hlc) = make_fixture();
    create_crdt_table(&conn, "items", "body TEXT");

    let changes = vec![
        change("items", "r1", "body", HLC2, text("hello")),
        change(
            "items",
            "r1",
            COLUMN_HLCS_COLUMN,
            HLC_ATTACKER,
            text(&format!("{{\"body\":\"{HLC_ATTACKER}\"}}")),
        ),
    ];
    let report = apply_unsigned(&mut conn, changes, &mut hlc).unwrap();
    let map = column_hlcs(&conn, "r1");
    assert!(
        map.contains(HLC2) && !map.contains(HLC_ATTACKER),
        "per-column HLCs must be the crate's, not the peer's: {map}"
    );
    assert!(
        !map.contains(COLUMN_HLCS_COLUMN),
        "no per-column HLC entry may be created for a metadata column: {map}"
    );
    assert_eq!(report.skipped_reserved_column, 1);
}

#[test]
fn insert_rejects_a_remote_signature_map() {
    let (mut conn, mut hlc) = make_fixture();
    create_crdt_table(&conn, "items", "body TEXT");

    let forged = r#"{"body":"forged-signature"}"#;
    let changes = vec![
        change("items", "r1", "body", HLC2, text("hello")),
        change("items", "r1", COLUMN_SIGS_COLUMN, HLC_ATTACKER, text(forged)),
    ];
    let report = apply_unsigned(&mut conn, changes, &mut hlc).unwrap();
    let sigs = column_sigs(&conn, "r1");
    assert!(
        !sigs.contains("forged-signature"),
        "a peer must not be able to populate the signature map: {sigs}"
    );
    assert_eq!(report.skipped_reserved_column, 1);
}

#[test]
fn insert_ignores_a_remote_primary_key_column() {
    let (mut conn, mut hlc) = make_fixture();
    create_crdt_table(&conn, "items", "body TEXT");

    let changes = vec![
        change("items", "r1", "body", HLC2, text("hello")),
        change("items", "r1", "id", HLC3, text("hijacked")),
    ];
    let report = apply_unsigned(&mut conn, changes, &mut hlc).unwrap();
    assert_eq!(
        item_ids(&conn),
        vec!["r1".to_string()],
        "row identity comes from row_pks; a change naming a PK must not set it"
    );
    assert_eq!(report.skipped_reserved_column, 1);
}

#[test]
fn update_ignores_remote_metadata_columns() {
    let (mut conn, mut hlc) = make_fixture();
    create_crdt_table(&conn, "items", "body TEXT");
    let first = vec![change("items", "r1", "body", HLC2, text("v2"))];
    apply_unsigned(&mut conn, first, &mut hlc).unwrap();

    let second = vec![
        change("items", "r1", "body", HLC3, text("v3")),
        change("items", "r1", HLC_TIMESTAMP_COLUMN, HLC_ATTACKER, text(HLC_ATTACKER)),
    ];
    let report = apply_unsigned(&mut conn, second, &mut hlc).unwrap();

    assert_eq!(row_hlc(&conn, "r1"), HLC3);
    let map = column_hlcs(&conn, "r1");
    assert!(
        !map.contains(HLC_TIMESTAMP_COLUMN) && !map.contains(HLC_ATTACKER),
        "the peer's metadata change must leave no trace: {map}"
    );
    assert_eq!(report.skipped_reserved_column, 1);
}

#[test]
fn update_ignores_a_remote_primary_key_column() {
    let (mut conn, mut hlc) = make_fixture();
    create_crdt_table(&conn, "items", "body TEXT");
    let first = vec![change("items", "r1", "body", HLC2, text("v2"))];
    apply_unsigned(&mut conn, first, &mut hlc).unwrap();

    let second = vec![change("items", "r1", "id", HLC3, text("hijacked"))];
    let report = apply_unsigned(&mut conn, second, &mut hlc).unwrap();
    assert_eq!(
        item_ids(&conn),
        vec!["r1".to_string()],
        "a remote PK assignment must not rewrite row identity"
    );
    assert_eq!(report.skipped_reserved_column, 1);
}

#[test]
fn remote_no_sync_column_is_skipped_while_the_rest_of_the_batch_applies() {
    let (mut conn, mut hlc) = make_fixture();
    create_crdt_table(&conn, "items", "body TEXT, last_pull_cursor_no_sync TEXT");

    let batch = vec![
        change("items", "r1", "last_pull_cursor_no_sync", HLC3, text("theirs")),
        change("items", "r1", "body", HLC2, text("hello")),
    ];
    let report = apply_unsigned(&mut conn, batch, &mut hlc).unwrap();

    let body = one_text(&conn, "SELECT body FROM items WHERE id = 'r1'");
    assert_eq!(body, "hello", "the sibling change must still land");
    let cursor: Option<String> = conn
        .query_row("SELECT last_pull_cursor_no_sync FROM items WHERE id = 'r1'", [], |r| r.get(0))
        .unwrap();
    assert_eq!(cursor, None, "this device's cursor must not be clobbered");
    assert_eq!(report.applied, 1);
    assert_eq!(report.skipped_no_sync_column, 1);
    assert_eq!(
        report.skipped_reserved_column, 0,
        "a consumer column must not be counted as a crate-reserved one"
    );
}

#[test]
fn unknown_column_still_counts_as_unknown() {
    let (mut conn, mut hlc) = make_fixture();
    create_crdt_table(&conn, "items", "body TEXT");

    let batch = vec![change("items", "r1", "gone_no_sync", HLC2, text("x"))];
    let report = apply_unsigned(&mut conn, batch, &mut hlc).unwrap();
    assert_eq!(report.skipped_unknown_column, 1);
    assert_eq!(report.skipped_no_sync_column, 0);
}

#[test]
fn a_dropped_change_does_not_drag_the_local_clock_forward() {
    let (mut conn, mut hlc) = make_fixture();
    create_crdt_table(&conn, "items", "body TEXT");

    let poisoned = hlc_ahead_of_now(&mut hlc, 6 * HOUR);
    let batch = vec![
        change("items", "r1", "body", HLC2, text("hello")),
        change("items", "r1", HLC_TIMESTAMP_COLUMN, &poisoned, text("whatever")),
    ];
    let report = apply_unsigned(&mut conn, batch, &mut hlc)
        .expect("a change apply dropped must not fail the batch");

    assert_eq!(report.applied, 1);
    assert_eq!(report.skipped_reserved_column, 1);
    let body = one_text(&conn, "SELECT body FROM items WHERE id = 'r1'");
    assert_eq!(body, "hello", "the sibling change must still land");
    assert_eq!(
        row_hlc(&conn, "r1"),
        HLC2,
        "the dropped change must leave no trace in the row"
    );
    let next = hlc.new_timestamp().expect("timestamp").to_text();
    assert!(
        hlc_is_newer(&poisoned, &next),
        "the dropped change must leave no trace in the clock either: \
         local now advanced to {next}, past the dropped {poisoned}"
    );
}

#[test]
fn remote_no_trigger_column_is_accepted() {
    let (mut conn, mut hlc) = make_fixture();
    create_crdt_table(&conn, "items", "body TEXT, updated_at_no_trigger TEXT");

    let batch = vec![
        change("items", "r1", "body", HLC2, text("hello")),
        change("items", "r1", "updated_at_no_trigger", HLC2, text("2026-01-01")),
    ];
    let report = apply_unsigned(&mut conn, batch, &mut hlc).unwrap();
    let stored = one_text(&conn, "SELECT updated_at_no_trigger FROM items WHERE id = 'r1'");
    assert_eq!(stored, "2026-01-01");
    assert_eq!(report.applied, 2);
    assert_eq!(report.skipped_no_sync_column, 0);
    assert_eq!(report.skipped_reserved_column, 0);
}

// Policies.

/// What the scripted policy answers for a row.
#[derive(Clone, Copy)]
enum Row {
    AcceptAll,
    Skip,
    SkipColumn(&'static str),
    NoDecisions,
    StubThenAccept,
}

/// A policy with fixed answers.
struct Scripted {
    row: Row,
    fail_begin: bool,
    fail_after_row: bool,
    fail_before_commit: bool,
    side_table: bool,
    constraint: ConstraintDecision,
}

impl Scripted {
    fn answering(row: Row) -> Self {
        Scripted {
            row,
            fail_begin: false,
            fail_after_row: false,
            fail_before_commit: false,
            side_table: false,
            constraint: ConstraintDecision::Abort,
        }
    }

    fn skipping_on_constraint(row: Row) -> Self {
        Scripted { constraint: ConstraintDecision::SkipRow, ..Scripted::answering(row) }
    }
}

fn deliberate(fails: bool) -> Result<(), Error> {
    if fails {
        Err(Error::Message("deliberate failure".to_string()))
    } else {
        Ok(())
    }
}

fn run(tx: &Connection, sql: &str) -> Result<(), Error> {
    tx.execute_batch(sql).map_err(|e| Error::Message(e.to_string()))
}

fn accept_but(row: &RowInput<'_>, skipped: &str) -> RowDecision {
    let mut decisions = Vec::new();
    for &i in row.eligible_indices {
        let change = &row.changes[i].change;
        decisions.push(if change.column_name == skipped {
            ColumnDecision::Skip
        } else {
            ColumnDecision::Accept {
                value: SqlValue::Text(change.value.as_text().unwrap_or_default().to_string()),
                signature: SignatureWrite::Keep,
            }
        });
    }
    RowDecision::Columns(decisions)
}

impl ApplyPolicy<Connection> for Scripted {
    fn preflight(&mut self, _changes: &[ColumnChange]) -> Result<(), Error> {
        Ok(())
    }

    fn begin(&mut self, tx: &Connection, _changes: &[ColumnChange]) -> Result<(), Error> {
        if self.side_table {
            run(tx, "CREATE TABLE policy_side (id TEXT)")?;
            run(tx, "INSERT INTO policy_side (id) VALUES ('begin')")?;
        }
        deliberate(self.fail_begin)
    }

    fn prepare_row(&mut self, tx: &Connection, row: RowInput<'_>) -> Result<RowDecision, Error> {
        assert!(!self.fail_begin, "begin fails before any row is processed");
        match self.row {
            Row::AcceptAll => Ok(accept_but(&row, "")),
            Row::Skip => Ok(RowDecision::Skip),
            Row::SkipColumn(name) => Ok(accept_but(&row, name)),
            Row::NoDecisions => Ok(RowDecision::Columns(vec![])),
            Row::StubThenAccept => {
                let id = row.row_pks.get("id").unwrap().as_text().unwrap().to_string();
                tx.execute(
                    &format!("INSERT INTO \"{}\" (id) VALUES (?)", row.table_name),
                    [id],
                )
                .unwrap();
                Ok(accept_but(&row, ""))
            }
        }
    }

    fn after_row(&mut self, tx: &Connection, _written: RowWrite<'_>) -> Result<(), Error> {
        if self.side_table {
            run(tx, "INSERT INTO policy_side (id) VALUES ('after_row')")?;
        }
        deliberate(self.fail_after_row)
    }

    fn on_insert_constraint(
        &mut self,
        _tx: &Connection,
        _attempted: RowWrite<'_>,
        _code: i32,
    ) -> Result<ConstraintDecision, Error> {
        Ok(self.constraint)
    }

    fn before_commit(
        &mut self,
        _tx: &Connection,
        _changes: &[ColumnChange],
        _outcome: &ApplyOutcome,
    ) -> Result<(), Error> {
        deliberate(self.fail_before_commit)
    }
}

#[test]
fn wrong_column_decision_count_is_rejected_with_an_error() {
    let (mut conn, mut hlc) = make_fixture();
    create_crdt_table(&conn, "items", "body TEXT");

    let err = apply_remote_changes(
        &mut conn,
        vec![change("items", "r1", "body", HLC1, text("v"))],
        &mut hlc,
        &mut Scripted::answering(Row::NoDecisions),
    )
    .unwrap_err();
    assert!(
        matches!(err, Fault::Lib(Error::Message(_))),
        "expected a validation error naming the mismatch, got {err:?}"
    );
    assert_eq!(
        count(&conn, "SELECT COUNT(*) FROM items"),
        0,
        "malformed policy output must abort the whole batch, not write partially"
    );
}

#[test]
fn row_level_policy_skip_drops_the_whole_row_and_does_not_advance_the_clock() {
    let (mut conn, mut hlc) = make_fixture();
    create_crdt_table(&conn, "items", "body TEXT");

    let poisoned = hlc_ahead_of_now(&mut hlc, 6 * HOUR);
    let outcome = apply_remote_changes(
        &mut conn,
        vec![change("items", "r1", "body", &poisoned, text("v"))],
        &mut hlc,
        &mut Scripted::answering(Row::Skip),
    )
    .expect("a row-level policy skip must not fail the batch");

    assert_eq!(outcome.report.applied, 0);
    assert_eq!(outcome.report.skipped_policy, 1);
    assert_eq!(outcome.skipped.len(), 1);
    assert_eq!(outcome.skipped[0].input_index, 0);
    assert_eq!(outcome.skipped[0].reason, SkipReason::Policy);
    assert_eq!(count(&conn, "SELECT COUNT(*) FROM items"), 0);

    let next = hlc.new_timestamp().expect("timestamp").to_text();
    assert!(
        hlc_is_newer(&poisoned, &next),
        "a policy-skipped row must not advance the local clock"
    );
}

#[test]
fn column_level_policy_skip_drops_only_that_column() {
    let (mut conn, mut hlc) = make_fixture();
    create_crdt_table(&conn, "items", "body TEXT, title TEXT");

    let outcome = apply_remote_changes(
        &mut conn,
        vec![
            change("items", "r1", "body", HLC1, text("hello")),
            change("items", "r1", "title", HLC1, text("world")),
        ],
        &mut hlc,
        &mut Scripted::answering(Row::SkipColumn("title")),
    )
    .unwrap();

    assert_eq!(outcome.report.applied, 1, "only body may land");
    assert_eq!(outcome.report.skipped_policy, 1);
    let skipped_title = outcome
        .skipped
        .iter()
        .find(|s| s.input_index == 1)
        .expect("the title change must be recorded as skipped");
    assert_eq!(skipped_title.reason, SkipReason::Policy);

    let (body, title): (String, Option<String>) = conn
        .query_row("SELECT body, title FROM items WHERE id = 'r1'", [], |r| {
            Ok((r.get(0)?, r.get(1)?))
        })
        .unwrap();
    assert_eq!(body, "hello");
    assert_eq!(title, None, "the column-skipped value must not land");
}

#[test]
fn after_row_failure_aborts_the_whole_batch() {
    let (mut conn, mut hlc) = make_fixture();
    create_crdt_table(&conn, "items", "body TEXT");

    let mut policy = Scripted { fail_after_row: true, ..Scripted::answering(Row::AcceptAll) };
    let err = apply_remote_changes(
        &mut conn,
        vec![change("items", "r1", "body", HLC1, text("v"))],
        &mut hlc,
        &mut policy,
    )
    .unwrap_err();
    assert!(matches!(err, Fault::Lib(Error::Message(_))));
    assert_eq!(
        count(&conn, "SELECT COUNT(*) FROM items"),
        0,
        "after_row failing must roll back the write it was called for"
    );
}

fn not_null_violation_is_skipped() {
    let (mut conn, mut hlc) = make_fixture();
    create_crdt_table(&conn, "items", "body TEXT NOT NULL, note TEXT");

    let poisoned = hlc_ahead_of_now(&mut hlc, 6 * HOUR);
    let outcome = apply_remote_changes(
        &mut conn,
        vec![change("items", "r1", "note", &poisoned, text("hi"))],
        &mut hlc,
        &mut Scripted::skipping_on_constraint(Row::AcceptAll),
    )
    .expect("SkipRow must not fail the batch");

    assert_eq!(outcome.report.applied, 0);
    assert_eq!(outcome.report.skipped_insert_constraint, 1);
    assert_eq!(outcome.skipped[0].reason, SkipReason::InsertNotNull);
    assert_eq!(
        count(&conn, "SELECT COUNT(*) FROM items"),
        0,
        "the failed insert must not have landed"
    );

    let next = hlc.new_timestamp().expect("timestamp").to_text();
    assert!(
        hlc_is_newer(&poisoned, &next),
        "a constraint-skipped row must not advance the local clock"
    );
}

#[test]
fn policy_insert_not_null_violation_skip_row_continues_the_batch_and_does_not_advance_the_clock() {
    not_null_violation_is_skipped();
}

#[test]
fn insert_constraint_insert_not_null_violation_skip_row_continues_the_batch_and_does_not_advance_the_clock(
) {
    not_null_violation_is_skipped();
}

fn not_null_violation_aborts() {
    let (mut conn, mut hlc) = make_fixture();
    create_crdt_table(&conn, "items", "body TEXT NOT NULL, note TEXT");

    let err = apply_remote_changes(
        &mut conn,
        vec![change("items", "r1", "note", HLC1, text("hi"))],
        &mut hlc,
        &mut Scripted::answering(Row::AcceptAll),
    )
    .unwrap_err();
    assert!(
        matches!(err, Fault::Sqlite(_)),
        "the default hook must abort with the original SQL error, got {err:?}"
    );
    assert_eq!(count(&conn, "SELECT COUNT(*) FROM items"), 0);
}

#[test]
fn policy_insert_not_null_violation_aborts_by_default() {
    not_null_violation_aborts();
}

#[test]
fn insert_constraint_insert_not_null_violation_aborts_by_default() {
    not_null_violation_aborts();
}

fn unique_violation_is_skipped() {
    let (mut conn, mut hlc) = make_fixture();
    create_crdt_table(&conn, "items", "code TEXT UNIQUE");

    let outcome = apply_remote_changes(
        &mut conn,
        vec![
            change("items", "r1", "code", HLC1, text("dup")),
            change("items", "r2", "code", HLC2, text("dup")),
        ],
        &mut hlc,
        &mut Scripted::skipping_on_constraint(Row::AcceptAll),
    )
    .expect("SkipRow must not fail the batch");

    assert_eq!(outcome.report.applied, 1, "only the first row may land");
    assert_eq!(outcome.report.skipped_insert_constraint, 1);
    let reason = outcome.skipped.iter().find(|s| s.input_index == 1).map(|s| s.reason);
    assert_eq!(reason, Some(SkipReason::InsertUnique));
    assert_eq!(
        count(&conn, "SELECT COUNT(*) FROM items"),
        1,
        "only the first row may exist"
    );
}

#[test]
fn policy_insert_unique_violation_skip_row_continues_the_batch() {
    unique_violation_is_skipped();
}

#[test]
fn insert_constraint_insert_unique_violation_skip_row_continues_the_batch() {
    unique_violation_is_skipped();
}

#[test]
fn insert_primary_key_violation_from_a_policy_created_row_skip_row_continues_the_batch() {
    let (mut conn, mut hlc) = make_fixture();
    create_crdt_table(&conn, "items", "note TEXT");

    let outcome = apply_remote_changes(
        &mut conn,
        vec![change("items", "r1", "note", HLC1, text("hi"))],
        &mut hlc,
        &mut Scripted::skipping_on_constraint(Row::StubThenAccept),
    )
    .expect("on_insert_constraint returning SkipRow must not hard-abort the batch");

    assert_eq!(outcome.report.applied, 0);
    assert_eq!(outcome.report.skipped_insert_constraint, 1);
    assert_eq!(outcome.skipped[0].reason, SkipReason::InsertPrimaryKey);
    assert_eq!(
        count(&conn, "SELECT COUNT(*) FROM items"),
        1,
        "only the policy's own stub row may exist; the core's INSERT must not have landed"
    );
}

#[test]
fn primary_key_and_unique_violations_are_distinguished_by_extended_code_not_message_text() {
    let (mut pk_conn, mut pk_hlc) = make_fixture();
    create_crdt_table(&pk_conn, "items", "note TEXT");
    let pk_outcome = apply_remote_changes(
        &mut pk_conn,
        vec![change("items", "r1", "note", HLC1, text("hi"))],
        &mut pk_hlc,
        &mut Scripted::skipping_on_constraint(Row::StubThenAccept),
    )
    .expect("SkipRow must not fail the batch");
    assert_eq!(
        pk_outcome.skipped[0].reason,
        SkipReason::InsertPrimaryKey,
        "a PK collision must classify as InsertPrimaryKey, not InsertUnique"
    );

    let (mut unique_conn, mut unique_hlc) = make_fixture();
    create_crdt_table(&unique_conn, "items", "code TEXT UNIQUE");
    let unique_outcome = apply_remote_changes(
        &mut unique_conn,
        vec![
            change("items", "r1", "code", HLC1, text("dup")),
            change("items", "r2", "code", HLC2, text("dup")),
        ],
        &mut unique_hlc,
        &mut Scripted::skipping_on_constraint(Row::AcceptAll),
    )
    .expect("SkipRow must not fail the batch");
    let reason = unique_outcome.skipped.iter().find(|s| s.input_index == 1).map(|s| s.reason);
    assert_eq!(
        reason,
        Some(SkipReason::InsertUnique),
        "a same-value-different-row collision must still classify as InsertUnique"
    );
}

#[test]
fn before_commit_failure_rolls_back_everything_including_policy_side_effects() {
    let (mut conn, mut hlc) = make_fixture();
    create_crdt_table(&conn, "items", "body TEXT");

    let mut policy = Scripted {
        side_table: true,
        fail_before_commit: true,
        ..Scripted::answering(Row::AcceptAll)
    };
    let err = apply_remote_changes(
        &mut conn,
        vec![change("items", "r1", "body", HLC1, text("v"))],
        &mut hlc,
        &mut policy,
    )
    .unwrap_err();
    assert!(matches!(err, Fault::Lib(Error::Message(_))));
    assert_eq!(count(&conn, "SELECT COUNT(*) FROM items"), 0, "the merge itself must roll back");
    assert_eq!(
        count(
            &conn,
            "SELECT COUNT(*) FROM sqlite_master WHERE type = 'table' AND name = 'policy_side'"
        ),
        0,
        "a before_commit failure must roll back everything the policy wrote \
         earlier in the same transaction, including its own side table"
    );
}

#[test]
fn fk_and_trigger_state_are_restored_after_an_error_from_begin() {
    let (mut conn, mut hlc) = make_fixture();
    create_crdt_table(&conn, "items", "body TEXT");
    conn.execute("PRAGMA foreign_keys = ON", []).unwrap();

    let mut policy = Scripted { fail_begin: true, ..Scripted::answering(Row::AcceptAll) };
    let err = apply_remote_changes(
        &mut conn,
        vec![change("items", "r1", "body", HLC1, text("v"))],
        &mut hlc,
        &mut policy,
    )
    .unwrap_err();
    assert!(matches!(err, Fault::Lib(Error::Message(_))));

    let fk_enabled: bool = conn.query_row("PRAGMA foreign_keys", [], |r| r.get(0)).unwrap();
    assert!(fk_enabled, "foreign_keys must be restored after an error from a policy hook");

    let triggers_enabled = one_text(
        &conn,
        &format!("SELECT value FROM {TABLE_CRDT_CONFIGS} WHERE key = 'triggers_enabled'"),
    );
    assert_eq!(
        triggers_enabled, "1",
        "trigger state must not be left disabled after a mid-transaction error"
    );
}

#[test]
fn incomplete_numeric_hlc_is_skipped_without_panicking() {
    let (mut conn, mut hlc) = make_fixture();
    create_crdt_table(&conn, "items", "body TEXT");
    let outcome = apply_remote_changes(
        &mut conn,
        vec![
            change("items", "r1", "body", "1", text("invalid")),
            change("items", "r2", "body", HLC1, text("valid")),
        ],
        &mut hlc,
        &mut Scripted::answering(Row::AcceptAll),
    )
    .unwrap();
    assert_eq!(outcome.report.applied, 1);
    assert_eq!(outcome.skipped.len(), 1);
    assert_eq!(outcome.skipped[0].input_index, 0);
    assert_eq!(outcome.skipped[0].reason, SkipReason::Stale);
    assert_eq!(one_text(&conn, "SELECT id FROM items"), "r2");
}

#[test]
fn rejected_delete_replay_does_not_delete_but_admitted_stale_replay_does() {
    for rejecting in [Row::Skip, Row::SkipColumn("table_name")] {
        let (mut conn, mut hlc) = make_fixture();
        create_crdt_table(&conn, "items", "body TEXT");
        // A persisted tombstone whose target still needs propagation.
        conn.execute(
            &format!(
                "INSERT INTO {DELETED_ROWS_TABLE}
                 (id, table_name, row_pks, {HLC_TIMESTAMP_COLUMN})
                 VALUES ('del-1', 'items', '{{\"id\":\"r1\"}}', ?1)"
            ),
            [HLC2],
        )
        .unwrap();
        conn.execute(
            &format!(
                "INSERT INTO items (id, body, {HLC_TIMESTAMP_COLUMN}) VALUES ('r1', 'kept', ?1)"
            ),
            [HLC1],
        )
        .unwrap();
        let batch =
            vec![change(DELETED_ROWS_TABLE, "del-1", "table_name", HLC2, text("items"))];
        let outcome = apply_remote_changes(
            &mut conn,
            batch.clone(),
            &mut hlc,
            &mut Scripted::answering(rejecting),
        )
        .unwrap();
        assert_eq!(outcome.report.applied, 0);
        assert_eq!(outcome.skipped[0].reason, SkipReason::Policy);
        assert_eq!(
            count(&conn, "SELECT COUNT(*) FROM items"),
            1,
            "a rejected replay must not propagate the stored tombstone"
        );

        // Admit the same replay twice; the second is stale but must still
        // propagate.
        let mut accept_all = Scripted::answering(Row::AcceptAll);
        apply_remote_changes(&mut conn, batch.clone(), &mut hlc, &mut accept_all).unwrap();
        conn.execute("INSERT INTO items (id, body) VALUES ('r1', 'restored')", []).unwrap();
        let outcome = apply_remote_changes(&mut conn, batch, &mut hlc, &mut accept_all).unwrap();
        assert_eq!(outcome.report.applied, 0);
        assert_eq!(outcome.skipped[0].reason, SkipReason::Stale);
        assert_eq!(
            count(&conn, "SELECT COUNT(*) FROM items"),
            0,
            "an admitted stale replay must still propagate"
        );
    }
}

#[test]
fn keep_signature_metadata_preserves_its_bytes_and_sqlite_type() {
    for metadata in [
        Value::Text("{ \"body\": {\"space\": \"signature\"} }".into()),
        Value::Blob(vec![0, 255, 127]),
        Value::Text("[\"consumer\", \"metadata\"]".into()),
    ] {
        let (mut conn, mut hlc) = make_fixture();
        create_crdt_table(&conn, "items", "body TEXT");
        conn.execute(
            &format!("INSERT INTO items (id, body, {COLUMN_SIGS_COLUMN}) VALUES ('r1', 'old', ?1)"),
            [&metadata],
        )
        .unwrap();
        let outcome = apply_remote_changes(
            &mut conn,
            vec![change("items", "r1", "body", HLC1, text("new"))],
            &mut hlc,
            &mut Scripted::answering(Row::AcceptAll),
        )
        .unwrap();
        assert_eq!(outcome.report.applied, 1);
        let (body, stored): (String, Value) = conn
            .query_row(
                &format!("SELECT body, {COLUMN_SIGS_COLUMN} FROM items WHERE id = 'r1'"),
                [],
                |r| Ok((r.get(0)?, r.get(1)?)),
            )
            .unwrap();
        assert_eq!(body, "new");
        assert_eq!(stored, metadata, "Keep must not parse or rewrite consumer metadata");
    }
}

#[test]
fn ignored_insert_or_update_aborts_before_after_row() {
    for row_exists in [false, true] {
        let (mut conn, mut hlc) = make_fixture();
        create_crdt_table(&conn, "items", "body TEXT UNIQUE ON CONFLICT IGNORE");
        conn.execute("INSERT INTO items (id, body) VALUES ('other', 'duplicate')", []).unwrap();
        if row_exists {
            conn.execute("INSERT INTO items (id, body) VALUES ('r1', 'original')", []).unwrap();
        }
        let future = hlc_ahead_of_now(&mut hlc, 6 * HOUR);
        let mut policy = Scripted { fail_after_row: true, ..Scripted::answering(Row::AcceptAll) };
        let err = apply_remote_changes(
            &mut conn,
            vec![change("items", "r1", "body", &future, text("duplicate"))],
            &mut hlc,
            &mut policy,
        )
        .unwrap_err();
        assert!(
            matches!(err, Fault::Sqlite(rusqlite::Error::StatementChangedRows(0))),
            "ignored writes must fail before after_row is called, got {err:?}"
        );
        assert_eq!(
            count(
                &conn,
                "SELECT COUNT(*) FROM items WHERE id = 'r1' AND body = 'duplicate'"
            ),
            0
        );
        assert!(hlc_is_newer(&future, &mut hlc.new_timestamp().unwrap().to_text()));
    }
}

// Structural refusals.

#[test]
fn a_table_without_metadata_or_a_wrong_key_drops_the_group() {
    let (mut conn, mut hlc) = make_fixture();
    conn.execute("CREATE TABLE plain (id TEXT PRIMARY KEY NOT NULL, body TEXT)", []).unwrap();
    create_crdt_table(&conn, "items", "body TEXT");
    let mut wrong_key = change("items", "r1", "body", HLC1, text("v"));
    wrong_key.row_pks = r#"{"other":"r1"}"#.to_string();
    let mut unreadable_key = change("items", "r1", "body", HLC1, text("v"));
    unreadable_key.row_pks = "not json".to_string();
    let mut policy = SignatureApplyPolicy::new(&NoopSignatureProvider);
    let outcome = apply_remote_changes(
        &mut conn,
        vec![change("plain", "r1", "body", HLC1, text("v")), wrong_key, unreadable_key],
        &mut hlc,
        &mut policy,
    )
    .unwrap();
    let reason_of = |i: usize| {
        outcome.skipped.iter().find(|s| s.input_index == i).map(|s| s.reason)
    };
    assert_eq!(reason_of(0), Some(SkipReason::MissingCrdtMetadata));
    assert_eq!(reason_of(1), Some(SkipReason::InvalidRowIdentity));
    assert_eq!(reason_of(2), Some(SkipReason::InvalidRowIdentity));
    assert_eq!(outcome.report.applied, 0);
    assert_eq!(outcome.skipped.len(), 3);
}

// What was merged is scanned.

fn create_through_the_transformer(conn: &Connection, hlc: &mut HlcService, sql: &str) {
    let ts = hlc.new_timestamp().unwrap();
    let rewritten = CrdtTransformer::new().transform_execute_statement(sql, ts).unwrap();
    conn.execute(&rewritten.sql, []).unwrap();
}

fn cell(value: ValueRef<'_>) -> JsonValue {
    match value {
        ValueRef::Null => JsonValue::Null,
        ValueRef::Integer(i) => JsonValue::parse(&i.to_string()).unwrap(),
        ValueRef::Text(t) => JsonValue::Text(String::from_utf8(t.to_vec()).unwrap()),
        other => panic!("no such cell in these tests: {other:?}"),
    }
}

fn scan(conn: &Connection, table: &str, filters: ScanFilters<'_>) -> Vec<ColumnChange> {
    let mut out = Vec::new();
    let schema = table_schema(conn, table).unwrap();
    let plan = plan_scan(table, &schema, &filters).unwrap().unwrap();
    let mut stmt = conn.prepare(&plan.sql).unwrap();
    let width = stmt.column_count();
    let mut rows = stmt.query(rusqlite::params_from_iter(plan.params.iter())).unwrap();
    while let Some(row) = rows.next().unwrap() {
        let cells: Vec<JsonValue> = (0..width).map(|i| cell(row.get_ref(i).unwrap())).collect();
        emit_row_changes(&plan, &cells, None, "dev", &filters, &mut out);
    }
    out
}

fn a_batch_merges_under_the_noop_provider() {
    let (mut conn, mut hlc) = make_fixture();
    create_through_the_transformer(
        &conn,
        &mut hlc,
        "CREATE TABLE items (id TEXT PRIMARY KEY NOT NULL, body TEXT);",
    );
    let hlc_text = "9999999999999999/abcdef0000000000000000000000";
    let changes = vec![change("items", "r1", "body", hlc_text, text("hello"))];
    assert_eq!(apply_unsigned(&mut conn, changes, &mut hlc).unwrap().applied, 1);
}

#[test]
fn tests_store_apply_remote_changes_uses_the_configured_signature_provider() {
    a_batch_merges_under_the_noop_provider();
}

#[test]
fn delegates_store_apply_remote_changes_uses_the_configured_signature_provider() {
    a_batch_merges_under_the_noop_provider();
}

fn a_merged_change_is_scanned() {
    let (mut conn, mut hlc) = make_fixture();
    create_through_the_transformer(
        &conn,
        &mut hlc,
        "CREATE TABLE items (id TEXT PRIMARY KEY NOT NULL, body TEXT);",
    );
    let foreign_hlc = "9999999999999999/deadbeefdeadbeefdeadbeefdeadbe";
    let changes = vec![change("items", "r1", "body", foreign_hlc, text("v"))];
    apply_unsigned(&mut conn, changes, &mut hlc).unwrap();

    let changes = scan(&conn, "items", ScanFilters::default());
    assert!(
        changes.iter().any(|c| c.column_name == "body"),
        "scan must return the body change; got {changes:?}"
    );
    let device = uuid::Uuid::new_v4();
    let node = device_uuid_to_hlc_node(&device.to_string()).unwrap();
    let self_only =
        scan(&conn, "items", ScanFilters { origin_node: Some(node), ..Default::default() });
    assert!(
        self_only.is_empty(),
        "foreign-authored change must be filtered out; got {self_only:?}",
    );
}

#[test]
fn tests_store_scan_after_apply_returns_the_applied_change() {
    a_merged_change_is_scanned();
}

#[test]
fn delegates_store_scan_after_apply_returns_the_applied_change() {
    a_merged_change_is_scanned();
}

#[test]
fn a_replica_without_the_rows_takes_all_that_a_scan_sends() {
    let ddl = "CREATE TABLE items (id TEXT PRIMARY KEY NOT NULL, body TEXT, price INTEGER);";
    let (mut ours, mut our_hlc) = make_fixture();
    create_through_the_transformer(&ours, &mut our_hlc, ddl);
    let written = vec![
        change("items", "r1", "body", "100/a", text("one")),
        change("items", "r1", "price", "90/b", json("7")),
        change("items", "r2", "body", "110/a", JsonValue::Null),
        change("items", "r2", "price", "120/a", json("-3")),
    ];
    apply_unsigned(&mut ours, written, &mut our_hlc).unwrap();
    let sent = scan(&ours, "items", ScanFilters::default());
    assert_eq!(sent.len(), 4);

    let (mut theirs, mut their_hlc) = make_fixture();
    create_through_the_transformer(&theirs, &mut their_hlc, ddl);
    let mut policy = SignatureApplyPolicy::new(&NoopSignatureProvider);
    let outcome =
        apply_remote_changes(&mut theirs, sent.clone(), &mut their_hlc, &mut policy).unwrap();
    assert_eq!(outcome.report.applied, 4);
    assert!(outcome.skipped.is_empty());
    let back = scan(&theirs, "items", ScanFilters::default());
    let lines = |changes: &[ColumnChange]| -> Vec<String> {
        changes.iter().map(|c| c.to_json()).collect()
    };
    assert_eq!(lines(&back), lines(&sent));
}
