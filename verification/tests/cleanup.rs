//! Retention of the delete log, and statistics.

use haex_crdt::crdt::apply::write::Statement;
use haex_crdt::crdt::cleanup::{
    compute_cutoff, compute_cutoff_hlc_num, count_rows_sql, managed_tables_sql, newest_pruned, plan_prune,
    sum_stats, CleanupResult, CrdtStats, RetentionPolicy, NANOS_PER_DAY,
};
use haex_crdt::crdt::clock::{load_timestamp_sql, HLC_TIMESTAMP_TYPE};
use haex_crdt::crdt::columns::{
    COLUMN_HLCS_COLUMN, COLUMN_SIGS_COLUMN, DELETED_ROWS_TABLE, HLC_TIMESTAMP_COLUMN,
    TABLE_CRDT_CONFIGS,
};
use haex_crdt::crdt::value::SqlValue;
use haex_crdt::error::DatabaseError;
use rusqlite::{Connection, OptionalExtension};
use std::cell::{Cell, RefCell};

fn params_of(statement: &Statement) -> Vec<i64> {
    statement
        .params
        .iter()
        .map(|v| match v {
            SqlValue::Integer(i) => *i,
            other => panic!("a cutoff is a number: {other:?}"),
        })
        .collect()
}

fn cleanup_deleted_rows(
    conn: &mut Connection,
    policy: RetentionPolicy,
    before_prune: impl FnOnce(&Connection, Option<&str>) -> Result<(), DatabaseError>,
) -> Result<CleanupResult, DatabaseError> {
    let tx = conn.transaction().unwrap();
    let stored: Option<String> = tx
        .query_row(&load_timestamp_sql(), [HLC_TIMESTAMP_TYPE], |r| r.get(0))
        .optional()
        .unwrap();
    let cutoff = compute_cutoff(policy, stored.as_deref())?;
    let Some(plan) = plan_prune(policy, cutoff) else {
        before_prune(&tx, None)?;
        tx.commit().unwrap();
        return Ok(CleanupResult { rows_deleted: 0, max_pruned_hlc: None });
    };
    let pruned: Vec<String> = tx
        .prepare(&plan.select_hlcs.sql)
        .unwrap()
        .query_map(rusqlite::params_from_iter(params_of(&plan.select_hlcs)), |r| r.get(0))
        .unwrap()
        .collect::<Result<_, _>>()
        .unwrap();
    let max = newest_pruned(&pruned);
    before_prune(&tx, max.as_deref())?;
    let rows_deleted = tx
        .execute(&plan.delete.sql, rusqlite::params_from_iter(params_of(&plan.delete)))
        .unwrap();
    tx.commit().unwrap();
    Ok(CleanupResult { rows_deleted, max_pruned_hlc: max })
}

fn get_crdt_stats(conn: &Connection) -> CrdtStats {
    let mut stmt = conn.prepare(&managed_tables_sql()).unwrap();
    let tables: Vec<String> =
        stmt.query_map([DELETED_ROWS_TABLE], |r| r.get(0)).unwrap().map(|r| r.unwrap()).collect();
    let count = |table: &str| -> Option<i64> {
        conn.query_row(&count_rows_sql(table), [], |r| r.get(0)).ok()
    };
    let counts: Vec<i64> = tables.iter().map(|t| count(t).unwrap()).collect();
    sum_stats(&counts, count(DELETED_ROWS_TABLE))
}

const NS_PER_DAY: u64 = 24 * 60 * 60 * 1_000_000_000;

fn hlc_at(ns: u64) -> String {
    format!("{ns:016}/deadbeef")
}

fn setup_cleanup_db() -> Connection {
    let conn = Connection::open_in_memory().unwrap();
    conn.execute_batch(&format!(
        "CREATE TABLE {TABLE_CRDT_CONFIGS} (
             key TEXT PRIMARY KEY NOT NULL,
             value TEXT,
             type TEXT
         );
         CREATE TABLE {DELETED_ROWS_TABLE} (
             id TEXT PRIMARY KEY NOT NULL,
             table_name TEXT NOT NULL,
             row_pks TEXT NOT NULL,
             {HLC_TIMESTAMP_COLUMN} TEXT,
             {COLUMN_HLCS_COLUMN} TEXT NOT NULL DEFAULT '{{}}',
             {COLUMN_SIGS_COLUMN} TEXT NOT NULL DEFAULT '{{}}'
         );"
    ))
    .unwrap();
    conn
}

fn insert_delete_log_row(conn: &Connection, id: &str, hlc: &str) {
    conn.execute(
        &format!(
            "INSERT INTO {DELETED_ROWS_TABLE} (id, table_name, row_pks, {HLC_TIMESTAMP_COLUMN}) \
             VALUES (?1, 'items', '{{\"id\":\"x\"}}', ?2)"
        ),
        [id, hlc],
    )
    .unwrap();
}

fn set_current_hlc(conn: &Connection, hlc: &str) {
    conn.execute(
        &format!(
            "INSERT OR REPLACE INTO {TABLE_CRDT_CONFIGS} (key, type, value) \
             VALUES ('hlc_timestamp', 'hlc', ?1)"
        ),
        [hlc],
    )
    .unwrap();
}

fn count_delete_log(conn: &Connection) -> i64 {
    conn.query_row(&format!("SELECT COUNT(*) FROM {DELETED_ROWS_TABLE}"), [], |r| r.get(0)).unwrap()
}

#[test]
fn retention_all_deletes_every_delete_log_row() {
    let mut conn = setup_cleanup_db();
    insert_delete_log_row(&conn, "a", &hlc_at(1));
    insert_delete_log_row(&conn, "b", &hlc_at(2));
    insert_delete_log_row(&conn, "c", &hlc_at(3));
    assert_eq!(count_delete_log(&conn), 3);

    let result = cleanup_deleted_rows(&mut conn, RetentionPolicy::All, |_, _| Ok(())).unwrap();
    assert_eq!(result.rows_deleted, 3);
    assert_eq!(count_delete_log(&conn), 0);
}

#[test]
fn retention_all_reports_max_pruned_hlc() {
    let mut conn = setup_cleanup_db();
    insert_delete_log_row(&conn, "a", &hlc_at(5));
    insert_delete_log_row(&conn, "b", &hlc_at(10));
    insert_delete_log_row(&conn, "c", &hlc_at(3));

    let result = cleanup_deleted_rows(&mut conn, RetentionPolicy::All, |_, _| Ok(())).unwrap();
    assert_eq!(result.max_pruned_hlc, Some(hlc_at(10)));
}

#[test]
fn retention_all_on_empty_log_is_a_noop_with_none_max() {
    let mut conn = setup_cleanup_db();
    let result = cleanup_deleted_rows(&mut conn, RetentionPolicy::All, |_, _| Ok(())).unwrap();
    assert_eq!(result.rows_deleted, 0);
    assert_eq!(result.max_pruned_hlc, None);
}

#[test]
fn retention_time_based_prunes_only_entries_older_than_cutoff() {
    let mut conn = setup_cleanup_db();
    // "Now" is day 10; retention is 3 days → cutoff = day 7.
    set_current_hlc(&conn, &hlc_at(10 * NS_PER_DAY));
    insert_delete_log_row(&conn, "old_1", &hlc_at(NS_PER_DAY));
    insert_delete_log_row(&conn, "old_2", &hlc_at(5 * NS_PER_DAY));
    insert_delete_log_row(&conn, "borderline", &hlc_at(7 * NS_PER_DAY - 1));
    insert_delete_log_row(&conn, "fresh_1", &hlc_at(8 * NS_PER_DAY));
    insert_delete_log_row(&conn, "fresh_2", &hlc_at(9 * NS_PER_DAY));

    let policy = RetentionPolicy::TimeBasedDays { days: 3 };
    let result = cleanup_deleted_rows(&mut conn, policy, |_, _| Ok(())).unwrap();
    assert_eq!(result.rows_deleted, 3, "old_1, old_2, borderline");
    assert_eq!(count_delete_log(&conn), 2);
    assert_eq!(result.max_pruned_hlc, Some(hlc_at(7 * NS_PER_DAY - 1)));
}

#[test]
fn retention_time_based_is_a_noop_when_no_current_hlc_recorded() {
    let mut conn = setup_cleanup_db();
    insert_delete_log_row(&conn, "a", &hlc_at(1));

    let policy = RetentionPolicy::TimeBasedDays { days: 1 };
    let result = cleanup_deleted_rows(&mut conn, policy, |_, _| Ok(())).unwrap();
    assert_eq!(result.rows_deleted, 0);
    assert_eq!(result.max_pruned_hlc, None);
    assert_eq!(count_delete_log(&conn), 1);
}

#[test]
fn retention_time_based_all_entries_fresher_than_cutoff_is_noop() {
    let mut conn = setup_cleanup_db();
    set_current_hlc(&conn, &hlc_at(10 * NS_PER_DAY));
    insert_delete_log_row(&conn, "fresh", &hlc_at(9 * NS_PER_DAY));

    let policy = RetentionPolicy::TimeBasedDays { days: 3 };
    let result = cleanup_deleted_rows(&mut conn, policy, |_, _| Ok(())).unwrap();
    assert_eq!(result.rows_deleted, 0);
    assert_eq!(result.max_pruned_hlc, None);
    assert_eq!(count_delete_log(&conn), 1);
}

#[test]
fn retention_time_based_days_zero_is_equivalent_to_all() {
    let mut conn = setup_cleanup_db();
    set_current_hlc(&conn, &hlc_at(10 * NS_PER_DAY));
    insert_delete_log_row(&conn, "a", &hlc_at(1));
    insert_delete_log_row(&conn, "b", &hlc_at(10 * NS_PER_DAY - 1));

    let policy = RetentionPolicy::TimeBasedDays { days: 0 };
    let result = cleanup_deleted_rows(&mut conn, policy, |_, _| Ok(())).unwrap();
    assert_eq!(result.rows_deleted, 2);
}

#[test]
fn before_prune_hook_receives_max_pruned_hlc_before_delete() {
    let mut conn = setup_cleanup_db();
    insert_delete_log_row(&conn, "a", &hlc_at(5));
    insert_delete_log_row(&conn, "b", &hlc_at(10));

    let observed = RefCell::new(None::<String>);
    let observed_count_at_hook = Cell::new(-1i64);
    cleanup_deleted_rows(&mut conn, RetentionPolicy::All, |tx, max_hlc| {
        *observed.borrow_mut() = max_hlc.map(String::from);
        observed_count_at_hook.set(count_delete_log(tx));
        Ok(())
    })
    .unwrap();

    assert_eq!(observed.borrow().as_deref(), Some(hlc_at(10).as_str()));
    assert_eq!(
        observed_count_at_hook.get(),
        2,
        "the hook must run BEFORE the DELETE — rows must still be present"
    );
}

#[test]
fn before_prune_hook_error_aborts_transaction_and_leaves_log_intact() {
    let mut conn = setup_cleanup_db();
    insert_delete_log_row(&conn, "a", &hlc_at(1));

    let err = cleanup_deleted_rows(&mut conn, RetentionPolicy::All, |_, _| {
        Err(DatabaseError::StatementError { reason: "hook said no".to_string() })
    })
    .unwrap_err();
    match err {
        DatabaseError::StatementError { reason } => assert_eq!(reason, "hook said no"),
        other => panic!("unexpected error: {other:?}"),
    }
    assert_eq!(count_delete_log(&conn), 1, "delete must have rolled back");
}

#[test]
fn before_prune_hook_can_write_to_transaction_and_commits_atomically() {
    let mut conn = setup_cleanup_db();
    conn.execute(
        "CREATE TABLE my_anchor (id INTEGER PRIMARY KEY CHECK (id = 1), max_hlc TEXT NOT NULL)",
        [],
    )
    .unwrap();
    insert_delete_log_row(&conn, "a", &hlc_at(42));

    cleanup_deleted_rows(&mut conn, RetentionPolicy::All, |tx, max_hlc| {
        let hlc = max_hlc.expect("test setup guarantees a max");
        tx.execute("INSERT OR REPLACE INTO my_anchor (id, max_hlc) VALUES (1, ?1)", [hlc]).unwrap();
        Ok(())
    })
    .unwrap();

    let stored: String =
        conn.query_row("SELECT max_hlc FROM my_anchor WHERE id = 1", [], |r| r.get(0)).unwrap();
    assert_eq!(stored, hlc_at(42));
    assert_eq!(count_delete_log(&conn), 0);
}

fn create_synced_table(conn: &Connection, name: &str) {
    conn.execute(
        &format!(
            "CREATE TABLE {name} (
                 id TEXT PRIMARY KEY NOT NULL,
                 body TEXT,
                 {HLC_TIMESTAMP_COLUMN} TEXT,
                 {COLUMN_HLCS_COLUMN} TEXT NOT NULL DEFAULT '{{}}',
                 {COLUMN_SIGS_COLUMN} TEXT NOT NULL DEFAULT '{{}}'
             )"
        ),
        [],
    )
    .unwrap();
}

#[test]
fn stats_counts_live_rows_across_crdt_tables_only() {
    let conn = setup_cleanup_db();
    create_synced_table(&conn, "items");
    create_synced_table(&conn, "notes");
    conn.execute("CREATE TABLE local_cache_no_sync (id TEXT PRIMARY KEY, value TEXT)", []).unwrap();

    for (table, id, body) in [("items", "i1", "a"), ("items", "i2", "b"), ("notes", "n1", "x")] {
        conn.execute(
            &format!(
                "INSERT INTO {table} (id, body, {HLC_TIMESTAMP_COLUMN}) \
                 VALUES ('{id}', '{body}', '1/n')"
            ),
            [],
        )
        .unwrap();
    }

    let stats = get_crdt_stats(&conn);
    assert_eq!(stats.crdt_table_count, 2);
    assert_eq!(stats.live_row_count, 3);
    assert_eq!(stats.delete_log_row_count, 0);
}

#[test]
fn stats_reports_delete_log_row_count() {
    let conn = setup_cleanup_db();
    insert_delete_log_row(&conn, "a", &hlc_at(1));
    insert_delete_log_row(&conn, "b", &hlc_at(2));

    let stats = get_crdt_stats(&conn);
    assert_eq!(stats.delete_log_row_count, 2);
    assert_eq!(stats.crdt_table_count, 0, "delete-log table itself excluded");
}

#[test]
fn stats_empty_db_reports_zeroes() {
    let conn = setup_cleanup_db();
    let stats = get_crdt_stats(&conn);
    assert_eq!(stats.crdt_table_count, 0);
    assert_eq!(stats.live_row_count, 0);
    assert_eq!(stats.delete_log_row_count, 0);
}

#[test]
fn cutoffs_by_the_number() {
    assert_eq!(NANOS_PER_DAY, NS_PER_DAY);
    assert_eq!(
        compute_cutoff_hlc_num(10 * NS_PER_DAY, 3),
        Some((7 * NS_PER_DAY) as i64)
    );
    assert_eq!(compute_cutoff_hlc_num(NS_PER_DAY, 3), Some(0));
    assert_eq!(compute_cutoff_hlc_num(u64::MAX, 0), None);
    assert_eq!(compute_cutoff_hlc_num(u64::MAX, u32::MAX), Some(0));
    let longer = compute_cutoff_hlc_num(10 * NS_PER_DAY, 4).unwrap();
    assert!(longer < compute_cutoff_hlc_num(10 * NS_PER_DAY, 3).unwrap());
}

#[test]
fn clock_state_that_cannot_be_read_is_an_error() {
    let policy = RetentionPolicy::TimeBasedDays { days: 1 };
    match compute_cutoff(policy, Some("12")).unwrap_err() {
        DatabaseError::HlcError { reason } => {
            assert_eq!(reason, "cleanup: invalid HLC in config '12': NoDashSeparator")
        }
        other => panic!("unexpected error: {other:?}"),
    }
}

fn an_empty_log_prunes_nothing() {
    let mut conn = setup_cleanup_db();
    let report = cleanup_deleted_rows(&mut conn, RetentionPolicy::All, |_, _| Ok(())).unwrap();
    assert_eq!(report.rows_deleted, 0);
}

#[test]
fn tests_store_cleanup_delegate_reports_zero_pruned_on_empty_log() {
    an_empty_log_prunes_nothing();
}

#[test]
fn delegates_store_cleanup_delegate_reports_zero_pruned_on_empty_log() {
    an_empty_log_prunes_nothing();
}

#[test]
fn the_newest_pruned_timestamp_is_the_greatest() {
    let hlcs = |items: &[&str]| items.iter().map(|s| s.to_string()).collect::<Vec<_>>();
    assert_eq!(newest_pruned(&[]), None);
    assert_eq!(newest_pruned(&hlcs(&["99/a", "100/1", "100/ff", "100/b"])).as_deref(), Some("100/ff"));
    assert_eq!(newest_pruned(&hlcs(&["", "1/1"])).as_deref(), Some("1/1"));
}
