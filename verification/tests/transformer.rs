//! Statement rewriting.

use haex_crdt::crdt::columns::{COLUMN_HLCS_COLUMN, COLUMN_SIGS_COLUMN, HLC_TIMESTAMP_COLUMN};
use haex_crdt::crdt::hlc::HlcTimestamp;
use haex_crdt::crdt::insert_transformer::{InsertPlan, InsertTransformer};
use haex_crdt::crdt::sql::{CreateShape, InsertShape, InsertSource, StatementShape, TargetName};
use haex_crdt::crdt::transformer::{
    normalize_table_name, plan_columns, unquote, CrdtTransformer, StatementPlan,
};
use haex_crdt::error::DatabaseError;
use sqlparser::dialect::SQLiteDialect;
use sqlparser::parser::Parser;
use uhlc::HLC;

fn now() -> HlcTimestamp {
    HlcTimestamp::parse(&HLC::default().new_timestamp().to_string()).unwrap()
}

fn parse_and_transform_execute(sql: &str) -> String {
    CrdtTransformer::new().transform_execute_statement(sql, now()).unwrap().sql
}

fn reason_of(error: DatabaseError) -> String {
    match error {
        DatabaseError::UnsupportedStatement { reason, .. } => reason,
        other => panic!("unexpected error: {other:?}"),
    }
}

#[test]
fn test_select_no_longer_adds_soft_delete_filter() {
    let result = parse_and_transform_execute("SELECT * FROM items");
    assert!(!result.contains("haex_tombstone"), "Got: {result}");
}

#[test]
fn test_delete_stays_delete() {
    let result = parse_and_transform_execute("DELETE FROM items WHERE id = 'x'");
    assert!(
        result.to_uppercase().starts_with("DELETE"),
        "DELETE must not be rewritten into UPDATE anymore. Got: {result}"
    );
    assert!(!result.contains("haex_tombstone"), "Got: {result}");
}

#[test]
fn test_update_adds_hlc_assignment() {
    let result = parse_and_transform_execute("UPDATE items SET name = 'foo' WHERE id = 'x'");
    assert!(
        result.contains(HLC_TIMESTAMP_COLUMN),
        "UPDATE must add row-level HLC assignment. Got: {result}"
    );
    assert!(!result.contains("haex_tombstone"), "Got: {result}");
}

#[test]
fn test_create_table_adds_crdt_columns() {
    let result = parse_and_transform_execute("CREATE TABLE items (id TEXT PRIMARY KEY, name TEXT)");
    assert!(result.contains(HLC_TIMESTAMP_COLUMN), "Got: {result}");
    assert!(result.contains(COLUMN_HLCS_COLUMN), "Got: {result}");
    assert!(
        !result.contains("haex_tombstone"),
        "haex_tombstone must not be added anymore. Got: {result}"
    );
}

#[test]
fn transform_ddl_injects_column_sigs_on_space_scoped_tables() {
    let transformer = CrdtTransformer::new();
    let out = transformer
        .transform_ddl_statement("CREATE TABLE foo (id TEXT PRIMARY KEY, val TEXT)")
        .expect("transform_ddl_statement must not error on well-formed CREATE TABLE");

    assert!(
        out.contains(COLUMN_SIGS_COLUMN),
        "space-scoped CREATE TABLE must gain the column-sigs column. Got: {out}"
    );
    assert!(
        out.contains("DEFAULT '{}'"),
        "column-sigs must default to an empty JSON object. Got: {out}"
    );
    assert!(out.contains(HLC_TIMESTAMP_COLUMN), "Got: {out}");
    assert!(out.contains(COLUMN_HLCS_COLUMN), "Got: {out}");
}

#[test]
fn transform_ddl_skips_column_sigs_for_no_sync_tables() {
    let transformer = CrdtTransformer::new();
    let out = transformer
        .transform_ddl_statement("CREATE TABLE my_cache_no_sync (id TEXT PRIMARY KEY, value TEXT)")
        .expect("transform_ddl_statement must not error on well-formed CREATE TABLE");

    assert!(
        !out.contains(COLUMN_SIGS_COLUMN),
        "_no_sync tables must not gain the column-sigs column. Got: {out}"
    );
}

#[test]
fn test_create_unique_index_is_not_rewritten_to_partial() {
    let result = parse_and_transform_execute("CREATE UNIQUE INDEX idx_items_name ON items(name)");
    assert!(
        !result.to_uppercase().contains("WHERE"),
        "UNIQUE index must stay full (no partial rewrite). Got: {result}"
    );
    assert!(!result.contains("haex_tombstone"), "Got: {result}");
}

#[test]
fn test_create_table_no_sync_skipped() {
    let result = parse_and_transform_execute(
        "CREATE TABLE my_cache_no_sync (id TEXT PRIMARY KEY, value TEXT)",
    );
    assert!(
        !result.contains(HLC_TIMESTAMP_COLUMN),
        "_no_sync tables must not get CRDT columns. Got: {result}"
    );
}

#[test]
fn haex_logs_no_sync_is_not_a_crdt_sync_table() {
    let sql = "CREATE TABLE `haex_logs_no_sync` (\
        `id` text PRIMARY KEY NOT NULL,\
        `timestamp` text NOT NULL,\
        `level` text NOT NULL,\
        `source` text NOT NULL,\
        `extension_id` text,\
        `message` text NOT NULL,\
        `metadata` text,\
        `device_id` text NOT NULL,\
        FOREIGN KEY (`extension_id`) REFERENCES `haex_extensions`(`id`) ON UPDATE no action ON DELETE cascade\
    )";
    let transformer = CrdtTransformer::new();
    let result = transformer
        .transform_ddl_statement(sql)
        .expect("transform_ddl_statement must not error on well-formed CREATE TABLE");
    assert!(
        !result.contains(HLC_TIMESTAMP_COLUMN),
        "haex_logs_no_sync must not gain the row-level HLC column — that column is what discover_crdt_tables keys on. Got: {result}"
    );
    assert!(
        !result.contains(COLUMN_HLCS_COLUMN),
        "haex_logs_no_sync must not gain the column-HLC map. Got: {result}"
    );
}

#[test]
fn test_insert_into_sync_table_gets_hlc_column() {
    let result = parse_and_transform_execute("INSERT INTO items (id, name) VALUES ('a', 'b')");
    assert!(result.contains(HLC_TIMESTAMP_COLUMN), "Got: {result}");
}

#[test]
fn test_insert_without_column_list_is_rejected() {
    let error = CrdtTransformer::new()
        .transform_execute_statement("INSERT INTO items VALUES ('a', 'b')", now())
        .expect_err("must be rejected");
    let reason = reason_of(error);
    assert!(reason.contains("explicit column list"), "Unexpected error: {reason}");
}

#[test]
fn test_insert_select_wildcard_is_rejected() {
    let error = CrdtTransformer::new()
        .transform_execute_statement("INSERT INTO items (id, name) SELECT * FROM source", now())
        .expect_err("must be rejected");
    let reason = reason_of(error);
    assert!(reason.contains("wildcard projection"), "Unexpected error: {reason}");
}

#[test]
fn transform_ddl_preserves_following_statements() {
    let transformer = CrdtTransformer::new();
    let out = transformer
        .transform_ddl_statement(
            "CREATE TABLE items (id TEXT PRIMARY KEY); CREATE INDEX idx_items_id ON items(id)",
        )
        .expect("transform_ddl_statement must preserve valid multi-statement SQL");

    let statements = Parser::parse_sql(&SQLiteDialect {}, &out).unwrap();
    assert_eq!(statements.len(), 2, "Got: {out}");
    assert!(
        statements[0].to_string().contains(HLC_TIMESTAMP_COLUMN),
        "Got: {out}"
    );
    assert!(
        statements[1].to_string().contains("CREATE INDEX"),
        "Following DDL statement was lost: {out}"
    );
}

#[test]
fn test_execute_create_table_as_select_is_rejected_for_sync_tables() {
    let error = CrdtTransformer::new()
        .transform_execute_statement("CREATE TABLE items AS SELECT 1 AS id", now())
        .expect_err("must be rejected");
    let reason = reason_of(error);
    assert!(reason.contains("CREATE TABLE ... AS SELECT"), "Unexpected error: {reason}");
}

#[test]
fn test_ddl_create_table_as_select_is_rejected_for_sync_tables() {
    let error = CrdtTransformer::new()
        .transform_ddl_statement("CREATE TABLE items AS SELECT 1 AS id")
        .expect_err("sync-table CTAS must be rejected");
    let reason = reason_of(error);
    assert!(reason.contains("CREATE TABLE ... AS SELECT"), "Unexpected error: {reason}");
}

#[test]
fn test_delete_from_sync_table_stays_delete() {
    let result = parse_and_transform_execute("DELETE FROM items WHERE id = 'a'");
    assert!(result.to_uppercase().contains("DELETE"));
    assert!(
        !result.to_uppercase().contains("UPDATE"),
        "DELETE must not be rewritten. Got: {result}"
    );
}

fn transform(sql: &str) -> String {
    InsertTransformer::new()
        .transform_insert(sql, now())
        .expect("transform_insert must succeed")
}

fn transform_err(sql: &str) -> DatabaseError {
    InsertTransformer::new()
        .transform_insert(sql, now())
        .expect_err("transform_insert must fail")
}

#[test]
fn single_row_values_gets_hlc_column_and_value_appended() {
    let out = transform("INSERT INTO t (id, name) VALUES ('x', 'a')");
    assert!(
        out.contains(HLC_TIMESTAMP_COLUMN),
        "HLC column must be added; got: {out}"
    );
}

#[test]
fn multi_row_values_gets_hlc_appended_to_each_row() {
    let out = transform("INSERT INTO t (id) VALUES ('x'), ('y'), ('z')");
    let occurrences = out.matches('/').count(); // uhlc timestamps look like `<ns>/<node>`
    assert!(
        occurrences >= 3,
        "expected 3 HLC values (one per row); got: {out}"
    );
}

#[test]
fn caller_supplied_hlc_column_value_is_overwritten() {
    let sql =
        format!("INSERT INTO t (id, {HLC_TIMESTAMP_COLUMN}) VALUES ('x', 'attacker-hlc')");
    let out = transform(&sql);
    assert!(
        !out.contains("attacker-hlc"),
        "caller-supplied HLC must be replaced; got: {out}"
    );
}

#[test]
fn insert_select_with_explicit_projection_gets_hlc_projected() {
    let out = transform("INSERT INTO t (id) SELECT other_id FROM other");
    assert!(
        out.contains(HLC_TIMESTAMP_COLUMN),
        "HLC column must be added to INSERT SELECT; got: {out}"
    );
}

#[test]
fn missing_column_list_is_rejected_with_unsupported_statement() {
    let err = transform_err("INSERT INTO t VALUES ('x', 'a')");
    assert!(
        matches!(err, DatabaseError::UnsupportedStatement { .. }),
        "expected UnsupportedStatement, got: {err:?}"
    );
}

#[test]
fn wildcard_projection_is_rejected_with_unsupported_statement() {
    let err = transform_err("INSERT INTO t (id) SELECT * FROM other");
    assert!(
        matches!(err, DatabaseError::UnsupportedStatement { .. }),
        "expected UnsupportedStatement, got: {err:?}"
    );
}

#[test]
fn qualified_wildcard_projection_is_rejected_with_unsupported_statement() {
    let err = transform_err("INSERT INTO t (id) SELECT other.* FROM other");
    assert!(
        matches!(err, DatabaseError::UnsupportedStatement { .. }),
        "expected UnsupportedStatement, got: {err:?}"
    );
}

#[test]
fn conflict_clauses_are_rejected_before_transformation() {
    for sql in [
        "INSERT INTO t (id, name) VALUES ('x', 'a') ON CONFLICT DO NOTHING",
        "INSERT INTO t (id, name) VALUES ('x', 'a') ON CONFLICT (id) DO UPDATE SET name = excluded.name",
    ] {
        let err = transform_err(sql);
        assert!(
            matches!(err, DatabaseError::UnsupportedStatement { .. }),
            "expected conflict clause to be rejected: {err:?}"
        );
    }
}

#[test]
fn insert_is_rewritten_in_place() {
    let t = HlcTimestamp { time: 42, node: 0xabc };
    let out = InsertTransformer::new()
        .transform_insert("INSERT INTO t (id, name) VALUES ('x', 'a'), ('y', 'b')", t)
        .unwrap();
    assert_eq!(
        out,
        "INSERT INTO t (id, name, haex_hlc_no_sync) VALUES ('x', 'a', '42/abc'), ('y', 'b', '42/abc')"
    );
    let out = InsertTransformer::new()
        .transform_insert("INSERT INTO t (haex_hlc_no_sync, id) VALUES ('mine', 'x')", t)
        .unwrap();
    assert_eq!(out, "INSERT INTO t (haex_hlc_no_sync, id) VALUES ('42/abc', 'x')");
    let out = InsertTransformer::new()
        .transform_insert("INSERT INTO t (id) SELECT other_id FROM other", t)
        .unwrap();
    assert_eq!(out, "INSERT INTO t (id, haex_hlc_no_sync) SELECT other_id, '42/abc' FROM other");
}

#[test]
fn insert_sources_other_than_rows_and_selects_are_refused() {
    let reason = reason_of(transform_err("INSERT INTO t (id) SELECT a FROM x UNION SELECT b FROM y"));
    assert_eq!(reason, "INSERT with unsupported source type");
    assert!(matches!(transform_err("INSERT INTO"), DatabaseError::ParseError { .. }));
    assert_eq!(reason_of(transform_err("DELETE FROM t")), "not an INSERT statement");
}

#[test]
fn insert_plan_names_places_not_texts() {
    let shape = InsertShape {
        conflict: false,
        columns: vec![Some("id".to_string()), None],
        source: InsertSource::Values(vec![2, 1, 5]),
    };
    match InsertTransformer::new().plan(&shape) {
        InsertPlan::Values { columns, rows } => {
            assert_eq!(columns, vec![Some(0), Some(1), None]);
            assert_eq!(
                rows,
                vec![
                    vec![Some(0), Some(1), None],
                    vec![Some(0), None],
                    vec![Some(0), Some(1), None, Some(3), Some(4)],
                ]
            );
        }
        other => panic!("{other:?}"),
    }
    let select = InsertShape {
        conflict: false,
        columns: vec![Some(HLC_TIMESTAMP_COLUMN.to_string()), Some("id".to_string())],
        source: InsertSource::Select(vec![false, false]),
    };
    match InsertTransformer::new().plan(&select) {
        InsertPlan::Select { columns, items } => {
            assert_eq!(columns, vec![Some(0), Some(1)]);
            assert_eq!(items, vec![None, Some(1)]);
        }
        other => panic!("{other:?}"),
    }
    let missing = InsertShape {
        conflict: false,
        columns: vec![Some("id".to_string())],
        source: InsertSource::Missing,
    };
    assert!(matches!(
        InsertTransformer::new().plan(&missing),
        InsertPlan::RefuseWith { reason: "INSERT statement has no source", .. }
    ));
}

#[test]
fn update_and_create_table_are_rewritten_in_place() {
    let t = HlcTimestamp { time: 1, node: 2 };
    let x = CrdtTransformer::new();
    let out = x.transform_execute_statement("UPDATE items SET a = 1 WHERE id = 2", t).unwrap();
    assert_eq!(out.sql, "UPDATE items SET a = 1, haex_hlc_no_sync = '1/2' WHERE id = 2");
    assert_eq!(out.schema_table, None);
    let out = x
        .transform_execute_statement("CREATE TABLE \"Items\" (id TEXT, haex_hlc_no_sync INTEGER)", t)
        .unwrap();
    assert_eq!(out.schema_table, Some("items".to_string()));
    assert_eq!(
        out.sql,
        "CREATE TABLE \"Items\" (id TEXT, haex_hlc_no_sync STRING, haex_column_hlcs_no_sync STRING, haex_column_sigs_no_sync STRING NOT NULL DEFAULT '{}')"
    );
    let out = x.transform_execute_statement("ALTER TABLE main.items ADD COLUMN b TEXT", t).unwrap();
    assert_eq!(out.schema_table, Some("items".to_string()));
    let out = x
        .transform_execute_statement("UPDATE cache_no_sync SET a = 1", t)
        .unwrap();
    assert_eq!(out.sql, "UPDATE cache_no_sync SET a = 1");
    assert!(matches!(
        x.transform_execute_statement("SELECT 1; SELECT 2", t),
        Err(DatabaseError::ParseError { .. })
    ));
    assert!(matches!(
        x.transform_ddl_statement("CREATE TABEL x"),
        Err(DatabaseError::ParseError { .. })
    ));
}

#[test]
fn ddl_without_a_table_to_manage_is_returned_as_it_came() {
    let x = CrdtTransformer::new();
    let sql = "create   index i on t(a)";
    assert_eq!(x.transform_ddl_statement(sql).unwrap(), sql);
    assert_eq!(x.transform_ddl_statement("").unwrap(), "");
    assert_eq!(x.transform_query("SELECT 1".to_string()), "SELECT 1");
}

#[test]
fn table_names_lose_case_quotes_and_schema() {
    assert_eq!(unquote("`items`"), "items");
    assert_eq!(unquote("\"`items`\""), "`items`");
    assert_eq!(unquote("\"\"items\""), "items");
    let name = TargetName { full: "main.`ITEMS_No_Sync`".to_string(), last: Some("ITEMS_No_Sync".to_string()) };
    assert_eq!(normalize_table_name(&name), "items_no_sync");
    assert!(!CrdtTransformer::new().is_crdt_sync_table(&name));
    let bare = TargetName { full: "Items".to_string(), last: None };
    assert_eq!(normalize_table_name(&bare), "items");
    assert!(CrdtTransformer::default().is_crdt_sync_table(&bare));
}

#[test]
fn declared_metadata_columns_do_not_stay() {
    let names = vec![
        "id".to_string(),
        HLC_TIMESTAMP_COLUMN.to_string(),
        "a".to_string(),
        COLUMN_SIGS_COLUMN.to_string(),
    ];
    assert_eq!(plan_columns(&names), vec![0, 2]);
}

fn named(table: &str) -> TargetName {
    TargetName { full: table.to_string(), last: Some(table.to_string()) }
}

#[test]
fn the_plan_of_a_create_table_keeps_its_own_columns() {
    let plan = |table: &str, has_query: bool| {
        let columns = vec!["id".to_string(), HLC_TIMESTAMP_COLUMN.to_string(), "name".to_string()];
        let create = CreateShape { columns, has_query };
        CrdtTransformer::new()
            .plan_statement(&StatementShape::CreateTable { target: named(table), create })
    };
    match plan("Items", false) {
        StatementPlan::CreateTable { table, keep } => {
            assert_eq!(table, "items");
            assert_eq!(keep, vec![0, 2]);
        }
        other => panic!("{other:?}"),
    }
    assert!(matches!(plan("items", true), StatementPlan::RefuseQuery));
    assert!(matches!(plan("items_no_sync", false), StatementPlan::Keep));
    assert!(matches!(plan("items_no_sync", true), StatementPlan::Keep));
}

#[test]
fn only_writes_to_synced_tables_are_planned_to_be_stamped() {
    let transformer = CrdtTransformer::new();
    let insert = |table: &str| StatementShape::Insert {
        target: named(table),
        insert: InsertShape {
            conflict: false,
            columns: vec![Some("id".to_string())],
            source: InsertSource::Values(vec![1]),
        },
    };
    match transformer.plan_statement(&insert("items")) {
        StatementPlan::Insert(InsertPlan::Values { columns, rows }) => {
            assert_eq!(columns, vec![Some(0), None]);
            assert_eq!(rows, vec![vec![Some(0), None]]);
        }
        other => panic!("{other:?}"),
    }
    assert!(matches!(transformer.plan_statement(&insert("x_no_sync")), StatementPlan::Keep));

    let update = |table: &str| StatementShape::Update { target: named(table), assignments: 2 };
    match transformer.plan_statement(&update("items")) {
        StatementPlan::Update { assignments } => {
            assert_eq!(assignments, vec![Some(0), Some(1), None]);
        }
        other => panic!("{other:?}"),
    }
    assert!(matches!(transformer.plan_statement(&update("x_no_sync")), StatementPlan::Keep));

    let alter = |table: &str| StatementShape::AlterTable { target: named(table) };
    match transformer.plan_statement(&alter("Items")) {
        StatementPlan::KeepFor { table } => assert_eq!(table, "items"),
        other => panic!("{other:?}"),
    }
    assert!(matches!(transformer.plan_statement(&alter("x_no_sync")), StatementPlan::Keep));
    assert!(matches!(transformer.plan_statement(&StatementShape::Other), StatementPlan::Keep));
}

#[test]
fn a_rewritten_insert_keeps_the_order_of_its_cells() {
    let t = HlcTimestamp { time: 1, node: 2 };
    let x = InsertTransformer::new();
    assert_eq!(
        x.transform_insert("INSERT INTO t (a, haex_hlc_no_sync, b) VALUES (1, 'x', 3), (4, ?, 6)", t)
            .unwrap(),
        "INSERT INTO t (a, haex_hlc_no_sync, b) VALUES (1, '1/2', 3), (4, '1/2', 6)"
    );
    assert_eq!(
        x.transform_insert("INSERT INTO t (a, b) SELECT c, d FROM u", t).unwrap(),
        "INSERT INTO t (a, b, haex_hlc_no_sync) SELECT c, d, '1/2' FROM u"
    );
}
