//! Deletes against rows and inserts.

use haex_crdt::crdt::apply::delete_propagation::{
    delete_shadows_insert, insert_shadowed, insert_suppressed_by_deletes, json_to_sql_value,
    key_names_exactly, load_delete_shadow_map, plan_delete, should_propagate_delete, DeleteLogEntry, DeletedRow,
};
use haex_crdt::crdt::columns::HLC_TIMESTAMP_COLUMN;
use haex_crdt::crdt::schema::ColumnInfo;
use haex_crdt::crdt::value::SqlValue;
use haex_crdt::json::{JsonObject, JsonValue};

const H1: &str = "0000000000000001/abcdef";
const H2: &str = "0000000000000002/abcdef";

#[test]
fn propagate_when_target_row_absent() {
    assert!(should_propagate_delete(H1, None));
}

#[test]
fn propagate_when_target_row_older() {
    assert!(should_propagate_delete(H2, Some(H1)));
}

#[test]
fn propagate_when_target_row_equal_hlc() {
    assert!(should_propagate_delete(H1, Some(H1)));
}

#[test]
fn do_not_propagate_when_target_row_strictly_newer() {
    assert!(!should_propagate_delete(H1, Some(H2)));
}

#[test]
fn shadow_when_insert_older_than_delete() {
    assert!(delete_shadows_insert(H2, H1));
}

#[test]
fn shadow_on_equal_hlc() {
    assert!(delete_shadows_insert(H1, H1));
}

#[test]
fn no_shadow_when_insert_strictly_newer() {
    assert!(!delete_shadows_insert(H1, H2));
}

fn key(id: &str) -> JsonObject {
    JsonObject::parse(&format!("{{\"id\":\"{id}\"}}")).unwrap()
}

fn deleted(id: &str, hlc: &str) -> DeletedRow {
    DeletedRow { table_name: "items".to_string(), row_pks: key(id), hlc: hlc.to_string() }
}

#[test]
fn insert_suppressed_by_matching_pk_and_shadowing_hlc() {
    assert!(insert_suppressed_by_deletes(&key("row-a"), H1, &[deleted("row-a", H2)]));
}

#[test]
fn insert_not_suppressed_when_pks_differ() {
    assert!(!insert_suppressed_by_deletes(&key("row-a"), H1, &[deleted("row-b", H2)]));
}

#[test]
fn insert_not_suppressed_when_it_is_strictly_newer_than_all_deletes() {
    assert!(!insert_suppressed_by_deletes(&key("row-a"), H2, &[deleted("row-a", H1)]));
}

#[test]
fn inserts_are_shadowed_by_entries_of_their_own_table_only() {
    let log = [deleted("row-a", H2)];
    assert!(insert_shadowed("items", &key("row-a"), H1, &log));
    assert!(!insert_shadowed("notes", &key("row-a"), H1, &log));
    let number = JsonObject::parse("{\"id\":1}").unwrap();
    let text = JsonObject::parse("{\"id\":\"1\"}").unwrap();
    let log = [DeletedRow { table_name: "items".to_string(), row_pks: number, hlc: H2.to_string() }];
    assert!(!insert_shadowed("items", &text, H1, &log), "a number and a string never match");
}

#[test]
fn log_rows_without_timestamp_or_readable_key_hold_back_nothing() {
    let rows = vec![
        DeleteLogEntry { table_name: "a".to_string(), row_pks: "{\"id\":1}".to_string(), hlc: None },
        DeleteLogEntry {
            table_name: "b".to_string(),
            row_pks: "not json".to_string(),
            hlc: Some(H1.to_string()),
        },
        DeleteLogEntry {
            table_name: "c".to_string(),
            row_pks: "{\"id\":1}".to_string(),
            hlc: Some(H1.to_string()),
        },
    ];
    let map = load_delete_shadow_map(rows);
    assert_eq!(map.len(), 1);
    assert_eq!(map[0].table_name, "c");
}

fn column(name: &str, is_pk: bool) -> ColumnInfo {
    ColumnInfo { name: name.to_string(), column_type: "TEXT".to_string(), is_pk }
}

#[test]
fn delete_plans_need_a_safe_target_with_matching_key() {
    let schema = vec![column("id", true), column(HLC_TIMESTAMP_COLUMN, false)];
    let entry = |table: &str, pks: &str| DeleteLogEntry {
        table_name: table.to_string(),
        row_pks: pks.to_string(),
        hlc: Some(H1.to_string()),
    };
    let plan = plan_delete(&entry("items", "{\"id\":\"x\"}"), &schema).unwrap();
    assert_eq!(plan.delete.sql, "DELETE FROM \"items\" WHERE \"id\" = ?");
    assert_eq!(
        plan.select_hlc.sql,
        "SELECT haex_hlc_no_sync FROM \"items\" WHERE \"id\" = ?"
    );
    assert_eq!(plan.delete_hlc, H1);
    assert!(plan_delete(&entry("it;ems", "{\"id\":\"x\"}"), &schema).is_none());
    assert!(plan_delete(&entry("items", "{\"other\":\"x\"}"), &schema).is_none());
    assert!(plan_delete(&entry("items", "{\"id\":\"x\"}"), &[column("id", true)]).is_none());
    assert!(!key_names_exactly(&[], &key("x")));
}

#[test]
fn key_values_of_a_delete_are_bound_by_kind() {
    let bound = |v: &JsonValue| json_to_sql_value(v);
    assert!(matches!(bound(&JsonValue::Bool(true)), SqlValue::Text(s) if s == "true"));
    assert!(matches!(bound(&JsonValue::Bool(false)), SqlValue::Text(s) if s == "false"));
    assert!(matches!(bound(&JsonValue::Null), SqlValue::Null));
    assert!(matches!(bound(&JsonValue::Text("x".to_string())), SqlValue::Text(s) if s == "x"));
    let seven = JsonValue::Number { text: "7".to_string(), integer: Some(7) };
    assert!(matches!(bound(&seven), SqlValue::Integer(7)));
}
