//! The order in which a batch is merged, and the clause that finds a row.

use haex_crdt::crdt::apply::batch::order_batch;
use haex_crdt::crdt::apply::grouping::{group_by_hlc_key, group_by_row_key_hlc_ordered};
use haex_crdt::crdt::apply::pk_where::{bind_pk_values, build_pk_where_from_map};
use haex_crdt::crdt::scanner::change::ColumnChange;
use haex_crdt::crdt::value::SqlValue;
use haex_crdt::json::{JsonObject, JsonValue};

fn change(table: &str, pk: &str, col: &str, hlc: &str) -> ColumnChange {
    ColumnChange {
        table_name: table.to_string(),
        row_pks: pk.to_string(),
        column_name: col.to_string(),
        hlc_timestamp: hlc.to_string(),
        value: JsonValue::Null,
        device_id: String::new(),
        sig: None,
    }
}

const HLC1: &str = "0000000000000001/abcdef";
const HLC2: &str = "0000000000000002/abcdef";
const HLC3: &str = "0000000000000003/abcdef";
const HLC4: &str = "0000000000000004/abcdef";

fn tx_hlc(c: &ColumnChange) -> &str {
    c.hlc_timestamp.as_str()
}

fn row_key(c: &ColumnChange) -> (String, String) {
    (c.table_name.clone(), c.row_pks.clone())
}

#[test]
fn tx_grouping_collapses_same_hlc_into_one_group() {
    let changes = vec![
        change("t", r#"{"id":"a"}"#, "c1", HLC1),
        change("t", r#"{"id":"b"}"#, "c1", HLC1),
    ];
    let grouped = group_by_hlc_key(changes, tx_hlc);
    assert_eq!(grouped.len(), 1);
    assert_eq!(grouped[0].1.len(), 2);
}

#[test]
fn tx_grouping_orders_groups_ascending_by_hlc() {
    let changes = vec![
        change("t", r#"{"id":"a"}"#, "c", HLC3),
        change("t", r#"{"id":"b"}"#, "c", HLC1),
        change("t", r#"{"id":"c"}"#, "c", HLC2),
    ];
    let grouped = group_by_hlc_key(changes, tx_hlc);
    let hlcs: Vec<&str> = grouped.iter().map(|(h, _)| h.as_str()).collect();
    assert_eq!(hlcs, vec![HLC1, HLC2, HLC3]);
}

#[test]
fn row_grouping_orders_by_min_hlc_per_row() {
    let changes = vec![
        change("t", r#"{"id":"a"}"#, "c1", HLC4),
        change("t", r#"{"id":"b"}"#, "c", HLC2),
        change("t", r#"{"id":"a"}"#, "c2", HLC1),
    ];
    let ordered = group_by_row_key_hlc_ordered(changes, row_key, tx_hlc);
    assert_eq!(ordered.len(), 2);
    assert_eq!(ordered[0].0 .1, r#"{"id":"a"}"#);
    assert_eq!(ordered[0].1.len(), 2);
    assert_eq!(ordered[1].0 .1, r#"{"id":"b"}"#);
}

#[test]
fn row_grouping_is_deterministic_across_input_orderings() {
    let numbered = |i: i32| {
        let hlc = format!("{i:016}/abcdef");
        change("t", &format!(r#"{{"id":"r{i}"}}"#), "c", &hlc)
    };
    let baseline: Vec<ColumnChange> = (0..12).map(numbered).collect();
    let baseline_keys: Vec<String> = group_by_row_key_hlc_ordered(baseline, row_key, tx_hlc)
        .into_iter()
        .map(|(k, _)| k.1)
        .collect();

    let reversed: Vec<ColumnChange> = (0..12).rev().map(numbered).collect();
    let reversed_keys: Vec<String> = group_by_row_key_hlc_ordered(reversed, row_key, tx_hlc)
        .into_iter()
        .map(|(k, _)| k.1)
        .collect();

    assert_eq!(
        baseline_keys, reversed_keys,
        "iteration order must be deterministic and HLC-driven"
    );
    assert_eq!(baseline_keys[0], r#"{"id":"r0"}"#);
    assert_eq!(baseline_keys[11], r#"{"id":"r11"}"#);
}

#[test]
fn a_batch_is_ordered_with_its_positions() {
    let batch = vec![
        change("t", r#"{"id":"a"}"#, "c1", HLC4),
        change("t", r#"{"id":"b"}"#, "c", HLC2),
        change("t", r#"{"id":"a"}"#, "c2", HLC1),
    ];
    let groups = order_batch(batch);
    let at: Vec<Vec<usize>> =
        groups.iter().map(|g| g.changes.iter().map(|c| c.input_index).collect()).collect();
    assert_eq!(at, vec![vec![2, 0], vec![1]]);
    assert_eq!(groups[0].row_pks, r#"{"id":"a"}"#);
    assert_eq!(groups[1].table_name, "t");
}

fn text(s: &str) -> JsonValue {
    JsonValue::Text(s.to_string())
}

fn pk_map(pairs: &[(&str, JsonValue)]) -> JsonObject {
    let mut map = JsonObject::empty();
    for (k, v) in pairs {
        map.insert(k, v.clone());
    }
    map
}

#[test]
fn where_returns_none_for_empty_map() {
    assert!(build_pk_where_from_map(&JsonObject::empty()).is_none());
}

#[test]
fn where_handles_safe_identifiers_with_values() {
    let map = pk_map(&[("id", text("x")), ("group_id", text("g"))]);
    let (clause, values) = build_pk_where_from_map(&map).expect("safe");
    assert!(clause.contains("\"id\" = ?"));
    assert!(clause.contains("\"group_id\" = ?"));
    assert!(clause.contains(" AND "));
    assert_eq!(values.len(), 2);
}

#[test]
fn where_uses_is_null_for_null_values() {
    let map = pk_map(&[("id", text("x")), ("optional", JsonValue::Null)]);
    let (clause, values) = build_pk_where_from_map(&map).expect("safe");
    assert!(clause.contains("\"optional\" IS NULL"));
    assert_eq!(values.len(), 1, "null values do not bind a placeholder");
}

#[test]
fn where_returns_none_when_any_column_is_unsafe() {
    let map = pk_map(&[("id", text("x")), ("evil; DROP TABLE", text("y"))]);
    assert!(build_pk_where_from_map(&map).is_none());
}

#[test]
fn where_returns_none_when_only_unsafe_columns() {
    let map = pk_map(&[("evil; --", text("y"))]);
    assert!(build_pk_where_from_map(&map).is_none());
}

#[test]
fn where_is_written_in_the_order_of_the_keys() {
    let map = pk_map(&[("b", text("x")), ("c", JsonValue::Null), ("a", text("y"))]);
    let (clause, values) = build_pk_where_from_map(&map).unwrap();
    assert_eq!(clause, r#""a" = ? AND "b" = ? AND "c" IS NULL"#);
    let bound = bind_pk_values(&values);
    assert!(matches!(&bound[0], SqlValue::Text(t) if t == "y"));
    assert!(matches!(&bound[1], SqlValue::Text(t) if t == "x"));
}

#[test]
fn the_order_of_rows_does_not_depend_on_the_order_of_arrival() {
    let batch = vec![
        change("t", r#"{"id":"b"}"#, "c1", HLC2),
        change("t", r#"{"id":"a"}"#, "c1", HLC3),
        change("t", r#"{"id":"a"}"#, "c2", HLC1),
        change("s", r#"{"id":"z"}"#, "c1", HLC2),
        change("t", r#"{"id":"c"}"#, "c1", HLC4),
    ];
    let rows = |changes: Vec<ColumnChange>| -> Vec<(String, String)> {
        order_batch(changes).into_iter().map(|g| (g.table_name, g.row_pks)).collect()
    };
    let expected = vec![
        ("t".to_string(), r#"{"id":"a"}"#.to_string()),
        ("s".to_string(), r#"{"id":"z"}"#.to_string()),
        ("t".to_string(), r#"{"id":"b"}"#.to_string()),
        ("t".to_string(), r#"{"id":"c"}"#.to_string()),
    ];
    for start in 0..batch.len() {
        let mut turned = batch.clone();
        turned.rotate_left(start);
        assert_eq!(rows(turned.clone()), expected);
        turned.reverse();
        assert_eq!(rows(turned), expected);
    }
}

#[test]
fn equally_old_transactions_come_in_text_order() {
    let changes = vec![
        change("t", r#"{"id":"a"}"#, "c1", "2/b"),
        change("t", r#"{"id":"a"}"#, "c1", "01/a"),
        change("t", r#"{"id":"a"}"#, "c1", "1/a"),
        change("t", r#"{"id":"a"}"#, "c1", "001/a"),
    ];
    let groups = group_by_hlc_key(changes, tx_hlc);
    let keys: Vec<&str> = groups.iter().map(|g| g.0.as_str()).collect();
    assert_eq!(keys, vec!["001/a", "01/a", "1/a", "2/b"]);
}
