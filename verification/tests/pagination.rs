//! Paging.

use haex_crdt::crdt::hlc::hlc_is_newer;
use haex_crdt::crdt::scanner::change::ColumnChange;
use haex_crdt::crdt::scanner::pagination::{paginate_changes, Paginable};
use haex_crdt::json::JsonValue;
use std::collections::HashSet;

fn change(hlc: &str, table: &str, col: &str, value: &str) -> ColumnChange {
    ColumnChange {
        table_name: table.to_string(),
        row_pks: r#"{"id":"r"}"#.to_string(),
        column_name: col.to_string(),
        hlc_timestamp: hlc.to_string(),
        value: JsonValue::Text(value.to_string()),
        device_id: "dev".to_string(),
        sig: None,
    }
}

#[test]
fn paginate_empty_input_returns_empty_and_no_more() {
    let (page, has_more) = paginate_changes(Vec::<ColumnChange>::new(), 1000);
    assert!(page.is_empty());
    assert!(!has_more);
}

#[test]
fn paginate_packs_multiple_hlc_groups_when_they_fit() {
    let changes = vec![
        change("100/n", "t", "a", "aa"),
        change("100/n", "t", "b", "bb"),
        change("200/n", "t", "a", "cc"),
    ];
    let (page, has_more) = paginate_changes(changes.clone(), 10_000);
    assert_eq!(page.len(), 3);
    assert!(!has_more);
}

#[test]
fn paginate_never_splits_a_transaction_hlc_group() {
    let big_group = vec![
        change("100/n", "t", "a", &"x".repeat(50)),
        change("100/n", "t", "b", &"x".repeat(50)),
    ];
    let follow_up = vec![change("200/n", "t", "a", &"y".repeat(50))];
    let mut all = big_group.clone();
    all.extend(follow_up);

    let (page, has_more) = paginate_changes(all, 200);
    let hlcs: HashSet<&str> = page.iter().map(|c| c.hlc_timestamp.as_str()).collect();
    assert_eq!(hlcs.len(), 1);
    assert!(hlcs.contains("100/n"));
    assert_eq!(page.len(), 2);
    assert!(has_more);
}

#[test]
fn paginate_ge_one_rule_admits_first_group_even_when_over_budget() {
    let over = vec![
        change("100/n", "t", "a", &"x".repeat(500)),
        change("200/n", "t", "a", "b"),
    ];
    let (page, has_more) = paginate_changes(over, 50);
    let hlcs: HashSet<&str> = page.iter().map(|c| c.hlc_timestamp.as_str()).collect();
    assert!(hlcs.contains("100/n"));
    assert!(!hlcs.contains("200/n"));
    assert!(has_more);
}

#[test]
fn paginate_orders_groups_ascending_by_hlc() {
    let mixed = vec![
        change("300/n", "t", "a", "c"),
        change("100/n", "t", "a", "a"),
        change("200/n", "t", "a", "b"),
    ];
    let (page, _) = paginate_changes(mixed, 10_000);
    let hlcs: Vec<&str> = page.iter().map(|c| c.hlc_timestamp.as_str()).collect();
    assert_eq!(hlcs, vec!["100/n", "200/n", "300/n"]);
}

#[test]
fn paginate_ge_one_rule_reports_no_more_when_the_over_budget_group_is_the_only_one() {
    let only = vec![change("100/n", "t", "a", &"x".repeat(500))];
    let (page, has_more) = paginate_changes(only, 50);
    assert_eq!(page.len(), 1);
    assert!(!has_more, "no later group exists, so this page is the last");
}

#[derive(Debug)]
struct ScopedChange {
    hlc: String,
    payload: String,
}

impl Paginable for ScopedChange {
    fn transaction_hlc(&self) -> &str {
        &self.hlc
    }

    fn serialized_len(&self) -> Option<usize> {
        Some(format!(r#"{{"hlc":"{}","payload":"{}"}}"#, self.hlc, self.payload).len())
    }
}

#[test]
fn paginate_accepts_a_consumer_defined_paginable_type() {
    let changes = vec![
        ScopedChange { hlc: "200/n".to_string(), payload: "c".to_string() },
        ScopedChange { hlc: "100/n".to_string(), payload: "a".to_string() },
        ScopedChange { hlc: "100/n".to_string(), payload: "b".to_string() },
    ];

    let (page, has_more) = paginate_changes(changes, 10_000);
    let hlcs: Vec<&str> = page.iter().map(|c| c.hlc.as_str()).collect();
    assert_eq!(hlcs, vec!["100/n", "100/n", "200/n"]);
    assert!(!has_more);
}

#[test]
fn a_change_is_measured_by_its_json() {
    let mut c = change("100/n", "t", "a", "q\"");
    assert_eq!(
        c.to_json(),
        r#"{"tableName":"t","rowPks":"{\"id\":\"r\"}","columnName":"a","hlcTimestamp":"100/n","value":"q\"","deviceId":"dev"}"#
    );
    assert_eq!(c.serialized_len(), Some(c.to_json().len()));
    c.sig = JsonValue::parse(r#"{ "k": 1 }"#);
    assert!(c.to_json().ends_with(r#","deviceId":"dev","sig":{"k":1}}"#));
}

#[test]
fn the_budget_is_used_up_to_the_byte() {
    let two = vec![change("100/n", "t", "a", "x"), change("200/n", "t", "a", "y")];
    let exact: usize = two.iter().map(|c| c.to_json().len() + 2).sum();
    let (page, has_more) = paginate_changes(two.clone(), exact);
    assert_eq!(page.len(), 2);
    assert!(!has_more);
    let (page, has_more) = paginate_changes(two, exact - 1);
    assert_eq!(page.len(), 1);
    assert!(has_more);
}

#[test]
fn what_is_newer_than_the_page_is_what_is_left() {
    let all: Vec<ColumnChange> = ["300/a", "9/a", "100/b", "100/a", "9/a", "20/a"]
        .iter()
        .enumerate()
        .map(|(i, hlc)| change(hlc, "t", &format!("c{i}"), "v"))
        .collect();
    let mut left = all.clone();
    let mut seen = Vec::new();
    loop {
        let (page, has_more) = paginate_changes(left.clone(), 1);
        assert!(!page.is_empty());
        let cursor = page.last().unwrap().hlc_timestamp.clone();
        seen.extend(page);
        left = all.iter().filter(|c| hlc_is_newer(&c.hlc_timestamp, &cursor)).cloned().collect();
        assert_eq!(has_more, !left.is_empty());
        if !has_more {
            break;
        }
    }
    let hlcs: Vec<&str> = seen.iter().map(|c| c.hlc_timestamp.as_str()).collect();
    assert_eq!(hlcs, vec!["9/a", "9/a", "20/a", "100/a", "100/b", "300/a"]);
}
