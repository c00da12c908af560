//! The steps of a batch merge, without a database.

use haex_crdt::crdt::apply::batch_merge::{BatchMerge, MergeStage};
use haex_crdt::crdt::apply::engine::StoredRow;
use haex_crdt::crdt::apply::policy_types::{
    ColumnDecision, ConstraintDecision, RowDecision, SignatureWrite,
};
use haex_crdt::crdt::apply::report::SkipReason;
use haex_crdt::crdt::columns::{COLUMN_HLCS_COLUMN, HLC_TIMESTAMP_COLUMN};
use haex_crdt::crdt::scanner::change::ColumnChange;
use haex_crdt::crdt::schema::ColumnInfo;
use haex_crdt::crdt::value::SqlValue;
use haex_crdt::error::Error;
use haex_crdt::json::JsonValue;

fn change(table: &str, id: &str, column: &str, hlc: &str) -> ColumnChange {
    ColumnChange {
        table_name: table.to_string(),
        row_pks: format!(r#"{{"id":"{id}"}}"#),
        column_name: column.to_string(),
        hlc_timestamp: hlc.to_string(),
        value: JsonValue::Text("v".to_string()),
        device_id: String::new(),
        sig: None,
    }
}

fn column(name: &str, is_pk: bool) -> ColumnInfo {
    ColumnInfo { name: name.to_string(), column_type: "TEXT".to_string(), is_pk }
}

fn items_schema() -> Vec<ColumnInfo> {
    vec![
        column("id", true),
        column("name", false),
        column("price", false),
        column(HLC_TIMESTAMP_COLUMN, false),
        column(COLUMN_HLCS_COLUMN, false),
    ]
}

fn accept() -> ColumnDecision {
    ColumnDecision::Accept {
        value: SqlValue::Text("v".to_string()),
        signature: SignatureWrite::Keep,
    }
}

fn stage_name(m: &BatchMerge) -> &'static str {
    match m.stage() {
        MergeStage::Idle => "idle",
        MergeStage::Open(_) => "open",
        MergeStage::Ready(_) => "ready",
        MergeStage::Staged(_) => "staged",
    }
}

fn eligible_count(m: &BatchMerge) -> usize {
    match m.stage() {
        MergeStage::Ready(row) => row.input().eligible_indices.len(),
        _ => panic!("no row is ready"),
    }
}

#[test]
fn every_change_of_a_batch_is_written_or_skipped_once() {
    let batch = vec![
        change("items", "a", "name", "100/1"),
        change("items", "a", "name", "200/1"),
        change("items", "a", "id", "200/1"),
        change("items", "a", "nowhere", "200/1"),
        change("items", "a", "price", "50/1"),
        change("gone", "z", "name", "300/1"),
        change("items", "b", "name", "400/1"),
    ];
    let n = batch.len();
    let mut m = BatchMerge::start(batch).unwrap();
    let mut tables = Vec::new();
    loop {
        m = match m.stage() {
            MergeStage::Idle => {
                let Some(table) = m.next_table() else {
                    break;
                };
                tables.push(table.to_string());
                let schema = if table == "items" { items_schema() } else { Vec::new() };
                m.open_row(schema)
            }
            MergeStage::Open(_) => m.classify_row(Some(StoredRow {
                column_hlcs: Some(r#"{"price":"60/2"}"#.to_string()),
                row_hlc: Some("60/2".to_string()),
            })),
            MergeStage::Ready(row) => {
                let verdicts =
                    (0..row.input().eligible_indices.len()).map(|_| accept()).collect();
                m.decide_row(RowDecision::Columns(verdicts), &[]).unwrap()
            }
            MergeStage::Staged(_) => m.confirm_row(),
        };
    }
    assert_eq!(tables, vec!["items", "gone", "items"]);
    let Ok((outcome, newest)) = m.finish() else {
        panic!("nothing is left");
    };
    assert_eq!(newest.as_deref(), Some("400/1"));
    assert_eq!(outcome.report.applied, 2);
    assert_eq!(outcome.report.applied + outcome.skipped.len(), n);
    let reason_of = |i: usize| {
        let found: Vec<_> =
            outcome.skipped.iter().filter(|s| s.input_index == i).map(|s| s.reason).collect();
        assert!(found.len() <= 1, "change {i} is reported twice");
        found.first().copied()
    };
    assert_eq!(reason_of(0), Some(SkipReason::SupersededInBatch));
    assert_eq!(reason_of(1), None);
    assert_eq!(reason_of(2), Some(SkipReason::ReservedColumn));
    assert_eq!(reason_of(3), Some(SkipReason::UnknownColumn));
    assert_eq!(reason_of(4), Some(SkipReason::Stale));
    assert_eq!(reason_of(5), Some(SkipReason::MissingTable));
    assert_eq!(reason_of(6), None);
}

#[test]
fn a_timestamp_that_cannot_be_read_is_refused_at_the_start() {
    let batch = vec![change("items", "a", "name", "100/1"), change("items", "b", "name", "x/1")];
    match BatchMerge::start(batch) {
        Err(Error::Hlc(message)) => {
            assert!(message.starts_with("Invalid remote HLC timestamp 'x/1': "), "{message}")
        }
        _ => panic!("the second timestamp is none"),
    }
}

#[test]
fn an_empty_batch_is_done_at_once() {
    let m = BatchMerge::start(Vec::new()).unwrap();
    assert_eq!(m.next_table(), None);
    let Ok((outcome, newest)) = m.finish() else {
        panic!("nothing is left");
    };
    assert_eq!(outcome.report.applied, 0);
    assert!(outcome.skipped.is_empty());
    assert_eq!(newest, None);
}

#[test]
fn a_step_out_of_turn_changes_nothing() {
    let m = BatchMerge::start(vec![change("items", "a", "name", "100/1")]).unwrap();
    let m = m.classify_row(None).decide_row(RowDecision::Skip, &[]).unwrap().confirm_row();
    let Some(m) = m.recover_row(ConstraintDecision::Abort, SkipReason::InsertUnique) else {
        panic!("no row is staged");
    };
    assert_eq!(stage_name(&m), "idle");
    let Err(m) = m.finish() else {
        panic!("a row is left");
    };
    let m = m.open_row(items_schema());
    assert_eq!(stage_name(&m), "open");
    assert_eq!(m.next_table(), None);
    let m = m.open_row(items_schema());
    assert_eq!(stage_name(&m), "open");
    let m = m.classify_row(None);
    assert_eq!(stage_name(&m), "ready");
    assert_eq!(eligible_count(&m), 1);
}

#[test]
fn too_few_verdicts_give_the_batch_up() {
    let m = BatchMerge::start(vec![change("items", "a", "name", "100/1")]).unwrap();
    let m = m.open_row(items_schema()).classify_row(None);
    match m.decide_row(RowDecision::Columns(Vec::new()), &[]) {
        Err(Error::Message(reason)) => assert_eq!(
            reason,
            "policy returned 0 column decisions for 1 eligible columns in table 'items'"
        ),
        _ => panic!("one verdict is missing"),
    }
}

#[test]
fn a_row_that_breaks_a_constraint_is_dropped_or_ends_the_merge() {
    let staged = || {
        let m = BatchMerge::start(vec![
            change("items", "a", "name", "100/1"),
            change("items", "a", "price", "110/1"),
        ])
        .unwrap();
        let m = m.open_row(items_schema()).classify_row(None);
        m.decide_row(RowDecision::Columns(vec![accept(), accept()]), &[]).unwrap()
    };
    let m = staged();
    assert_eq!(stage_name(&m), "staged");
    assert!(m.recover_row(ConstraintDecision::Abort, SkipReason::InsertUnique).is_none());
    let Some(m) = staged().recover_row(ConstraintDecision::SkipRow, SkipReason::InsertUnique)
    else {
        panic!("the row is dropped");
    };
    let Ok((outcome, newest)) = m.finish() else {
        panic!("nothing is left");
    };
    assert_eq!(outcome.report.skipped_insert_constraint, 2);
    assert_eq!(newest, None);
}
