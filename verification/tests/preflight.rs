//! What can refuse a batch, and the bytes that a signature covers.

use haex_crdt::crdt::apply::preflight::{
    check_change_at, check_identifiers_and_drift, preflight_batch, verify_all_signatures,
};
use haex_crdt::crdt::apply::preimage::{column_sig_preimage, column_sig_preimage_from_parts};
use haex_crdt::crdt::apply::signature_policy::SignatureApplyPolicy;
use haex_crdt::crdt::hlc::{MAX_REMOTE_HLC_DRIFT, TIME_UNITS_PER_SECOND};
use haex_crdt::crdt::scanner::change::ColumnChange;
use haex_crdt::error::Error;
use haex_crdt::json::{JsonObject, JsonValue};
use haex_crdt::signature::{NoopSignatureProvider, SignatureProvider};
use std::sync::atomic::{AtomicBool, Ordering};

fn text(s: &str) -> JsonValue {
    JsonValue::Text(s.to_string())
}

fn json(s: &str) -> JsonValue {
    JsonValue::parse(s).unwrap()
}

fn change_with_sig(idx: usize, sig: Option<JsonValue>) -> ColumnChange {
    ColumnChange {
        table_name: "items".to_string(),
        row_pks: format!(r#"{{"id":"r{idx}"}}"#),
        column_name: "body".to_string(),
        hlc_timestamp: format!("{idx:016}/abcdef"),
        value: text("v"),
        device_id: String::new(),
        sig,
    }
}

/// Refuses the signature whose `idx` is the given number, and records whether
/// it was shown a batch.
struct Provider {
    fail_at: Option<i64>,
    hook_called: AtomicBool,
}

impl Provider {
    fn allowing() -> Self {
        Provider { fail_at: None, hook_called: AtomicBool::new(false) }
    }

    fn rejecting(fail_at: i64) -> Self {
        Provider { fail_at: Some(fail_at), hook_called: AtomicBool::new(false) }
    }
}

impl SignatureProvider for Provider {
    fn sign_column(&self, _preimage: &[u8]) -> Result<Vec<u8>, Error> {
        Ok(Vec::new())
    }

    fn verify_column(&self, _preimage: &[u8], sig: &JsonValue) -> Result<(), Error> {
        let idx = JsonObject::parse(&sig.to_json()).and_then(|m| match m.get("idx") {
            Some(JsonValue::Number { integer, .. }) => *integer,
            _ => None,
        });
        if idx.is_some() && idx == self.fail_at {
            Err(Error::UnexpectedSignatureUnderNoop)
        } else {
            Ok(())
        }
    }

    fn author_id(&self) -> String {
        String::new()
    }

    fn on_before_apply(&self, _changes: &[ColumnChange]) -> Result<(), Error> {
        self.hook_called.store(true, Ordering::SeqCst);
        Ok(())
    }
}

fn preflight<P: SignatureProvider>(batch: &[ColumnChange], provider: &P) -> Result<(), Error> {
    let mut policy: SignatureApplyPolicy<'_, P, ()> = SignatureApplyPolicy::new(provider);
    preflight_batch(batch, &mut policy)
}

#[test]
fn empty_batch_passes() {
    verify_all_signatures(&[], &Provider::allowing()).unwrap();
}

#[test]
fn all_unsigned_passes_regardless_of_provider() {
    let batch = vec![change_with_sig(0, None), change_with_sig(1, None)];
    verify_all_signatures(&batch, &Provider::rejecting(0)).unwrap();
}

#[test]
fn noop_provider_accepts_null_sigs() {
    let batch = vec![
        change_with_sig(0, Some(JsonValue::Null)),
        change_with_sig(1, Some(JsonValue::Null)),
    ];
    verify_all_signatures(&batch, &NoopSignatureProvider).unwrap();
}

fn failed_at(r: Result<(), Error>) -> usize {
    match r.unwrap_err() {
        Error::SignatureVerificationFailed { first_failed_change } => first_failed_change,
        other => panic!("wrong variant: {other:?}"),
    }
}

#[test]
fn noop_provider_rejects_non_null_sig_at_first_offender() {
    let batch = vec![
        change_with_sig(0, Some(JsonValue::Null)),
        change_with_sig(1, Some(text("not-empty"))),
        change_with_sig(2, Some(JsonValue::Null)),
    ];
    let at = failed_at(verify_all_signatures(&batch, &NoopSignatureProvider));
    assert_eq!(at, 1, "must report the first offender");
}

#[test]
fn preflight_reports_first_failure_index_not_signed_only_index() {
    let batch = vec![
        change_with_sig(0, None),
        change_with_sig(1, Some(json(r#"{"idx": 1}"#))),
        change_with_sig(2, None),
        change_with_sig(3, Some(json(r#"{"idx": 3}"#))),
    ];
    assert_eq!(failed_at(verify_all_signatures(&batch, &Provider::rejecting(3))), 3);
}

/// A timestamp `nanos` beyond the wall clock.
fn hlc_ahead_of_now(nanos: u64) -> String {
    let ahead = u128::from(nanos) * u128::from(TIME_UNITS_PER_SECOND) / 1_000_000_000;
    let shifted = uhlc::system_time_clock().as_u64() + ahead as u64;
    format!("{shifted}/abcdef")
}

const HOUR: u64 = 3_600_000_000_000;

fn assert_validation_error(err: Error, needle: &str) {
    match err {
        Error::Message(msg) => assert!(
            msg.contains(needle),
            "expected a validation error naming {needle:?}, got: {msg}"
        ),
        other => panic!("expected a validation error, got {other:?}"),
    }
}

#[test]
fn preflight_rejects_an_unsafe_table_name() {
    let mut batch = vec![change_with_sig(0, None)];
    batch[0].table_name = "items; DROP TABLE users".to_string();
    let err = preflight(&batch, &NoopSignatureProvider).unwrap_err();
    assert_validation_error(err, "Invalid table name");
}

#[test]
fn preflight_rejects_an_unsafe_column_name() {
    let mut batch = vec![change_with_sig(0, None)];
    batch[0].column_name = "body\" = 1 --".to_string();
    let err = preflight(&batch, &NoopSignatureProvider).unwrap_err();
    assert_validation_error(err, "Invalid column name");
}

#[test]
fn an_unsafe_identifier_is_reported_ahead_of_drift_on_the_same_change() {
    let mut batch = vec![change_with_sig(0, None)];
    batch[0].table_name = "bad;name".to_string();
    batch[0].hlc_timestamp = hlc_ahead_of_now(MAX_REMOTE_HLC_DRIFT + HOUR);
    let err = preflight(&batch, &NoopSignatureProvider).unwrap_err();
    assert_validation_error(err, "Invalid table name");
}

#[test]
fn the_input_boundary_runs_before_the_consumer_hook() {
    let mut unsafe_batch = vec![change_with_sig(0, None)];
    unsafe_batch[0].table_name = "bad;name".to_string();
    let provider = Provider::allowing();
    preflight(&unsafe_batch, &provider).unwrap_err();
    assert!(
        !provider.hook_called.load(Ordering::SeqCst),
        "on_before_apply must not see an identifier-unsafe batch"
    );

    let mut drifted = vec![change_with_sig(0, None)];
    drifted[0].hlc_timestamp = hlc_ahead_of_now(MAX_REMOTE_HLC_DRIFT + HOUR);
    let provider = Provider::allowing();
    let err = preflight(&drifted, &provider).unwrap_err();
    assert!(
        matches!(err, Error::RemoteHlcDriftTooLarge { .. }),
        "expected a drift refusal, got: {err:?}"
    );
    assert!(
        !provider.hook_called.load(Ordering::SeqCst),
        "on_before_apply must not see an over-drift batch"
    );
}

#[test]
fn preflight_accepts_a_clean_batch_and_reaches_the_consumer_hook() {
    let batch = vec![change_with_sig(0, None), change_with_sig(1, None)];
    let provider = Provider::allowing();
    preflight(&batch, &provider).expect("a clean batch must pass every phase");
    assert!(
        provider.hook_called.load(Ordering::SeqCst),
        "a batch that clears the boundary must reach the consumer hook"
    );
}

#[test]
fn a_timestamp_with_a_node_that_cannot_be_read_is_refused() {
    let mut batch = vec![change_with_sig(0, None)];
    batch[0].hlc_timestamp = "12/zz".to_string();
    match check_identifiers_and_drift(&batch).unwrap_err() {
        Error::Hlc(message) => {
            assert!(message.starts_with("Invalid remote HLC timestamp '12/zz': "), "{message}")
        }
        other => panic!("wrong variant: {other:?}"),
    }
    batch[0].hlc_timestamp = "no node".to_string();
    assert!(check_identifiers_and_drift(&batch).is_ok());
}

#[test]
fn the_limit_itself_is_within_tolerance() {
    let mut change = change_with_sig(0, None);
    let limit = 12 * 3600 * TIME_UNITS_PER_SECOND;
    change.hlc_timestamp = format!("{limit}/abcdef");
    assert!(check_change_at(&change, 0).is_ok());
    change.hlc_timestamp = format!("{}/abcdef", limit + TIME_UNITS_PER_SECOND);
    match check_change_at(&change, 0).unwrap_err() {
        Error::RemoteHlcDriftTooLarge { hlc, drift, limit } => {
            assert_eq!(hlc, change.hlc_timestamp);
            assert_eq!(drift, MAX_REMOTE_HLC_DRIFT + 1_000_000_000);
            assert_eq!(limit, MAX_REMOTE_HLC_DRIFT);
        }
        other => panic!("wrong variant: {other:?}"),
    }
}

// Preimages.

fn change(table: &str, pks: &str, col: &str, hlc: &str, value: JsonValue) -> ColumnChange {
    ColumnChange {
        table_name: table.to_string(),
        row_pks: pks.to_string(),
        column_name: col.to_string(),
        hlc_timestamp: hlc.to_string(),
        value,
        device_id: String::new(),
        sig: None,
    }
}

#[test]
fn preimage_is_stable_across_calls() {
    let c = change("items", r#"{"id":"a"}"#, "body", "1/abc", text("hello"));
    assert_eq!(column_sig_preimage(&c), column_sig_preimage(&c));
}

#[test]
fn preimage_from_parts_matches_from_change() {
    let value = json(r#"{"nested": [1, 2, 3]}"#);
    let c = change("items", r#"{"id":"a"}"#, "meta", "1/abc", value.clone());
    assert_eq!(
        column_sig_preimage(&c),
        column_sig_preimage_from_parts("items", r#"{"id":"a"}"#, "meta", "1/abc", &value),
    );
}

#[test]
fn field_swap_produces_different_preimage() {
    let a = change("t", "r", "col_a", "1", text("x"));
    let b = change("t", "r", "col_b", "1", text("x"));
    assert_ne!(column_sig_preimage(&a), column_sig_preimage(&b));
}

#[test]
fn value_serialization_key_order_is_stable() {
    let one = change("t", "r", "c", "1", json(r#"{"b": 2, "a": 1}"#));
    let two = change("t", "r", "c", "1", json(r#"{"a": 1, "b": 2}"#));
    assert_eq!(column_sig_preimage(&one), column_sig_preimage(&two));
}

#[test]
fn preimage_shape_length_prefixes_each_field() {
    let c = change("aa", "bb", "cc", "dd", text("e"));
    let value_bytes = serde_json::to_vec(&serde_json::Value::from("e")).unwrap();
    let expected_len = 5 * 4 + 2 + 2 + 2 + 2 + value_bytes.len();
    assert_eq!(column_sig_preimage(&c).len(), expected_len);
}

#[test]
fn the_preimage_byte_for_byte() {
    let c = change("t", "", "ab", "1", text("é"));
    let mut expected: Vec<u8> = Vec::new();
    expected.extend([0, 0, 0, 1, b't', 0, 0, 0, 0, 0, 0, 0, 2, b'a', b'b', 0, 0, 0, 1, b'1']);
    expected.extend([0, 0, 0, 4, b'"', 0xc3, 0xa9, b'"']);
    assert_eq!(column_sig_preimage(&c), expected);
}

#[test]
fn the_noop_provider_signs_with_nothing() {
    assert_eq!(NoopSignatureProvider.sign_column(&[1, 2]).unwrap(), Vec::<u8>::new());
    assert!(NoopSignatureProvider.verify_column(&[1], &JsonValue::Null).is_ok());
    assert!(matches!(
        NoopSignatureProvider.verify_column(&[1], &text("s")),
        Err(Error::UnexpectedSignatureUnderNoop)
    ));
}
