//! Timestamps in text, and the clock service.

use haex_crdt::crdt::clock::{
    clock_update_outcome, device_uuid_to_hlc_node, load_timestamp_sql, node_from_uuid_bytes,
    persist_timestamp_sql, HlcError, HlcService, HLC_TIMESTAMP_TYPE,
};
use haex_crdt::crdt::columns::TABLE_CRDT_CONFIGS;
use haex_crdt::crdt::hlc::{
    compare_hlc_strings, hlc_drift_at, hlc_is_from_node, hlc_is_newer, hlc_max, hlc_min,
    hlc_node_id_suffix, parse_hlc_node_hex, remote_hlc_drift, timestamp_precedes, HlcTimestamp,
    TimestampError, MAX_REMOTE_HLC_DRIFT,
};
use rusqlite::Connection;
use std::cmp::Ordering;
use std::str::FromStr;
use std::time::Duration;
use uhlc::{system_time_clock, NTP64};

fn limit() -> Duration {
    Duration::from_nanos(MAX_REMOTE_HLC_DRIFT)
}

fn margin() -> Duration {
    Duration::from_secs(60 * 60)
}

fn hlc_ahead_of_now(svc: &mut HlcService, offset: Duration) -> String {
    let node = svc.new_timestamp().expect("timestamp").node;
    let shifted = system_time_clock().as_u64() + NTP64::from(offset).as_u64();
    HlcTimestamp { time: shifted, node }.to_text()
}

fn fresh_configs_table(conn: &Connection) {
    conn.execute(
        &format!(
            "CREATE TABLE {TABLE_CRDT_CONFIGS} (key TEXT PRIMARY KEY, type TEXT NOT NULL, value TEXT NOT NULL)"
        ),
        [],
    )
    .expect("Should create table");
}

fn persist(conn: &Connection, t: &HlcTimestamp) {
    conn.execute(&persist_timestamp_sql(), [HLC_TIMESTAMP_TYPE, t.to_text().as_str()])
        .expect("Should persist timestamp");
}

fn load(conn: &Connection) -> Option<String> {
    conn.query_row(&load_timestamp_sql(), [HLC_TIMESTAMP_TYPE], |r| r.get(0)).ok()
}

#[test]
fn test_timestamp_format() {
    let mut svc = HlcService::new_with_uuid(&[1u8; 16]);
    let formatted = svc.new_timestamp().unwrap().to_text();

    assert!(formatted.contains('/'), "Timestamp should contain '/'");
    let parts: Vec<&str> = formatted.split('/').collect();
    assert_eq!(parts.len(), 2, "Timestamp should have exactly 2 parts");
    assert!(parts[0].parse::<u64>().is_ok(), "Time part should be a valid u64");
    assert!(parts[1].len() <= 32, "Node ID hex should be at most 32 characters (16 bytes)");
    assert!(!parts[1].is_empty(), "Node ID hex should not be empty");
}

#[test]
fn test_timestamp_parsing() {
    let mut svc = HlcService::new_with_uuid(&[2u8; 16]);
    let original = svc.new_timestamp().unwrap();
    let formatted = original.to_text();
    let parsed = HlcTimestamp::parse(&formatted).expect("Should parse timestamp");
    assert_eq!(original, parsed, "Parsed timestamp should equal original");
}

#[test]
fn test_timestamp_ordering() {
    let mut svc = HlcService::new_with_uuid(&[4u8; 16]);
    let ts1 = svc.new_timestamp().unwrap();
    let ts2 = svc.new_timestamp().unwrap();
    let ts3 = svc.new_timestamp().unwrap();
    assert!(timestamp_precedes(ts1, ts2), "ts1 should be less than ts2");
    assert!(timestamp_precedes(ts2, ts3), "ts2 should be less than ts3");
}

#[test]
fn test_hlc_persistence() {
    let conn = Connection::open_in_memory().expect("Should create in-memory DB");
    fresh_configs_table(&conn);
    let mut svc = HlcService::new_with_uuid(&[5u8; 16]);
    let original_timestamp = svc.new_timestamp().unwrap();
    persist(&conn, &original_timestamp);

    let loaded = load(&conn);
    assert!(loaded.is_some(), "Should have loaded a timestamp");
    assert_eq!(
        HlcTimestamp::parse(&loaded.unwrap()),
        Ok(original_timestamp),
        "Loaded timestamp should match original"
    );
}

#[test]
fn try_initialize_from_provider_reads_persisted_timestamp() {
    let conn = Connection::open_in_memory().expect("open");
    fresh_configs_table(&conn);
    let mut foreign = HlcService::new_with_uuid(&[9u8; 16]);
    let foreign_ts = foreign.new_timestamp().unwrap();
    persist(&conn, &foreign_ts);

    let mut svc = HlcService::try_initialize(&[7u8; 16], load(&conn).as_deref()).expect("init");
    let next = svc.new_timestamp().expect("timestamp");
    assert!(
        timestamp_precedes(foreign_ts, next),
        "next local timestamp must dominate the persisted foreign one"
    );
}

#[test]
fn compare_treats_node_ids_numerically_not_lexically() {
    let with_leading = "5/01";
    let without_leading = "5/1";
    assert_eq!(
        compare_hlc_strings(with_leading, without_leading),
        Ordering::Equal,
        "node ids '01' and '1' must compare as equal"
    );
}

#[test]
fn compare_with_wide_node_ids_orders_numerically() {
    assert_eq!(
        compare_hlc_strings("5/02", "5/10"),
        Ordering::Less,
        "node 0x02 must compare less than 0x10 numerically"
    );
}

#[test]
fn advance_past_remote_rejects_malformed_string() {
    let mut svc = HlcService::new_with_uuid(&[1u8; 16]);
    let result = svc.advance_past_remote("not-a-timestamp");
    assert!(matches!(result, Err(HlcError::Parse(_))), "Expected Err(HlcError::Parse), got: {result:?}");
}

#[test]
fn advance_past_remote_reports_drift_not_a_parse_failure() {
    let mut svc = HlcService::new_with_uuid(&[3u8; 16]);
    let beyond = hlc_ahead_of_now(&mut svc, limit() + margin());
    let err = svc
        .advance_past_remote(&beyond)
        .expect_err("a timestamp past the drift limit must be refused");

    assert!(
        matches!(err, HlcError::RemoteTimestampOutOfTolerance { .. }),
        "a well-formed but out-of-tolerance timestamp is clock skew, not a parse failure: {err:?}"
    );
    let message = err.message();
    assert!(
        message.contains("drift tolerance") && !message.contains("parse"),
        "the message must send the reader at the clock, not the parser: {message}"
    );
}

#[test]
fn advance_past_remote_errors_when_uninitialized() {
    let mut svc = HlcService::new();
    let mut initialized = HlcService::new_with_uuid(&[2u8; 16]);
    let ts_str = initialized.new_timestamp().unwrap().to_text();
    let result = svc.advance_past_remote(&ts_str);
    assert!(
        matches!(result, Err(HlcError::NotInitialized)),
        "Expected Err(HlcError::NotInitialized), got: {result:?}"
    );
}

#[test]
fn advance_past_remote_ok_on_empty_string() {
    let mut svc = HlcService::new_with_uuid(&[3u8; 16]);
    let result = svc.advance_past_remote("");
    assert!(result.is_ok(), "Expected Ok(()), got: {result:?}");
}

#[test]
fn new_for_testing_is_deterministic() {
    let mut svc_a = HlcService::new_for_testing("test-device-a");
    let mut svc_b = HlcService::new_for_testing("test-device-a");
    let ts_a = svc_a.new_timestamp().expect("timestamp a").to_text();
    let ts_b = svc_b.new_timestamp().expect("timestamp b").to_text();
    let node_a = hlc_node_id_suffix(&ts_a).expect("node id a");
    let node_b = hlc_node_id_suffix(&ts_b).expect("node id b");
    assert_eq!(node_a, node_b, "the shim must hash equal inputs to equal UUIDs");
    assert!(!node_a.is_empty(), "node id must be non-empty");
    assert!(node_a.len() <= 32, "node id must be at most 16 bytes hex");
    let mut svc_c = HlcService::new_for_testing("test-device-b");
    let ts_c = svc_c.new_timestamp().expect("timestamp c").to_text();
    let node_c = hlc_node_id_suffix(&ts_c).expect("node id c");
    assert_ne!(node_a, node_c, "different inputs must hash to different UUIDs");

    let digest = blake3::hash(b"test-device-a");
    assert_eq!(
        svc_a.new_timestamp().unwrap().node,
        node_from_uuid_bytes(&digest.as_bytes()[..16])
    );
}

#[test]
fn device_store_variant_name_is_stable() {
    let err = HlcError::DeviceStore("boom".to_string());
    match err {
        HlcError::DeviceStore(msg) => assert_eq!(msg, "boom"),
        other => panic!("expected DeviceStore variant, got {other:?}"),
    }
}

#[test]
fn new_with_uuid_carries_the_crate_drift_tolerance() {
    let mut svc = HlcService::new_with_uuid(&[11u8; 16]);
    let inside = hlc_ahead_of_now(&mut svc, limit() - margin());
    svc.advance_past_remote(&inside)
        .expect("an hour inside the tolerance must be accepted");
    let beyond = hlc_ahead_of_now(&mut svc, limit() + margin());
    let err = svc
        .advance_past_remote(&beyond)
        .expect_err("an hour past the tolerance must be refused");
    assert!(
        matches!(err, HlcError::RemoteTimestampOutOfTolerance { .. }),
        "expected a drift refusal, got: {err:?}"
    );
}

#[test]
fn try_initialize_carries_the_crate_drift_tolerance() {
    let mut svc = HlcService::try_initialize(&[12u8; 16], None).expect("init");
    let inside = hlc_ahead_of_now(&mut svc, limit() - margin());
    svc.advance_past_remote(&inside)
        .expect("an hour inside the tolerance must be accepted");
    let beyond = hlc_ahead_of_now(&mut svc, limit() + margin());
    let err = svc
        .advance_past_remote(&beyond)
        .expect_err("an hour past the tolerance must be refused");
    assert!(
        matches!(err, HlcError::RemoteTimestampOutOfTolerance { .. }),
        "expected a drift refusal, got: {err:?}"
    );
}

#[test]
fn remote_hlc_drift_measures_only_future_drift() {
    let mut svc = HlcService::new_with_uuid(&[13u8; 16]);
    let offset = Duration::from_secs(6 * 60 * 60);
    let drift = Duration::from_nanos(
        remote_hlc_drift(&hlc_ahead_of_now(&mut svc, offset))
            .expect("a future timestamp must report drift"),
    );
    assert!(
        drift <= offset && drift + Duration::from_secs(5) > offset,
        "drift must be the offset, give or take the elapsed wall clock: {drift:?}"
    );

    let now = svc.new_timestamp().expect("timestamp").to_text();
    assert_eq!(
        remote_hlc_drift(&now),
        None,
        "a timestamp at or behind local now has no future drift"
    );
}

#[test]
fn remote_hlc_drift_is_none_for_a_malformed_timestamp() {
    assert_eq!(remote_hlc_drift("not-a-timestamp"), None);
    assert_eq!(remote_hlc_drift(""), None, "the empty HLC is not a drift");
    assert_eq!(
        remote_hlc_drift("18446744073709551615/0abc"),
        None,
        "an unparseable node id leaves the drift undefined"
    );
}

#[test]
fn malformed_timestamps_are_the_oldest() {
    assert!(hlc_is_newer("1/1", "garbage"));
    assert!(hlc_is_newer("0/1", ""));
    assert!(!hlc_is_newer("x/y", "0/0"));
    assert_eq!(compare_hlc_strings("", "nothing"), Ordering::Equal);
}

#[test]
fn newest_and_oldest_of_several() {
    assert_eq!(hlc_max(&["5/a", "17/1", "17/0"]), Some("17/1"));
    assert_eq!(hlc_min(&["5/a", "17/1", "5/9"]), Some("5/9"));
    assert_eq!(hlc_max(&[]), None);
    assert_eq!(hlc_min(&[]), None);
}

#[test]
fn node_part_of_a_timestamp() {
    assert_eq!(hlc_node_id_suffix("5/ab"), Some("ab"));
    assert_eq!(hlc_node_id_suffix("5"), None);
    assert_eq!(parse_hlc_node_hex("ff"), Some(255));
    assert_eq!(parse_hlc_node_hex("zz"), None);
    assert!(hlc_is_from_node("5/00ff", 255));
    assert!(!hlc_is_from_node("5", 255));
}

#[test]
fn full_timestamps_are_read_strictly() {
    assert_eq!(HlcTimestamp::parse("7/a1"), Ok(HlcTimestamp { time: 7, node: 0xa1 }));
    assert_eq!(HlcTimestamp::parse("7"), Err(TimestampError::NoSeparator));
    assert_eq!(HlcTimestamp::parse("x/1"), Err(TimestampError::Time));
    assert_eq!(HlcTimestamp::parse("7/"), Err(TimestampError::NodeEmpty));
    assert_eq!(HlcTimestamp::parse("7/01"), Err(TimestampError::NodeLeadingZero));
    assert_eq!(HlcTimestamp::parse("7/g"), Err(TimestampError::NodeDigits));
    assert_eq!(HlcTimestamp { time: 7, node: 0xa1 }.to_text(), "7/a1");
}

#[test]
fn full_timestamps_compare_as_the_clock_library_does() {
    let texts = ["5/1", "5/2", "5/100", "5/101", "5/ff", "6/1", "5/ffff", "5/10000"];
    for a in texts {
        for b in texts {
            let ours = timestamp_precedes(
                HlcTimestamp::parse(a).unwrap(),
                HlcTimestamp::parse(b).unwrap(),
            );
            let theirs =
                uhlc::Timestamp::from_str(a).unwrap() < uhlc::Timestamp::from_str(b).unwrap();
            assert_eq!(ours, theirs, "{a} {b}");
        }
    }
}

#[test]
fn drift_is_whole_nanoseconds_rounded_up() {
    let second = 1u64 << 32;
    let t = HlcTimestamp { time: 10 * second, node: 1 }.to_text();
    assert_eq!(hlc_drift_at(&t, 7 * second), Some(3_000_000_000));
    assert_eq!(hlc_drift_at(&t, 10 * second - 16), Some(4));
    assert_eq!(hlc_drift_at(&t, 10 * second - 1), Some(4), "the counter bits of the reading do not count");
    let late = HlcTimestamp { time: 7 * second, node: 1 }.to_text();
    assert_eq!(hlc_drift_at(&late, 10 * second), None);
}

#[test]
fn device_ids_become_node_ids() {
    assert_eq!(
        device_uuid_to_hlc_node("01000000-0000-0000-0000-000000000000"),
        Some(1)
    );
    assert_eq!(device_uuid_to_hlc_node("no uuid"), None);
    let mut bytes = [0u8; 16];
    bytes[15] = 1;
    assert_eq!(node_from_uuid_bytes(&bytes), 1u128 << 120);
    let mut svc = HlcService::new_with_uuid(&bytes);
    assert_eq!(svc.new_timestamp().unwrap().node, 1u128 << 120);
}

#[test]
fn clock_refusals_keep_their_reason() {
    assert!(clock_update_outcome("5/1", Ok(())).is_ok());
    match clock_update_outcome("5/1", Err("too far".to_string())) {
        Err(HlcError::RemoteTimestampOutOfTolerance { hlc, reason }) => {
            assert_eq!(hlc, "5/1");
            assert_eq!(reason, "too far");
        }
        other => panic!("{other:?}"),
    }
    assert!(matches!(
        HlcService::new().update_with_timestamp(&HlcTimestamp { time: 1, node: 1 }),
        Err(HlcError::NotInitialized)
    ));
}

#[test]
fn a_timestamp_with_an_unreadable_part_is_the_oldest() {
    assert_eq!(compare_hlc_strings("5/zz", "4/1"), Ordering::Less);
    assert_eq!(compare_hlc_strings("x/1", "0/1"), Ordering::Less);
    assert_eq!(compare_hlc_strings("5/zz", ""), Ordering::Equal);
    assert_eq!(compare_hlc_strings("5/", "5"), Ordering::Equal);
    assert_eq!(compare_hlc_strings("5/", "4/1"), Ordering::Greater);
}
