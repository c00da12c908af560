//! What a merge answers when the clock cannot follow.

use haex_crdt::crdt::apply::engine::fold_max_accepted_hlc;
use haex_crdt::crdt::apply::finish::{advance_after_commit, clock_verdict};
use haex_crdt::crdt::apply::preflight::check_change_at;
use haex_crdt::crdt::apply::report::{ApplyOutcome, SkipReason};
use haex_crdt::crdt::clock::{HlcError, HlcService};
use haex_crdt::crdt::hlc::{HlcTimestamp, TIME_UNITS_PER_SECOND};
use haex_crdt::crdt::scanner::change::ColumnChange;
use haex_crdt::error::Error;
use haex_crdt::json::JsonValue;

fn some_outcome() -> ApplyOutcome {
    let mut outcome = ApplyOutcome::new();
    outcome.skip(3, SkipReason::Stale);
    outcome
}

#[test]
fn nothing_landed_means_nothing_to_follow() {
    let outcome = advance_after_commit(some_outcome(), &mut HlcService::new(), None).unwrap();
    assert_eq!(outcome.report.skipped_stale, 1);
    assert_eq!(outcome.skipped[0].input_index, 3);
}

#[test]
fn a_clock_without_a_node_reports_the_committed_outcome() {
    let newest = Some("5/abc".to_string());
    match advance_after_commit(some_outcome(), &mut HlcService::new(), newest).unwrap_err() {
        Error::PostCommitClockAdvance { outcome, source } => {
            assert_eq!(outcome.skipped.len(), 1);
            assert!(matches!(source, HlcError::NotInitialized));
        }
        other => panic!("unexpected error: {other:?}"),
    }
}

#[test]
fn the_verdict_on_each_answer_of_the_clock() {
    assert!(clock_verdict(some_outcome(), Ok(())).is_ok());
    let refused = HlcError::RemoteTimestampOutOfTolerance {
        hlc: "9/a".to_string(),
        reason: "too far".to_string(),
    };
    match clock_verdict(some_outcome(), Err(refused)).unwrap_err() {
        Error::PostCommitClockAdvance { source, .. } => {
            assert!(source.message().contains("9/a"), "{}", source.message())
        }
        other => panic!("unexpected error: {other:?}"),
    }
}

#[test]
fn the_newest_of_what_landed_is_kept() {
    let mut newest = None;
    for hlc in ["2/abc", "10/abc", "9/abc", "10/abd", "10/abb"] {
        fold_max_accepted_hlc(&mut newest, hlc);
    }
    assert_eq!(newest.as_deref(), Some("10/abd"));
}

#[test]
fn a_clock_starts_where_it_left_off() {
    let mut service = HlcService::new();
    assert!(matches!(service.new_timestamp(), Err(HlcError::NotInitialized)));
    let mut first = HlcService::new_with_uuid(&[7; 16]);
    let last = first.new_timestamp().unwrap();
    service.initialize_in_place(&[7; 16], Some(&last.to_text())).unwrap();
    let next = service.new_timestamp().unwrap();
    assert!(next.time > last.time);
    assert_eq!(next.node, last.node);
}

#[test]
fn a_clock_that_cannot_start_stays_as_it_was() {
    let mut service = HlcService::new();
    assert!(matches!(
        service.initialize_in_place(&[0; 16], None),
        Err(HlcError::ParseNodeId(_))
    ));
    assert!(matches!(
        service.initialize_in_place(&[7; 16], Some("nonsense")),
        Err(HlcError::ParseTimestamp(_))
    ));
    assert!(matches!(service.new_timestamp(), Err(HlcError::NotInitialized)));
}

#[test]
fn a_clock_is_not_moved_to_the_end_of_its_time() {
    let mut clock = HlcService::new_for_testing("device");
    let before = clock.new_timestamp().unwrap();
    for time in [u64::MAX, u64::MAX - 1] {
        let refused = clock.update_with_timestamp(&HlcTimestamp { time, node: 1 }).unwrap_err();
        assert!(matches!(refused, HlcError::Parse(_)), "{refused:?}");
    }
    let after = clock.new_timestamp().unwrap();
    assert!(after.time > before.time && after.time < u64::MAX / 2);
    assert_eq!(
        HlcError::ClockExhausted.message(),
        "HLC has reached the end of clock time"
    );
}

#[test]
fn a_clock_that_followed_stands_later() {
    let mut clock = HlcService::new_for_testing("device");
    let seen = clock.new_timestamp().unwrap();
    let ahead = HlcTimestamp { time: seen.time + (1 << 34), node: 1 };
    clock.update_with_timestamp(&ahead).unwrap();
    let next = clock.new_timestamp().unwrap();
    assert!(next.time > ahead.time);
    assert!(next.time < ahead.time + (1 << 34));
}

const MINUTE: u64 = 60 * TIME_UNITS_PER_SECOND;
const TOLERANCE: u64 = 12 * 60 * MINUTE;

fn each_kind_of_clock() -> Vec<HlcService> {
    let mut in_place = HlcService::new();
    in_place.initialize_in_place(&[7; 16], None).unwrap();
    vec![
        HlcService::new_with_uuid(&[7; 16]),
        HlcService::new_for_testing("device"),
        HlcService::try_initialize(&[7; 16], None).unwrap(),
        HlcService::try_initialize(&[7; 16], Some("5/abc")).unwrap(),
        in_place,
    ]
}

#[test]
fn every_clock_follows_to_twelve_hours_ahead_and_no_further() {
    for mut clock in each_kind_of_clock() {
        let now = clock.new_timestamp().unwrap().time;
        let beyond = HlcTimestamp { time: now + TOLERANCE + MINUTE, node: 1 };
        assert!(matches!(
            clock.advance_past_remote(&beyond.to_text()),
            Err(HlcError::RemoteTimestampOutOfTolerance { hlc, .. }) if hlc == beyond.to_text()
        ));
        assert!(matches!(clock.update_with_timestamp(&beyond), Err(HlcError::Parse(_))));
        assert!(clock.new_timestamp().unwrap().time < now + MINUTE);
        let within = HlcTimestamp { time: now + TOLERANCE - MINUTE, node: 1 };
        clock.advance_past_remote(&within.to_text()).unwrap();
        let next = clock.new_timestamp().unwrap().time;
        assert!(next > within.time && next < within.time + MINUTE);
    }
}

#[test]
fn a_persisted_timestamp_is_held_to_the_same_tolerance() {
    let now = HlcService::new_with_uuid(&[7; 16]).new_timestamp().unwrap().time;
    let beyond = HlcTimestamp { time: now + TOLERANCE + MINUTE, node: 1 }.to_text();
    match HlcService::try_initialize(&[7; 16], Some(&beyond)) {
        Err(HlcError::Parse(m)) => {
            assert!(m.starts_with("Failed to update HLC with persisted timestamp: "), "{m}")
        }
        Err(other) => panic!("unexpected error: {other:?}"),
        Ok(_) => panic!("a timestamp beyond the tolerance was followed"),
    }
    let within = HlcTimestamp { time: now + TOLERANCE - MINUTE, node: 1 };
    let mut clock = HlcService::try_initialize(&[7; 16], Some(&within.to_text())).unwrap();
    assert!(clock.new_timestamp().unwrap().time > within.time);
}

#[test]
fn the_clock_accepts_what_the_checks_admit() {
    let mut clock = HlcService::new_with_uuid(&[7; 16]);
    let now = clock.new_timestamp().unwrap().time;
    for (ahead, admitted) in [
        (0, true),
        (MINUTE, true),
        (TOLERANCE - MINUTE, true),
        (TOLERANCE + MINUTE, false),
        (2 * TOLERANCE, false),
    ] {
        let hlc = HlcTimestamp { time: now + ahead, node: 1 }.to_text();
        let change = ColumnChange {
            table_name: "items".to_string(),
            row_pks: r#"{"id":1}"#.to_string(),
            column_name: "a".to_string(),
            hlc_timestamp: hlc.clone(),
            value: JsonValue::Null,
            device_id: String::new(),
            sig: None,
        };
        assert_eq!(check_change_at(&change, now).is_ok(), admitted);
        assert_eq!(clock.advance_past_remote(&hlc).is_ok(), admitted);
    }
}
