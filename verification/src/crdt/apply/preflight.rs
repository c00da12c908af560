//! Every check that can refuse a batch, made before anything is written.
//!
//! In this order, change by change: the table name and the column name may
//! stand in SQL, a timestamp with a node part is a timestamp, and it does not
//! lie too far ahead of the clock. Then the policy looks at the batch. A refusal
//! means that nothing was written, so a refused batch can be kept and tried
//! again as it is.

use crate::crdt::apply::policy::ApplyPolicy;
use crate::crdt::apply::preimage::column_sig_preimage;
use crate::crdt::apply::preimage::preimage;
use crate::crdt::clock::advance_answer;
use crate::crdt::clock::beyond_tolerance;
use crate::crdt::clock::remote_tolerance;
use crate::crdt::clock::wall_time;
use crate::crdt::clock::HlcError;
use crate::crdt::clock::HlcService;
use crate::crdt::clock::CLOCK_TIME_END;
use crate::crdt::hlc::hlc_drift;
use crate::crdt::hlc::hlc_drift_at;
use crate::crdt::hlc::lemma_drift_tolerance;
use crate::crdt::hlc::lemma_strict_reading_agrees;
use crate::crdt::hlc::physical_time;
use crate::crdt::hlc::read_timestamp;
use crate::crdt::hlc::timestamp_value;
use crate::crdt::hlc::HlcTimestamp;
use crate::crdt::hlc::TimestampError;
use crate::crdt::hlc::MAX_REMOTE_HLC_DRIFT;
use crate::crdt::identifier::is_safe_identifier;
use crate::crdt::identifier::safe_identifier;
use crate::crdt::scanner::change::change_views;
use crate::crdt::scanner::change::ChangeView;
use crate::crdt::scanner::change::ColumnChange;
use crate::error::Error;
use crate::signature::SignatureProvider;
use crate::text::text_contains;
use vstd::prelude::*;

verus! {

/// Why a change is refused.
pub enum Refusal {
    TableName,
    ColumnName,
    Timestamp(TimestampError),
    Drift(nat),
}

/// A timestamp with a node part is a timestamp.
pub open spec fn readable(c: ChangeView) -> bool {
    c.hlc_timestamp.contains('/') ==> timestamp_value(c.hlc_timestamp) is Ok
}

/// Why a change is refused when the clock reads `now`, if it is.
pub open spec fn refusal(c: ChangeView, now: nat) -> Option<Refusal> {
    if !safe_identifier(c.table_name) {
        Some(Refusal::TableName)
    } else if !safe_identifier(c.column_name) {
        Some(Refusal::ColumnName)
    } else if !readable(c) {
        Some(Refusal::Timestamp(timestamp_value(c.hlc_timestamp)->Err_0))
    } else {
        match hlc_drift(c.hlc_timestamp, now) {
            Some(d) => if d > MAX_REMOTE_HLC_DRIFT {
                Some(Refusal::Drift(d))
            } else {
                None
            },
            None => None,
        }
    }
}

/// `e` is the error that reports this refusal of `c`.
pub open spec fn reports(e: Error, c: ChangeView, why: Refusal) -> bool {
    match why {
        Refusal::TableName => e matches Error::Message(reason)
            && reason@ == "Invalid table name '"@ + c.table_name + "' in remote change"@,
        Refusal::ColumnName => e matches Error::Message(reason) && reason@
            == "Invalid column name '"@ + c.column_name + "' in table '"@ + c.table_name + "'"@,
        Refusal::Timestamp(why) => e matches Error::Hlc(message) && message@
            == "Invalid remote HLC timestamp '"@ + c.hlc_timestamp + "': "@ + why.spec_label(),
        Refusal::Drift(d) => e matches Error::RemoteHlcDriftTooLarge { hlc, drift, limit } && hlc@
            == c.hlc_timestamp && drift as nat == d && limit == MAX_REMOTE_HLC_DRIFT,
    }
}

/// Checks that a timestamp with a node part is a timestamp.
pub fn check_timestamp(change: &ColumnChange) -> (r: Result<(), Error>)
    ensures
        match r {
            Ok(_) => readable(change@),
            Err(e) => !readable(change@) && reports(
                e,
                change@,
                Refusal::Timestamp(timestamp_value(change@.hlc_timestamp)->Err_0),
            ),
        },
{
    if text_contains(change.hlc_timestamp.as_str(), '/') {
        match read_timestamp(change.hlc_timestamp.as_str()) {
            Ok(_) => Ok(()),
            Err(why) => {
                let mut message = "Invalid remote HLC timestamp '".to_owned();
                message.push_str(change.hlc_timestamp.as_str());
                message.push_str("': ");
                message.push_str(why.label());
                Err(Error::Hlc(message))
            },
        }
    } else {
        Ok(())
    }
}

/// Checks one change against a reading of the clock.
pub fn check_change_at(change: &ColumnChange, now: u64) -> (r: Result<(), Error>)
    ensures
        match (r, refusal(change@, now as nat)) {
            (Ok(_), None) => true,
            (Err(e), Some(why)) => reports(e, change@, why),
            _ => false,
        },
{
    if !is_safe_identifier(change.table_name.as_str()) {
        let mut reason = "Invalid table name '".to_owned();
        reason.push_str(change.table_name.as_str());
        reason.push_str("' in remote change");
        return Err(Error::Message(reason));
    }
    if !is_safe_identifier(change.column_name.as_str()) {
        let mut reason = "Invalid column name '".to_owned();
        reason.push_str(change.column_name.as_str());
        reason.push_str("' in table '");
        reason.push_str(change.table_name.as_str());
        reason.push_str("'");
        return Err(Error::Message(reason));
    }
    if let Err(e) = check_timestamp(change) {
        return Err(e);
    }
    match hlc_drift_at(change.hlc_timestamp.as_str(), now) {
        Some(drift) => if drift > MAX_REMOTE_HLC_DRIFT {
            Err(
                Error::RemoteHlcDriftTooLarge {
                    hlc: change.hlc_timestamp.clone(),
                    drift,
                    limit: MAX_REMOTE_HLC_DRIFT,
                },
            )
        } else {
            Ok(())
        },
        None => Ok(()),
    }
}

/// A change is admitted exactly where both names may stand in SQL, the timestamp
/// has no node part or is a full one, and a full one lies at most twelve hours
/// ahead of the clock.
pub proof fn lemma_what_is_admitted(c: ChangeView, now: nat)
    ensures
        refusal(c, now) is None <==> {
            &&& safe_identifier(c.table_name)
            &&& safe_identifier(c.column_name)
            &&& !c.hlc_timestamp.contains('/') || (timestamp_value(c.hlc_timestamp) matches Ok(t)
                && t.time <= now - now % 16 + 43_200 * 4_294_967_296)
        },
{
    if let Ok(t) = timestamp_value(c.hlc_timestamp) {
        lemma_strict_reading_agrees(c.hlc_timestamp);
        if t.time > now - now % 16 {
            lemma_drift_tolerance((t.time - (now - now % 16)) as nat);
        }
    }
}

/// The drift check and the clock agree: at one reading of the wall clock a full
/// timestamp with safe names is refused for drift exactly where it lies beyond
/// the tolerance of the clock.
pub proof fn lemma_gate_and_clock_agree(c: ChangeView, now: u64)
    requires
        safe_identifier(c.table_name),
        safe_identifier(c.column_name),
        timestamp_value(c.hlc_timestamp) is Ok,
    ensures
        refusal(c, now as nat) is Some <==> beyond_tolerance(
            timestamp_value(c.hlc_timestamp)->Ok_0.time as nat,
            now,
            remote_tolerance(),
        ),
{
    let time = timestamp_value(c.hlc_timestamp)->Ok_0.time;
    if time > wall_time(now) {
        lemma_drift_tolerance((time - wall_time(now)) as nat);
    }
}

/// What the checks admit at a reading of the wall clock, the clock accepts at
/// that reading and at every later one, short of the end of clock time.
pub proof fn lemma_admitted_change_moves_clock(
    c: ChangeView,
    now: u64,
    before: HlcService,
    after: HlcService,
    walls: (u64, u64),
    r: Result<(), HlcError>,
)
    requires
        refusal(c, now as nat) is None,
        timestamp_value(c.hlc_timestamp) matches Ok(t) && t.time < CLOCK_TIME_END,
        before.node() is Some,
        before.reading() < CLOCK_TIME_END,
        now <= walls.0,
        advance_answer(before, after, c.hlc_timestamp, walls, r),
    ensures
        r is Ok,
{
    lemma_gate_and_clock_agree(c, now);
    lemma_strict_reading_agrees(c.hlc_timestamp);
    assert(wall_time(now) <= wall_time(walls.0));
}

/// What checking `changes` against one clock reading each comes to: the first
/// refusal, if there is any.
pub open spec fn checked_at(
    changes: Seq<ChangeView>,
    times: Seq<u64>,
    r: Result<(), Error>,
) -> bool {
    match r {
        Ok(_) => times.len() == changes.len() && forall|i: int|
            0 <= i < changes.len() ==> refusal(#[trigger] changes[i], times[i] as nat) is None,
        Err(e) => 0 < times.len() <= changes.len() && (forall|i: int|
            0 <= i < times.len() - 1 ==> refusal(#[trigger] changes[i], times[i] as nat) is None)
            && (refusal(changes[times.len() - 1], times.last() as nat) matches Some(why)
            && reports(e, changes[times.len() - 1], why)),
    }
}

/// Checks names, timestamps and drift, change by change in batch order. The
/// clock is read for each change.
pub fn check_identifiers_and_drift(changes: &[ColumnChange]) -> (r: Result<(), Error>)
    ensures
        exists|times: Seq<u64>| #[trigger] checked_at(change_views(changes@), times, r),
{
    let ghost cv = change_views(changes@);
    let ghost mut times: Seq<u64> = Seq::empty();
    let mut i: usize = 0;
    while i < changes.len()
        invariant
            i <= changes.len(),
            cv == change_views(changes@),
            times.len() == i,
            forall|j: int| 0 <= j < i ==> refusal(#[trigger] cv[j], times[j] as nat) is None,
        decreases changes.len() - i,
    {
        let now: u64 = physical_time();
        proof {
            times = times.push(now);
            assert(cv[i as int] == changes@[i as int]@);
        }
        let checked = check_change_at(&changes[i], now);
        match checked {
            Ok(()) => {},
            Err(e) => {
                proof {
                    let failed: Result<(), Error> = Err(e);
                    assert(checked_at(cv, times, failed));
                }
                return Err(e);
            },
        }
        i += 1;
    }
    let done: Result<(), Error> = Ok(());
    assert(checked_at(cv, times, done));
    done
}

/// A batch that passes holds only safe names and, where a timestamp has a node
/// part, only timestamps.
pub proof fn lemma_checked_batch(changes: Seq<ChangeView>, times: Seq<u64>, i: int)
    requires
        checked_at(changes, times, Ok(())),
        0 <= i < changes.len(),
    ensures
        safe_identifier(changes[i].table_name),
        safe_identifier(changes[i].column_name),
        readable(changes[i]),
{
    assert(refusal(changes[i], times[i] as nat) is None);
}

/// The provider may answer `verdict` for the signature of `c`, given the bytes
/// of its preimage.
pub open spec fn may_answer<P: SignatureProvider>(
    provider: &P,
    c: ColumnChange,
    verdict: Result<(), Error>,
) -> bool {
    c.sig matches Some(sig) && exists|bytes: &[u8]|
        bytes@ == preimage(c@) && #[trigger] call_ensures(
            P::verify_column,
            (provider, bytes, &sig),
            verdict,
        )
}

/// The change carries no signature, or the provider accepted it.
pub open spec fn signature_passed<P: SignatureProvider>(provider: &P, c: ColumnChange) -> bool {
    c.sig is None || exists|verdict: Result<(), Error>|
        verdict is Ok && #[trigger] may_answer(provider, c, verdict)
}

/// The provider refused the signature of the change.
pub open spec fn signature_refused<P: SignatureProvider>(provider: &P, c: ColumnChange) -> bool {
    exists|verdict: Result<(), Error>|
        verdict is Err && #[trigger] may_answer(provider, c, verdict)
}

/// The error names the first change of a batch whose signature the provider
/// refused.
pub open spec fn first_refused<P: SignatureProvider>(
    provider: &P,
    changes: Seq<ColumnChange>,
    e: Error,
) -> bool {
    e matches Error::SignatureVerificationFailed { first_failed_change } && first_failed_change
        < changes.len() && signature_refused(provider, changes[first_failed_change as int])
        && forall|i: int|
        0 <= i < first_failed_change ==> signature_passed(provider, #[trigger] changes[i])
}

/// Verifies every signature of a batch, in order. Changes without one are not
/// shown to the provider. The error names the first change that was refused, by
/// its position in the whole batch.
pub fn verify_all_signatures<P: SignatureProvider>(changes: &[ColumnChange], provider: &P) -> (r:
    Result<(), Error>)
    ensures
        match r {
            Ok(_) => forall|i: int|
                0 <= i < changes@.len() ==> signature_passed(provider, #[trigger] changes@[i]),
            Err(e) => first_refused(provider, changes@, e),
        },
        (forall|i: int| 0 <= i < changes@.len() ==> (#[trigger] changes@[i]).sig is None)
            ==> r is Ok,
{
    let mut i: usize = 0;
    while i < changes.len()
        invariant
            i <= changes.len(),
            forall|j: int| 0 <= j < i ==> signature_passed(provider, #[trigger] changes@[j]),
        decreases changes.len() - i,
    {
        match &changes[i].sig {
            Some(sig) => {
                let bytes = column_sig_preimage(&changes[i]);
                let verdict = provider.verify_column(bytes.as_slice(), sig);
                assert(may_answer(provider, changes@[i as int], verdict));
                match verdict {
                    Ok(_) => {},
                    Err(_) => {
                        return Err(Error::SignatureVerificationFailed { first_failed_change: i });
                    },
                }
            },
            None => {},
        }
        i += 1;
    }
    Ok(())
}

/// Everything that can refuse a batch, in order: first the batch itself, then
/// the policy, whose answer stands. The policy sees no batch that was refused
/// before.
pub fn preflight_batch<T, P: ApplyPolicy<T>>(changes: &[ColumnChange], policy: &mut P) -> (r:
    Result<(), Error>)
    ensures
        exists|times: Seq<u64>, checked: Result<(), Error>|
            #[trigger] checked_at(change_views(changes@), times, checked) && match checked {
                Ok(_) => old(policy).preflighted(final(policy), changes, r),
                Err(_) => r == checked && *final(policy) == *old(policy),
            },
{
    let checked = check_identifiers_and_drift(changes);
    match checked {
        Ok(()) => policy.preflight(changes),
        Err(e) => Err(e),
    }
}

/// A refusal gives the first reason that holds: the table's name, the column's
/// name, a timestamp that is none, or one that lies too far ahead.
pub proof fn lemma_first_reason_is_given(c: ChangeView, now: nat)
    ensures
        refusal(c, now) matches Some(Refusal::TableName) <==> !safe_identifier(c.table_name),
        refusal(c, now) matches Some(Refusal::ColumnName) <==> safe_identifier(c.table_name)
            && !safe_identifier(c.column_name),
        refusal(c, now) matches Some(Refusal::Timestamp(why)) ==> timestamp_value(c.hlc_timestamp)
            == Err::<HlcTimestamp, TimestampError>(why),
        refusal(c, now) matches Some(Refusal::Drift(d)) ==> d > 43_200_000_000_000
            && timestamp_value(c.hlc_timestamp) is Ok,
{
}

} // verus!
