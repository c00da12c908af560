//! What follows the commit of a batch.

use crate::crdt::apply::engine::folded_all;
use crate::crdt::apply::engine::lemma_clock_covers_what_landed;
use crate::crdt::apply::preflight::checked_at;
use crate::crdt::apply::preflight::lemma_admitted_change_moves_clock;
use crate::crdt::apply::report::ApplyOutcome;
use crate::crdt::clock::advance_answer;
use crate::crdt::clock::followed;
use crate::crdt::clock::lemma_followed;
use crate::crdt::clock::lemma_next_is_newer;
use crate::crdt::clock::ticked;
use crate::crdt::clock::wall_time;
use crate::crdt::clock::HlcError;
use crate::crdt::clock::HlcService;
use crate::crdt::clock::CLOCK_TIME_END;
use crate::crdt::hlc::hlc_before;
use crate::crdt::hlc::lemma_strict_reading_agrees;
use crate::crdt::hlc::lemma_timestamp_round_trip;
use crate::crdt::hlc::timestamp_text;
use crate::crdt::hlc::timestamp_value;
use crate::crdt::hlc::HlcTimestamp;
use crate::crdt::scanner::change::ChangeView;
use crate::error::Error;
use vstd::prelude::*;

verus! {

/// The result of a batch that landed, given what became of the clock. An error
/// does not mean that nothing landed: it carries the outcome.
pub fn clock_verdict(outcome: ApplyOutcome, advanced: Result<(), HlcError>) -> (r: Result<
    ApplyOutcome,
    Error,
>)
    ensures
        match advanced {
            Ok(_) => r == Ok::<ApplyOutcome, Error>(outcome),
            Err(source) => r == Err::<ApplyOutcome, Error>(
                Error::PostCommitClockAdvance { outcome, source },
            ),
        },
{
    match advanced {
        Ok(()) => Ok(outcome),
        Err(source) => Err(Error::PostCommitClockAdvance { outcome, source }),
    }
}

/// Moves the clock past the newest timestamp that landed, if anything did.
pub fn advance_after_commit(
    outcome: ApplyOutcome,
    service: &mut HlcService,
    newest: Option<String>,
) -> (r: Result<ApplyOutcome, Error>)
    ensures
        match (r, newest) {
            (Ok(o), None) => o == outcome && *final(service) == *old(service),
            (Ok(o), Some(n)) => o == outcome && exists|walls: (u64, u64)| #[trigger]
                advance_answer(*old(service), *final(service), n@, walls, Ok(())),
            (Err(e), Some(n)) => e matches Error::PostCommitClockAdvance { outcome: o, source }
                && o == outcome && exists|walls: (u64, u64)| #[trigger]
                advance_answer(*old(service), *final(service), n@, walls, Err(source)),
            (Err(_), None) => false,
        },
{
    match newest {
        Some(hlc) => {
            let advanced = service.advance_past_remote(hlc.as_str());
            proof {
                let walls = choose|walls: (u64, u64)| #[trigger]
                    advance_answer(*old(service), *service, hlc@, walls, advanced);
                match &advanced {
                    Ok(_) => {
                        assert(advance_answer(*old(service), *service, hlc@, walls, Ok(())));
                    },
                    Err(e) => {
                        assert(advance_answer(*old(service), *service, hlc@, walls, Err(*e)));
                    },
                }
            }
            clock_verdict(outcome, advanced)
        },
        None => Ok(outcome),
    }
}

/// Once the clock has followed a batch, whatever the node writes next is newer
/// than every change that landed: it is not lost in the next round.
pub proof fn lemma_local_writes_win_over_what_landed(
    before: HlcService,
    after: HlcService,
    landed: Seq<Seq<char>>,
    newest: Seq<char>,
    walls: (u64, u64),
    next: HlcTimestamp,
    i: int,
)
    requires
        forall|k: int| 0 <= k < landed.len() ==> timestamp_value(#[trigger] landed[k]) is Ok,
        folded_all(None, landed) == Some(newest),
        advance_answer(before, after, newest, walls, Ok(())),
        next.node != 0,
        next.time > after.reading(),
        0 <= i < landed.len(),
    ensures
        hlc_before(landed[i], timestamp_text(next)),
{
    lemma_clock_covers_what_landed(None, landed);
    lemma_strict_reading_agrees(newest);
    let t = timestamp_value(newest)->Ok_0;
    lemma_followed(before.reading(), t.time as nat, walls.0, walls.1, after.reading(), 0);
    lemma_next_is_newer(after.reading(), next, landed[i]);
}

/// Where the clock goes after a batch of which these timestamps landed: past the
/// newest of them, or nowhere.
pub open spec fn clock_after(
    before: nat,
    landed: Seq<Seq<char>>,
    first: u64,
    second: u64,
    after: nat,
) -> bool {
    match folded_all(None, landed) {
        Some(newest) => timestamp_value(newest) matches Ok(t) && followed(
            before,
            t.time as nat,
            first,
            second,
            after,
        ),
        None => after == before,
    }
}

/// A batch whose newest timestamp the clock followed, or of which nothing
/// landed, leaves the clock where [`clock_after`] says.
pub proof fn lemma_clock_goes_with_what_landed(
    before: HlcService,
    after: HlcService,
    landed: Seq<Seq<char>>,
    walls: (u64, u64),
)
    requires
        forall|k: int| 0 <= k < landed.len() ==> timestamp_value(#[trigger] landed[k]) is Ok,
        match folded_all(None, landed) {
            Some(newest) => advance_answer(before, after, newest, walls, Ok(())),
            None => after == before,
        },
    ensures
        clock_after(before.reading(), landed, walls.0, walls.1, after.reading()),
{
    lemma_clock_covers_what_landed(None, landed);
    if let Some(newest) = folded_all(None, landed) {
        lemma_strict_reading_agrees(newest);
    }
}

/// The clock follows every batch that the checks let through: once each change
/// was admitted at a reading of the clock, the advance after the commit is
/// refused only where the wall clock has run backwards since, or at the end of
/// clock time.
pub proof fn lemma_admitted_batch_moves_clock(
    changes: Seq<ChangeView>,
    times: Seq<u64>,
    landed: Seq<Seq<char>>,
    before: HlcService,
    after: HlcService,
    newest: Seq<char>,
    walls: (u64, u64),
    r: Result<(), HlcError>,
)
    requires
        checked_at(changes, times, Ok(())),
        forall|k: int|
            0 <= k < landed.len() ==> timestamp_value(#[trigger] landed[k]) is Ok && exists|i: int|
                0 <= i < changes.len() && (#[trigger] changes[i]).hlc_timestamp == landed[k],
        folded_all(None, landed) == Some(newest),
        advance_answer(before, after, newest, walls, r),
        forall|i: int| 0 <= i < times.len() ==> #[trigger] times[i] <= walls.0,
        before.node() is Some,
        before.reading() < CLOCK_TIME_END,
        timestamp_value(newest)->Ok_0.time < CLOCK_TIME_END,
    ensures
        r is Ok,
{
    lemma_clock_covers_what_landed(None, landed);
    let k = choose|k: int| 0 <= k < landed.len() && landed[k] == newest;
    assert(timestamp_value(landed[k]) is Ok);
    let i = choose|i: int|
        0 <= i < changes.len() && (#[trigger] changes[i]).hlc_timestamp == landed[k];
    assert(times[i] <= walls.0);
    lemma_admitted_change_moves_clock(changes[i], times[i], before, after, walls, r);
}

/// Only what landed moves the clock: a change that was skipped and that lies
/// beyond the wall clock, beyond everything that landed and beyond where the
/// clock stood is still newer than what the node writes next.
pub proof fn lemma_skipped_changes_do_not_move_clock(
    before: nat,
    after: nat,
    landed: Seq<Seq<char>>,
    walls: (u64, u64, u64),
    next: HlcTimestamp,
    ceiling: nat,
    skipped: Seq<char>,
)
    requires
        forall|k: int|
            0 <= k < landed.len() ==> (timestamp_value(#[trigger] landed[k]) matches Ok(t) && t.time
                <= ceiling),
        clock_after(before, landed, walls.0, walls.1, after),
        next.node != 0,
        ticked(after, walls.2, next.time as nat),
        before <= ceiling,
        wall_time(walls.0) <= ceiling,
        wall_time(walls.1) <= ceiling,
        wall_time(walls.2) <= ceiling,
        timestamp_value(skipped) matches Ok(s) && s.time > ceiling + 3,
    ensures
        hlc_before(timestamp_text(next), skipped),
{
    lemma_clock_covers_what_landed(None, landed);
    lemma_timestamp_round_trip(next);
    lemma_strict_reading_agrees(skipped);
    if let Some(newest) = folded_all(None, landed) {
        let k = choose|k: int| 0 <= k < landed.len() && landed[k] == newest;
        assert(timestamp_value(landed[k]) matches Ok(t) && t.time <= ceiling);
        let t = timestamp_value(newest)->Ok_0;
        lemma_followed(before, t.time as nat, walls.0, walls.1, after, ceiling);
    }
}

} // verus!
