//! The node's own hybrid logical clock: a `uhlc` clock with its node id.
//!
//! The service holds no lock and no connection. A caller that shares it puts
//! it behind a mutex, and stores and loads the persisted state with the
//! statements below.

use crate::crdt::columns::TABLE_CRDT_CONFIGS;
use crate::crdt::hlc::hlc_before;
use crate::crdt::hlc::lemma_strict_reading_agrees;
use crate::crdt::hlc::lemma_timestamp_node_is_not_zero;
use crate::crdt::hlc::lemma_timestamp_round_trip;
use crate::crdt::hlc::read_timestamp;
use crate::crdt::hlc::timestamp_text;
use crate::crdt::hlc::timestamp_value;
use crate::crdt::hlc::HlcTimestamp;
use crate::crdt::hlc::TimestampError;
use crate::crdt::hlc::MAX_REMOTE_HLC_DRIFT;
use crate::text::opt_text;
use std::time::Duration;
use vstd::prelude::*;
use vstd::utf8::encode_utf8;

verus! {

/// Key under which the clock state is stored.
pub const HLC_TIMESTAMP_TYPE: &'static str = "hlc_timestamp";

/// Bytes of a device UUID.
pub const UUID_BYTES: usize = 16;

/// What can go wrong with the clock or with its stored state.
#[derive(Debug)]
pub enum HlcError {
    Database(String),
    ParseTimestamp(String),
    Parse(String),
    ParseNodeId(String),
    /// The timestamp is well formed but lies too far ahead of the local clock,
    /// which was not advanced.
    RemoteTimestampOutOfTolerance { hlc: String, reason: String },
    MutexPoisoned,
    CreateNodeId(String),
    NoConnection,
    NotInitialized,
    HexDecode(String),
    Utf8Error(String),
    /// The device store did not yield a device UUID.
    DeviceStore(String),
    /// Older spelling of [`HlcError::DeviceStore`].
    DeviceIdProvider(String),
    /// The clock stands at the last instant that it can count to.
    ClockExhausted,
}

impl HlcError {
    /// The message of the error.
    pub open spec fn spec_message(self) -> Seq<char> {
        match self {
            HlcError::Database(e) => "Database error: "@ + e@,
            HlcError::ParseTimestamp(e) => "Failed to parse persisted HLC timestamp: "@ + e@,
            HlcError::Parse(e) => "Failed to parse persisted HLC state: "@ + e@,
            HlcError::ParseNodeId(e) => "Failed to parse HLC Node ID: "@ + e@,
            HlcError::RemoteTimestampOutOfTolerance { hlc, reason } => "Remote HLC '"@ + hlc@
                + "' is outside the local clock's drift tolerance: "@ + reason@,
            HlcError::MutexPoisoned => "HLC mutex was poisoned"@,
            HlcError::CreateNodeId(e) => "Failed to create node ID: "@ + e@,
            HlcError::NoConnection => "No database connection available"@,
            HlcError::NotInitialized => "HLC service not initialized"@,
            HlcError::HexDecode(e) => "Hex decode error: "@ + e@,
            HlcError::Utf8Error(e) => "UTF-8 conversion error: "@ + e@,
            HlcError::DeviceStore(e) => "Device store error: "@ + e@,
            HlcError::DeviceIdProvider(e) => "Device id provider error: "@ + e@,
            HlcError::ClockExhausted => "HLC has reached the end of clock time"@,
        }
    }

    /// The message of the error.
    pub fn message(&self) -> (r: String)
        ensures
            r@ == self.spec_message(),
    {
        match self {
            HlcError::Database(e) => said("Database error: ", e),
            HlcError::ParseTimestamp(e) => said("Failed to parse persisted HLC timestamp: ", e),
            HlcError::Parse(e) => said("Failed to parse persisted HLC state: ", e),
            HlcError::ParseNodeId(e) => said("Failed to parse HLC Node ID: ", e),
            HlcError::RemoteTimestampOutOfTolerance { hlc, reason } => {
                let mut s = said("Remote HLC '", hlc);
                s.push_str("' is outside the local clock's drift tolerance: ");
                s.push_str(reason.as_str());
                s
            },
            HlcError::MutexPoisoned => "HLC mutex was poisoned".to_owned(),
            HlcError::CreateNodeId(e) => said("Failed to create node ID: ", e),
            HlcError::NoConnection => "No database connection available".to_owned(),
            HlcError::NotInitialized => "HLC service not initialized".to_owned(),
            HlcError::HexDecode(e) => said("Hex decode error: ", e),
            HlcError::Utf8Error(e) => said("UTF-8 conversion error: ", e),
            HlcError::DeviceStore(e) => said("Device store error: ", e),
            HlcError::DeviceIdProvider(e) => said("Device id provider error: ", e),
            HlcError::ClockExhausted => "HLC has reached the end of clock time".to_owned(),
        }
    }
}

/// `head` followed by `tail`.
fn said(head: &str, tail: &String) -> (r: String)
    ensures
        r@ == head@ + tail@,
{
    let mut s = head.to_owned();
    s.push_str(tail.as_str());
    s
}

/// `uhlc::HLC`, a clock whose state is its own.
#[verifier::external_type_specification]
#[verifier::external_body]
pub struct ExHlc(uhlc::HLC);

/// The time that the clock stands at: that of the newest timestamp that it
/// issued or moved past, zero at first. The clock changes only under the
/// wrappers below, which take it mutably.
pub uninterp spec fn last_time(hlc: uhlc::HLC) -> nat;

/// How far beyond the wall clock a timestamp may lie for the clock to move past
/// it, in units of clock time. A clock keeps the tolerance that it was made
/// with.
pub uninterp spec fn drift_tolerance(hlc: uhlc::HLC) -> nat;

/// The whole units of clock time in a span of nanoseconds. A second has
/// 4294967296 of them.
pub open spec fn clock_span(nanos: nat) -> nat {
    nanos * 4_294_967_296 / 1_000_000_000
}

/// How far ahead of the wall clock a remote timestamp may lie, in units of clock
/// time.
pub open spec fn remote_tolerance() -> nat {
    clock_span(MAX_REMOTE_HLC_DRIFT as nat)
}

/// A clock as `uhlc::HLCBuilder` makes it, and its node id. The contract claims
/// that the id is the one given, and one that is not zero where none is given
/// (`uhlc::ID::rand` draws from 1 upwards), that the clock stands at zero, and
/// that its tolerance is the span given, cut to whole units of clock time
/// (`uhlc::NTP64` from a `Duration`). The span may be as long as the clock's
/// seconds can count.
#[verifier::external_body]
fn make_clock(node: Option<u128>, max_drift_nanos: u64) -> (r: (uhlc::HLC, u128))
    requires
        node != Some(0u128),
        max_drift_nanos < 4_294_967_296_000_000_000,
    ensures
        r.1 != 0,
        node matches Some(n) ==> r.1 == n,
        last_time(r.0) == 0,
        drift_tolerance(r.0) == clock_span(max_drift_nanos as nat),
{
    let builder = uhlc::HLCBuilder::new().with_max_delta(Duration::from_nanos(max_drift_nanos));
    let hlc = match node {
        Some(n) => builder.with_id(uhlc::ID::try_from(n).unwrap()),
        None => builder,
    }.build();
    let id = u128::from_le_bytes(hlc.get_id().to_le_bytes());
    (hlc, id)
}

/// A reading of the wall clock with the bits of the logical counter cut off.
pub open spec fn wall_time(now: u64) -> nat {
    (now - now % 16) as nat
}

/// Where a clock that stands at `last` goes when it issues a timestamp: to the
/// wall clock, or one on where that is not later.
pub open spec fn tick_time(last: nat, now: u64) -> nat {
    if wall_time(now) > last {
        wall_time(now)
    } else {
        last + 1
    }
}

/// Where a clock that stands at `last` goes when it moves past `t`: to the wall
/// clock, or one beyond the later of the two where the wall clock is behind.
pub open spec fn update_time(last: nat, t: nat, now: u64) -> nat {
    if wall_time(now) >= last && wall_time(now) >= t {
        wall_time(now)
    } else if t >= last {
        t + 1
    } else {
        last + 1
    }
}

/// A clock that stood at `last` issued a timestamp of time `after`.
pub open spec fn ticked(last: nat, now: u64, after: nat) -> bool {
    after == tick_time(last, now)
}

/// A clock that stood at `last` moved past `t` to `after`.
pub open spec fn updated(last: nat, t: nat, now: u64, after: nat) -> bool {
    after == update_time(last, t, now)
}

/// `t` lies further beyond the wall clock than the tolerance allows.
pub open spec fn beyond_tolerance(t: nat, now: u64, tolerance: nat) -> bool {
    t > wall_time(now) + tolerance
}

/// What a clock that stood at `last` answers when the wall clock reads `now` and
/// it is asked to move past `t`: it refuses and stays where it stood exactly
/// where `t` lies beyond its tolerance, and moves to `after` otherwise.
pub open spec fn update_answer(
    last: nat,
    t: nat,
    tolerance: nat,
    now: u64,
    accepted: bool,
    after: nat,
) -> bool {
    if beyond_tolerance(t, now, tolerance) {
        !accepted && after == last
    } else {
        accepted && updated(last, t, now, after)
    }
}

/// The time of a fresh timestamp from `uhlc::HLC::new_timestamp`. The contract
/// claims that the clock goes there, that this is where the wall clock stands,
/// or one on where that is not later, and that the tolerance stays. What the
/// wall clock says is left open. At the last instant of 64-bit clock time, in
/// the year 2106, the outside function overflows: that is left out.
#[verifier::external_body]
fn clock_tick(hlc: &mut uhlc::HLC) -> (r: u64)
    requires
        last_time(*old(hlc)) < u64::MAX,
    ensures
        r as nat == last_time(*final(hlc)),
        exists|now: u64| #[trigger] ticked(last_time(*old(hlc)), now, r as nat),
        drift_tolerance(*final(hlc)) == drift_tolerance(*old(hlc)),
{
    hlc.new_timestamp().get_time().as_u64()
}

/// Moves the clock past a timestamp with `uhlc::HLC::update_with_timestamp`, or
/// reports why it refused. The contract claims that there is a reading of the
/// wall clock such that the clock refuses, and stands where it stood, exactly
/// where the timestamp lies further beyond that reading than its tolerance;
/// otherwise it goes to that reading, or one beyond the later of the timestamp
/// and its own time. The tolerance stays. What the wall clock says, and with it
/// the words of a refusal, are left open. The outside function adds one to the
/// timestamp's time or to its own: the greatest time is left out of both.
#[verifier::external_body]
fn clock_update(hlc: &mut uhlc::HLC, t: HlcTimestamp) -> (r: Result<(), String>)
    requires
        t.node != 0,
        t.time < u64::MAX,
        last_time(*old(hlc)) < u64::MAX,
    ensures
        exists|now: u64| #[trigger]
            update_answer(
                last_time(*old(hlc)),
                t.time as nat,
                drift_tolerance(*old(hlc)),
                now,
                r is Ok,
                last_time(*final(hlc)),
            ),
        drift_tolerance(*final(hlc)) == drift_tolerance(*old(hlc)),
{
    let id = uhlc::ID::try_from(t.node).unwrap();
    hlc.update_with_timestamp(&uhlc::Timestamp::new(uhlc::NTP64(t.time), id)).map_err(
        |e| format!("{e:?}"),
    )
}

/// The BLAKE3 digest of some bytes.
pub uninterp spec fn blake3_digest(data: Seq<u8>) -> Seq<u8>;

/// The BLAKE3 digest of `data`, by `blake3::hash`. The contract claims that it
/// is a function of the bytes and 32 bytes long.
#[verifier::external_body]
fn blake3_of(data: &[u8]) -> (r: Vec<u8>)
    ensures
        r@ == blake3_digest(data@),
        r@.len() == 32,
{
    blake3::hash(data).as_bytes().to_vec()
}

/// The sixteen bytes of a UUID in text, if it is one.
pub uninterp spec fn uuid_text_bytes(s: Seq<char>) -> Option<Seq<u8>>;

/// Reads a UUID with `uuid::Uuid::parse_str`. The contract claims that whether
/// it is one, and its bytes, depend on the text alone, and that there are
/// sixteen of them.
#[verifier::external_body]
fn read_uuid(s: &str) -> (r: Option<Vec<u8>>)
    ensures
        match (r, uuid_text_bytes(s@)) {
            (Some(got), Some(want)) => got@ == want && want.len() == 16,
            (None, None) => true,
            _ => false,
        },
{
    uuid::Uuid::parse_str(s).ok().map(|u| u.as_bytes().to_vec())
}

/// The number that `bytes` write, least significant first.
pub open spec fn little_endian(bytes: Seq<u8>) -> nat
    decreases bytes.len(),
{
    if bytes.len() == 0 {
        0
    } else {
        bytes[0] as nat + 256 * little_endian(bytes.drop_first())
    }
}

/// Largest number of `n` bytes, plus one.
spec fn byte_bound(n: nat) -> nat
    decreases n,
{
    if n == 0 {
        1
    } else {
        256 * byte_bound((n - 1) as nat)
    }
}

proof fn lemma_little_endian_bound(bytes: Seq<u8>)
    ensures
        little_endian(bytes) < byte_bound(bytes.len()),
    decreases bytes.len(),
{
    if bytes.len() > 0 {
        lemma_little_endian_bound(bytes.drop_first());
    }
}

/// The node id that stands for sixteen UUID bytes: the clock reads them least
/// significant first.
pub fn node_from_uuid_bytes(bytes: &[u8]) -> (r: u128)
    requires
        bytes@.len() == 16,
    ensures
        r as nat == little_endian(bytes@),
{
    let mut acc: u128 = 0;
    let mut i: usize = 16;
    proof {
        assert(bytes@.skip(16) =~= Seq::<u8>::empty());
        reveal_with_fuel(byte_bound, 17);
    }
    while i > 0
        invariant
            bytes@.len() == 16,
            i <= 16,
            acc as nat == little_endian(bytes@.skip(i as int)),
            byte_bound(16) == 340282366920938463463374607431768211456,
        decreases i,
    {
        i -= 1;
        proof {
            let rest = bytes@.skip(i as int);
            assert(rest.drop_first() =~= bytes@.skip(i + 1));
            lemma_little_endian_bound(rest);
            lemma_byte_bound_grows(rest.len(), 16);
        }
        acc = acc * 256 + bytes[i] as u128;
    }
    assert(bytes@.skip(0) =~= bytes@);
    acc
}

proof fn lemma_byte_bound_grows(a: nat, b: nat)
    requires
        a <= b,
    ensures
        byte_bound(a) <= byte_bound(b),
    decreases b,
{
    if a < b {
        lemma_byte_bound_grows(a, (b - 1) as nat);
    }
}

/// The node id of a device UUID in text.
pub fn device_uuid_to_hlc_node(uuid_str: &str) -> (r: Option<u128>)
    ensures
        match (r, uuid_text_bytes(uuid_str@)) {
            (Some(got), Some(bytes)) => got as nat == little_endian(bytes),
            (None, None) => true,
            _ => false,
        },
{
    match read_uuid(uuid_str) {
        Some(bytes) => Some(node_from_uuid_bytes(bytes.as_slice())),
        None => None,
    }
}

/// A clock, the node id it stamps, and the time that it stands at.
struct NodeClock {
    node: u128,
    hlc: uhlc::HLC,
    at: u64,
}

impl NodeClock {
    spec fn wf(&self) -> bool {
        self.node != 0 && last_time(self.hlc) == self.at && drift_tolerance(self.hlc)
            == remote_tolerance()
    }

    /// Issues a timestamp; nothing at the end of clock time.
    fn tick(&mut self) -> (r: Option<u64>)
        requires
            old(self).wf(),
        ensures
            final(self).wf(),
            final(self).node == old(self).node,
            match r {
                Some(time) => final(self).at == time && exists|now: u64| #[trigger]
                    ticked(old(self).at as nat, now, time as nat),
                None => old(self).at == u64::MAX && *final(self) == *old(self),
            },
    {
        if self.at == u64::MAX {
            return None;
        }
        let time: u64 = clock_tick(&mut self.hlc);
        self.at = time;
        Some(time)
    }

    /// Moves past `t`. A clock tells where it stands only in the timestamps that
    /// it issues, so it issues one and stands there. The last two instants of
    /// clock time are refused without asking it: there is nothing beyond them.
    fn follow(&mut self, t: HlcTimestamp) -> (r: Result<(), String>)
        requires
            old(self).wf(),
            t.node != 0,
        ensures
            final(self).wf(),
            final(self).node == old(self).node,
            exists|first: u64, second: u64| #[trigger]
                follow_answer(
                    old(self).at as nat,
                    t.time as nat,
                    first,
                    second,
                    r is Ok,
                    final(self).at as nat,
                ),
    {
        let ghost before = self.at as nat;
        if t.time >= CLOCK_TIME_END || self.at >= CLOCK_TIME_END {
            let refused: Result<(), String> = Err("the end of clock time".to_owned());
            assert(follow_answer(before, t.time as nat, 0, 0, refused is Ok, self.at as nat));
            return refused;
        }
        let asked = clock_update(&mut self.hlc, t);
        let ghost moved = last_time(self.hlc);
        let ghost first = choose|now: u64| #[trigger]
            update_answer(before, t.time as nat, remote_tolerance(), now, asked is Ok, moved);
        let ghost mut second: u64 = 0;
        if asked.is_ok() {
            let time: u64 = clock_tick(&mut self.hlc);
            self.at = time;
            proof {
                second = choose|now: u64| #[trigger] ticked(moved, now, time as nat);
            }
        }
        assert(follow_answer(
            before,
            t.time as nat,
            first,
            second,
            asked is Ok,
            self.at as nat,
        ));
        asked
    }
}

/// From here on there is no room left: a clock is not moved past such a time.
pub const CLOCK_TIME_END: u64 = 18_446_744_073_709_551_614;

/// A clock that stood at `last` moved past `t` and then issued a timestamp of
/// time `after`; the wall clock was read for each.
pub open spec fn followed(last: nat, t: nat, first: u64, second: u64, after: nat) -> bool {
    after == tick_time(update_time(last, t, first), second)
}

/// What a node's clock that stood at `last` answers when it is asked to move
/// past `t`: there is nothing beyond the end of clock time, and otherwise it
/// refuses exactly where `t` lies beyond the remote tolerance when the wall
/// clock reads `first`.
pub open spec fn follow_answer(
    last: nat,
    t: nat,
    first: u64,
    second: u64,
    accepted: bool,
    after: nat,
) -> bool {
    if t >= CLOCK_TIME_END || last >= CLOCK_TIME_END || beyond_tolerance(
        t,
        first,
        remote_tolerance(),
    ) {
        !accepted && after == last
    } else {
        accepted && followed(last, t, first, second, after)
    }
}

/// A clock that moved past `t` stands later than `t` and than before, and no
/// later than a few instants beyond the wall clock, `t` and where it stood.
pub proof fn lemma_followed(last: nat, t: nat, first: u64, second: u64, after: nat, ceiling: nat)
    requires
        followed(last, t, first, second, after),
    ensures
        after > last,
        after > t,
        wall_time(first) <= ceiling && wall_time(second) <= ceiling && last <= ceiling && t
            <= ceiling ==> after <= ceiling + 2,
{
}

/// The node's clock, absent until it is initialized.
pub struct HlcService {
    clock: Option<NodeClock>,
}

/// What a refusal of the clock to move past `hlc` means to the caller.
pub fn clock_update_outcome(hlc: &str, update: Result<(), String>) -> (r: Result<(), HlcError>)
    ensures
        match (r, update) {
            (Ok(_), Ok(_)) => true,
            (
                Err(HlcError::RemoteTimestampOutOfTolerance { hlc: named, reason }),
                Err(why),
            ) => named@ == hlc@ && reason@ == why@,
            _ => false,
        },
{
    match update {
        Ok(()) => Ok(()),
        Err(reason) => Err(
            HlcError::RemoteTimestampOutOfTolerance { hlc: hlc.to_owned(), reason },
        ),
    }
}

/// Names the text and the reading error that made a timestamp unreadable.
pub open spec fn remote_parse_message(hlc: Seq<char>, e: TimestampError) -> Seq<char> {
    "Failed to parse remote HLC timestamp '"@ + hlc + "': "@ + e.spec_label()
}

impl HlcService {
    /// Node id of the clock, `None` before initialization.
    pub closed spec fn node(&self) -> Option<u128> {
        match self.clock {
            Some(c) => Some(c.node),
            None => None,
        }
    }

    /// Time that the clock stands at, zero before initialization.
    pub closed spec fn reading(&self) -> nat {
        match self.clock {
            Some(c) => last_time(c.hlc),
            None => 0,
        }
    }

    /// How far beyond the wall clock a timestamp may lie for the clock to move
    /// past it, in units of clock time; `None` before initialization.
    pub closed spec fn tolerance(&self) -> Option<nat> {
        match self.clock {
            Some(c) => Some(drift_tolerance(c.hlc)),
            None => None,
        }
    }

    /// The clock is set up with the remote tolerance and stands at `reading`.
    pub open spec fn runs(&self, reading: nat) -> bool {
        &&& self.node() matches Some(n) && n != 0
        &&& self.tolerance() == Some(remote_tolerance())
        &&& self.reading() == reading
    }

    /// The clock, asked to move past `t`, accepted or refused, and is `after`
    /// now. `walls` are the readings of the wall clock: at the first it refused
    /// exactly where `t` lies beyond the remote tolerance, and stayed where it
    /// stood.
    pub open spec fn answered(
        &self,
        after: &HlcService,
        t: HlcTimestamp,
        walls: (u64, u64),
        accepted: bool,
    ) -> bool {
        &&& self.runs(self.reading())
        &&& after.runs(after.reading())
        &&& after.node() == self.node()
        &&& follow_answer(
            self.reading(),
            t.time as nat,
            walls.0,
            walls.1,
            accepted,
            after.reading(),
        )
    }

    #[verifier::type_invariant]
    closed spec fn wf(&self) -> bool {
        self.clock matches Some(c) ==> c.wf()
    }

    /// A service without a clock.
    pub fn new() -> (r: Self)
        ensures
            r.node() is None,
            r.tolerance() is None,
            r.reading() == 0,
    {
        HlcService { clock: None }
    }

    /// A service for the device whose UUID has these sixteen bytes. The clock
    /// takes no id of zero: such a UUID gets a random one.
    pub fn new_with_uuid(device_uuid: &[u8]) -> (r: Self)
        requires
            device_uuid@.len() == 16,
        ensures
            r.runs(0),
            little_endian(device_uuid@) != 0 ==> r.node()->Some_0 as nat == little_endian(
                device_uuid@,
            ),
    {
        let node: u128 = node_from_uuid_bytes(device_uuid);
        let wanted: Option<u128> = if node == 0 {
            None
        } else {
            Some(node)
        };
        let (hlc, id) = make_clock(wanted, MAX_REMOTE_HLC_DRIFT);
        HlcService { clock: Some(NodeClock { node: id, hlc, at: 0 }) }
    }

    /// A service for a device known by an arbitrary text: the first sixteen
    /// bytes of its BLAKE3 digest stand in for the UUID.
    pub fn new_for_testing(device_id_str: &str) -> (r: Self)
        ensures
            r.runs(0),
            ({
                let bytes = blake3_digest(encode_utf8(device_id_str@)).take(16);
                little_endian(bytes) != 0 ==> r.node()->Some_0 as nat == little_endian(bytes)
            }),
    {
        let digest = blake3_of(device_id_str.as_bytes());
        let mut bytes: Vec<u8> = Vec::new();
        let mut i: usize = 0;
        while i < 16
            invariant
                i <= 16,
                digest@.len() == 32,
                bytes@ == digest@.take(i as int),
            decreases 16 - i,
        {
            bytes.push(digest[i]);
            i += 1;
            assert(bytes@ =~= digest@.take(i as int));
        }
        Self::new_with_uuid(bytes.as_slice())
    }

    /// Gives this service the clock of the device whose UUID has these bytes,
    /// moved past the persisted timestamp if there is one. On an error the
    /// service is unchanged.
    pub fn initialize_in_place(
        &mut self,
        device_uuid: &[u8],
        persisted: Option<&str>,
    ) -> (r: Result<(), HlcError>)
        requires
            device_uuid@.len() == 16,
        ensures
            match r {
                Ok(_) => final(self).starts_from(device_uuid@, opt_text(persisted)),
                Err(e) => *final(self) == *old(self) && init_refused(
                    device_uuid@,
                    opt_text(persisted),
                    e,
                ),
            },
    {
        let made = Self::try_initialize(device_uuid, persisted);
        match made {
            Ok(service) => {
                *self = service;
                Ok(())
            },
            Err(e) => Err(e),
        }
    }

    /// The clock is that of the device and has moved from zero past the persisted
    /// timestamp.
    pub open spec fn starts_from(&self, device: Seq<u8>, persisted: Option<Seq<char>>) -> bool {
        &&& little_endian(device) != 0
        &&& self.runs(self.reading())
        &&& self.node() matches Some(n) && n as nat == little_endian(device)
        &&& match persisted {
            None => self.reading() == 0,
            Some(s) => {
                &&& timestamp_value(s) matches Ok(t)
                &&& exists|first: u64, second: u64| #[trigger]
                    follow_answer(0, t.time as nat, first, second, true, self.reading())
            },
        }
    }

    /// A service with the clock of the device whose UUID has these bytes, moved
    /// past the persisted timestamp if there is one.
    pub fn try_initialize(device_uuid: &[u8], persisted: Option<&str>) -> (r: Result<
        Self,
        HlcError,
    >)
        requires
            device_uuid@.len() == 16,
        ensures
            match r {
                Ok(service) => service.starts_from(device_uuid@, opt_text(persisted)),
                Err(e) => init_refused(device_uuid@, opt_text(persisted), e),
            },
    {
        let node: u128 = node_from_uuid_bytes(device_uuid);
        if node == 0 {
            return Err(
                HlcError::ParseNodeId(
                    "Invalid node ID format from device store: SizeError(0)".to_owned(),
                ),
            );
        }
        let (hlc, id) = make_clock(Some(node), MAX_REMOTE_HLC_DRIFT);
        let mut clock = NodeClock { node: id, hlc, at: 0 };
        let ghost mut walls: (u64, u64) = (0, 0);
        match persisted {
            None => {},
            Some(text) => {
                let last = match read_timestamp(text) {
                    Ok(t) => t,
                    Err(e) => {
                        let mut s = "Invalid timestamp format: ".to_owned();
                        s.push_str(e.label());
                        return Err(HlcError::ParseTimestamp(s));
                    },
                };
                proof {
                    lemma_timestamp_node_is_not_zero(text@);
                }
                let update = clock.follow(last);
                proof {
                    walls = choose|first: u64, second: u64| #[trigger]
                        follow_answer(
                            0,
                            last.time as nat,
                            first,
                            second,
                            update is Ok,
                            clock.at as nat,
                        );
                }
                match update {
                    Ok(()) => {},
                    Err(reason) => {
                        assert(follow_answer(0, last.time as nat, walls.0, walls.1, false, 0));
                        let mut s = "Failed to update HLC with persisted timestamp: ".to_owned();
                        s.push_str(reason.as_str());
                        let e = HlcError::Parse(s);
                        assert(e matches HlcError::Parse(m) && says(
                            m@,
                            "Failed to update HLC with persisted timestamp: "@,
                            reason@,
                        ));
                        return Err(e);
                    },
                }
            },
        }
        let service = HlcService { clock: Some(clock) };
        assert(opt_text(persisted) matches Some(s) ==> follow_answer(
            0,
            timestamp_value(s)->Ok_0.time as nat,
            walls.0,
            walls.1,
            true,
            service.reading(),
        ));
        Ok(service)
    }

    /// A fresh timestamp of this node, later than where the clock stood. At the
    /// end of clock time there is none.
    pub fn new_timestamp(&mut self) -> (r: Result<HlcTimestamp, HlcError>)
        ensures
            final(self).node() == old(self).node(),
            final(self).tolerance() == old(self).tolerance(),
            match (r, old(self).node()) {
                (Ok(t), Some(node)) => {
                    &&& t.node == node
                    &&& final(self).runs(t.time as nat)
                    &&& exists|now: u64| #[trigger]
                        ticked(old(self).reading(), now, t.time as nat)
                },
                (Err(e), Some(_)) => e is ClockExhausted && old(self).reading() == u64::MAX
                    && *final(self) == *old(self),
                (Err(e), None) => e is NotInitialized && *final(self) == *old(self),
                (Ok(_), None) => false,
            },
    {
        proof {
            use_type_invariant(&*self);
        }
        let mut held: Option<NodeClock> = None;
        std::mem::swap(&mut held, &mut self.clock);
        match held {
            Some(mut c) => {
                let ghost before = c.at as nat;
                let issued = c.tick();
                let node: u128 = c.node;
                self.clock = Some(c);
                match issued {
                    Some(time) => {
                        proof {
                            let now = choose|now: u64| #[trigger] ticked(before, now, time as nat);
                            assert(ticked(old(self).reading(), now, time as nat));
                        }
                        Ok(HlcTimestamp { time, node })
                    },
                    None => Err(HlcError::ClockExhausted),
                }
            },
            None => Err(HlcError::NotInitialized),
        }
    }

    /// Moves the clock past a timestamp received during sync.
    pub fn update_with_timestamp(&mut self, timestamp: &HlcTimestamp) -> (r: Result<(), HlcError>)
        requires
            timestamp.node != 0,
        ensures
            if old(self).node() is None {
                *final(self) == *old(self) && (r matches Err(e) && e is NotInitialized)
            } else {
                (exists|walls: (u64, u64)| #[trigger]
                    old(self).answered(final(self), *timestamp, walls, r is Ok)) && (r matches Err(
                    e,
                ) ==> update_failed(e))
            },
    {
        let answer = self.update_inner(*timestamp);
        let ghost walls = choose|walls: (u64, u64)| #[trigger]
            old(self).answered(&*self, *timestamp, walls, answer->Some_0 is Ok);
        let r: Result<(), HlcError> = match answer {
            Some(Ok(())) => Ok(()),
            Some(Err(reason)) => {
                let mut s = "Failed to update HLC: ".to_owned();
                s.push_str(reason.as_str());
                let e = HlcError::Parse(s);
                assert(e matches HlcError::Parse(m) && says(m@, "Failed to update HLC: "@, reason@));
                Err(e)
            },
            None => Err(HlcError::NotInitialized),
        };
        assert(old(self).node() is Some ==> old(self).answered(
            &*self,
            *timestamp,
            walls,
            r is Ok,
        ));
        r
    }

    /// Moves the clock past `t` and returns its answer; nothing where there is
    /// no clock.
    fn update_inner(&mut self, t: HlcTimestamp) -> (r: Option<Result<(), String>>)
        requires
            t.node != 0,
        ensures
            r is None <==> old(self).node() is None,
            match r {
                Some(answer) => exists|walls: (u64, u64)| #[trigger]
                    old(self).answered(final(self), t, walls, answer is Ok),
                None => *final(self) == *old(self),
            },
    {
        proof {
            use_type_invariant(&*self);
        }
        let mut held: Option<NodeClock> = None;
        std::mem::swap(&mut held, &mut self.clock);
        match held {
            Some(mut c) => {
                let ghost before = c.at as nat;
                let update = c.follow(t);
                let ghost after = c.at as nat;
                self.clock = Some(c);
                proof {
                    let (first, second) = choose|first: u64, second: u64| #[trigger]
                        follow_answer(before, t.time as nat, first, second, update is Ok, after);
                    assert(old(self).answered(&*self, t, (first, second), update is Ok));
                }
                Some(update)
            },
            None => None,
        }
    }

    /// Moves the clock past a remote timestamp in text, so that later local
    /// timestamps are newer. The empty text asks for nothing. A text that is no
    /// timestamp, a missing clock and a timestamp beyond the tolerance are told
    /// apart, in this order.
    pub fn advance_past_remote(&mut self, hlc_string: &str) -> (r: Result<(), HlcError>)
        ensures
            exists|walls: (u64, u64)| #[trigger]
                advance_answer(*old(self), *final(self), hlc_string@, walls, r),
    {
        if hlc_string.is_empty() {
            let nothing: Result<(), HlcError> = Ok(());
            assert(advance_answer(*old(self), *self, hlc_string@, (0, 0), nothing));
            return nothing;
        }
        let remote = match read_timestamp(hlc_string) {
            Ok(t) => t,
            Err(e) => {
                let mut s = "Failed to parse remote HLC timestamp '".to_owned();
                s.push_str(hlc_string);
                s.push_str("': ");
                s.push_str(e.label());
                let unread: Result<(), HlcError> = Err(HlcError::Parse(s));
                assert(advance_answer(*old(self), *self, hlc_string@, (0, 0), unread));
                return unread;
            },
        };
        proof {
            lemma_timestamp_node_is_not_zero(hlc_string@);
        }
        let answer = self.update_inner(remote);
        let ghost walls = choose|walls: (u64, u64)| #[trigger]
            old(self).answered(&*self, remote, walls, answer->Some_0 is Ok);
        let r: Result<(), HlcError> = match answer {
            Some(update) => clock_update_outcome(hlc_string, update),
            None => Err(HlcError::NotInitialized),
        };
        assert(advance_answer(*old(self), *self, hlc_string@, walls, r));
        r
    }
}

/// `message` is `head` followed by `tail`.
pub open spec fn says(message: Seq<char>, head: Seq<char>, tail: Seq<char>) -> bool {
    message == head + tail
}

/// The report of a clock that refused to move: what it said stands behind the
/// head.
pub open spec fn update_failed(e: HlcError) -> bool {
    e matches HlcError::Parse(m) && exists|why: Seq<char>|
        #[trigger] says(m@, "Failed to update HLC: "@, why)
}

/// The report of a clock that refused the persisted timestamp.
pub open spec fn restart_failed(e: HlcError) -> bool {
    e matches HlcError::Parse(m) && exists|why: Seq<char>| #[trigger]
        says(m@, "Failed to update HLC with persisted timestamp: "@, why)
}

/// Why a clock could not be set up: the device's UUID is zero, the persisted
/// text is no timestamp, or the clock, at zero, refused it.
pub open spec fn init_refused(device: Seq<u8>, persisted: Option<Seq<char>>, e: HlcError) -> bool {
    if little_endian(device) == 0 {
        e matches HlcError::ParseNodeId(m) && m@
            == "Invalid node ID format from device store: SizeError(0)"@
    } else {
        persisted matches Some(s) && match timestamp_value(s) {
            Err(why) => e matches HlcError::ParseTimestamp(m) && m@ == "Invalid timestamp format: "@
                + why.spec_label(),
            Ok(t) => {
                &&& exists|first: u64, second: u64| #[trigger]
                    follow_answer(0, t.time as nat, first, second, false, 0)
                &&& restart_failed(e)
            },
        }
    }
}

/// What moving the clock past a text comes to when the wall clock reads `walls`.
pub open spec fn advance_answer(
    before: HlcService,
    after: HlcService,
    hlc: Seq<char>,
    walls: (u64, u64),
    r: Result<(), HlcError>,
) -> bool {
    if hlc.len() == 0 {
        r is Ok && after == before
    } else {
        match timestamp_value(hlc) {
            Err(why) => after == before && (r matches Err(HlcError::Parse(m)) && m@
                == remote_parse_message(hlc, why)),
            Ok(t) => if before.node() is None {
                after == before && (r matches Err(e) && e is NotInitialized)
            } else {
                before.answered(&after, t, walls, r is Ok) && (r matches Err(e) ==> (e matches
                    HlcError::RemoteTimestampOutOfTolerance { hlc: named, reason } && named@
                    == hlc))
            },
        }
    }
}

/// A clock that starts from a persisted timestamp stands later than it: a restart
/// issues no timestamp that was issued before.
pub proof fn lemma_restart_stands_later(
    service: HlcService,
    device: Seq<u8>,
    persisted: Seq<char>,
)
    requires
        service.starts_from(device, Some(persisted)),
    ensures
        timestamp_value(persisted) matches Ok(t) && service.reading() > t.time,
{
}

/// A remote timestamp, whatever its time, moves the clock no further than the
/// remote tolerance beyond the wall clock, or beyond where it stood; the two
/// counts on top are those of moving past the timestamp and of issuing one.
pub proof fn lemma_remote_moves_clock_within_tolerance(
    before: HlcService,
    after: HlcService,
    hlc: Seq<char>,
    walls: (u64, u64),
    r: Result<(), HlcError>,
)
    requires
        advance_answer(before, after, hlc, walls, r),
    ensures
        after.reading() <= before.reading() + 2 || after.reading() <= wall_time(walls.0)
            + remote_tolerance() + 2 || after.reading() <= wall_time(walls.1),
        r is Err ==> after.reading() == before.reading(),
{
}

/// What the node writes after its clock stood at `reading` is newer than every
/// timestamp of that time or earlier, whichever node issued it.
pub proof fn lemma_next_is_newer(reading: nat, next: HlcTimestamp, seen: Seq<char>)
    requires
        next.node != 0,
        next.time > reading,
        timestamp_value(seen) matches Ok(t) && t.time <= reading,
    ensures
        hlc_before(seen, timestamp_text(next)),
{
    lemma_timestamp_round_trip(next);
    lemma_strict_reading_agrees(seen);
}

/// The statement that stores the clock state.
pub open spec fn persist_sql() -> Seq<char> {
    "INSERT INTO "@ + TABLE_CRDT_CONFIGS@
        + " (key, type, value) VALUES (?1, 'hlc', ?2) ON CONFLICT(key) DO UPDATE SET value = excluded.value"@
}

/// The query for the stored clock state.
pub open spec fn load_sql() -> Seq<char> {
    "SELECT value FROM "@ + TABLE_CRDT_CONFIGS@ + " WHERE key = ?1 AND type = 'hlc'"@
}

/// The statement that stores the clock state: the key and the timestamp in
/// text are its two parameters.
pub fn persist_timestamp_sql() -> (r: String)
    ensures
        r@ == persist_sql(),
{
    let mut s = "INSERT INTO ".to_owned();
    s.push_str(TABLE_CRDT_CONFIGS);
    s.push_str(
        " (key, type, value) VALUES (?1, 'hlc', ?2) ON CONFLICT(key) DO UPDATE SET value = excluded.value",
    );
    s
}

/// The query for the stored clock state: the key is its parameter.
pub fn load_timestamp_sql() -> (r: String)
    ensures
        r@ == load_sql(),
{
    let mut s = "SELECT value FROM ".to_owned();
    s.push_str(TABLE_CRDT_CONFIGS);
    s.push_str(" WHERE key = ?1 AND type = 'hlc'");
    s
}

/// The first byte of a node id is the lowest.
pub proof fn lemma_first_byte_is_lowest(bytes: Seq<u8>)
    requires
        bytes.len() > 0,
    ensures
        little_endian(bytes) % 256 == bytes[0],
        little_endian(bytes) / 256 == little_endian(bytes.skip(1)),
{
    assert(bytes.drop_first() =~= bytes.skip(1));
}

/// The clock moves past a time exactly where neither that time nor the clock
/// stands at the end of clock time, and the time lies at most twelve hours ahead
/// of the wall clock. Otherwise it stays where it is.
pub proof fn lemma_when_the_clock_follows(
    last: nat,
    t: nat,
    first: u64,
    second: u64,
    accepted: bool,
    after: nat,
)
    requires
        follow_answer(last, t, first, second, accepted, after),
    ensures
        accepted <==> {
            &&& t < 18_446_744_073_709_551_614
            &&& last < 18_446_744_073_709_551_614
            &&& t <= wall_time(first) + 43_200 * 4_294_967_296
        },
        accepted ==> after > last && after > t && after >= wall_time(second),
        !accepted ==> after == last,
{
    assert(43_200_000_000_000int * 4_294_967_296 / 1_000_000_000 == 43_200 * 4_294_967_296);
    assert(remote_tolerance() == 43_200 * 4_294_967_296);
}

/// A clock that starts with nothing stored stands at the beginning of time and
/// belongs to its device.
pub proof fn lemma_fresh_start(service: HlcService, device: Seq<u8>)
    requires
        service.starts_from(device, None),
    ensures
        service.reading() == 0,
        service.node() matches Some(n) && n != 0 && n as nat == little_endian(device),
{
}

} // verus!
