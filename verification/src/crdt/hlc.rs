//! Hybrid logical clock timestamps in text: `<time>/<node>`, the time in
//! decimal, the node id in hexadecimal.

use crate::numeral::digit_value;
use crate::numeral::lemma_numeral_round_trip;
use crate::numeral::numeral;
use crate::numeral::numeral_value;
use crate::numeral::parse_numeral;
use crate::text::first_index;
use crate::text::lemma_first_index_is;
use crate::text::split_once;
use crate::text::text_split_once;
use std::cmp::Ordering;
use std::str::FromStr;
use uhlc::ParseIDError;
use uhlc::ParseTimestampError;
use vstd::prelude::*;

verus! {

/// How far ahead of the local clock a remote timestamp may lie and still count
/// as a clock reading, in nanoseconds: twelve hours. Beyond it a change is
/// refused. Drift into the past has no bound: such a change loses the
/// last-write-wins comparison.
pub const MAX_REMOTE_HLC_DRIFT: u64 = 43_200_000_000_000;

/// Times that differ only in the logical counter of the clock share a span of
/// this many units.
pub const LOGICAL_COUNTER_SPAN: u64 = 16;

/// Units of clock time in one second.
pub const TIME_UNITS_PER_SECOND: u64 = 4_294_967_296;

/// Why a text is no timestamp.
#[derive(Clone, Copy, Debug, PartialEq, Eq, Structural)]
pub enum TimestampError {
    /// No `/` between time and node.
    NoSeparator,
    /// The time is no unsigned 64-bit decimal.
    Time,
    /// Nothing behind the `/`.
    NodeEmpty,
    /// The node starts with `0`.
    NodeLeadingZero,
    /// The node is no unsigned 128-bit hexadecimal.
    NodeDigits,
    /// The node is zero.
    NodeZero,
}

impl TimestampError {
    /// A short name for the error, as the clock library prints it.
    pub open spec fn spec_label(self) -> Seq<char> {
        match self {
            TimestampError::NoSeparator => "NoDashSeparator"@,
            TimestampError::Time => "ParseNTP64Error(ParseIntError)"@,
            TimestampError::NodeEmpty => "ParseIDError(EmptyStringsNotValid)"@,
            TimestampError::NodeLeadingZero => "ParseIDError(LeadingZeroNotValid)"@,
            TimestampError::NodeDigits => "ParseIDError(ParseIntError)"@,
            TimestampError::NodeZero => "ParseIDError(SizeError(SizeError(0)))"@,
        }
    }

    /// A short name for the error, as the clock library prints it.
    pub fn label(&self) -> (r: &'static str)
        ensures
            r@ == self.spec_label(),
    {
        match self {
            TimestampError::NoSeparator => "NoDashSeparator",
            TimestampError::Time => "ParseNTP64Error(ParseIntError)",
            TimestampError::NodeEmpty => "ParseIDError(EmptyStringsNotValid)",
            TimestampError::NodeLeadingZero => "ParseIDError(LeadingZeroNotValid)",
            TimestampError::NodeDigits => "ParseIDError(ParseIntError)",
            TimestampError::NodeZero => "ParseIDError(SizeError(SizeError(0)))",
        }
    }
}

/// A timestamp: clock time and the id of the node that issued it.
#[derive(Clone, Copy, Debug, PartialEq, Eq, Structural)]
pub struct HlcTimestamp {
    pub time: u64,
    pub node: u128,
}

/// What a text stands for as a full timestamp. Stricter than [`hlc_key`]: both
/// parts must be there, and the node id is written without leading zeros.
pub open spec fn timestamp_value(s: Seq<char>) -> Result<HlcTimestamp, TimestampError> {
    match split_once(s, '/') {
        None => Err(TimestampError::NoSeparator),
        Some((time, node)) => match numeral_value(time, 10, u64::MAX as nat) {
            None => Err(TimestampError::Time),
            Some(t) => if node.len() == 0 {
                Err(TimestampError::NodeEmpty)
            } else if node[0] == '0' {
                Err(TimestampError::NodeLeadingZero)
            } else {
                match numeral_value(node, 16, u128::MAX as nat) {
                    None => Err(TimestampError::NodeDigits),
                    Some(n) => if n == 0 {
                        Err(TimestampError::NodeZero)
                    } else {
                        Ok(HlcTimestamp { time: t as u64, node: n as u128 })
                    },
                }
            },
        },
    }
}

/// How a timestamp is written.
pub open spec fn timestamp_text(t: HlcTimestamp) -> Seq<char> {
    numeral(t.time as nat, 10) + seq!['/'] + numeral(t.node as nat, 16)
}

/// Reads a full timestamp with `uhlc::Timestamp::from_str`. The contract claims
/// that it cuts at the first `/`, reads the time as `u64::from_str` does and the
/// node as `u128::from_str_radix(_, 16)` does, and rejects an empty node, a
/// node that starts with `0` and a node of value zero.
#[verifier::external_body]
pub(crate) fn read_timestamp(s: &str) -> (r: Result<HlcTimestamp, TimestampError>)
    ensures
        r == timestamp_value(s@),
{
    match uhlc::Timestamp::from_str(s) {
        Ok(t) => {
            let node: u128 = u128::from_le_bytes(t.get_id().to_le_bytes());
            Ok(HlcTimestamp { time: t.get_time().as_u64(), node })
        },
        Err(ParseTimestampError::NoDashSeparator) => Err(TimestampError::NoSeparator),
        Err(ParseTimestampError::ParseNTP64Error(_)) => Err(TimestampError::Time),
        Err(ParseTimestampError::ParseIDError(e)) => Err(match e {
            ParseIDError::EmptyStringsNotValid => TimestampError::NodeEmpty,
            ParseIDError::LeadingZeroNotValid => TimestampError::NodeLeadingZero,
            ParseIDError::ParseIntError => TimestampError::NodeDigits,
            ParseIDError::SizeError(_) => TimestampError::NodeZero,
        }),
    }
}

/// Order of node ids as full timestamps compare them: byte by byte, the least
/// significant byte first.
pub open spec fn node_before(a: nat, b: nat) -> bool
    decreases a + b,
{
    if a == b {
        false
    } else if a % 256 != b % 256 {
        a % 256 < b % 256
    } else {
        node_before(a / 256, b / 256)
    }
}

/// Order of full timestamps: by time, then by node id.
pub open spec fn timestamp_before(a: HlcTimestamp, b: HlcTimestamp) -> bool {
    a.time < b.time || (a.time == b.time && node_before(a.node as nat, b.node as nat))
}

/// True if `a` is older than `b`. Unlike the order of timestamp texts, equal
/// times are told apart by the bytes of the node ids, least significant first.
pub fn timestamp_precedes(a: HlcTimestamp, b: HlcTimestamp) -> (r: bool)
    ensures
        r == timestamp_before(a, b),
{
    if a.time != b.time {
        return a.time < b.time;
    }
    let mut x: u128 = a.node;
    let mut y: u128 = b.node;
    while x != y && x % 256 == y % 256
        invariant
            a.time == b.time,
            node_before(a.node as nat, b.node as nat) == node_before(x as nat, y as nat),
        decreases x + y,
    {
        x = x / 256;
        y = y / 256;
    }
    x != y && x % 256 < y % 256
}

/// Writes a timestamp with the `Display` of `uhlc::Timestamp`. The contract
/// claims that it prints the time in decimal, a `/` and the node id in lower
/// case hexadecimal without leading zeros.
#[verifier::external_body]
fn print_timestamp(t: HlcTimestamp) -> (r: String)
    requires
        t.node != 0,
    ensures
        r@ == timestamp_text(t),
{
    uhlc::Timestamp::new(uhlc::NTP64(t.time), uhlc::ID::try_from(t.node).unwrap()).to_string()
}

/// Reads the wall clock with `uhlc::system_time_clock`, in units of 2^-32
/// seconds since 1970. Nothing is claimed of the value: it is the time. The
/// outside function panics on a machine whose clock stands before 1970.
#[verifier::external_body]
pub(crate) fn physical_time() -> (r: u64) {
    uhlc::system_time_clock().as_u64()
}

/// A span of clock time in nanoseconds: whole seconds exactly, the fraction
/// rounded up.
pub open spec fn span_nanos(span: nat) -> nat {
    (span / 4_294_967_296) * 1_000_000_000 + ((span % 4_294_967_296) * 1_000_000_000
        + 4_294_967_295) / 4_294_967_296
}

/// Converts a span with `uhlc::NTP64::to_duration`. The contract claims that
/// the seconds are exact and that the fraction is rounded up to a nanosecond.
#[verifier::external_body]
fn span_duration(span: u64) -> (r: u64)
    ensures
        r as nat == span_nanos(span as nat),
{
    uhlc::NTP64(span).to_duration().as_nanos() as u64
}

impl HlcTimestamp {
    /// The time and node that `s` writes.
    pub fn parse(s: &str) -> (r: Result<HlcTimestamp, TimestampError>)
        ensures
            r == timestamp_value(s@),
    {
        read_timestamp(s)
    }

    /// The timestamp in text.
    pub fn to_text(&self) -> (r: String)
        requires
            self.node != 0,
        ensures
            r@ == timestamp_text(*self),
    {
        print_timestamp(*self)
    }
}

/// The node id behind the `/` of a timestamp, zero if none is given.
pub open spec fn node_value(s: Seq<char>) -> Option<nat> {
    if s.len() == 0 {
        Some(0)
    } else {
        numeral_value(s, 16, u128::MAX as nat)
    }
}

/// Numeric reading of a timestamp, total: where a part that is given cannot be
/// read, the whole counts as zero, so that a malformed or empty text is older
/// than any real one.
pub open spec fn hlc_key(s: Seq<char>) -> (nat, nat) {
    let (time, node) = match split_once(s, '/') {
        Some(parts) => parts,
        None => (s, Seq::empty()),
    };
    match (numeral_value(time, 10, u64::MAX as nat), node_value(node)) {
        (Some(t), Some(n)) => (t, n),
        _ => (0, 0),
    }
}

/// The text cannot be read as a timestamp: its time, or the node id that is
/// given, is no numeral.
pub open spec fn malformed(s: Seq<char>) -> bool {
    let (time, node) = match split_once(s, '/') {
        Some(parts) => parts,
        None => (s, Seq::empty()),
    };
    numeral_value(time, 10, u64::MAX as nat) is None || node_value(node) is None
}

/// Time decides, then the node id.
pub open spec fn key_before(a: (nat, nat), b: (nat, nat)) -> bool {
    a.0 < b.0 || (a.0 == b.0 && a.1 < b.1)
}

/// `a` is strictly older than `b`.
pub open spec fn hlc_before(a: Seq<char>, b: Seq<char>) -> bool {
    key_before(hlc_key(a), hlc_key(b))
}

/// Numeric order of two timestamps.
pub open spec fn hlc_order(a: Seq<char>, b: Seq<char>) -> Ordering {
    if hlc_before(a, b) {
        Ordering::Less
    } else if hlc_before(b, a) {
        Ordering::Greater
    } else {
        Ordering::Equal
    }
}

/// Reads a timestamp numerically, as zero if it cannot be read.
fn read_key(s: &str) -> (r: (u64, u128))
    ensures
        (r.0 as nat, r.1 as nat) == hlc_key(s@),
{
    let (time, node) = match text_split_once(s, '/') {
        Some((t, n)) => (t, n),
        None => (s, ""),
    };
    proof {
        reveal_strlit("");
        assert(""@ =~= Seq::<char>::empty());
    }
    let n: Option<u128> = if node.is_empty() {
        Some(0)
    } else {
        parse_numeral(node, 16, u128::MAX)
    };
    match (parse_numeral(time, 10, u64::MAX as u128), n) {
        (Some(t), Some(n)) => (t as u64, n),
        _ => (0, 0),
    }
}

/// Compares two timestamps numerically: time first, then the node id. A text
/// that cannot be read counts as zero and so as the oldest.
pub fn compare_hlc_strings(a: &str, b: &str) -> (r: Ordering)
    ensures
        r == hlc_order(a@, b@),
{
    let (a_time, a_node) = read_key(a);
    let (b_time, b_node) = read_key(b);
    if a_time < b_time {
        Ordering::Less
    } else if a_time > b_time {
        Ordering::Greater
    } else if a_node < b_node {
        Ordering::Less
    } else if a_node > b_node {
        Ordering::Greater
    } else {
        Ordering::Equal
    }
}

/// True if `a` is strictly newer than `b`.
pub fn hlc_is_newer(a: &str, b: &str) -> (r: bool)
    ensures
        r == hlc_before(b@, a@),
{
    match compare_hlc_strings(a, b) {
        Ordering::Greater => true,
        _ => false,
    }
}

/// The newest of `items`, the last of them where several are equally new.
pub fn hlc_max<'a>(items: &[&'a str]) -> (r: Option<&'a str>)
    ensures
        items@.len() == 0 <==> r is None,
        r matches Some(best) ==> exists|i: int|
            #![trigger items@[i]]
            0 <= i < items@.len() && best@ == items@[i]@ && (forall|j: int|
                #![trigger items@[j]]
                0 <= j < items@.len() ==> !hlc_before(best@, items@[j]@) && (i < j ==> hlc_before(
                    items@[j]@,
                    best@,
                ))),
{
    if items.len() == 0 {
        return None;
    }
    let mut at: usize = 0;
    let mut i: usize = 1;
    while i < items.len()
        invariant
            0 <= at < i <= items.len(),
            forall|j: int|
                #![trigger items@[j]]
                0 <= j < i ==> !hlc_before(items@[at as int]@, items@[j]@) && (at < j
                    ==> hlc_before(items@[j]@, items@[at as int]@)),
        decreases items.len() - i,
    {
        if !hlc_is_newer(items[at], items[i]) {
            at = i;
        }
        i += 1;
    }
    Some(items[at])
}

/// The oldest of `items`, the first of them where several are equally old.
pub fn hlc_min<'a>(items: &[&'a str]) -> (r: Option<&'a str>)
    ensures
        items@.len() == 0 <==> r is None,
        r matches Some(best) ==> exists|i: int|
            #![trigger items@[i]]
            0 <= i < items@.len() && best@ == items@[i]@ && (forall|j: int|
                #![trigger items@[j]]
                0 <= j < items@.len() ==> !hlc_before(items@[j]@, best@) && (j < i ==> hlc_before(
                    best@,
                    items@[j]@,
                ))),
{
    if items.len() == 0 {
        return None;
    }
    let mut at: usize = 0;
    let mut i: usize = 1;
    while i < items.len()
        invariant
            0 <= at < i <= items.len(),
            forall|j: int|
                #![trigger items@[j]]
                0 <= j < i ==> !hlc_before(items@[j]@, items@[at as int]@) && (j < at
                    ==> hlc_before(items@[at as int]@, items@[j]@)),
        decreases items.len() - i,
    {
        if hlc_is_newer(items[at], items[i]) {
            at = i;
        }
        i += 1;
    }
    Some(items[at])
}

/// What stands behind the first `/`.
pub open spec fn node_suffix(s: Seq<char>) -> Option<Seq<char>> {
    match split_once(s, '/') {
        Some((_, node)) => Some(node),
        None => None,
    }
}

/// The node part of a timestamp.
pub fn hlc_node_id_suffix<'a>(hlc: &'a str) -> (r: Option<&'a str>)
    ensures
        match (r, node_suffix(hlc@)) {
            (Some(got), Some(want)) => got@ == want,
            (None, None) => true,
            _ => false,
        },
{
    match text_split_once(hlc, '/') {
        Some((_, node)) => Some(node),
        None => None,
    }
}

/// Reads a node id. Leading zeros do not matter: `01` and `1` are one node.
pub fn parse_hlc_node_hex(node_hex: &str) -> (r: Option<u128>)
    ensures
        match (r, numeral_value(node_hex@, 16, u128::MAX as nat)) {
            (Some(got), Some(want)) => got as nat == want,
            (None, None) => true,
            _ => false,
        },
{
    parse_numeral(node_hex, 16, u128::MAX)
}

/// The node part of the timestamp can be read and is `node`.
pub open spec fn is_from_node(s: Seq<char>, node: nat) -> bool {
    match node_suffix(s) {
        Some(suffix) => numeral_value(suffix, 16, u128::MAX as nat) == Some(node),
        None => false,
    }
}

/// True if the timestamp was issued by `expected_node`; false for a malformed
/// one.
pub fn hlc_is_from_node(hlc: &str, expected_node: u128) -> (r: bool)
    ensures
        r == is_from_node(hlc@, expected_node as nat),
{
    match hlc_node_id_suffix(hlc) {
        Some(suffix) => match parse_hlc_node_hex(suffix) {
            Some(node) => node == expected_node,
            None => false,
        },
        None => false,
    }
}

/// How far a timestamp lies beyond `now`, in nanoseconds, if it does. The
/// logical counter of `now` is cut off first.
pub open spec fn hlc_drift(s: Seq<char>, now: nat) -> Option<nat> {
    let reading = (now - now % 16) as nat;
    match timestamp_value(s) {
        Ok(t) => if t.time > reading {
            Some(span_nanos((t.time - reading) as nat))
        } else {
            None
        },
        Err(_) => None,
    }
}

/// How far `hlc` lies beyond `now`; `None` if it does not, or is no full
/// timestamp.
pub fn hlc_drift_at(hlc: &str, now: u64) -> (r: Option<u64>)
    ensures
        match (r, hlc_drift(hlc@, now as nat)) {
            (Some(got), Some(want)) => got as nat == want,
            (None, None) => true,
            _ => false,
        },
{
    let remote: u64 = match read_timestamp(hlc) {
        Ok(t) => t.time,
        Err(_) => {
            return None;
        },
    };
    let reading: u64 = now - now % LOGICAL_COUNTER_SPAN;
    if remote > reading {
        Some(span_duration(remote - reading))
    } else {
        None
    }
}

/// How far `hlc` lies beyond the wall clock; `None` if it does not, or is no
/// full timestamp. The answer is the one of [`hlc_drift_at`] for the moment at
/// which the clock was read.
pub fn remote_hlc_drift(hlc: &str) -> (r: Option<u64>)
    ensures
        exists|now: u64| #![trigger hlc_drift(hlc@, now as nat)]
            match (r, hlc_drift(hlc@, now as nat)) {
                (Some(got), Some(want)) => got as nat == want,
                (None, None) => true,
                _ => false,
            },
        timestamp_value(hlc@) is Err ==> r is None,
{
    let now: u64 = physical_time();
    hlc_drift_at(hlc, now)
}

/// Numeric order is a strict weak order: nothing precedes itself, precedence
/// is transitive, and so is being neither older nor newer.
pub proof fn lemma_hlc_order_is_strict_weak(a: Seq<char>, b: Seq<char>, c: Seq<char>)
    ensures
        !hlc_before(a, a),
        hlc_before(a, b) ==> !hlc_before(b, a),
        hlc_before(a, b) && hlc_before(b, c) ==> hlc_before(a, c),
        !hlc_before(a, b) && !hlc_before(b, c) ==> !hlc_before(a, c),
        !hlc_before(a, b) && !hlc_before(b, a) <==> hlc_key(a) == hlc_key(b),
{
}

/// Swapping the two timestamps reverses the comparison.
pub proof fn lemma_hlc_order_is_antisymmetric(a: Seq<char>, b: Seq<char>)
    ensures
        hlc_order(a, b) == Ordering::Less <==> hlc_order(b, a) == Ordering::Greater,
        hlc_order(a, b) == Ordering::Equal <==> hlc_order(b, a) == Ordering::Equal,
        hlc_order(a, b) == Ordering::Greater <==> hlc_before(b, a),
{
}

/// A malformed text is newer than nothing, and older than everything with a
/// time or a node id.
pub proof fn lemma_malformed_is_oldest(s: Seq<char>, other: Seq<char>)
    requires
        malformed(s),
    ensures
        !hlc_before(other, s),
        hlc_key(other) != (0nat, 0nat) ==> hlc_before(s, other),
{
}

/// A written timestamp reads back as itself, both strictly and numerically.
pub proof fn lemma_timestamp_round_trip(t: HlcTimestamp)
    requires
        t.node != 0,
    ensures
        timestamp_value(timestamp_text(t)) == Ok::<HlcTimestamp, TimestampError>(t),
        hlc_key(timestamp_text(t)) == (t.time as nat, t.node as nat),
        is_from_node(timestamp_text(t), t.node as nat),
{
    let time = numeral(t.time as nat, 10);
    let node = numeral(t.node as nat, 16);
    let s = timestamp_text(t);
    lemma_numeral_round_trip(t.time as nat, 10, u64::MAX as nat);
    lemma_numeral_round_trip(t.node as nat, 16, u128::MAX as nat);
    assert forall|j: int| 0 <= j < time.len() implies s[j] != '/' by {
        assert(s[j] == time[j]);
        assert(digit_value(time[j], 10) is Some);
    }
    assert(s[time.len() as int] == '/');
    lemma_first_index_is(s, '/', time.len());
    assert(s.take(time.len() as int) =~= time);
    assert(s.skip(time.len() as int + 1) =~= node);
}

/// A full timestamp is read alike by the strict and by the numeric reading.
pub proof fn lemma_strict_reading_agrees(s: Seq<char>)
    requires
        timestamp_value(s) is Ok,
    ensures
        hlc_key(s) == (timestamp_value(s)->Ok_0.time as nat, timestamp_value(s)->Ok_0.node as nat),
        s.contains('/'),
{
    crate::text::lemma_first_index(s, '/');
    assert(s[first_index(s, '/') as int] == '/');
}

/// A full timestamp never names node zero.
pub proof fn lemma_timestamp_node_is_not_zero(s: Seq<char>)
    requires
        timestamp_value(s) is Ok,
    ensures
        timestamp_value(s)->Ok_0.node != 0,
{
}

/// Of two full timestamps the older is the one with the earlier time, and of two
/// with one time the one with the smaller node; a full timestamp is from the node
/// that it names.
pub proof fn lemma_full_timestamps_compare(a: Seq<char>, b: Seq<char>, node: u128)
    requires
        timestamp_value(a) is Ok,
        timestamp_value(b) is Ok,
    ensures
        ({
            let x = timestamp_value(a)->Ok_0;
            let y = timestamp_value(b)->Ok_0;
            &&& hlc_before(a, b) <==> x.time < y.time || x.time == y.time && x.node < y.node
            &&& x.time != y.time ==> (timestamp_before(x, y) <==> x.time < y.time)
            &&& is_from_node(a, node as nat) <==> x.node == node
        }),
{
    lemma_strict_reading_agrees(a);
    lemma_strict_reading_agrees(b);
}

/// A time without a node is older than every full timestamp of that time and
/// newer than every one of an earlier time.
pub proof fn lemma_bare_time_compares(time: u64, other: Seq<char>)
    requires
        timestamp_value(other) is Ok,
    ensures
        ({
            let bare = numeral(time as nat, 10);
            let t = timestamp_value(other)->Ok_0.time;
            &&& hlc_before(bare, other) <==> time <= t
            &&& hlc_before(other, bare) <==> t < time
            &&& !is_from_node(bare, 0)
        }),
{
    let bare = numeral(time as nat, 10);
    lemma_numeral_round_trip(time as nat, 10, u64::MAX as nat);
    lemma_strict_reading_agrees(other);
    lemma_timestamp_node_is_not_zero(other);
    crate::text::lemma_first_index(bare, '/');
    if first_index(bare, '/') < bare.len() {
        assert(digit_value(bare[first_index(bare, '/') as int], 10) is Some);
    }
    assert(split_once(bare, '/') is None);
    assert(hlc_key(bare) == (time as nat, 0nat));
}

/// The drift exceeds the tolerance exactly when the timestamp lies more than
/// twelve hours of clock time beyond the reading.
pub proof fn lemma_drift_tolerance(span: nat)
    ensures
        span_nanos(span) > MAX_REMOTE_HLC_DRIFT <==> span > 43_200 * 4_294_967_296,
{
    let secs = span / 4_294_967_296;
    let frac = span % 4_294_967_296;
    if frac == 0 {
        assert(span_nanos(span) == secs * 1_000_000_000);
    } else {
        assert((frac * 1_000_000_000 + 4_294_967_295) / 4_294_967_296 >= 1);
        assert((frac * 1_000_000_000 + 4_294_967_295) / 4_294_967_296 <= 1_000_000_000);
    }
}

/// A full timestamp is a time in decimal, a slash and a node in hexadecimal.
pub proof fn lemma_form_of_full_timestamps(time: u64, node: u128)
    requires
        node != 0,
    ensures
        timestamp_value(numeral(time as nat, 10) + seq!['/'] + numeral(node as nat, 16)) == Ok::<
            HlcTimestamp,
            TimestampError,
        >((HlcTimestamp { time, node })),
{
    let t = HlcTimestamp { time, node };
    lemma_timestamp_round_trip(t);
    assert(timestamp_text(t) =~= numeral(time as nat, 10) + seq!['/'] + numeral(node as nat, 16));
}

proof fn lemma_cut(time: Seq<char>, node: Seq<char>)
    requires
        !time.contains('/'),
    ensures
        split_once(time + seq!['/'] + node, '/') == Some((time, node)),
{
    let s = time + seq!['/'] + node;
    let i = time.len() as int;
    crate::text::lemma_first_index(s, '/');
    assert(s[i] == '/');
    assert forall|j: int| 0 <= j < i implies s[j] != '/' by {
        assert(s[j] == time[j]);
        if time[j] == '/' {
            assert(time.contains('/'));
        }
    }
    assert(first_index(s, '/') == i);
    assert(s.take(i) =~= time);
    assert(s.skip(i + 1) =~= node);
}

/// What is wrong with a text that is no full timestamp, from the front to the
/// back: there is no slash, the time is no number, the node is missing, starts
/// with a zero, is no number or is zero.
pub proof fn lemma_what_is_wrong_with_a_timestamp(time: Seq<char>, node: Seq<char>)
    requires
        !time.contains('/'),
    ensures
        timestamp_value(time) == Err::<HlcTimestamp, TimestampError>(TimestampError::NoSeparator),
        timestamp_value(time + seq!['/'] + node) == if numeral_value(time, 10, u64::MAX as nat)
            is None {
            Err::<HlcTimestamp, TimestampError>(TimestampError::Time)
        } else if node.len() == 0 {
            Err(TimestampError::NodeEmpty)
        } else if node[0] == '0' {
            Err(TimestampError::NodeLeadingZero)
        } else if numeral_value(node, 16, u128::MAX as nat) is None {
            Err(TimestampError::NodeDigits)
        } else if numeral_value(node, 16, u128::MAX as nat) == Some(0nat) {
            Err(TimestampError::NodeZero)
        } else {
            Ok(
                HlcTimestamp {
                    time: numeral_value(time, 10, u64::MAX as nat)->Some_0 as u64,
                    node: numeral_value(node, 16, u128::MAX as nat)->Some_0 as u128,
                },
            )
        },
{
    lemma_cut(time, node);
    crate::text::lemma_split_once(time, '/');
    if split_once(time, '/') is Some {
        let (a, b) = split_once(time, '/')->Some_0;
        assert(time[a.len() as int] == '/');
    }
}

/// Where two texts are compared by time, a missing node counts as zero, and a text
/// with a time or a node that is no number counts as the oldest of all. A node is
/// read whatever the time before it is.
pub proof fn lemma_how_texts_are_compared(time: Seq<char>, node: Seq<char>, other: nat)
    requires
        !time.contains('/'),
    ensures
        ({
            let s = time + seq!['/'] + node;
            let t = numeral_value(time, 10, u64::MAX as nat);
            let n = if node.len() == 0 {
                Some(0nat)
            } else {
                numeral_value(node, 16, u128::MAX as nat)
            };
            &&& hlc_key(s) == if t is Some && n is Some {
                (t->Some_0, n->Some_0)
            } else {
                (0nat, 0nat)
            }
            &&& malformed(s) <==> t is None || n is None
            &&& is_from_node(s, other) <==> numeral_value(node, 16, u128::MAX as nat) == Some(other)
        }),
{
    lemma_cut(time, node);
}

/// Nodes are compared from the lowest byte on: the first in which they differ
/// decides.
pub proof fn lemma_nodes_compare_from_the_lowest_byte(a: nat, b: nat)
    ensures
        a % 256 < b % 256 ==> node_before(a, b) && !node_before(b, a),
        a % 256 == b % 256 ==> (node_before(a, b) <==> node_before(a / 256, b / 256)),
        !node_before(a, a),
{
    if a == b {
        assert(!node_before(a / 256, b / 256));
    }
}

} // verus!
