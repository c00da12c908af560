//! JSON values as the replication rules read them.
//!
//! A value keeps apart what the rules look at: whether it is null, a boolean,
//! a number and which integer, a string and which text. Arrays and objects are
//! opaque: they are held as their compact text. `serde_json` reads and quotes.

use crate::numeral::digit_char;
use crate::numeral::numeral;
use crate::text::lemma_text_order;
use crate::text::lemma_text_order_transitive;
use crate::text::text_before;
use crate::text::text_precedes;
use vstd::prelude::*;

verus! {

/// A JSON value.
#[derive(Clone, Debug)]
pub enum JsonValue {
    Null,
    Bool(bool),
    /// A number in compact text, and its value if it is an integer of 64 bits.
    Number { text: String, integer: Option<i64> },
    Text(String),
    /// An array or an object in compact text.
    Composite(String),
}

/// What a [`JsonValue`] stands for.
pub enum JsonView {
    Null,
    Bool(bool),
    Number { text: Seq<char>, integer: Option<i64> },
    Text(Seq<char>),
    Composite(Seq<char>),
}

impl View for JsonValue {
    type V = JsonView;

    open spec fn view(&self) -> JsonView {
        match self {
            JsonValue::Null => JsonView::Null,
            JsonValue::Bool(b) => JsonView::Bool(*b),
            JsonValue::Number { text, integer } => JsonView::Number { text: text@, integer: *integer },
            JsonValue::Text(s) => JsonView::Text(s@),
            JsonValue::Composite(s) => JsonView::Composite(s@),
        }
    }
}

/// How one character stands in a JSON string.
pub open spec fn json_escaped(c: char) -> Seq<char> {
    if c == '"' {
        seq!['\\', '"']
    } else if c == '\\' {
        seq!['\\', '\\']
    } else if c as nat == 8 {
        seq!['\\', 'b']
    } else if c as nat == 9 {
        seq!['\\', 't']
    } else if c as nat == 10 {
        seq!['\\', 'n']
    } else if c as nat == 12 {
        seq!['\\', 'f']
    } else if c as nat == 13 {
        seq!['\\', 'r']
    } else if (c as nat) < 32 {
        seq!['\\', 'u', '0', '0', digit_char(c as nat / 16), digit_char(c as nat % 16)]
    } else {
        seq![c]
    }
}

/// `s` with every character escaped.
pub open spec fn json_escaped_text(s: Seq<char>) -> Seq<char>
    decreases s.len(),
{
    if s.len() == 0 {
        Seq::empty()
    } else {
        json_escaped_text(s.drop_last()) + json_escaped(s.last())
    }
}

/// `s` as a JSON string: escaped, between quotes.
pub open spec fn json_quoted(s: Seq<char>) -> Seq<char> {
    seq!['"'] + json_escaped_text(s) + seq!['"']
}

/// Quotes a string with `serde_json::to_string`. The contract claims that the
/// result is the text between quotes in which the quote, the backslash and the
/// control characters below 32 are escaped and nothing else is.
#[verifier::external_body]
pub(crate) fn quote_json(s: &str) -> (r: String)
    ensures
        r@ == json_quoted(s@),
{
    serde_json::to_string(s).unwrap()
}

/// Compact text of a value.
pub open spec fn json_text(v: JsonView) -> Seq<char> {
    match v {
        JsonView::Null => "null"@,
        JsonView::Bool(b) => if b {
            "true"@
        } else {
            "false"@
        },
        JsonView::Number { text, .. } => text,
        JsonView::Text(s) => json_quoted(s),
        JsonView::Composite(s) => s,
    }
}

/// The value that a JSON text stands for, if it is one.
pub uninterp spec fn json_value(text: Seq<char>) -> Option<JsonView>;

/// Reads a JSON text with `serde_json::from_str` into a `serde_json::Value`.
/// The contract claims that the result depends on the text alone. Numbers,
/// arrays and objects come back in the compact text that `Value` prints, an
/// object with its keys in order.
#[verifier::external_body]
fn read_json(text: &str) -> (r: Option<JsonValue>)
    ensures
        match (r, json_value(text@)) {
            (Some(got), Some(want)) => got@ == want,
            (None, None) => true,
            _ => false,
        },
{
    serde_json::from_str::<serde_json::Value>(text).ok().map(
        |v| match v {
            serde_json::Value::Null => JsonValue::Null,
            serde_json::Value::Bool(b) => JsonValue::Bool(b),
            serde_json::Value::Number(n) => JsonValue::Number { integer: n.as_i64(), text: n.to_string() },
            serde_json::Value::String(s) => JsonValue::Text(s),
            other => JsonValue::Composite(other.to_string()),
        },
    )
}

/// The members of the JSON object in a text, if it is one.
pub uninterp spec fn json_object(text: Seq<char>) -> Option<Seq<(Seq<char>, JsonView)>>;

/// Reads a JSON object with `serde_json::from_str` into a
/// `serde_json::Map<String, Value>`. The contract claims that the result depends
/// on the text alone, that the keys are in strictly ascending order, the map
/// being a `BTreeMap`, and that the compact text of an object of nulls,
/// booleans, 64-bit integers and strings, in which no key occurs twice, is read
/// back with the members that it was written with. Nothing is claimed of
/// reading back floating-point numbers, arrays and objects.
#[verifier::external_body]
fn read_object(text: &str) -> (r: Option<Vec<(String, JsonValue)>>)
    ensures
        match (r, json_object(text@)) {
            (Some(got), Some(want)) => members(got@) == want && keys_ascend(want),
            (None, None) => true,
            _ => false,
        },
        reads_back(text@, r),
{
    let map = serde_json::from_str::<serde_json::Map<String, serde_json::Value>>(text).ok()?;
    Some(map.into_iter().map(
        |(k, v)| (k, match v {
            serde_json::Value::Null => JsonValue::Null,
            serde_json::Value::Bool(b) => JsonValue::Bool(b),
            serde_json::Value::Number(n) => JsonValue::Number { integer: n.as_i64(), text: n.to_string() },
            serde_json::Value::String(s) => JsonValue::Text(s),
            other => JsonValue::Composite(other.to_string()),
        }),
    ).collect())
}

/// The members of a JSON object whose values are all strings.
pub uninterp spec fn json_string_map(text: Seq<char>) -> Option<Seq<(Seq<char>, Seq<char>)>>;

/// Reads a JSON object of strings with `serde_json::from_str` into a
/// `BTreeMap<String, String>`. The contract claims that the result depends on
/// the text alone and that no key occurs twice.
#[verifier::external_body]
pub(crate) fn read_string_map(text: &str) -> (r: Option<Vec<(String, String)>>)
    ensures
        match (r, json_string_map(text@)) {
            (Some(got), Some(want)) => string_members(got@) == want && (forall|i: int, j: int|
                #![trigger want[i], want[j]]
                0 <= i < j < want.len() ==> want[i].0 != want[j].0),
            (None, None) => true,
            _ => false,
        },
{
    serde_json::from_str::<std::collections::BTreeMap<String, String>>(text).ok().map(
        |m| m.into_iter().collect(),
    )
}

/// What a list of members stands for.
pub open spec fn members(v: Seq<(String, JsonValue)>) -> Seq<(Seq<char>, JsonView)> {
    v.map_values(|m: (String, JsonValue)| (m.0@, m.1@))
}

/// What a list of string members stands for.
pub open spec fn string_members(v: Seq<(String, String)>) -> Seq<(Seq<char>, Seq<char>)> {
    v.map_values(|m: (String, String)| (m.0@, m.1@))
}

/// If the text is what an object of plain values is written as, `got` holds the
/// members of that object.
pub open spec fn reads_back(text: Seq<char>, got: Option<Vec<(String, JsonValue)>>) -> bool {
    forall|e: Seq<(Seq<char>, JsonView)>|
        text == #[trigger] object_text(e) && keys_distinct(e) && all_plain(e) ==> (
        got matches Some(v) && same_members(members(v@), e))
}

/// An integer in decimal.
pub open spec fn integer_text(i: int) -> Seq<char> {
    if i < 0 {
        seq!['-'] + numeral((-i) as nat, 10)
    } else {
        numeral(i as nat, 10)
    }
}

/// A null, a boolean, a string, or an integer of 64 bits in decimal.
pub open spec fn is_plain(v: JsonView) -> bool {
    match v {
        JsonView::Number { text, integer } => integer matches Some(i) && text == integer_text(
            i as int,
        ),
        JsonView::Composite(_) => false,
        _ => true,
    }
}

/// Every value is plain.
pub open spec fn all_plain(e: Seq<(Seq<char>, JsonView)>) -> bool {
    forall|i: int| 0 <= i < e.len() ==> is_plain((#[trigger] e[i]).1)
}

/// No key occurs twice.
pub open spec fn keys_distinct(e: Seq<(Seq<char>, JsonView)>) -> bool {
    forall|i: int, j: int|
        #![trigger e[i], e[j]]
        0 <= i < j < e.len() ==> e[i].0 != e[j].0
}

/// `m` holds the members of `e`, whatever their order.
pub open spec fn same_members(
    m: Seq<(Seq<char>, JsonView)>,
    e: Seq<(Seq<char>, JsonView)>,
) -> bool {
    m.len() == e.len() && forall|i: int| 0 <= i < e.len() ==> m.contains(#[trigger] e[i])
}

/// Each key comes before the next.
pub open spec fn keys_ascend(e: Seq<(Seq<char>, JsonView)>) -> bool {
    forall|i: int, j: int|
        #![trigger e[i], e[j]]
        0 <= i < j < e.len() ==> text_before(e[i].0, e[j].0)
}

/// Number of leading members whose key comes before `key`.
pub open spec fn key_position(e: Seq<(Seq<char>, JsonView)>, key: Seq<char>) -> nat
    decreases e.len(),
{
    if e.len() == 0 || !text_before(e[0].0, key) {
        0
    } else {
        1 + key_position(e.drop_first(), key)
    }
}

/// The value of `key`.
pub open spec fn member(e: Seq<(Seq<char>, JsonView)>, key: Seq<char>) -> Option<JsonView> {
    let p = key_position(e, key);
    if p < e.len() && e[p as int].0 == key {
        Some(e[p as int].1)
    } else {
        None
    }
}

/// `e` in which `key` has the value `v`.
pub open spec fn with_member(
    e: Seq<(Seq<char>, JsonView)>,
    key: Seq<char>,
    v: JsonView,
) -> Seq<(Seq<char>, JsonView)> {
    let p = key_position(e, key);
    if p < e.len() && e[p as int].0 == key {
        e.update(p as int, (key, v))
    } else {
        e.insert(p as int, (key, v))
    }
}

/// `e` without `key`.
pub open spec fn without_member(e: Seq<(Seq<char>, JsonView)>, key: Seq<char>) -> Seq<
    (Seq<char>, JsonView),
> {
    let p = key_position(e, key);
    if p < e.len() && e[p as int].0 == key {
        e.remove(p as int)
    } else {
        e
    }
}

pub proof fn lemma_key_position(e: Seq<(Seq<char>, JsonView)>, key: Seq<char>)
    ensures
        key_position(e, key) <= e.len(),
        forall|i: int| 0 <= i < key_position(e, key) ==> text_before(#[trigger] e[i].0, key),
        key_position(e, key) < e.len() ==> !text_before(e[key_position(e, key) as int].0, key),
    decreases e.len(),
{
    if e.len() > 0 && text_before(e[0].0, key) {
        lemma_key_position(e.drop_first(), key);
        let p = key_position(e, key);
        assert forall|i: int| 0 <= i < p implies text_before(#[trigger] e[i].0, key) by {
            if i > 0 {
                assert(e.drop_first()[i - 1] == e[i]);
            }
        }
        if p < e.len() {
            assert(e.drop_first()[p - 1] == e[p as int]);
        }
    }
}

/// The position is the one that splits the members into those before `key`
/// and the rest.
pub proof fn lemma_key_position_is(e: Seq<(Seq<char>, JsonView)>, key: Seq<char>, p: nat)
    requires
        p <= e.len(),
        forall|i: int| 0 <= i < p ==> text_before(#[trigger] e[i].0, key),
        p < e.len() ==> !text_before(e[p as int].0, key),
    ensures
        key_position(e, key) == p,
{
    lemma_key_position(e, key);
    let q = key_position(e, key);
    if q < p {
        assert(text_before(e[q as int].0, key));
    }
    if p < q {
        assert(text_before(e[p as int].0, key));
    }
}

/// A member of an ordered object is found, wherever it stands.
pub proof fn lemma_member_of_ordered(e: Seq<(Seq<char>, JsonView)>, i: int)
    requires
        keys_ascend(e),
        0 <= i < e.len(),
    ensures
        member(e, e[i].0) == Some(e[i].1),
        key_position(e, e[i].0) == i,
{
    lemma_text_order(e[i].0, e[i].0);
    lemma_key_position_is(e, e[i].0, i as nat);
}

/// Keys in ascending order are distinct.
pub proof fn lemma_ascending_is_distinct(e: Seq<(Seq<char>, JsonView)>)
    requires
        keys_ascend(e),
    ensures
        keys_distinct(e),
{
    assert forall|i: int, j: int|
        #![trigger e[i], e[j]]
        0 <= i < j < e.len() implies e[i].0 != e[j].0 by {
        lemma_text_order(e[i].0, e[j].0);
    }
}

/// An ordered object with the members of `e` gives each key its value.
pub proof fn lemma_same_members_read(
    m: Seq<(Seq<char>, JsonView)>,
    e: Seq<(Seq<char>, JsonView)>,
    i: int,
)
    requires
        keys_ascend(m),
        same_members(m, e),
        0 <= i < e.len(),
    ensures
        member(m, e[i].0) == Some(e[i].1),
{
    assert(m.contains(e[i]));
    let k = choose|k: int| 0 <= k < m.len() && m[k] == e[i];
    lemma_member_of_ordered(m, k);
}

/// Where no key occurs twice, members are shared both ways.
pub proof fn lemma_same_members_back(
    m: Seq<(Seq<char>, JsonView)>,
    e: Seq<(Seq<char>, JsonView)>,
    j: int,
)
    requires
        keys_distinct(e),
        same_members(m, e),
        0 <= j < m.len(),
    ensures
        e.contains(m[j]),
    decreases e.len(),
{
    let last = e.len() - 1;
    assert(m.contains(e[last]));
    let k = choose|k: int| 0 <= k < m.len() && m[k] == e[last];
    if j != k {
        let rest = e.drop_last();
        let others = m.remove(k);
        assert forall|i: int| 0 <= i < rest.len() implies others.contains(#[trigger] rest[i]) by {
            assert(rest[i] == e[i]);
            assert(m.contains(e[i]));
            let at = choose|at: int| 0 <= at < m.len() && m[at] == e[i];
            assert(e[i].0 != e[last].0);
            if at < k {
                assert(others[at] == e[i]);
            } else {
                assert(others[at - 1] == e[i]);
            }
        }
        let moved = if j < k {
            j
        } else {
            j - 1
        };
        lemma_same_members_back(others, rest, moved);
        let i = choose|i: int| 0 <= i < rest.len() && rest[i] == m[j];
        assert(e[i] == m[j]);
    }
}

/// Of two ordered objects with the same members neither differs from the other.
pub proof fn lemma_same_members_in_order(
    m: Seq<(Seq<char>, JsonView)>,
    e: Seq<(Seq<char>, JsonView)>,
)
    requires
        keys_ascend(m),
        keys_ascend(e),
        same_members(m, e),
    ensures
        m == e,
    decreases e.len(),
{
    if e.len() == 0 {
        assert(m =~= e);
    } else {
        let last = e.len() - 1;
        assert(m.contains(e[last]));
        let k = choose|k: int| 0 <= k < m.len() && m[k] == e[last];
        let rest = e.drop_last();
        let others = m.remove(k);
        assert forall|i: int, j: int|
            #![trigger others[i], others[j]]
            0 <= i < j < others.len() implies text_before(others[i].0, others[j].0) by {
            let a = if i < k {
                i
            } else {
                i + 1
            };
            let b = if j < k {
                j
            } else {
                j + 1
            };
            assert(others[i] == m[a]);
            assert(others[j] == m[b]);
        }
        assert forall|i: int| 0 <= i < rest.len() implies others.contains(#[trigger] rest[i]) by {
            assert(rest[i] == e[i]);
            assert(m.contains(e[i]));
            let at = choose|at: int| 0 <= at < m.len() && m[at] == e[i];
            lemma_text_order(e[i].0, e[last].0);
            assert(at != k);
            if at < k {
                assert(others[at] == e[i]);
            } else {
                assert(others[at - 1] == e[i]);
            }
        }
        lemma_same_members_in_order(others, rest);
        if k < last {
            // what stands behind the greatest member would be in `e` too
            assert(others[k] == m[k + 1]);
            assert(rest[k] == e[k]);
            lemma_text_order(m[k].0, m[k + 1].0);
            lemma_text_order(e[k].0, e[last].0);
            assert(false);
        }
        assert(m =~= others.push(m[k]));
        assert(e =~= rest.push(e[last]));
    }
}

/// What was set is what is read, nothing else changes, and the order stays.
pub proof fn lemma_with_member(
    e: Seq<(Seq<char>, JsonView)>,
    key: Seq<char>,
    v: JsonView,
    other: Seq<char>,
)
    requires
        keys_ascend(e),
    ensures
        keys_ascend(with_member(e, key, v)),
        member(with_member(e, key, v), key) == Some(v),
        other != key ==> member(with_member(e, key, v), other) == member(e, other),
{
    let p = key_position(e, key) as int;
    let r = with_member(e, key, v);
    lemma_key_position(e, key);
    if p < e.len() && e[p].0 == key {
        assert forall|i: int, j: int|
            #![trigger r[i], r[j]]
            0 <= i < j < r.len() implies text_before(r[i].0, r[j].0) by {
            assert(r[i].0 == e[i].0);
            assert(r[j].0 == e[j].0);
        }
        lemma_member_of_ordered(r, p);
        if other != key {
            lemma_same_keys_position(e, r, other);
        }
    } else {
        assert forall|i: int, j: int|
            #![trigger r[i], r[j]]
            0 <= i < j < r.len() implies text_before(r[i].0, r[j].0) by {
            if j == p {
                assert(r[i] == e[i]);
            } else if i == p {
                assert(r[j] == e[j - 1]);
                lemma_text_order(e[p].0, key);
                if j - 1 > p {
                    lemma_text_order_transitive(key, e[p].0, e[j - 1].0);
                }
            } else {
                let a = if i < p {
                    i
                } else {
                    i - 1
                };
                let b = if j < p {
                    j
                } else {
                    j - 1
                };
                assert(r[i] == e[a]);
                assert(r[j] == e[b]);
            }
        }
        assert(r[p] == (key, v));
        lemma_member_of_ordered(r, p);
        if other != key {
            lemma_key_position(e, other);
            let q = key_position(e, other) as int;
            lemma_text_order(key, other);
            if text_before(key, other) {
                // every member before the new one is before `other` too
                assert forall|i: int| 0 <= i < p implies text_before(#[trigger] e[i].0, other) by {
                    lemma_text_order_transitive(e[i].0, key, other);
                }
                if q < p {
                    assert(text_before(e[q].0, other));
                }
                assert forall|i: int| 0 <= i < q + 1 implies text_before(
                    #[trigger] r[i].0,
                    other,
                ) by {
                    if i < p {
                        assert(r[i] == e[i]);
                    } else if i > p {
                        assert(r[i] == e[i - 1]);
                    }
                }
                if q + 1 < r.len() {
                    assert(r[q + 1] == e[q]);
                }
                lemma_key_position_is(r, other, (q + 1) as nat);
            } else {
                if q > p {
                    assert(text_before(e[p].0, other));
                    lemma_text_order(e[p].0, key);
                    lemma_text_order_transitive(key, e[p].0, other);
                }
                assert forall|i: int| 0 <= i < q implies text_before(#[trigger] r[i].0, other) by {
                    assert(r[i] == e[i]);
                }
                if q < p {
                    assert(r[q] == e[q]);
                }
                lemma_key_position_is(r, other, q as nat);
                if q == p && q < e.len() {
                    // `other` comes before `key`, and `key` before what stood here
                    lemma_text_order(e[p].0, key);
                    if e[p].0 == other {
                        lemma_text_order(key, other);
                    }
                }
            }
        }
    }
}

proof fn lemma_same_keys_position(
    a: Seq<(Seq<char>, JsonView)>,
    b: Seq<(Seq<char>, JsonView)>,
    key: Seq<char>,
)
    requires
        a.len() == b.len(),
        forall|i: int| 0 <= i < a.len() ==> (#[trigger] a[i]).0 == b[i].0,
    ensures
        key_position(a, key) == key_position(b, key),
{
    lemma_key_position(a, key);
    let p = key_position(a, key);
    assert forall|i: int| 0 <= i < p implies text_before(#[trigger] b[i].0, key) by {
        assert(a[i].0 == b[i].0);
    }
    if p < a.len() {
        assert(a[p as int].0 == b[p as int].0);
    }
    lemma_key_position_is(b, key, p);
}

/// What was taken out is gone, nothing else changes, and the order stays.
pub proof fn lemma_without_member(
    e: Seq<(Seq<char>, JsonView)>,
    key: Seq<char>,
    other: Seq<char>,
)
    requires
        keys_ascend(e),
    ensures
        keys_ascend(without_member(e, key)),
        member(without_member(e, key), key) is None,
        other != key ==> member(without_member(e, key), other) == member(e, other),
{
    let p = key_position(e, key) as int;
    let r = without_member(e, key);
    lemma_key_position(e, key);
    if p < e.len() && e[p].0 == key {
        assert forall|i: int, j: int|
            #![trigger r[i], r[j]]
            0 <= i < j < r.len() implies text_before(r[i].0, r[j].0) by {
            let a = if i < p {
                i
            } else {
                i + 1
            };
            let b = if j < p {
                j
            } else {
                j + 1
            };
            assert(r[i] == e[a]);
            assert(r[j] == e[b]);
        }
        assert forall|i: int| 0 <= i < p implies text_before(#[trigger] r[i].0, key) by {
            assert(r[i] == e[i]);
        }
        if p < r.len() {
            assert(r[p] == e[p + 1]);
            lemma_text_order(e[p].0, e[p + 1].0);
        }
        lemma_key_position_is(r, key, p as nat);
        // putting the member back gives the object again
        assert(e =~= with_member(r, key, e[p].1));
        lemma_with_member(r, key, e[p].1, other);
    }
}

/// An object: members with ascending keys.
#[derive(Debug)]
pub struct JsonObject {
    entries: Vec<(String, JsonValue)>,
}

impl View for JsonObject {
    type V = Seq<(Seq<char>, JsonView)>;

    closed spec fn view(&self) -> Seq<(Seq<char>, JsonView)> {
        members(self.entries@)
    }
}

/// One member in compact text.
pub open spec fn member_text(m: (Seq<char>, JsonView)) -> Seq<char> {
    json_quoted(m.0) + seq![':'] + json_text(m.1)
}

/// Members in compact text, separated by commas.
pub open spec fn members_text(e: Seq<(Seq<char>, JsonView)>) -> Seq<char>
    decreases e.len(),
{
    if e.len() == 0 {
        Seq::empty()
    } else if e.len() == 1 {
        member_text(e[0])
    } else {
        members_text(e.drop_last()) + seq![','] + member_text(e.last())
    }
}

/// An object in compact text.
pub open spec fn object_text(e: Seq<(Seq<char>, JsonView)>) -> Seq<char> {
    seq!['{'] + members_text(e) + seq!['}']
}

/// Writes an object in compact text, its members in the order given.
pub fn write_object(entries: &[(String, JsonValue)]) -> (r: String)
    ensures
        r@ == object_text(members(entries@)),
{
    let ghost all = members(entries@);
    let mut body = String::new();
    let mut i: usize = 0;
    while i < entries.len()
        invariant
            i <= entries.len(),
            all == members(entries@),
            body@ == members_text(all.take(i as int)),
        decreases entries.len() - i,
    {
        let ghost next = all.take(i + 1);
        assert(next.drop_last() =~= all.take(i as int));
        let mut piece = quote_json(entries[i].0.as_str());
        piece.push(':');
        let value = entries[i].1.to_json();
        piece.push_str(value.as_str());
        assert(piece@ =~= member_text(next.last()));
        if i > 0 {
            body.push(',');
            assert(body@ =~= members_text(next.drop_last()) + seq![',']);
        } else {
            assert(body@ + piece@ =~= piece@);
        }
        body.push_str(piece.as_str());
        i += 1;
    }
    assert(all.take(i as int) =~= all);
    let mut out = String::new();
    out.push('{');
    assert(out@ =~= seq!['{']);
    out.push_str(body.as_str());
    out.push('}');
    assert(out@ =~= object_text(all));
    out
}

/// Two values are equal as JSON. The two floating-point zeros are one number;
/// an array or object is compared by its compact text.
pub open spec fn json_equal(a: JsonView, b: JsonView) -> bool {
    match (a, b) {
        (JsonView::Number { text: s, .. }, JsonView::Number { text: t, .. }) => s == t || (
        is_zero_float(s) && is_zero_float(t)),
        _ => a == b,
    }
}

/// The text of a floating-point zero of either sign.
pub open spec fn is_zero_float(s: Seq<char>) -> bool {
    s == "0.0"@ || s == "-0.0"@
}

/// Two objects have the same keys with equal values.
pub open spec fn object_equal(
    a: Seq<(Seq<char>, JsonView)>,
    b: Seq<(Seq<char>, JsonView)>,
) -> bool {
    a.len() == b.len() && forall|i: int|
        #![trigger a[i]]
        #![trigger b[i]]
        0 <= i < a.len() ==> a[i].0 == b[i].0 && json_equal(a[i].1, b[i].1)
}

impl JsonValue {
    /// The value that `text` stands for, if it is JSON.
    pub fn parse(text: &str) -> (r: Option<JsonValue>)
        ensures
            match (r, json_value(text@)) {
                (Some(got), Some(want)) => got@ == want,
                (None, None) => true,
                _ => false,
            },
    {
        read_json(text)
    }

    /// The string, if the value is one.
    pub fn as_text(&self) -> (r: Option<&str>)
        ensures
            match (r, self@) {
                (Some(got), JsonView::Text(want)) => got@ == want,
                (None, JsonView::Text(_)) => false,
                (None, _) => true,
                _ => false,
            },
    {
        match self {
            JsonValue::Text(s) => Some(s.as_str()),
            _ => None,
        }
    }

    /// The value in compact text.
    pub fn to_json(&self) -> (r: String)
        ensures
            r@ == json_text(self@),
    {
        match self {
            JsonValue::Null => "null".to_owned(),
            JsonValue::Bool(b) => if *b {
                "true".to_owned()
            } else {
                "false".to_owned()
            },
            JsonValue::Number { text, .. } => text.clone(),
            JsonValue::Text(s) => quote_json(s.as_str()),
            JsonValue::Composite(s) => s.clone(),
        }
    }

    /// A value that stands for the same.
    pub fn copy(&self) -> (r: JsonValue)
        ensures
            r@ == self@,
    {
        match self {
            JsonValue::Null => JsonValue::Null,
            JsonValue::Bool(b) => JsonValue::Bool(*b),
            JsonValue::Number { text, integer } => JsonValue::Number { text: text.clone(), integer: *integer },
            JsonValue::Text(s) => JsonValue::Text(s.clone()),
            JsonValue::Composite(s) => JsonValue::Composite(s.clone()),
        }
    }

    /// True if the two values are equal as JSON.
    pub fn same_as(&self, other: &JsonValue) -> (r: bool)
        ensures
            r == json_equal(self@, other@),
    {
        match (self, other) {
            (JsonValue::Null, JsonValue::Null) => true,
            (JsonValue::Bool(a), JsonValue::Bool(b)) => *a == *b,
            (JsonValue::Number { text: a, .. }, JsonValue::Number { text: b, .. }) => a.as_str().eq(
                b.as_str(),
            ) || (names_zero_float(a.as_str()) && names_zero_float(b.as_str())),
            (JsonValue::Text(a), JsonValue::Text(b)) => a.as_str().eq(b.as_str()),
            (JsonValue::Composite(a), JsonValue::Composite(b)) => a.as_str().eq(b.as_str()),
            _ => false,
        }
    }
}

fn names_zero_float(s: &str) -> (r: bool)
    ensures
        r == is_zero_float(s@),
{
    s.eq("0.0") || s.eq("-0.0")
}

impl JsonObject {
    /// The keys are in strictly ascending order.
    #[verifier::type_invariant]
    pub open spec fn wf(&self) -> bool {
        keys_ascend(self@)
    }

    /// The object without members.
    pub fn empty() -> (r: JsonObject)
        ensures
            r@ == Seq::<(Seq<char>, JsonView)>::empty(),
    {
        let r = JsonObject { entries: Vec::new() };
        assert(r@ =~= Seq::<(Seq<char>, JsonView)>::empty());
        r
    }

    /// The object in `text`, if it is one.
    pub fn parse(text: &str) -> (r: Option<JsonObject>)
        ensures
            match (r, json_object(text@)) {
                (Some(got), Some(want)) => got@ == want,
                (None, None) => true,
                _ => false,
            },
            forall|e: Seq<(Seq<char>, JsonView)>|
                text@ == #[trigger] object_text(e) && keys_distinct(e) && all_plain(e) ==> (
                r matches Some(got) && same_members(got@, e) && (keys_ascend(e) ==> got@ == e)),
    {
        match read_object(text) {
            Some(entries) => {
                let r = JsonObject { entries };
                proof {
                    assert forall|e: Seq<(Seq<char>, JsonView)>|
                        text@ == #[trigger] object_text(e) && keys_distinct(e) && all_plain(e)
                            && keys_ascend(e) implies r@ == e by {
                        lemma_same_members_in_order(r@, e);
                    }
                }
                Some(r)
            },
            None => None,
        }
    }

    /// Number of members.
    pub fn len(&self) -> (r: usize)
        ensures
            r == self@.len(),
    {
        self.entries.len()
    }

    /// Key of the member at `i`, in order.
    pub fn key_at(&self, i: usize) -> (r: &str)
        requires
            i < self@.len(),
        ensures
            r@ == self@[i as int].0,
    {
        self.entries[i].0.as_str()
    }

    /// Value of the member at `i`, in order.
    pub fn value_at(&self, i: usize) -> (r: &JsonValue)
        requires
            i < self@.len(),
        ensures
            r@ == self@[i as int].1,
    {
        &self.entries[i].1
    }

    fn position(&self, key: &str) -> (r: usize)
        ensures
            r == key_position(self@, key@),
            r <= self@.len(),
    {
        let mut i: usize = 0;
        while i < self.entries.len()
            invariant
                i <= self.entries.len(),
                forall|j: int| 0 <= j < i ==> text_before(#[trigger] self@[j].0, key@),
            decreases self.entries.len() - i,
        {
            if !text_precedes(self.entries[i].0.as_str(), key) {
                proof {
                    lemma_key_position_is(self@, key@, i as nat);
                }
                return i;
            }
            assert(self@[i as int].0 == self.entries@[i as int].0@);
            i += 1;
        }
        proof {
            lemma_key_position_is(self@, key@, i as nat);
        }
        i
    }

    /// The value of `key`.
    pub fn get(&self, key: &str) -> (r: Option<&JsonValue>)
        ensures
            match (r, member(self@, key@)) {
                (Some(got), Some(want)) => got@ == want,
                (None, None) => true,
                _ => false,
            },
    {
        let p: usize = self.position(key);
        if p < self.entries.len() && self.entries[p].0.as_str().eq(key) {
            Some(&self.entries[p].1)
        } else {
            None
        }
    }

    /// Gives `key` the value `value`.
    pub fn insert(&mut self, key: &str, value: JsonValue)
        ensures
            final(self)@ == with_member(old(self)@, key@, value@),
    {
        proof {
            use_type_invariant(&*self);
            lemma_key_position(self@, key@);
            lemma_with_member(self@, key@, value@, key@);
        }
        let p: usize = self.position(key);
        let mut entries: Vec<(String, JsonValue)> = Vec::new();
        std::mem::swap(&mut entries, &mut self.entries);
        let ghost before = members(entries@);
        let ghost fresh = value@;
        if p < entries.len() && entries[p].0.as_str().eq(key) {
            entries.remove(p);
            entries.insert(p, (key.to_owned(), value));
            assert(members(entries@) =~= before.update(p as int, (key@, fresh)));
        } else {
            entries.insert(p, (key.to_owned(), value));
            assert(members(entries@) =~= before.insert(p as int, (key@, fresh)));
        }
        self.entries = entries;
    }

    /// Takes `key` out, if it is there.
    pub fn remove(&mut self, key: &str)
        ensures
            final(self)@ == without_member(old(self)@, key@),
    {
        proof {
            use_type_invariant(&*self);
            lemma_key_position(self@, key@);
            lemma_without_member(self@, key@, key@);
        }
        let p: usize = self.position(key);
        let mut entries: Vec<(String, JsonValue)> = Vec::new();
        std::mem::swap(&mut entries, &mut self.entries);
        let ghost before = members(entries@);
        if p < entries.len() && entries[p].0.as_str().eq(key) {
            entries.remove(p);
            assert(members(entries@) =~= before.remove(p as int));
        }
        self.entries = entries;
    }

    /// An object with the same members.
    pub fn copy(&self) -> (r: JsonObject)
        ensures
            r@ == self@,
    {
        proof {
            use_type_invariant(self);
        }
        let mut entries: Vec<(String, JsonValue)> = Vec::new();
        let mut i: usize = 0;
        while i < self.entries.len()
            invariant
                i <= self.entries.len(),
                members(entries@) == self@.take(i as int),
            decreases self.entries.len() - i,
        {
            let ghost before = members(entries@);
            entries.push((self.entries[i].0.clone(), self.entries[i].1.copy()));
            assert(members(entries@) =~= before.push(self@[i as int]));
            i += 1;
            assert(members(entries@) =~= self@.take(i as int));
        }
        assert(members(entries@) =~= self@);
        JsonObject { entries }
    }

    /// The object in compact text.
    pub fn to_json(&self) -> (r: String)
        ensures
            r@ == object_text(self@),
    {
        write_object(self.entries.as_slice())
    }

    /// True if the two objects have the same keys with equal values.
    pub fn same_as(&self, other: &JsonObject) -> (r: bool)
        ensures
            r == object_equal(self@, other@),
    {
        if self.entries.len() != other.entries.len() {
            return false;
        }
        let mut i: usize = 0;
        while i < self.entries.len()
            invariant
                self.entries.len() == other.entries.len(),
                i <= self.entries.len(),
                forall|j: int|
                    #![trigger self@[j]]
                    #![trigger other@[j]]
                    0 <= j < i ==> self@[j].0 == other@[j].0 && json_equal(self@[j].1, other@[j].1),
            decreases self.entries.len() - i,
        {
            assert(self@[i as int] == (self.entries@[i as int].0@, self.entries@[i as int].1@));
            assert(other@[i as int] == (other.entries@[i as int].0@, other.entries@[i as int].1@));
            if !self.entries[i].0.as_str().eq(other.entries[i].0.as_str())
                || !self.entries[i].1.same_as(&other.entries[i].1) {
                return false;
            }
            i += 1;
        }
        true
    }
}

/// Keys are compared as JSON: what is equal is equal both ways and to itself,
/// whatever the order of arrival, and values of different kinds never are. Numbers
/// are equal where they are written alike, and the two zeros are equal.
pub proof fn lemma_json_equality(a: JsonView, b: JsonView, c: JsonView)
    ensures
        json_equal(a, a),
        json_equal(a, b) == json_equal(b, a),
        json_equal(a, b) && json_equal(b, c) ==> json_equal(a, c),
        a is Text && b is Number ==> !json_equal(a, b),
        a is Bool && b is Number ==> !json_equal(a, b),
        a is Null && !(b is Null) ==> !json_equal(a, b),
        !(a is Number && b is Number) ==> (json_equal(a, b) <==> a == b),
        a is Number && b is Number && a->Number_text == b->Number_text ==> json_equal(a, b),
        a is Number && b is Number && a->Number_text == "0.0"@ ==> (json_equal(a, b)
            <==> b->Number_text == "0.0"@ || b->Number_text == "-0.0"@),
        a is Number && b is Number && a->Number_text != "0.0"@ && a->Number_text != "-0.0"@ ==> (
        json_equal(a, b) <==> a->Number_text == b->Number_text),
{
}

/// Two ordered objects are equal exactly where they have the same keys, each with
/// an equal value.
pub proof fn lemma_object_equality(
    a: Seq<(Seq<char>, JsonView)>,
    b: Seq<(Seq<char>, JsonView)>,
    key: Seq<char>,
)
    requires
        keys_ascend(a),
        keys_ascend(b),
        object_equal(a, b),
    ensures
        object_equal(b, a),
        match (member(a, key), member(b, key)) {
            (Some(x), Some(y)) => json_equal(x, y),
            (None, None) => true,
            _ => false,
        },
{
    assert forall|i: int|
        #![trigger a[i]]
        #![trigger b[i]]
        0 <= i < b.len() implies b[i].0 == a[i].0 && json_equal(b[i].1, a[i].1) by {
        assert(a[i].0 == b[i].0);
    }
    lemma_key_position(a, key);
    lemma_key_position(b, key);
    let p = key_position(a, key);
    assert forall|i: int| 0 <= i < p implies text_before(#[trigger] b[i].0, key) by {
        assert(a[i].0 == b[i].0);
        assert(text_before(a[i].0, key));
    }
    if p < a.len() {
        assert(a[p as int].0 == b[p as int].0);
    }
    lemma_key_position_is(b, key, p);
}

} // verus!
