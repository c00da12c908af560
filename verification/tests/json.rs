//! JSON values and objects.

use haex_crdt::json::{write_object, JsonObject, JsonValue};

fn json(s: &str) -> JsonValue {
    JsonValue::parse(s).unwrap()
}

#[test]
fn values_are_read_by_kind() {
    assert!(matches!(json("null"), JsonValue::Null));
    assert!(matches!(json(" true "), JsonValue::Bool(true)));
    assert!(matches!(json("\"a\\n\""), JsonValue::Text(t) if t == "a\n"));
    assert!(matches!(json("-7"), JsonValue::Number { integer: Some(-7), .. }));
    assert!(matches!(json("1.5"), JsonValue::Number { integer: None, text } if text == "1.5"));
    assert!(
        matches!(json("18446744073709551615"), JsonValue::Number { integer: None, text } if text == "18446744073709551615")
    );
    assert!(matches!(json("[1, 2]"), JsonValue::Composite(t) if t == "[1,2]"));
    assert!(matches!(json("{\"b\": 1, \"a\": 2}"), JsonValue::Composite(t) if t == "{\"a\":2,\"b\":1}"));
    assert!(JsonValue::parse("{").is_none());
    assert!(JsonValue::parse("").is_none());
}

#[test]
fn values_are_written_in_compact_text() {
    for s in ["null", "false", "12", "1.5", "\"q\\\"\"", "[1,{\"a\":null}]"] {
        assert_eq!(json(s).to_json(), s);
    }
    assert_eq!(json("{ \"b\" : 1 , \"a\" : [ ] }").to_json(), "{\"a\":[],\"b\":1}");
}

#[test]
fn equality_is_by_value() {
    assert!(json("{\"b\":1,\"a\":2}").same_as(&json("{ \"a\": 2, \"b\": 1 }")));
    assert!(!json("1").same_as(&json("\"1\"")));
    assert!(!json("1").same_as(&json("1.0")));
    assert!(json("0.0").same_as(&json("-0.0")));
    assert!(json("\"a\"").copy().same_as(&json("\"a\"")));
}

#[test]
fn objects_keep_their_keys_in_order() {
    let mut o = JsonObject::empty();
    o.insert("b", json("1"));
    o.insert("a", json("2"));
    o.insert("b", json("3"));
    assert_eq!(o.len(), 2);
    assert_eq!(o.key_at(0), "a");
    assert!(o.value_at(1).same_as(&json("3")));
    assert_eq!(o.to_json(), "{\"a\":2,\"b\":3}");
    o.remove("a");
    o.remove("nothing");
    assert!(o.get("a").is_none());
    assert_eq!(o.to_json(), "{\"b\":3}");
    assert_eq!(JsonObject::empty().to_json(), "{}");
}

#[test]
fn an_object_that_was_written_reads_back() {
    let mut o = JsonObject::empty();
    o.insert("title", json("\"2/ab\""));
    o.insert("body \"quoted\"", json("\"1/ab\""));
    let back = JsonObject::parse(&o.to_json()).unwrap();
    assert!(back.same_as(&o));
    assert!(back.copy().same_as(&back));
}

#[test]
fn a_repeated_key_has_its_last_value() {
    let o = JsonObject::parse("{\"a\":1,\"a\":2}").unwrap();
    assert_eq!(o.to_json(), "{\"a\":2}");
    assert!(JsonObject::parse("[1]").is_none());
    assert!(JsonObject::parse("1").is_none());
}

#[test]
fn members_are_written_in_the_given_order() {
    let entries = vec![
        ("z".to_string(), json("1")),
        ("a".to_string(), JsonValue::Text("t".to_string())),
    ];
    assert_eq!(write_object(&entries), "{\"z\":1,\"a\":\"t\"}");
    assert_eq!(write_object(&[]), "{}");
}
