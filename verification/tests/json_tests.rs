//! Tests for the JSON codec: parsing, typed retrieval, serialization,
//! and concrete round trips.

use tusk_rs::json::{JsonArray, JsonObject, JsonParseError, ToJson};

#[test]
fn parse_object_with_escaped_quote_and_int() {
    let o = JsonObject::from_string("{\"name\": \"A \\\"B\\\"\", \"age\": 5}");
    let name: String = o.get("name").unwrap();
    assert_eq!(name, "A \"B\"");
    let age: i32 = o.get("age").unwrap();
    assert_eq!(age, 5);
}

#[test]
fn missing_key_is_not_found() {
    let o = JsonObject::from_string("{\"a\": 1}");
    let r: Result<i32, JsonParseError> = o.get("b");
    match r {
        Err(JsonParseError::NotFound(k)) => assert_eq!(k, "b"),
        _ => panic!("expected a not-found error"),
    }
}

#[test]
fn wrong_type_is_invalid_type() {
    let o = JsonObject::from_string("{\"a\": \"text\"}");
    let r: Result<i32, JsonParseError> = o.get("a");
    match r {
        Err(JsonParseError::InvalidType(k, t)) => {
            assert_eq!(k, "a");
            assert_eq!(t, "i32");
        }
        _ => panic!("expected an invalid-type error"),
    }
}

#[test]
fn string_round_trip_with_escapes() {
    let mut o = JsonObject::empty();
    o.set("s", "line\nwith\ttabs \\ and \"quotes\"".to_string());
    let back: String = o.get("s").unwrap();
    assert_eq!(back, "line\nwith\ttabs \\ and \"quotes\"");
}

#[test]
fn int_round_trips() {
    let mut o = JsonObject::empty();
    o.set("a", -2147483648i32);
    o.set("b", 9223372036854775807i64);
    o.set("c", 0i32);
    let a: i32 = o.get("a").unwrap();
    let b: i64 = o.get("b").unwrap();
    let c: i32 = o.get("c").unwrap();
    assert_eq!(a, -2147483648);
    assert_eq!(b, 9223372036854775807);
    assert_eq!(c, 0);
}

#[test]
fn bool_round_trips() {
    let mut o = JsonObject::empty();
    o.set("t", true);
    o.set("f", false);
    let t: bool = o.get("t").unwrap();
    let f: bool = o.get("f").unwrap();
    assert!(t);
    assert!(!f);
}

#[test]
fn option_round_trips() {
    let mut o = JsonObject::empty();
    o.set("present", Some(7i32));
    o.set("absent", Option::<i32>::None);
    let p: Option<i32> = o.get("present").unwrap();
    let a: Option<i32> = o.get("absent").unwrap();
    let missing: Option<i32> = o.get("nothing-at-all").unwrap();
    assert_eq!(p, Some(7));
    assert_eq!(a, None);
    assert_eq!(missing, None);
}

#[test]
fn vec_round_trips() {
    let mut o = JsonObject::empty();
    o.set("xs", vec![1i32, 2, 3]);
    let xs: Vec<i32> = o.get("xs").unwrap();
    assert_eq!(xs, vec![1, 2, 3]);
}

#[test]
fn nested_object_round_trips() {
    let mut inner = JsonObject::empty();
    inner.set("x", 10i32);
    let mut outer = JsonObject::empty();
    outer.set("inner", inner);
    let text = outer.to_json();
    let parsed = JsonObject::from_string(&text);
    let inner2: JsonObject = parsed.get("inner").unwrap();
    let x: i32 = inner2.get("x").unwrap();
    assert_eq!(x, 10);
}

#[test]
fn whole_object_round_trips_through_text() {
    let mut o = JsonObject::empty();
    o.set("name", "A \"B\"".to_string());
    o.set("age", 5i32);
    o.set("ok", true);
    let text = o.to_json();
    let p = JsonObject::from_string(&text);
    let name: String = p.get("name").unwrap();
    let age: i32 = p.get("age").unwrap();
    let ok: bool = p.get("ok").unwrap();
    assert_eq!(name, "A \"B\"");
    assert_eq!(age, 5);
    assert!(ok);
}

#[test]
fn array_parse_and_map() {
    let a = JsonArray::from_string("[1, 2, 3]");
    let xs: Vec<i32> = a.map().unwrap();
    assert_eq!(xs, vec![1, 2, 3]);
    let first: i32 = a.get(0).unwrap();
    assert_eq!(first, 1);
}

#[test]
fn array_map_propagates_failures() {
    let a = JsonArray::from_string("[1, \"two\", 3]");
    let r: Result<Vec<i32>, JsonParseError> = a.map();
    assert!(r.is_err());
    let kept: Vec<i32> = a.map_drop();
    assert_eq!(kept, vec![1, 3]);
}

#[test]
fn array_of_strings_round_trips() {
    let a = JsonArray::from_string("[\"x\", \"y\"]");
    let xs: Vec<String> = a.map().unwrap();
    assert_eq!(xs, vec!["x".to_string(), "y".to_string()]);
    let text = a.to_json();
    let b = JsonArray::from_string(&text);
    let ys: Vec<String> = b.map().unwrap();
    assert_eq!(ys, xs);
}

#[test]
fn empty_object_and_array_serialize() {
    let o = JsonObject::empty();
    assert_eq!(o.to_json(), "{}");
    let a = JsonArray::empty();
    assert_eq!(a.to_json(), "[]");
}

#[test]
fn duplicate_keys_last_write_wins() {
    let o = JsonObject::from_string("{\"a\": 1, \"a\": 2}");
    let a: i32 = o.get("a").unwrap();
    assert_eq!(a, 2);
}

#[test]
fn nested_array_in_object() {
    let o = JsonObject::from_string("{\"xs\": [4, 5], \"tag\": \"v\"}");
    let xs: Vec<i32> = o.get("xs").unwrap();
    assert_eq!(xs, vec![4, 5]);
    let tag: String = o.get("tag").unwrap();
    assert_eq!(tag, "v");
}

#[test]
fn braces_inside_strings_do_not_confuse_nesting() {
    let o = JsonObject::from_string("{\"obj\": {\"s\": \"}{\", \"n\": 1}, \"after\": 2}");
    let inner: JsonObject = o.get("obj").unwrap();
    let s: String = inner.get("s").unwrap();
    assert_eq!(s, "}{");
    let after: i32 = o.get("after").unwrap();
    assert_eq!(after, 2);
}

#[test]
fn deeply_nested_values_round_trip() {
    let mut leaf = JsonObject::empty();
    leaf.set("s", "q\"q".to_string());
    leaf.set("n", -3i32);
    let mut middle = JsonObject::empty();
    middle.set("leaf", leaf);
    middle.set("xs", vec![1i32, 2]);
    let mut top = JsonObject::empty();
    top.set("middle", middle);
    top.set("flag", true);
    let text = top.to_json();
    let p = JsonObject::from_string(&text);
    let m: JsonObject = p.get("middle").unwrap();
    let l: JsonObject = m.get("leaf").unwrap();
    let s: String = l.get("s").unwrap();
    let n: i32 = l.get("n").unwrap();
    let xs: Vec<i32> = m.get("xs").unwrap();
    let flag: bool = p.get("flag").unwrap();
    assert_eq!(s, "q\"q");
    assert_eq!(n, -3);
    assert_eq!(xs, vec![1, 2]);
    assert!(flag);
}

#[test]
fn primitive_serializers_render_expected_text() {
    assert_eq!((-42i32).to_json(), "-42");
    assert_eq!(42u32.to_json(), "42");
    assert_eq!(18446744073709551615u64.to_json(), "18446744073709551615");
    assert_eq!(true.to_json(), "true");
    assert_eq!("a\"b".to_string().to_json(), "\"a\\\"b\"");
    assert_eq!(Option::<i32>::None.to_json(), "null");
    assert_eq!(vec![1i32, 2].to_json(), "[1,2]");
}
