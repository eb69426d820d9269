use rustic_hal::parse::parse_json;
use rustic_hal::text::json_to_string;
use rustic_hal::{HalError, JsonValue};

#[test]
fn scalars_round_trip_through_text() {
    for text in ["null", "true", "false", "0", "-1", "123456", r#""hi""#] {
        let v = parse_json(text).unwrap();
        assert_eq!(json_to_string(&v), text);
    }
}

#[test]
fn extreme_integers_round_trip() {
    let v = parse_json("9223372036854775807").unwrap();
    assert_eq!(json_to_string(&v), "9223372036854775807");
    let v = parse_json("-9223372036854775808").unwrap();
    assert_eq!(json_to_string(&v), "-9223372036854775808");
    assert!(matches!(
        parse_json("9223372036854775808"),
        Err(HalError::Json(_))
    ));
}

#[test]
fn malformed_numbers_are_rejected() {
    assert!(parse_json("0123").is_err());
    assert!(parse_json("-").is_err());
    assert!(parse_json("1.5").is_err());
    assert!(parse_json("1e3").is_err());
}

#[test]
fn string_escapes_decode_and_reencode() {
    let v = parse_json(r#""a\"b\\c\/d\n\tA""#).unwrap();
    match &v {
        JsonValue::Str(s) => assert_eq!(s, "a\"b\\c/d\n\tA"),
        _ => panic!("expected a string"),
    }
    assert_eq!(json_to_string(&v), r#""a\"b\\c/d\n\tA""#);
}

#[test]
fn control_characters_escape_as_hex() {
    let v = JsonValue::Str("\u{0001}".to_string());
    assert_eq!(json_to_string(&v), r#""\u0001""#);
}

#[test]
fn surrogate_escapes_are_rejected() {
    assert!(parse_json(r#""\ud800""#).is_err());
}

#[test]
fn whitespace_is_allowed_around_tokens() {
    let v = parse_json(" { \"a\" : [ 1 , 2 ] , \"b\" : { } } ").unwrap();
    assert_eq!(json_to_string(&v), r#"{"a":[1,2],"b":{}}"#);
}

#[test]
fn object_keys_are_sorted_and_deduplicated() {
    let v = parse_json(r#"{"b":1,"a":2,"b":3}"#).unwrap();
    assert_eq!(json_to_string(&v), r#"{"a":2,"b":3}"#);
    assert!(v.is_object());
    assert!(matches!(v.get("b"), Some(JsonValue::Int(3))));
    assert!(v.get("c").is_none());
}

#[test]
fn trailing_garbage_is_rejected() {
    assert!(parse_json("null x").is_err());
    assert!(parse_json("").is_err());
    assert!(parse_json("[1,]").is_err());
    assert!(parse_json(r#"{"a":}"#).is_err());
}

#[test]
fn nested_structures_round_trip() {
    let text = r#"{"list":[{"x":null},[true,false],"s"],"n":-7}"#;
    let v = parse_json(text).unwrap();
    assert_eq!(json_to_string(&v), text);
}
