use rustic_hal::json::{FromJson, ToJson};
use rustic_hal::parse::parse_json;
use rustic_hal::text::json_to_string;
use rustic_hal::{JsonValue, OneOrMany};

fn boh_json(oom: &OneOrMany<String>) -> JsonValue {
    JsonValue::Obj(vec![("oom".to_string(), oom.to_json())])
}

#[test]
fn ensure_one_object_gets_serialized_as_one() {
    let oom: OneOrMany<String> = OneOrMany::new().with(&"test".to_owned());
    assert_eq!(json_to_string(&boh_json(&oom)), r#"{"oom":"test"}"#);
}

#[test]
fn ensure_two_objects_get_serialized_as_array() {
    let oom: OneOrMany<String> = OneOrMany::new()
        .with(&"test".to_owned())
        .with(&"test2".to_owned());
    assert_eq!(json_to_string(&boh_json(&oom)), r#"{"oom":["test","test2"]}"#);
}

#[test]
fn ensure_array_gets_deserialized() {
    let s = r#"{"oom":["test","test2"]}"#;
    let v = parse_json(s).unwrap();
    let inner = v.get("oom").unwrap();
    let oom = OneOrMany::<String>::from_json(inner).unwrap();
    assert_eq!(2, oom.len());
    assert_eq!("test", oom.many()[0]);
    assert_eq!("test2", oom.many()[1]);
}

#[test]
fn forced_singleton_serializes_as_array() {
    let oom: OneOrMany<String> = OneOrMany::new().force_many().with(&"test".to_owned());
    assert_eq!(json_to_string(&boh_json(&oom)), r#"{"oom":["test"]}"#);
}

#[test]
fn bare_scalar_deserializes_as_singleton() {
    let v = parse_json(r#""solo""#).unwrap();
    let oom = OneOrMany::<String>::from_json(&v).unwrap();
    assert_eq!(1, oom.len());
    assert_eq!("solo", oom.many()[0]);
    assert_eq!(oom.single(), Some(&"solo".to_string()));
}

#[test]
fn empty_unforced_serializes_as_null() {
    let oom: OneOrMany<String> = OneOrMany::new();
    assert!(oom.is_empty());
    assert_eq!(json_to_string(&boh_json(&oom)), r#"{"oom":null}"#);
}
