use rustic_hal::resource::HalResource;
use rustic_hal::{HalError, HalLink, JsonValue};

fn payload(pairs: Vec<(&str, JsonValue)>) -> JsonValue {
    JsonValue::Obj(
        pairs
            .into_iter()
            .map(|(k, v)| (k.to_string(), v))
            .collect(),
    )
}

#[test]
fn payload_only_resource_serializes_to_its_payload() {
    let f = HalResource::new(payload(vec![("a", JsonValue::Str("x".to_string()))]));
    assert_eq!(f.serialize(), r#"{"a":"x"}"#);
}

#[test]
fn non_object_payload_is_dropped_at_construction() {
    let f = HalResource::new(JsonValue::Int(7));
    assert_eq!(f.serialize(), "{}");
    match f.get_data::<i64>() {
        Err(HalError::Custom(m)) => assert_eq!(m, "No value"),
        _ => panic!("expected a domain error"),
    }
}

#[test]
fn round_trip_preserves_links_embedded_and_data() {
    let child = HalResource::new(payload(vec![("kind", JsonValue::Str("child".to_string()))]))
        .with_link("self", "https://api.test/c/1");
    let f = HalResource::new(payload(vec![
        ("a", JsonValue::Str("Test".to_string())),
        ("n", JsonValue::Int(-42)),
    ]))
    .with_link("self", "https://api.test/r")
    .with_link("next", "https://api.test/r?page=2")
    .with_resource("child", child);
    let text = f.serialize();
    let back = HalResource::deserialize(&text).unwrap();
    assert_eq!(back.serialize(), text);
    assert_eq!(
        back.get_link("next"),
        Some(&HalLink::new("https://api.test/r?page=2"))
    );
    assert_eq!(back.get_extra_data::<i64>("n").unwrap(), -42);
}

#[test]
fn missing_key_gives_a_domain_error() {
    let source = r#"{"_links":{"self":{"href":"https://www.test.com"}},"a":"1"}"#;
    let hal = HalResource::deserialize(source).unwrap();
    match hal.get_extra_data::<i32>("missing") {
        Err(HalError::Custom(m)) => assert_eq!(m, "Key missing missing in payload"),
        _ => panic!("expected a domain error"),
    }
}

#[test]
fn wrong_type_gives_a_json_error() {
    let source = r#"{"a":"123"}"#;
    let hal = HalResource::deserialize(source).unwrap();
    assert!(matches!(
        hal.get_extra_data::<i32>("a"),
        Err(HalError::Json(_))
    ));
}

#[test]
fn equality_is_self_href_only() {
    let a = HalResource::new(payload(vec![("x", JsonValue::Int(1))]))
        .with_link("self", "https://api.test/same");
    let b = HalResource::new(payload(vec![("y", JsonValue::Int(2))]))
        .with_link("self", "https://api.test/same");
    let c = HalResource::new(JsonValue::Null).with_link("self", "https://api.test/other");
    let d = HalResource::new(JsonValue::Null);
    let e = HalResource::new(payload(vec![("z", JsonValue::Bool(true))]));
    assert!(a == b);
    assert!(a != c);
    assert!(d == e);
    assert!(a != d);
}

#[test]
fn get_links_returns_all_links_in_insertion_order() {
    let f = HalResource::new(JsonValue::Null)
        .with_link("item", "https://api.test/1")
        .with_link("item", "https://api.test/2");
    let links = f.get_links("item").unwrap();
    assert_eq!(links.len(), 2);
    assert_eq!(links[0].href, "https://api.test/1");
    assert_eq!(links[1].href, "https://api.test/2");
    assert!(f.get_links("absent").is_none());
}

#[test]
fn deserialize_rejects_invalid_json() {
    assert!(matches!(
        HalResource::deserialize("{not json"),
        Err(HalError::Json(_))
    ));
    assert!(matches!(
        HalResource::deserialize(r#"[1,2]"#),
        Err(HalError::Json(_))
    ));
    assert!(matches!(
        HalResource::deserialize(r#"{"_links":7}"#),
        Err(HalError::Json(_))
    ));
}

#[test]
fn forced_array_flag_is_not_part_of_the_wire_format() {
    let r = HalResource::new(JsonValue::Null).with_curie("c", "https://x/{y}");
    let text = r.serialize();
    assert_eq!(
        text,
        r#"{"_links":{"curies":[{"href":"https://x/{y}","templated":true,"name":"c"}]}}"#
    );
    let back = HalResource::deserialize(&text).unwrap();
    assert_eq!(
        back.serialize(),
        r#"{"_links":{"curies":{"href":"https://x/{y}","templated":true,"name":"c"}}}"#
    );
}

#[test]
fn reserved_sections_deserialize_from_any_member_order() {
    let source = r#"{"z":1,"_embedded":{"kid":{"a":"x"}},"_links":{"self":{"href":"u"}}}"#;
    let hal = HalResource::deserialize(source).unwrap();
    assert_eq!(hal.get_self(), Some(&HalLink::new("u")));
    assert_eq!(hal.get_extra_data::<i64>("z").unwrap(), 1);
    assert_eq!(hal.serialize(), r#"{"_links":{"self":{"href":"u"}},"_embedded":{"kid":{"a":"x"}},"z":1}"#);
}
