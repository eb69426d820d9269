use rustic_hal::resource::HalResource;
use rustic_hal::{HalLink, JsonValue};

fn test1(a: &str) -> JsonValue {
    JsonValue::Obj(vec![("a".to_string(), JsonValue::Str(a.to_string()))])
}

#[test]
fn check_data_gets_serialized() {
    let f = HalResource::new(test1("Test"));
    assert_eq!(f.serialize(), r#"{"a":"Test"}"#);
}

#[test]
fn check_link_gets_serialized_without_empty_attributes() {
    let f = HalResource::new(test1("Test")).with_link("self", "https://self.com");
    assert_eq!(
        f.serialize(),
        r#"{"_links":{"self":{"href":"https://self.com"}},"a":"Test"}"#
    );
}

#[test]
fn check_link_arrays_get_serialized() {
    let f = HalResource::new(test1("Test"))
        .with_link("self", "https://self.com")
        .with_link("alfa", "https://self.com/beta")
        .with_link("alfa", "https://self.com/gamma");
    assert_eq!(
        f.serialize(),
        r#"{"_links":{"alfa":[{"href":"https://self.com/beta"},{"href":"https://self.com/gamma"}],"self":{"href":"https://self.com"}},"a":"Test"}"#
    );
}

#[test]
fn check_links_get_fully_serialized() {
    let f = HalResource::new(test1("Test")).with_link(
        "self",
        HalLink::new("https://self.com")
            .with_title("Self Link")
            .with_name("moi")
            .with_deprecation("http://explain.com/why"),
    );
    assert_eq!(
        f.serialize(),
        "{\"_links\":{\"self\":{\"href\":\"https://self.com\",\"deprecation\":\"http://explain.com/why\",\"name\":\"moi\",\"title\":\"Self Link\"}},\"a\":\"Test\"}"
    );
}

#[test]
fn check_embedded_resource_gets_serialized() {
    let r1 = HalResource::new(test1("Test2")).with_link("self", "https://self2.com");
    let f = HalResource::new(test1("Test"))
        .with_link("self", "https://self.com")
        .with_resource("child", r1);
    let target = "{\"_links\":{\"self\":{\"href\":\"https://self.com\"}},\"_embedded\":{\"child\":{\"_links\":{\"self\":{\"href\":\"https://self2.com\"}},\"a\":\"Test2\"}},\"a\":\"Test\"}";
    assert_eq!(f.serialize(), target);
}

#[test]
fn check_curies_get_serialized_in_links() {
    let r1 = HalResource::new(test1("Test"))
        .with_curie("cur", "https://curie.org")
        .with_link("self", "https://self.com");
    let target = "{\"_links\":{\"curies\":[{\"href\":\"https://curie.org\",\"templated\":true,\"name\":\"cur\"}],\"self\":{\"href\":\"https://self.com\"}},\"a\":\"Test\"}";
    assert_eq!(r1.serialize(), target);
}

#[test]
fn check_simple_resource_gets_deserialized() {
    let source = r#"{ "_links":{"self":{"href": "https://www.test.com"}}, "a": "123"}"#;
    let hal = HalResource::deserialize(source).unwrap();
    assert_eq!(hal.get_self(), Some(&HalLink::new("https://www.test.com")));
}

#[test]
fn check_extra_fields_get_serialized() {
    let f = HalResource::new(test1("Test"))
        .with_extra_data("int", JsonValue::Int(123))
        .with_extra_data("string", JsonValue::Str("Hello!?".to_string()));
    assert_eq!(f.serialize(), r#"{"a":"Test","int":123,"string":"Hello!?"}"#);
}

#[test]
fn check_extra_fields_get_deserialized() {
    let source = r#"{ "_links":{"self":{"href": "https://www.test.com"}}, "a": "123", "b":456}"#;
    let hal = HalResource::deserialize(source).unwrap();
    assert_eq!(hal.get_extra_data::<i32>("b").unwrap(), 456);
}

#[test]
fn check_force_many_serializes_to_empty_array_if_empty_resources() {
    let resource =
        HalResource::new(JsonValue::Str("".to_string())).with_resources("empty_array", Vec::new());
    assert_eq!(resource.serialize(), r#"{"_embedded":{"empty_array":[]}}"#);
}
