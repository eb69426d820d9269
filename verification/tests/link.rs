use rustic_hal::json::FromJson;
use rustic_hal::parse::parse_json;
use rustic_hal::HalLink;

#[test]
fn ensure_href_gets_deserialized() {
    let v = parse_json(r#"{"href":"https://test.com"}"#).unwrap();
    let link = HalLink::from_json(&v).unwrap();
    assert_eq!(link.href, "https://test.com");
}

#[test]
fn ensure_templated_gets_deserialized() {
    let v = parse_json(r#"{"href":"https://test.com","templated":true}"#).unwrap();
    let link = HalLink::from_json(&v).unwrap();
    assert_eq!(link.href, "https://test.com");
    assert_eq!(link.templated, true);
}

#[test]
fn ensure_full_link_gets_deserialized() {
    let v = parse_json(
        r#"
{
   "href": "https://www.google.com",
   "name": "google",
   "templated": false,
   "hreflang": "en-US",
   "deprecation": "https://www.google.com/deprecation",
   "title": "Google Search"
}"#,
    )
    .unwrap();
    let link = HalLink::from_json(&v).unwrap();

    assert_eq!(link.href, "https://www.google.com");
    assert_eq!(link.name, Some("google".to_string()));
    assert_eq!(link.templated, false);
    assert_eq!(link.hreflang, Some("en-US".to_string()));
    assert_eq!(
        link.deprecation,
        Some("https://www.google.com/deprecation".to_string())
    );
    assert_eq!(link.title, Some("Google Search".to_string()));
}

#[test]
fn link_builders_and_getters_round_trip() {
    let link = HalLink::new("https://api.test/x")
        .templated(true)
        .with_media_type("application/hal+json")
        .with_deprecation("https://api.test/gone")
        .with_name("x")
        .with_profile("https://api.test/profile")
        .with_title("An X")
        .with_hreflang("de");
    assert_eq!(link.media_type(), Some("application/hal+json".to_string()));
    assert_eq!(link.deprecation(), Some("https://api.test/gone".to_string()));
    assert_eq!(link.name(), Some("x".to_string()));
    assert_eq!(link.profile(), Some("https://api.test/profile".to_string()));
    assert_eq!(link.title(), Some("An X".to_string()));
    assert_eq!(link.hreflang(), Some("de".to_string()));
}

#[test]
fn link_equality_is_href_only() {
    let a = HalLink::new("https://test.com").with_title("a title");
    let b = HalLink::new("https://test.com").with_name("a name");
    let c = HalLink::new("https://other.com");
    assert_eq!(a, b);
    assert!(a != c);
}

#[test]
fn link_with_missing_href_defaults_to_empty() {
    let v = parse_json(r#"{"title":"no target"}"#).unwrap();
    let link = HalLink::from_json(&v).unwrap();
    assert_eq!(link.href, "");
    assert_eq!(link.title, Some("no target".to_string()));
}

#[test]
fn link_with_non_boolean_templated_is_rejected() {
    let v = parse_json(r#"{"href":"https://test.com","templated":"yes"}"#).unwrap();
    assert!(HalLink::from_json(&v).is_err());
}
