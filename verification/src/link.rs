//! Hypermedia links: one link object per related resource.
//!
//! A link serializes to a JSON object whose fields appear in a fixed order:
//! `href`, `templated`, `type`, `deprecation`, `profile`, `name`, `title`,
//! `hreflang`. Only `href` is always present; `templated` appears only when
//! true, the optional fields only when set. Two links are equal exactly when
//! their `href`s are equal: the href is the link's identity, the remaining
//! metadata does not take part in comparisons.

use vstd::prelude::*;

use crate::json::{obj_view, Json, JsonValue};
use crate::order::map_get;

verus! {

/// The model of a link: its href, the `templated` flag, and the optional
/// metadata fields.
pub struct LinkV {
    pub href: Seq<char>,
    pub templated: bool,
    pub media_type: Option<Seq<char>>,
    pub deprecation: Option<Seq<char>>,
    pub name: Option<Seq<char>>,
    pub profile: Option<Seq<char>>,
    pub title: Option<Seq<char>>,
    pub hreflang: Option<Seq<char>>,
}

/// A link to a related resource, after the HAL draft's Link Object.
#[derive(Debug)]
pub struct HalLink {
    /// The target: a URI, or a URI template when `templated` is true.
    pub href: String,
    /// Whether `href` is a URI template. Considered false when absent.
    pub templated: bool,
    /// A hint at the media type expected at the target.
    pub media_type: Option<String>,
    /// Set when the link is to be removed at a future date; a URL that
    /// should explain the deprecation.
    pub deprecation: Option<String>,
    /// A secondary key for selecting links that share a relation.
    pub name: Option<String>,
    /// A URI that hints about the profile of the target resource.
    pub profile: Option<String>,
    /// A human-readable label for the link.
    pub title: Option<String>,
    /// The language of the target resource.
    pub hreflang: Option<String>,
}

pub open spec fn opt_view(o: Option<String>) -> Option<Seq<char>> {
    match o {
        Some(s) => Some(s@),
        None => None,
    }
}

impl View for HalLink {
    type V = LinkV;

    open spec fn view(&self) -> LinkV {
        LinkV {
            href: self.href@,
            templated: self.templated,
            media_type: opt_view(self.media_type),
            deprecation: opt_view(self.deprecation),
            name: opt_view(self.name),
            profile: opt_view(self.profile),
            title: opt_view(self.title),
            hreflang: opt_view(self.hreflang),
        }
    }
}

impl Clone for HalLink {
    /// A clone is equal to the original in every field.
    fn clone(&self) -> (res: Self)
        ensures
            res == *self,
    {
        HalLink {
            href: self.href.clone(),
            templated: self.templated,
            media_type: clone_opt(&self.media_type),
            deprecation: clone_opt(&self.deprecation),
            name: clone_opt(&self.name),
            profile: clone_opt(&self.profile),
            title: clone_opt(&self.title),
            hreflang: clone_opt(&self.hreflang),
        }
    }
}

/// Clone an optional string, field for field.
fn clone_opt(o: &Option<String>) -> (r: Option<String>)
    ensures
        r == *o,
{
    match o {
        Some(s) => Some(s.clone()),
        None => None,
    }
}

impl HalLink {
    /// A link to `href`: not templated, no metadata.
    pub fn new(href: &str) -> (r: HalLink)
        ensures
            r@ == LinkV::plain(href@),
    {
        HalLink {
            href: href.to_owned(),
            templated: false,
            media_type: None,
            deprecation: None,
            name: None,
            profile: None,
            title: None,
            hreflang: None,
        }
    }

    /// Set the `templated` flag.
    pub fn templated(self, templated: bool) -> (r: Self)
        ensures
            r@ == (LinkV { templated, ..self@ }),
    {
        HalLink { templated, ..self }
    }

    /// Set the `type` field.
    pub fn with_media_type(self, media_type: &str) -> (r: Self)
        ensures
            r@ == (LinkV { media_type: Some(media_type@), ..self@ }),
    {
        HalLink { media_type: Some(media_type.to_owned()), ..self }
    }

    /// The `type` field.
    pub fn media_type(&self) -> (r: Option<String>)
        ensures
            opt_view(r) == self@.media_type,
    {
        clone_opt(&self.media_type)
    }

    /// Set the `deprecation` field.
    pub fn with_deprecation(self, deprecation: &str) -> (r: Self)
        ensures
            r@ == (LinkV { deprecation: Some(deprecation@), ..self@ }),
    {
        HalLink { deprecation: Some(deprecation.to_owned()), ..self }
    }

    /// The `deprecation` field.
    pub fn deprecation(&self) -> (r: Option<String>)
        ensures
            opt_view(r) == self@.deprecation,
    {
        clone_opt(&self.deprecation)
    }

    /// Set the `name` field.
    pub fn with_name(self, name: &str) -> (r: Self)
        ensures
            r@ == (LinkV { name: Some(name@), ..self@ }),
    {
        HalLink { name: Some(name.to_owned()), ..self }
    }

    /// The `name` field.
    pub fn name(&self) -> (r: Option<String>)
        ensures
            opt_view(r) == self@.name,
    {
        clone_opt(&self.name)
    }

    /// Set the `profile` field.
    pub fn with_profile(self, profile: &str) -> (r: Self)
        ensures
            r@ == (LinkV { profile: Some(profile@), ..self@ }),
    {
        HalLink { profile: Some(profile.to_owned()), ..self }
    }

    /// The `profile` field.
    pub fn profile(&self) -> (r: Option<String>)
        ensures
            opt_view(r) == self@.profile,
    {
        clone_opt(&self.profile)
    }

    /// Set the `title` field.
    pub fn with_title(self, title: &str) -> (r: Self)
        ensures
            r@ == (LinkV { title: Some(title@), ..self@ }),
    {
        HalLink { title: Some(title.to_owned()), ..self }
    }

    /// The `title` field.
    pub fn title(&self) -> (r: Option<String>)
        ensures
            opt_view(r) == self@.title,
    {
        clone_opt(&self.title)
    }

    /// Set the `hreflang` field.
    pub fn with_hreflang(self, hreflang: &str) -> (r: Self)
        ensures
            r@ == (LinkV { hreflang: Some(hreflang@), ..self@ }),
    {
        HalLink { hreflang: Some(hreflang.to_owned()), ..self }
    }

    /// The `hreflang` field.
    pub fn hreflang(&self) -> (r: Option<String>)
        ensures
            opt_view(r) == self@.hreflang,
    {
        clone_opt(&self.hreflang)
    }
}

impl LinkV {
    /// The model of `HalLink::new`: only the href is set.
    pub open spec fn plain(href: Seq<char>) -> LinkV {
        LinkV {
            href,
            templated: false,
            media_type: None,
            deprecation: None,
            name: None,
            profile: None,
            title: None,
            hreflang: None,
        }
    }
}

/// Two links are the same exactly when their hrefs are: the metadata is
/// immaterial to equality.
impl PartialEq for HalLink {
    fn eq(&self, other: &HalLink) -> (r: bool) {
        self.href == other.href
    }
}

impl vstd::std_specs::cmp::PartialEqSpecImpl for HalLink {
    open spec fn obeys_eq_spec() -> bool {
        true
    }

    open spec fn eq_spec(&self, other: &HalLink) -> bool {
        self.href@ == other.href@
    }
}

pub open spec fn k_href() -> Seq<char> {
    seq!['h', 'r', 'e', 'f']
}

pub open spec fn k_templated() -> Seq<char> {
    seq!['t', 'e', 'm', 'p', 'l', 'a', 't', 'e', 'd']
}

pub open spec fn k_type() -> Seq<char> {
    seq!['t', 'y', 'p', 'e']
}

pub open spec fn k_deprecation() -> Seq<char> {
    seq!['d', 'e', 'p', 'r', 'e', 'c', 'a', 't', 'i', 'o', 'n']
}

pub open spec fn k_name() -> Seq<char> {
    seq!['n', 'a', 'm', 'e']
}

pub open spec fn k_profile() -> Seq<char> {
    seq!['p', 'r', 'o', 'f', 'i', 'l', 'e']
}

pub open spec fn k_title() -> Seq<char> {
    seq!['t', 'i', 't', 'l', 'e']
}

pub open spec fn k_hreflang() -> Seq<char> {
    seq!['h', 'r', 'e', 'f', 'l', 'a', 'n', 'g']
}

/// One optional member of a link object: present exactly when set.
pub open spec fn opt_field(key: Seq<char>, v: Option<Seq<char>>) -> Seq<(Seq<char>, Json)> {
    match v {
        Some(s) => seq![(key, Json::Str(s))],
        None => Seq::empty(),
    }
}

/// The JSON object a link serializes to: `href` always; `templated` only
/// when true; each optional field only when present; in this fixed order.
pub open spec fn link_json(l: LinkV) -> Json {
    Json::Obj(
        seq![(k_href(), Json::Str(l.href))] + (if l.templated {
            seq![(k_templated(), Json::Bool(true))]
        } else {
            Seq::empty()
        }) + opt_field(k_type(), l.media_type) + opt_field(k_deprecation(), l.deprecation)
            + opt_field(k_profile(), l.profile) + opt_field(k_name(), l.name) + opt_field(
            k_title(),
            l.title,
        ) + opt_field(k_hreflang(), l.hreflang),
    )
}

impl crate::json::ToJson for HalLink {
    /// A link serializes to exactly `link_json` of its model.
    open spec fn json_of(v: LinkV) -> Json {
        link_json(v)
    }

    fn to_json(&self) -> (r: JsonValue) {
        proof {
            reveal_strlit("href");
            reveal_strlit("templated");
            reveal_strlit("type");
            reveal_strlit("deprecation");
            reveal_strlit("profile");
            reveal_strlit("name");
            reveal_strlit("title");
            reveal_strlit("hreflang");
            assert("href"@ =~= k_href());
            assert("templated"@ =~= k_templated());
            assert("type"@ =~= k_type());
            assert("deprecation"@ =~= k_deprecation());
            assert("profile"@ =~= k_profile());
            assert("name"@ =~= k_name());
            assert("title"@ =~= k_title());
            assert("hreflang"@ =~= k_hreflang());
        }
        let mut entries: Vec<(String, JsonValue)> = Vec::new();
        entries.push(("href".to_owned(), JsonValue::Str(self.href.clone())));
        let ghost seg1 = seq![(k_href(), Json::Str(self.href@))];
        proof {
            assert(obj_view(entries@) =~= seg1);
        }
        if self.templated {
            entries.push(("templated".to_owned(), JsonValue::Bool(true)));
        }
        let ghost seg2 = seg1 + (if self@.templated {
            seq![(k_templated(), Json::Bool(true))]
        } else {
            Seq::<(Seq<char>, Json)>::empty()
        });
        proof {
            assert(obj_view(entries@) =~= seg2);
        }
        push_opt_field(&mut entries, "type", &self.media_type);
        let ghost seg3 = seg2 + opt_field(k_type(), self@.media_type);
        proof {
            assert(obj_view(entries@) =~= seg3);
        }
        push_opt_field(&mut entries, "deprecation", &self.deprecation);
        let ghost seg4 = seg3 + opt_field(k_deprecation(), self@.deprecation);
        proof {
            assert(obj_view(entries@) =~= seg4);
        }
        push_opt_field(&mut entries, "profile", &self.profile);
        let ghost seg5 = seg4 + opt_field(k_profile(), self@.profile);
        proof {
            assert(obj_view(entries@) =~= seg5);
        }
        push_opt_field(&mut entries, "name", &self.name);
        let ghost seg6 = seg5 + opt_field(k_name(), self@.name);
        proof {
            assert(obj_view(entries@) =~= seg6);
        }
        push_opt_field(&mut entries, "title", &self.title);
        let ghost seg7 = seg6 + opt_field(k_title(), self@.title);
        proof {
            assert(obj_view(entries@) =~= seg7);
        }
        push_opt_field(&mut entries, "hreflang", &self.hreflang);
        let ghost seg8 = seg7 + opt_field(k_hreflang(), self@.hreflang);
        proof {
            assert(obj_view(entries@) =~= seg8);
            assert(link_json(self@)->Obj_0 =~= seg8);
        }
        JsonValue::Obj(entries)
    }
}

/// Append `(key, value)` when the optional string field is present.
fn push_opt_field(entries: &mut Vec<(String, JsonValue)>, key: &str, v: &Option<String>)
    ensures
        obj_view(final(entries)@) == obj_view(old(entries)@) + opt_field(key@, opt_view(*v)),
{
    match v {
        Some(s) => {
            let ghost before = entries@;
            entries.push((key.to_owned(), JsonValue::Str(s.clone())));
            proof {
                assert(obj_view(entries@) =~= obj_view(before) + opt_field(key@, opt_view(*v)));
            }
        },
        None => {
            proof {
                assert(obj_view(entries@) =~= obj_view(entries@) + opt_field(
                    key@,
                    opt_view(*v),
                ));
            }
        },
    }
}

/// What a link object deserializes to, if anything.
///
/// A missing `href` defaults to the empty string; a present `href` must be a
/// string. `templated` must be a boolean when present; each optional field a
/// string when present. Unknown keys are ignored. Any non-object input is
/// rejected.
pub open spec fn link_from_json(j: Json) -> Option<LinkV> {
    match j {
        Json::Obj(ps) => {
            if href_ok(ps) && bool_ok(ps, k_templated()) && str_ok(ps, k_type()) && str_ok(
                ps,
                k_deprecation(),
            ) && str_ok(ps, k_profile()) && str_ok(ps, k_name()) && str_ok(ps, k_title())
                && str_ok(ps, k_hreflang()) {
                Some(
                    LinkV {
                        href: href_of(ps),
                        templated: bool_of(ps, k_templated()),
                        media_type: str_of(ps, k_type()),
                        deprecation: str_of(ps, k_deprecation()),
                        profile: str_of(ps, k_profile()),
                        name: str_of(ps, k_name()),
                        title: str_of(ps, k_title()),
                        hreflang: str_of(ps, k_hreflang()),
                    },
                )
            } else {
                None
            }
        },
        _ => None,
    }
}

/// Whether `href` is absent or a string.
pub open spec fn href_ok(ps: Seq<(Seq<char>, Json)>) -> bool {
    match map_get(ps, k_href()) {
        None => true,
        Some(v) => v is Str,
    }
}

/// The href: the `href` member, or empty when absent.
pub open spec fn href_of(ps: Seq<(Seq<char>, Json)>) -> Seq<char> {
    match map_get(ps, k_href()) {
        Some(Json::Str(s)) => s,
        _ => Seq::empty(),
    }
}

/// Whether the member under `k` is absent or a boolean.
pub open spec fn bool_ok(ps: Seq<(Seq<char>, Json)>, k: Seq<char>) -> bool {
    match map_get(ps, k) {
        None => true,
        Some(v) => v is Bool,
    }
}

/// The boolean under `k`, or false when absent.
pub open spec fn bool_of(ps: Seq<(Seq<char>, Json)>, k: Seq<char>) -> bool {
    match map_get(ps, k) {
        Some(Json::Bool(b)) => b,
        _ => false,
    }
}

/// Whether the member under `k` is absent or a string.
pub open spec fn str_ok(ps: Seq<(Seq<char>, Json)>, k: Seq<char>) -> bool {
    match map_get(ps, k) {
        None => true,
        Some(v) => v is Str,
    }
}

/// The string under `k`, when present.
pub open spec fn str_of(ps: Seq<(Seq<char>, Json)>, k: Seq<char>) -> Option<Seq<char>> {
    match map_get(ps, k) {
        Some(Json::Str(s)) => Some(s),
        _ => None,
    }
}

impl crate::json::FromJson for HalLink {
    /// A link deserializes from exactly the values `link_from_json` accepts.
    open spec fn from_json_of(j: Json) -> Option<LinkV> {
        link_from_json(j)
    }

    fn from_json(v: &JsonValue) -> (r: Result<HalLink, crate::error::HalError>) {
        proof {
            reveal_strlit("href");
            reveal_strlit("templated");
            reveal_strlit("type");
            reveal_strlit("deprecation");
            reveal_strlit("profile");
            reveal_strlit("name");
            reveal_strlit("title");
            reveal_strlit("hreflang");
            assert("href"@ =~= k_href());
            assert("templated"@ =~= k_templated());
            assert("type"@ =~= k_type());
            assert("deprecation"@ =~= k_deprecation());
            assert("profile"@ =~= k_profile());
            assert("name"@ =~= k_name());
            assert("title"@ =~= k_title());
            assert("hreflang"@ =~= k_hreflang());
        }
        let m = match v {
            JsonValue::Obj(m) => m,
            _ => {
                return Err(
                    crate::error::HalError::Json("a link must be a JSON object".to_owned()),
                );
            },
        };
        let href: String = match crate::json::obj_entries_get(m, "href") {
            Some(JsonValue::Str(s)) => s.clone(),
            Some(_) => {
                return Err(crate::error::HalError::Json("link href must be a string".to_owned()));
            },
            None => String::new(),
        };
        let templated: bool = match crate::json::obj_entries_get(m, "templated") {
            Some(JsonValue::Bool(b)) => *b,
            Some(_) => {
                return Err(
                    crate::error::HalError::Json("link templated must be a boolean".to_owned()),
                );
            },
            None => false,
        };
        let media_type = match get_opt_str(m, "type") {
            Ok(o) => o,
            Err(e) => {
                return Err(e);
            },
        };
        let deprecation = match get_opt_str(m, "deprecation") {
            Ok(o) => o,
            Err(e) => {
                return Err(e);
            },
        };
        let profile = match get_opt_str(m, "profile") {
            Ok(o) => o,
            Err(e) => {
                return Err(e);
            },
        };
        let name = match get_opt_str(m, "name") {
            Ok(o) => o,
            Err(e) => {
                return Err(e);
            },
        };
        let title = match get_opt_str(m, "title") {
            Ok(o) => o,
            Err(e) => {
                return Err(e);
            },
        };
        let hreflang = match get_opt_str(m, "hreflang") {
            Ok(o) => o,
            Err(e) => {
                return Err(e);
            },
        };
        Ok(
            HalLink {
                href,
                templated,
                media_type,
                deprecation,
                name,
                profile,
                title,
                hreflang,
            },
        )
    }
}

/// Read an optional string member: absent is fine, any non-string is an
/// error.
fn get_opt_str(m: &Vec<(String, JsonValue)>, key: &str) -> (r: Result<
    Option<String>,
    crate::error::HalError,
>)
    ensures
        match r {
            Ok(o) => str_ok(obj_view(m@), key@) && opt_view(o) == str_of(obj_view(m@), key@),
            Err(e) => !str_ok(obj_view(m@), key@) && e is Json,
        },
{
    match crate::json::obj_entries_get(m, key) {
        Some(JsonValue::Str(s)) => Ok(Some(s.clone())),
        Some(_) => Err(crate::error::HalError::Json("link field must be a string".to_owned())),
        None => Ok(None),
    }
}

} // verus!
