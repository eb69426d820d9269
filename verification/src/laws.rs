//! The round-trip laws.
//!
//! Two theorems are proved here. `lemma_resource_round_trip`: deserializing
//! the JSON object a resource serializes to restores the resource.
//! Serialization renders a forced container and an unforced container of
//! the same two-or-more elements as the same array, so the rendered
//! document cannot carry the forced-array flag and deserialization never
//! sets it: the law restores the resource up to that flag (`strip_force`),
//! and exactly when no container was forced. `lemma_text_round_trip`:
//! parsing the printed text of any JSON value yields that value with its
//! objects normalized (keys sorted, duplicates collapsed).

use vstd::prelude::*;

use crate::codec::{
    embedded_entries_from, embedded_members, link_jsons, links_entries_from, links_members,
    oom_resources_from, res_fold, res_jsons, res_seq_from, res_step, resource_from_json,
    resource_json,
};
use crate::json::Json;
use crate::link::{
    bool_of, bool_ok, href_of, href_ok, k_deprecation, k_href, k_hreflang, k_name, k_profile,
    k_templated, k_title, k_type, link_from_json, link_json, opt_field, str_of, str_ok, LinkV,
};
use crate::one_or_many::{oom_from_json, oom_json, seq_from_json, OomV};
use crate::parse::{
    char_of, digit_val, hex_val, is_digit, is_hex, is_ws, parse_digits, parse_elems,
    parse_members, parse_number, parse_string, parse_value, skip_ws, spec_parse_json,
};
use crate::text::{
    arr_texts, dec_digits, esc_char, esc_str, hex_char, int_text, join_comma, json_text,
    obj_texts, str_text,
};
use crate::order::{
    keys_sorted, lemma_map_get_append, map_get, map_upsert, seq_lt,
};
use crate::resource::{
    k_embedded, k_links, lemma_map_upsert_snoc, obj_normalize, oom_map_wf, rv_wf, ResourceV,
};
use crate::link::HalLink;

verus! {

/// Lookup in a one-entry map.
proof fn lemma_map_get_singleton<V>(key: Seq<char>, v: V, k: Seq<char>)
    ensures
        map_get(seq![(key, v)], k) == (if key == k {
            Some(v)
        } else {
            None::<V>
        }),
{
    assert(seq![(key, v)].drop_first() =~= Seq::<(Seq<char>, V)>::empty());
    assert(map_get(Seq::<(Seq<char>, V)>::empty(), k) is None);
    assert(seq![(key, v)][0] == (key, v));
}

/// The entry a link object holds under each possible key.
proof fn lemma_link_members_get(l: LinkV, k: Seq<char>)
    ensures
        map_get(link_json(l)->Obj_0, k) == (if k == k_href() {
            Some(Json::Str(l.href))
        } else if k == k_templated() {
            if l.templated {
                Some(Json::Bool(true))
            } else {
                None
            }
        } else if k == k_type() {
            match l.media_type {
                Some(s) => Some(Json::Str(s)),
                None => None,
            }
        } else if k == k_deprecation() {
            match l.deprecation {
                Some(s) => Some(Json::Str(s)),
                None => None,
            }
        } else if k == k_profile() {
            match l.profile {
                Some(s) => Some(Json::Str(s)),
                None => None,
            }
        } else if k == k_name() {
            match l.name {
                Some(s) => Some(Json::Str(s)),
                None => None,
            }
        } else if k == k_title() {
            match l.title {
                Some(s) => Some(Json::Str(s)),
                None => None,
            }
        } else if k == k_hreflang() {
            match l.hreflang {
                Some(s) => Some(Json::Str(s)),
                None => None,
            }
        } else {
            None
        }),
{
    lemma_link_keys_distinct();
    let s1 = seq![(k_href(), Json::Str(l.href))];
    let s2: Seq<(Seq<char>, Json)> = if l.templated {
        seq![(k_templated(), Json::Bool(true))]
    } else {
        Seq::empty()
    };
    let s3 = opt_field(k_type(), l.media_type);
    let s4 = opt_field(k_deprecation(), l.deprecation);
    let s5 = opt_field(k_profile(), l.profile);
    let s6 = opt_field(k_name(), l.name);
    let s7 = opt_field(k_title(), l.title);
    let s8 = opt_field(k_hreflang(), l.hreflang);
    let a2 = s1 + s2;
    let a3 = a2 + s3;
    let a4 = a3 + s4;
    let a5 = a4 + s5;
    let a6 = a5 + s6;
    let a7 = a6 + s7;
    let a8 = a7 + s8;
    assert(link_json(l)->Obj_0 == a8);
    lemma_map_get_append(a7, s8, k);
    lemma_map_get_append(a6, s7, k);
    lemma_map_get_append(a5, s6, k);
    lemma_map_get_append(a4, s5, k);
    lemma_map_get_append(a3, s4, k);
    lemma_map_get_append(a2, s3, k);
    lemma_map_get_append(s1, s2, k);
    lemma_map_get_singleton(k_href(), Json::Str(l.href), k);
    if l.templated {
        lemma_map_get_singleton(k_templated(), Json::Bool(true), k);
    }
    lemma_opt_field_get(k_type(), l.media_type, k);
    lemma_opt_field_get(k_deprecation(), l.deprecation, k);
    lemma_opt_field_get(k_profile(), l.profile, k);
    lemma_opt_field_get(k_name(), l.name, k);
    lemma_opt_field_get(k_title(), l.title, k);
    lemma_opt_field_get(k_hreflang(), l.hreflang, k);
}

/// The eight link keys are pairwise distinct: their lengths already tell
/// them apart, except `type` and `name` from `href`, which differ in their
/// first character.
proof fn lemma_link_keys_distinct()
    ensures
        k_href().len() == 4,
        k_templated().len() == 9,
        k_type().len() == 4,
        k_deprecation().len() == 11,
        k_profile().len() == 7,
        k_name().len() == 4,
        k_title().len() == 5,
        k_hreflang().len() == 8,
        k_href() != k_type(),
        k_href() != k_name(),
        k_type() != k_name(),
{
    assert(k_href()[0] == 'h');
    assert(k_type()[0] == 't');
    assert(k_name()[0] == 'n');
}

proof fn lemma_opt_field_get(key: Seq<char>, o: Option<Seq<char>>, k: Seq<char>)
    ensures
        map_get(opt_field(key, o), k) == (match o {
            Some(s) => if key == k {
                Some(Json::Str(s))
            } else {
                None
            },
            None => None::<Json>,
        }),
{
    match o {
        Some(s) => {
            lemma_map_get_singleton(key, Json::Str(s), k);
        },
        None => {},
    }
}

/// A serialized link deserializes to the very same link.
#[verifier::rlimit(50)]
pub proof fn lemma_link_round_trip(l: LinkV)
    ensures
        link_from_json(link_json(l)) == Some(l),
{
    lemma_link_keys_distinct();
    let ms = link_json(l)->Obj_0;
    assert(href_ok(ms) && href_of(ms) == l.href) by {
        lemma_link_members_get(l, k_href());
    }
    assert(bool_ok(ms, k_templated()) && bool_of(ms, k_templated()) == l.templated) by {
        lemma_link_members_get(l, k_templated());
    }
    assert(str_ok(ms, k_type()) && str_of(ms, k_type()) == l.media_type) by {
        lemma_link_members_get(l, k_type());
    }
    assert(str_ok(ms, k_deprecation()) && str_of(ms, k_deprecation()) == l.deprecation) by {
        lemma_link_members_get(l, k_deprecation());
    }
    assert(str_ok(ms, k_profile()) && str_of(ms, k_profile()) == l.profile) by {
        lemma_link_members_get(l, k_profile());
    }
    assert(str_ok(ms, k_name()) && str_of(ms, k_name()) == l.name) by {
        lemma_link_members_get(l, k_name());
    }
    assert(str_ok(ms, k_title()) && str_of(ms, k_title()) == l.title) by {
        lemma_link_members_get(l, k_title());
    }
    assert(str_ok(ms, k_hreflang()) && str_of(ms, k_hreflang()) == l.hreflang) by {
        lemma_link_members_get(l, k_hreflang());
    }
}

/// Serialized link elements deserialize to the same elements.
proof fn lemma_link_seq_round_trip(es: Seq<LinkV>)
    ensures
        seq_from_json::<HalLink>(link_jsons(es)) == Some(es),
    decreases es.len(),
{
    if es.len() == 0 {
        assert(link_jsons(es) =~= Seq::<Json>::empty());
        assert(seq_from_json::<HalLink>(Seq::<Json>::empty()) == Some(Seq::<LinkV>::empty()));
        assert(es =~= Seq::<LinkV>::empty());
    } else {
        let js = link_jsons(es);
        assert(js.len() == es.len());
        assert(js[0] == link_json(es[0]));
        lemma_link_round_trip(es[0]);
        assert(js.drop_first() =~= link_jsons(es.drop_first()));
        lemma_link_seq_round_trip(es.drop_first());
        assert(seq![es[0]] + es.drop_first() =~= es);
    }
}

/// A serialized link container deserializes to the same elements with the
/// forced flag cleared.
pub proof fn lemma_oom_links_round_trip(c: OomV<LinkV>)
    requires
        c.elems.len() > 0 || c.force,
    ensures
        oom_from_json::<HalLink>(oom_json(c.force, link_jsons(c.elems))) == Some(
            (OomV { force: false, elems: c.elems }),
        ),
{
    let js = link_jsons(c.elems);
    if c.elems.len() == 1 && !c.force {
        assert(oom_json(c.force, js) == js[0]);
        assert(js[0] == link_json(c.elems[0]));
        lemma_link_round_trip(c.elems[0]);
        assert(js[0] is Obj);
        assert(seq![c.elems[0]] =~= c.elems);
    } else {
        assert(oom_json(c.force, js) == Json::Arr(js));
        lemma_link_seq_round_trip(c.elems);
    }
}

/// The same link map with every container's forced flag cleared.
pub open spec fn links_strip(ls: Seq<(Seq<char>, OomV<LinkV>)>) -> Seq<(Seq<char>, OomV<LinkV>)> {
    Seq::new(
        ls.len(),
        |i: int|
            if 0 <= i < ls.len() {
                (ls[i].0, OomV { force: false, elems: ls[i].1.elems })
            } else {
                vstd::pervasive::arbitrary()
            },
    )
}

/// The same resources with every forced flag cleared, recursively.
pub open spec fn strip_seq(ms: Seq<ResourceV>) -> Seq<ResourceV>
    decreases ms,
{
    if ms.len() == 0 {
        Seq::empty()
    } else {
        seq![strip_force(ms[0])] + strip_seq(ms.drop_first())
    }
}

/// The same embedded map with every forced flag cleared, recursively.
pub open spec fn emb_strip(es: Seq<(Seq<char>, OomV<ResourceV>)>) -> Seq<
    (Seq<char>, OomV<ResourceV>),
>
    decreases es,
{
    if es.len() == 0 {
        Seq::empty()
    } else {
        seq![(es[0].0, OomV { force: false, elems: strip_seq(es[0].1.elems) })] + emb_strip(
            es.drop_first(),
        )
    }
}

/// The same resource with every container's forced-array flag cleared,
/// recursively: what survives a trip through the wire format.
pub open spec fn strip_force(r: ResourceV) -> ResourceV
    decreases r,
{
    ResourceV { links: links_strip(r.links), embedded: emb_strip(r.embedded), data: r.data }
}

proof fn lemma_strip_seq_props(ms: Seq<ResourceV>)
    ensures
        strip_seq(ms).len() == ms.len(),
        forall|i: int| 0 <= i < ms.len() ==> #[trigger] strip_seq(ms)[i] == strip_force(ms[i]),
    decreases ms,
{
    if ms.len() == 0 {
        assert(strip_seq(ms).len() == 0);
    } else {
        assert(strip_seq(ms) == seq![strip_force(ms[0])] + strip_seq(ms.drop_first()));
        lemma_strip_seq_props(ms.drop_first());
        assert forall|i: int| 0 <= i < ms.len() implies #[trigger] strip_seq(ms)[i]
            == strip_force(ms[i]) by {
            if i == 0 {
                assert(strip_seq(ms)[0] == strip_force(ms[0]));
            } else {
                assert(strip_seq(ms)[i] == strip_seq(ms.drop_first())[i - 1]);
                assert(ms.drop_first()[i - 1] == ms[i]);
            }
        }
    }
}

proof fn lemma_emb_strip_props(es: Seq<(Seq<char>, OomV<ResourceV>)>)
    ensures
        emb_strip(es).len() == es.len(),
        forall|i: int|
            0 <= i < es.len() ==> #[trigger] emb_strip(es)[i] == (
                es[i].0,
                OomV { force: false, elems: strip_seq(es[i].1.elems) },
            ),
    decreases es,
{
    if es.len() == 0 {
        assert(emb_strip(es).len() == 0);
    } else {
        assert(emb_strip(es) == seq![
            (es[0].0, OomV { force: false, elems: strip_seq(es[0].1.elems) }),
        ] + emb_strip(es.drop_first()));
        lemma_emb_strip_props(es.drop_first());
        assert forall|i: int| 0 <= i < es.len() implies #[trigger] emb_strip(es)[i] == (
            es[i].0,
            OomV { force: false, elems: strip_seq(es[i].1.elems) },
        ) by {
            if i == 0 {
                assert(emb_strip(es)[0] == (
                    es[0].0,
                    OomV { force: false, elems: strip_seq(es[0].1.elems) },
                ));
            } else {
                assert(emb_strip(es)[i] == emb_strip(es.drop_first())[i - 1]);
                assert(es.drop_first()[i - 1] == es[i]);
            }
        }
    }
}

/// Whether a resource survives the round trip in full: an object payload is
/// nonempty (an empty one serializes to no members at all and reads back as
/// no payload) and holds no reserved keys (a `_links` or `_embedded` payload
/// entry would collide with the reserved sections), recursively.
pub open spec fn rt_compatible(r: ResourceV) -> bool
    decreases r,
{
    &&& match r.data {
        Some(d) => d.len() > 0 && forall|i: int|
            0 <= i < d.len() ==> (#[trigger] d[i].0) != k_links() && d[i].0 != k_embedded(),
        None => true,
    }
    &&& forall|i: int, j: int|
        0 <= i < r.embedded.len() && 0 <= j < r.embedded[i].1.elems.len() ==> rt_compatible(
            #[trigger] r.embedded[i].1.elems[j],
        )
}

/// Whether no container anywhere in the resource is forced to array form.
pub open spec fn no_forced(r: ResourceV) -> bool
    decreases r,
{
    &&& forall|i: int| 0 <= i < r.links.len() ==> !(#[trigger] r.links[i].1).force
    &&& forall|i: int| 0 <= i < r.embedded.len() ==> !(#[trigger] r.embedded[i].1).force
    &&& forall|i: int, j: int|
        0 <= i < r.embedded.len() && 0 <= j < r.embedded[i].1.elems.len() ==> no_forced(
            #[trigger] r.embedded[i].1.elems[j],
        )
}

/// A prefix of a well-formed relation map is well-formed.
proof fn lemma_oom_map_wf_prefix<V>(s: Seq<(Seq<char>, OomV<V>)>, n: int)
    requires
        oom_map_wf(s),
        0 <= n <= s.len(),
    ensures
        oom_map_wf(s.take(n)),
{
    assert(forall|i: int| 0 <= i < n ==> #[trigger] s.take(n)[i] == s[i]);
}

/// A serialized link map deserializes to the same map with the forced
/// flags cleared.
pub proof fn lemma_links_map_round_trip(ls: Seq<(Seq<char>, OomV<LinkV>)>)
    requires
        oom_map_wf(ls),
    ensures
        links_entries_from(links_members(ls)) == Some(links_strip(ls)),
    decreases ls.len(),
{
    if ls.len() == 0 {
        assert(links_members(ls) =~= Seq::<(Seq<char>, Json)>::empty());
        assert(links_strip(ls) =~= Seq::<(Seq<char>, OomV<LinkV>)>::empty());
    } else {
        let n = ls.len() as int;
        let front = ls.take(n - 1);
        lemma_oom_map_wf_prefix(ls, n - 1);
        lemma_links_map_round_trip(front);
        let ms = links_members(ls);
        assert(ms.drop_last() =~= links_members(front));
        assert(ms.last() == (
            ls.last().0,
            oom_json(ls.last().1.force, link_jsons(ls.last().1.elems)),
        ));
        assert(ls.last().1.elems.len() > 0 || ls.last().1.force);
        lemma_oom_links_round_trip(ls.last().1);
        let c = OomV { force: false, elems: ls.last().1.elems };
        assert(links_entries_from(ms) == Some(map_upsert(links_strip(front), ls.last().0, c)));
        assert(keys_sorted(links_strip(front))) by {
            assert(forall|i: int|
                0 <= i < front.len() ==> (#[trigger] links_strip(front)[i]).0 == front[i].0);
        }
        assert(forall|i: int|
            0 <= i < front.len() ==> seq_lt(
                (#[trigger] links_strip(front)[i]).0,
                ls.last().0,
            ));
        lemma_map_upsert_snoc(links_strip(front), ls.last().0, c);
        assert(links_strip(front).push((ls.last().0, c)) =~= links_strip(ls));
    }
}

/// Serialized resource elements deserialize to the same elements, stripped.
proof fn lemma_res_seq_round_trip(ms: Seq<ResourceV>)
    requires
        forall|j: int| 0 <= j < ms.len() ==> rv_wf(#[trigger] ms[j]) && rt_compatible(ms[j]),
    ensures
        res_seq_from(res_jsons(ms)) == Some(strip_seq(ms)),
    decreases ms,
{
    if ms.len() == 0 {
        assert(res_jsons(ms) == Seq::<Json>::empty());
        assert(res_seq_from(Seq::<Json>::empty()) == Some(Seq::<ResourceV>::empty()));
    } else {
        let js = res_jsons(ms);
        assert(js == seq![resource_json(ms[0])] + res_jsons(ms.drop_first()));
        assert(js[0] == resource_json(ms[0]));
        lemma_resource_round_trip(ms[0]);
        assert(js.drop_first() =~= res_jsons(ms.drop_first()));
        assert(forall|j: int|
            0 <= j < ms.drop_first().len() ==> #[trigger] ms.drop_first()[j] == ms[j + 1]);
        lemma_res_seq_round_trip(ms.drop_first());
        assert(js.len() > 0);
        assert(res_seq_from(js) == Some(seq![strip_force(ms[0])] + strip_seq(ms.drop_first())));
    }
}

/// A serialized container of resources deserializes to the same elements,
/// stripped, with the forced flag cleared.
proof fn lemma_oom_resources_round_trip(c: OomV<ResourceV>)
    requires
        c.elems.len() > 0 || c.force,
        forall|j: int| 0 <= j < c.elems.len() ==> rv_wf(#[trigger] c.elems[j]) && rt_compatible(
            c.elems[j],
        ),
    ensures
        oom_resources_from(oom_json(c.force, res_jsons(c.elems))) == Some(
            (OomV { force: false, elems: strip_seq(c.elems) }),
        ),
    decreases c,
{
    let js = res_jsons(c.elems);
    crate::codec::lemma_res_jsons_props(c.elems);
    if c.elems.len() == 1 && !c.force {
        assert(oom_json(c.force, js) == js[0]);
        assert(js[0] == resource_json(c.elems[0]));
        lemma_resource_round_trip(c.elems[0]);
        assert(resource_json(c.elems[0]) is Obj);
        lemma_strip_seq_props(c.elems);
        assert(seq![strip_force(c.elems[0])] =~= strip_seq(c.elems));
    } else {
        assert(oom_json(c.force, js) == Json::Arr(js));
        lemma_res_seq_round_trip(c.elems);
    }
}

/// A serialized embedded map deserializes to the same map, stripped.
proof fn lemma_emb_map_round_trip(es: Seq<(Seq<char>, OomV<ResourceV>)>)
    requires
        oom_map_wf(es),
        forall|i: int, j: int|
            0 <= i < es.len() && 0 <= j < es[i].1.elems.len() ==> rv_wf(
                #[trigger] es[i].1.elems[j],
            ) && rt_compatible(es[i].1.elems[j]),
    ensures
        embedded_entries_from(embedded_members(es)) == Some(emb_strip(es)),
    decreases es,
{
    lemma_emb_strip_props(es);
    crate::codec::lemma_embedded_members_props(es);
    if es.len() == 0 {
        assert(embedded_members(es) == Seq::<(Seq<char>, Json)>::empty());
        assert(emb_strip(es) == Seq::<(Seq<char>, OomV<ResourceV>)>::empty());
    } else {
        let n = es.len() as int;
        let front = es.take(n - 1);
        lemma_oom_map_wf_prefix(es, n - 1);
        assert(forall|i: int| 0 <= i < front.len() ==> #[trigger] front[i] == es[i]);
        lemma_emb_map_round_trip(front);
        let ms = embedded_members(es);
        assert(ms.drop_last() =~= embedded_members(front)) by {
            crate::codec::lemma_embedded_members_props(front);
        }
        assert(ms.last() == (
            es.last().0,
            oom_json(es.last().1.force, res_jsons(es.last().1.elems)),
        ));
        assert(es.last().1.elems.len() > 0 || es.last().1.force);
        assert(forall|j: int|
            0 <= j < es.last().1.elems.len() ==> rv_wf(#[trigger] es.last().1.elems[j])
                && rt_compatible(es.last().1.elems[j])) by {
            assert(es.last() == es[n - 1]);
        }
        lemma_oom_resources_round_trip(es.last().1);
        let c = OomV { force: false, elems: strip_seq(es.last().1.elems) };
        assert(embedded_entries_from(ms) == Some(map_upsert(emb_strip(front), es.last().0, c)));
        lemma_emb_strip_props(front);
        assert(keys_sorted(emb_strip(front)));
        assert(forall|i: int|
            0 <= i < emb_strip(front).len() ==> seq_lt(
                (#[trigger] emb_strip(front)[i]).0,
                es.last().0,
            ));
        lemma_map_upsert_snoc(emb_strip(front), es.last().0, c);
        assert(emb_strip(front).push((es.last().0, c)) =~= emb_strip(es));
    }
}

/// Folding sorted, reserved-free payload members after a prefix that left
/// the payload empty fills in exactly that payload.
proof fn lemma_fold_data(q: Seq<(Seq<char>, Json)>, d: Seq<(Seq<char>, Json)>)
    requires
        res_fold(q) is Some,
        (res_fold(q)->0).data is None,
        keys_sorted(d),
        forall|i: int|
            0 <= i < d.len() ==> (#[trigger] d[i].0) != k_links() && d[i].0 != k_embedded(),
    ensures
        res_fold(q + d) == Some(
            (ResourceV {
                data: if d.len() == 0 {
                    None
                } else {
                    Some(d)
                },
                ..res_fold(q)->0
            }),
        ),
    decreases d.len(),
{
    let acc0 = res_fold(q)->0;
    if d.len() == 0 {
        assert(q + d =~= q);
        assert(res_fold(q)->0 == (ResourceV { data: None, ..acc0 }));
    } else {
        let front = d.drop_last();
        assert(forall|i: int| 0 <= i < front.len() ==> #[trigger] front[i] == d[i]);
        lemma_fold_data(q, front);
        assert((q + d).drop_last() =~= q + front);
        assert((q + d).last() == d.last());
        let acc = res_fold(q + front)->0;
        assert(res_fold(q + d) == res_step(acc, d.last().0, d.last().1));
        assert(d.last().0 != k_links() && d.last().0 != k_embedded());
        if front.len() == 0 {
            assert(acc.data is None);
            assert(map_upsert(Seq::<(Seq<char>, Json)>::empty(), d.last().0, d.last().1) =~= d);
        } else {
            assert(acc.data == Some(front));
            assert(forall|i: int|
                0 <= i < front.len() ==> seq_lt(#[trigger] front[i].0, d.last().0));
            lemma_map_upsert_snoc(front, d.last().0, d.last().1);
            assert(front.push(d.last()) =~= d);
        }
    }
}

/// The two reserved section names differ from each other.
proof fn lemma_reserved_keys_distinct()
    ensures
        k_links().len() == 6,
        k_embedded().len() == 9,
        k_links() != k_embedded(),
{
}

/// The round-trip law: deserializing the JSON object a resource serializes
/// to gives the resource back with every container's forced-array flag
/// cleared — the rendered document cannot carry that flag, since a forced
/// and an unforced container of the same two or more elements render alike.
/// Everything else — every relation, every link, every embedded resource,
/// the payload — is restored exactly.
pub proof fn lemma_resource_round_trip(r: ResourceV)
    requires
        rv_wf(r),
        rt_compatible(r),
    ensures
        resource_from_json(resource_json(r)) == Some(strip_force(r)),
    decreases r,
{
    lemma_reserved_keys_distinct();
    let seg_l: Seq<(Seq<char>, Json)> = if r.links.len() > 0 {
        seq![(k_links(), Json::Obj(links_members(r.links)))]
    } else {
        Seq::empty()
    };
    let seg_e: Seq<(Seq<char>, Json)> = if r.embedded.len() > 0 {
        seq![(k_embedded(), Json::Obj(embedded_members(r.embedded)))]
    } else {
        Seq::empty()
    };
    let dd: Seq<(Seq<char>, Json)> = match r.data {
        Some(d) => d,
        None => Seq::empty(),
    };
    assert(resource_json(r)->Obj_0 == seg_l + seg_e + dd);
    assert(res_fold(Seq::<(Seq<char>, Json)>::empty()) == Some(crate::codec::empty_resource()));
    let acc1 = ResourceV { links: links_strip(r.links), ..crate::codec::empty_resource() };
    assert(res_fold(seg_l) == Some(acc1)) by {
        if r.links.len() > 0 {
            assert(seg_l.drop_last() =~= Seq::<(Seq<char>, Json)>::empty());
            assert(seg_l.last() == (k_links(), Json::Obj(links_members(r.links))));
            lemma_links_map_round_trip(r.links);
            assert(res_fold(seg_l) == res_step(
                crate::codec::empty_resource(),
                k_links(),
                Json::Obj(links_members(r.links)),
            ));
        } else {
            assert(seg_l =~= Seq::<(Seq<char>, Json)>::empty());
            assert(links_strip(r.links) =~= Seq::<(Seq<char>, OomV<LinkV>)>::empty());
        }
    }
    let acc2 = ResourceV { embedded: emb_strip(r.embedded), ..acc1 };
    assert(res_fold(seg_l + seg_e) == Some(acc2)) by {
        if r.embedded.len() > 0 {
            assert((seg_l + seg_e).drop_last() =~= seg_l);
            assert((seg_l + seg_e).last() == (
                k_embedded(),
                Json::Obj(embedded_members(r.embedded)),
            ));
            assert(forall|i: int, j: int|
                0 <= i < r.embedded.len() && 0 <= j < r.embedded[i].1.elems.len() ==> rv_wf(
                    #[trigger] r.embedded[i].1.elems[j],
                ) && rt_compatible(r.embedded[i].1.elems[j]));
            lemma_emb_map_round_trip(r.embedded);
            assert(res_fold(seg_l + seg_e) == res_step(
                acc1,
                k_embedded(),
                Json::Obj(embedded_members(r.embedded)),
            ));
        } else {
            assert(seg_l + seg_e =~= seg_l);
            assert(emb_strip(r.embedded) =~= Seq::<(Seq<char>, OomV<ResourceV>)>::empty());
        }
    }
    assert(keys_sorted(dd) && (forall|i: int|
        0 <= i < dd.len() ==> (#[trigger] dd[i].0) != k_links() && dd[i].0 != k_embedded()));
    lemma_fold_data(seg_l + seg_e, dd);
    assert((seg_l + seg_e) + dd =~= seg_l + seg_e + dd);
    match r.data {
        Some(d) => {
            assert(d.len() > 0);
            assert(res_fold(seg_l + seg_e + dd) == Some(strip_force(r)));
        },
        None => {
            assert(dd.len() == 0);
            assert(res_fold(seg_l + seg_e + dd) == Some(strip_force(r)));
        },
    }
}

/// Clearing the forced flags of a resource that has none is the identity.
pub proof fn lemma_strip_force_id(r: ResourceV)
    requires
        no_forced(r),
    ensures
        strip_force(r) == r,
    decreases r,
{
    lemma_emb_strip_props(r.embedded);
    assert(links_strip(r.links) =~= r.links) by {
        assert(forall|i: int|
            0 <= i < r.links.len() ==> (#[trigger] links_strip(r.links)[i]) == (
                r.links[i].0,
                OomV { force: false, elems: r.links[i].1.elems },
            ));
    }
    assert forall|i: int| 0 <= i < r.embedded.len() implies #[trigger] emb_strip(r.embedded)[i]
        == r.embedded[i] by {
        assert(strip_seq(r.embedded[i].1.elems) =~= r.embedded[i].1.elems) by {
            lemma_strip_seq_props(r.embedded[i].1.elems);
            assert forall|j: int| 0 <= j < r.embedded[i].1.elems.len() implies #[trigger]
                strip_seq(r.embedded[i].1.elems)[j] == r.embedded[i].1.elems[j] by {
                lemma_strip_force_id(r.embedded[i].1.elems[j]);
            }
        }
    }
    assert(emb_strip(r.embedded) =~= r.embedded);
}

/// The exact round trip: a well-formed, round-trip-compatible resource
/// without forced containers deserializes from its serialization to itself.
pub proof fn lemma_round_trip_exact(r: ResourceV)
    requires
        rv_wf(r),
        rt_compatible(r),
        no_forced(r),
    ensures
        resource_from_json(resource_json(r)) == Some(r),
{
    lemma_resource_round_trip(r);
    lemma_strip_force_id(r);
}

/// How far the parser's digit accumulator gets after consuming `ds`.
pub open spec fn digits_val(acc: int, ds: Seq<char>) -> int
    decreases ds.len(),
{
    if ds.len() == 0 {
        acc
    } else {
        digits_val(acc * 10 + digit_val(ds[0]), ds.drop_first())
    }
}

proof fn lemma_digits_val_push(acc: int, ds: Seq<char>, d: char)
    ensures
        digits_val(acc, ds.push(d)) == 10 * digits_val(acc, ds) + digit_val(d),
    decreases ds.len(),
{
    let t = ds.push(d);
    if ds.len() == 0 {
        assert(t.drop_first() =~= Seq::<char>::empty());
        assert(t[0] == d);
        assert(digits_val(acc * 10 + digit_val(d), Seq::<char>::empty()) == acc * 10 + digit_val(
            d,
        ));
    } else {
        assert(t.drop_first() =~= ds.drop_first().push(d));
        assert(t[0] == ds[0]);
        lemma_digits_val_push(acc * 10 + digit_val(ds[0]), ds.drop_first(), d);
    }
}

/// The printed digits of a non-negative integer denote it: they are all
/// digits, there is at least one, and there is no leading zero unless the
/// number is zero itself.
proof fn lemma_dec_digits(n: int)
    requires
        n >= 0,
    ensures
        digits_val(0, dec_digits(n)) == n,
        dec_digits(n).len() >= 1,
        forall|x: int| 0 <= x < dec_digits(n).len() ==> is_digit(#[trigger] dec_digits(n)[x]),
        n >= 1 ==> dec_digits(n)[0] != '0',
        n == 0 ==> dec_digits(n) == seq!['0'],
    decreases n,
{
    if n < 10 {
        assert(dec_digits(n) == seq![hex_char(n)]);
        assert(digit_val(hex_char(n)) == n);
        assert(seq![hex_char(n)].drop_first() =~= Seq::<char>::empty());
        assert(digits_val(n, Seq::<char>::empty()) == n);
        assert(digits_val(0, dec_digits(n)) == n);
    } else {
        lemma_dec_digits(n / 10);
        let front = dec_digits(n / 10);
        assert(dec_digits(n) == front + seq![hex_char(n % 10)]);
        assert(front + seq![hex_char(n % 10)] =~= front.push(hex_char(n % 10)));
        lemma_digits_val_push(0, front, hex_char(n % 10));
        assert(digit_val(hex_char(n % 10)) == n % 10);
        assert(digits_val(0, dec_digits(n)) == 10 * (n / 10) + n % 10);
        assert(forall|x: int|
            0 <= x < front.len() ==> #[trigger] dec_digits(n)[x] == front[x]);
        assert(is_digit(dec_digits(n)[front.len() as int]));
    }
}

/// The accumulator never shrinks while digits are consumed.
proof fn lemma_digits_val_ge(acc: int, ds: Seq<char>)
    requires
        acc >= 0,
        forall|x: int| 0 <= x < ds.len() ==> is_digit(#[trigger] ds[x]),
    ensures
        digits_val(acc, ds) >= acc,
    decreases ds.len(),
{
    if ds.len() > 0 {
        assert(is_digit(ds[0]));
        assert(forall|x: int|
            0 <= x < ds.drop_first().len() ==> #[trigger] ds.drop_first()[x] == ds[x + 1]);
        lemma_digits_val_ge(acc * 10 + digit_val(ds[0]), ds.drop_first());
    }
}

/// The digit parser consumes exactly a maximal run of digits, accumulating
/// their value, as long as that value stays within the bound.
proof fn lemma_parse_digits_run(t: Seq<char>, i: int, j: int, acc: int, bound: int)
    requires
        0 <= i <= j <= t.len(),
        forall|x: int| i <= x < j ==> is_digit(#[trigger] t[x]),
        j == t.len() || !is_digit(t[j]),
        0 <= acc,
        0 <= bound,
        digits_val(acc, t.subrange(i, j)) <= bound,
    ensures
        parse_digits(t, i, acc, bound) == Some((digits_val(acc, t.subrange(i, j)), j)),
    decreases j - i,
{
    let ds = t.subrange(i, j);
    if i == j {
        assert(ds =~= Seq::<char>::empty());
    } else {
        assert(is_digit(t[i]));
        assert(ds[0] == t[i]);
        assert(ds.drop_first() =~= t.subrange(i + 1, j));
        let a2 = acc * 10 + digit_val(t[i]);
        assert(digits_val(acc, ds) == digits_val(a2, t.subrange(i + 1, j)));
        assert(forall|x: int|
            0 <= x < t.subrange(i + 1, j).len() ==> is_digit(#[trigger] t.subrange(i + 1, j)[x]));
        lemma_digits_val_ge(a2, t.subrange(i + 1, j));
        assert(a2 <= bound);
        lemma_parse_digits_run(t, i + 1, j, a2, bound);
    }
}

/// A printed integer, followed by anything but a digit, parses back to
/// itself, consuming exactly its text.
pub proof fn lemma_print_parse_int(n: int, t: Seq<char>, i: int)
    requires
        i64::MIN <= n <= i64::MAX,
        0 <= i,
        i + int_text(n).len() <= t.len(),
        t.subrange(i, i + int_text(n).len() as int) == int_text(n),
        i + int_text(n).len() == t.len() || !is_digit(t[i + int_text(n).len()]),
    ensures
        parse_number(t, i) == Some((Json::Int(n), i + int_text(n).len() as int)),
{
    let mag: int = if n < 0 {
        -n
    } else {
        n
    };
    lemma_dec_digits(mag);
    let w = int_text(n);
    let dlen = dec_digits(mag).len() as int;
    let d0 = if n < 0 {
        i + 1
    } else {
        i
    };
    let j = i + w.len() as int;
    assert forall|x: int| 0 <= x < w.len() implies t[i + x] == w[x] by {
        assert(t.subrange(i, i + w.len() as int)[x] == w[x]);
    }
    if n < 0 {
        assert(w == seq!['-'] + dec_digits(mag));
        assert(t[i] == w[0]);
        assert(w[0] == '-');
        assert forall|x: int| 0 <= x < dlen implies t[d0 + x] == #[trigger] dec_digits(
            mag,
        )[x] by {
            assert((seq!['-'] + dec_digits(mag))[1 + x] == dec_digits(mag)[x]);
            assert(t[i + (1 + x)] == w[1 + x]);
        }
    } else {
        assert(w == dec_digits(mag));
        assert forall|x: int| 0 <= x < dlen implies t[d0 + x] == #[trigger] dec_digits(
            mag,
        )[x] by {
            assert(t[i + x] == w[x]);
        }
        assert(t[i] == dec_digits(mag)[0]);
        assert(is_digit(t[i]));
        assert(t[i] != '-');
    }
    assert forall|x: int| d0 <= x < j implies is_digit(#[trigger] t[x]) by {
        assert(t[x] == dec_digits(mag)[x - d0]);
    }
    assert(is_digit(t[d0]));
    if t[d0] == '0' && d0 + 1 < t.len() {
        if mag >= 1 {
            assert(dec_digits(mag)[0] != '0');
            assert(false);
        } else {
            assert(dlen == 1);
            assert(d0 + 1 == j);
            assert(!is_digit(t[d0 + 1]));
        }
    }
    let bound: int = if n < 0 {
        0x8000000000000000
    } else {
        0x7fffffffffffffff
    };
    assert(t.subrange(d0, j) =~= dec_digits(mag));
    assert(digits_val(0, t.subrange(d0, j)) == mag);
    lemma_parse_digits_run(t, d0, j, 0, bound);
    if n < 0 {
        assert(parse_number(t, i) == Some((Json::Int(-mag), j)));
    } else {
        assert(parse_number(t, i) == Some((Json::Int(mag), j)));
    }
}

/// Hex digits print and read back consistently.
proof fn lemma_hex_char_val()
    ensures
        forall|v: int|
            0 <= v < 16 ==> is_hex(#[trigger] hex_char(v)) && hex_val(hex_char(v)) == v,
{
}

/// A printed string-literal body followed by the closing quote parses back
/// to exactly the original characters, consuming the whole literal.
pub proof fn lemma_print_parse_string(s: Seq<char>, t: Seq<char>, i: int)
    requires
        0 <= i,
        i + esc_str(s).len() + 1 <= t.len(),
        t.subrange(i, i + esc_str(s).len() + 1) == esc_str(s) + seq!['"'],
    ensures
        parse_string(t, i) == Some((s, i + esc_str(s).len() + 1)),
    decreases s.len(),
{
    let e = esc_str(s).len() as int;
    assert forall|x: int| 0 <= x <= e implies t[i + x] == (esc_str(s) + seq!['"'])[x] by {
        assert(t.subrange(i, i + e + 1)[x] == (esc_str(s) + seq!['"'])[x]);
    }
    if s.len() == 0 {
        assert(esc_str(s) + seq!['"'] =~= seq!['"']);
        assert(t[i + 0] == (esc_str(s) + seq!['"'])[0]);
        assert(t[i] == '"');
        assert(s =~= Seq::<char>::empty());
    } else {
        let c = s[0];
        let rest = s.drop_first();
        assert(esc_str(s) == esc_char(c) + esc_str(rest));
        let w = esc_char(c).len() as int;
        let er = esc_str(rest).len() as int;
        assert forall|x: int| 0 <= x < w implies t[i + x] == esc_char(c)[x] by {
            assert((esc_char(c) + esc_str(rest))[x] == esc_char(c)[x]);
            assert((esc_str(s) + seq!['"'])[x] == esc_str(s)[x]);
        }
        assert(t.subrange(i + w, i + w + er + 1) == esc_str(rest) + seq!['"']) by {
            assert forall|x: int|
                0 <= x < er + 1 implies t.subrange(i + w, i + w + er + 1)[x] == (esc_str(rest)
                + seq!['"'])[x] by {
                assert(t.subrange(i + w, i + w + er + 1)[x] == t[i + (w + x)]);
                assert((esc_str(s) + seq!['"'])[w + x] == (esc_str(rest) + seq!['"'])[x]) by {
                    if x < er {
                        assert((esc_str(s) + seq!['"'])[w + x] == esc_str(s)[w + x]);
                        assert(esc_str(s)[w + x] == esc_str(rest)[x]);
                    }
                }
            }
            assert(t.subrange(i + w, i + w + er + 1) =~= esc_str(rest) + seq!['"']);
        }
        lemma_print_parse_string(rest, t, i + w);
        assert(seq![c] + rest =~= s);
        if c == '"' {
            assert(esc_char(c) == seq!['\\', '"']);
            assert(t[i] == '\\' && t[i + 1] == '"');
        } else if c == '\\' {
            assert(t[i] == '\\' && t[i + 1] == '\\');
        } else if c == '\u{0008}' {
            assert(t[i] == '\\' && t[i + 1] == 'b');
        } else if c == '\u{000C}' {
            assert(t[i] == '\\' && t[i + 1] == 'f');
        } else if c == '\n' {
            assert(t[i] == '\\' && t[i + 1] == 'n');
        } else if c == '\r' {
            assert(t[i] == '\\' && t[i + 1] == 'r');
        } else if c == '\t' {
            assert(t[i] == '\\' && t[i + 1] == 't');
        } else if (c as u32) < 0x20 {
            let cv = (c as u32) as int;
            assert(esc_char(c) == seq!['\\', 'u', '0', '0', hex_char(cv / 16), hex_char(
                cv % 16,
            )]);
            assert(t[i] == '\\' && t[i + 1] == 'u');
            assert(t[i + 2] == '0' && t[i + 3] == '0');
            assert(t[i + 4] == hex_char(cv / 16) && t[i + 5] == hex_char(cv % 16));
            lemma_hex_char_val();
            assert(is_hex('0') && hex_val('0') == 0);
            let n = hex_val(t[i + 2]) * 4096 + hex_val(t[i + 3]) * 256 + hex_val(t[i + 4]) * 16
                + hex_val(t[i + 5]);
            assert(n == cv);
            lemma_char_of_value(c);
            assert(char_of(n) == c);
        } else {
            assert(esc_char(c) == seq![c]);
            assert(t[i] == c);
            assert(c != '"' && c != '\\');
            assert(!((c as u32) < 0x20));
        }
    }
}

/// `char_of` of a character's own scalar value is that character.
proof fn lemma_char_of_value(c: char)
    ensures
        char_of((c as u32) as int) == c,
{
    let n = (c as u32) as int;
    assert(exists|x: char| (#[trigger] (x as u32)) as int == n) by {
        assert((c as u32) as int == n);
    }
    let w = char_of(n);
    assert((w as u32) as int == n);
}

/// A JSON value whose integers all fit the 64-bit signed range — every
/// value this library builds or parses satisfies this.
pub open spec fn json_ints_ok(j: Json) -> bool
    decreases j,
{
    match j {
        Json::Int(n) => i64::MIN <= n <= i64::MAX,
        Json::Arr(es) => forall|x: int| 0 <= x < es.len() ==> json_ints_ok(#[trigger] es[x]),
        Json::Obj(ps) => forall|x: int| 0 <= x < ps.len() ==> json_ints_ok(#[trigger] ps[x].1),
        _ => true,
    }
}

/// The value with every object inside normalized: keys sorted, duplicates
/// collapsed with later members winning. Parsing printed text yields the
/// normalized form of the printed value.
pub open spec fn norm_json(j: Json) -> Json
    decreases j,
{
    match j {
        Json::Arr(es) => Json::Arr(norm_elems(es)),
        Json::Obj(ps) => Json::Obj(obj_normalize(norm_members(ps))),
        _ => j,
    }
}

/// Array elements, each normalized.
pub open spec fn norm_elems(es: Seq<Json>) -> Seq<Json>
    decreases es,
{
    if es.len() == 0 {
        Seq::empty()
    } else {
        seq![norm_json(es[0])] + norm_elems(es.drop_first())
    }
}

/// Object members in their original order, each value normalized.
pub open spec fn norm_members(ps: Seq<(Seq<char>, Json)>) -> Seq<(Seq<char>, Json)>
    decreases ps,
{
    if ps.len() == 0 {
        Seq::empty()
    } else {
        seq![(ps[0].0, norm_json(ps[0].1))] + norm_members(ps.drop_first())
    }
}

proof fn lemma_norm_elems_props(es: Seq<Json>)
    ensures
        norm_elems(es).len() == es.len(),
        forall|x: int| 0 <= x < es.len() ==> #[trigger] norm_elems(es)[x] == norm_json(es[x]),
    decreases es,
{
    if es.len() == 0 {
        assert(norm_elems(es).len() == 0);
    } else {
        assert(norm_elems(es) == seq![norm_json(es[0])] + norm_elems(es.drop_first()));
        lemma_norm_elems_props(es.drop_first());
        assert forall|x: int| 0 <= x < es.len() implies #[trigger] norm_elems(es)[x]
            == norm_json(es[x]) by {
            if x == 0 {
                assert(norm_elems(es)[0] == norm_json(es[0]));
            } else {
                assert(norm_elems(es)[x] == norm_elems(es.drop_first())[x - 1]);
                assert(es.drop_first()[x - 1] == es[x]);
            }
        }
    }
}

proof fn lemma_norm_members_props(ps: Seq<(Seq<char>, Json)>)
    ensures
        norm_members(ps).len() == ps.len(),
        forall|x: int|
            0 <= x < ps.len() ==> #[trigger] norm_members(ps)[x] == (ps[x].0, norm_json(ps[x].1)),
    decreases ps,
{
    if ps.len() == 0 {
        assert(norm_members(ps).len() == 0);
    } else {
        assert(norm_members(ps) == seq![(ps[0].0, norm_json(ps[0].1))] + norm_members(
            ps.drop_first(),
        ));
        lemma_norm_members_props(ps.drop_first());
        assert forall|x: int| 0 <= x < ps.len() implies #[trigger] norm_members(ps)[x] == (
            ps[x].0,
            norm_json(ps[x].1),
        ) by {
            if x == 0 {
                assert(norm_members(ps)[0] == (ps[0].0, norm_json(ps[0].1)));
            } else {
                assert(norm_members(ps)[x] == norm_members(ps.drop_first())[x - 1]);
                assert(ps.drop_first()[x - 1] == ps[x]);
            }
        }
    }
}

/// Split a text window that holds a concatenation into its two halves.
proof fn lemma_subwindow(t: Seq<char>, i: int, a: Seq<char>, b: Seq<char>)
    requires
        0 <= i,
        i + a.len() + b.len() <= t.len(),
        t.subrange(i, i + a.len() + b.len()) == a + b,
    ensures
        t.subrange(i, i + a.len() as int) == a,
        t.subrange(i + a.len() as int, i + a.len() + b.len()) == b,
{
    assert forall|x: int| 0 <= x < a.len() implies t.subrange(i, i + a.len() as int)[x]
        == a[x] by {
        assert(t.subrange(i, i + a.len() + b.len())[x] == (a + b)[x]);
        assert(t.subrange(i, i + a.len() as int)[x] == t[i + x]);
        assert(t.subrange(i, i + a.len() + b.len())[x] == t[i + x]);
    }
    assert(t.subrange(i, i + a.len() as int) =~= a);
    assert forall|x: int|
        0 <= x < b.len() implies t.subrange(i + a.len() as int, i + a.len() + b.len())[x]
        == b[x] by {
        assert(t.subrange(i, i + a.len() + b.len())[a.len() + x] == (a + b)[a.len() + x]);
        assert((a + b)[a.len() + x] == b[x]);
        assert(t.subrange(i + a.len() as int, i + a.len() + b.len())[x] == t[i + a.len() + x]);
        assert(t.subrange(i, i + a.len() + b.len())[a.len() + x] == t[i + a.len() + x]);
    }
    assert(t.subrange(i + a.len() as int, i + a.len() + b.len()) =~= b);
}

/// Printed JSON text is never empty and never opens with whitespace.
proof fn lemma_json_text_head(j: Json)
    ensures
        json_text(j).len() >= 1,
        !is_ws(json_text(j)[0]),
        json_text(j)[0] != ',',
        json_text(j)[0] != ']',
        json_text(j)[0] != '}',
        json_text(j)[0] != ':',
{
    match j {
        Json::Int(n) => {
            let mag: int = if n < 0 {
                -n
            } else {
                n
            };
            lemma_dec_digits(mag);
            if n < 0 {
                assert(json_text(j)[0] == '-');
            } else {
                assert(json_text(j) == dec_digits(mag));
                assert(is_digit(json_text(j)[0]));
            }
        },
        _ => {},
    }
}

/// One printed JSON value, anywhere in a text and followed by anything but
/// a digit, parses back to its normalized form, consuming exactly its text.
pub proof fn lemma_print_parse_value(j: Json, t: Seq<char>, i: int)
    requires
        json_ints_ok(j),
        0 <= i,
        i + json_text(j).len() <= t.len(),
        t.subrange(i, i + json_text(j).len() as int) == json_text(j),
        i + json_text(j).len() == t.len() || !is_digit(t[i + json_text(j).len()]),
    ensures
        parse_value(t, i) == Some((norm_json(j), i + json_text(j).len() as int)),
    decreases j,
{
    let w = json_text(j);
    let ll = w.len() as int;
    let end = i + ll;
    assert forall|x: int| 0 <= x < ll implies t[i + x] == w[x] by {
        assert(t.subrange(i, end)[x] == w[x]);
    }
    lemma_json_text_head(j);
    assert(t[i + 0] == w[0]);
    assert(!is_ws(t[i]));
    assert(skip_ws(t, i) == i);
    match j {
        Json::Null => {
            assert(w == seq!['n', 'u', 'l', 'l']);
            assert(t[i] == 'n' && t[i + 1] == 'u' && t[i + 2] == 'l' && t[i + 3] == 'l');
            assert(parse_value(t, i) == Some((Json::Null, i + 4)));
        },
        Json::Bool(b) => {
            if b {
                assert(w == seq!['t', 'r', 'u', 'e']);
                assert(t[i] == 't' && t[i + 1] == 'r' && t[i + 2] == 'u' && t[i + 3] == 'e');
                assert(parse_value(t, i) == Some((Json::Bool(true), i + 4)));
            } else {
                assert(w == seq!['f', 'a', 'l', 's', 'e']);
                assert(t[i] == 'f' && t[i + 1] == 'a' && t[i + 2] == 'l' && t[i + 3] == 's'
                    && t[i + 4] == 'e');
                assert(parse_value(t, i) == Some((Json::Bool(false), i + 5)));
            }
        },
        Json::Int(n) => {
            assert(t.subrange(i, end) =~= int_text(n));
            lemma_print_parse_int(n, t, i);
            assert(t[i] == '-' || is_digit(t[i]));
            assert(t[i] != 'n' && t[i] != 't' && t[i] != 'f' && t[i] != '"' && t[i] != '['
                && t[i] != '{');
            assert(parse_value(t, i) == parse_number(t, i));
        },
        Json::Str(cs) => {
            assert(w == seq!['"'] + (esc_str(cs) + seq!['"'])) by {
                assert(seq!['"'] + esc_str(cs) + seq!['"'] =~= seq!['"'] + (esc_str(cs)
                    + seq!['"']));
            }
            lemma_subwindow(t, i, seq!['"'], esc_str(cs) + seq!['"']);
            assert(t[i] == '"');
            lemma_print_parse_string(cs, t, i + 1);
            assert(parse_value(t, i) == Some((Json::Str(cs), end)));
        },
        Json::Arr(es) => {
            let jn = join_comma(arr_texts(es));
            assert(w == seq!['['] + (jn + seq![']'])) by {
                assert(seq!['['] + jn + seq![']'] =~= seq!['['] + (jn + seq![']']));
            }
            lemma_subwindow(t, i, seq!['['], jn + seq![']']);
            assert(t[i] == '[');
            assert forall|x: int| 0 <= x < jn.len() + 1 implies t[i + 1 + x] == (jn
                + seq![']'])[x] by {
                assert(t.subrange(i + 1, end)[x] == (jn + seq![']'])[x]);
            }
            if es.len() == 0 {
                assert(arr_texts(es) =~= Seq::<Seq<char>>::empty());
                assert(jn == Seq::<char>::empty());
                assert(t[i + 1 + 0] == (jn + seq![']'])[0]);
                assert(t[i + 1] == ']');
                assert(!is_ws(']'));
                assert(skip_ws(t, i + 1) == i + 1);
                assert(norm_elems(es) == Seq::<Json>::empty());
                assert(parse_value(t, i) == Some((Json::Arr(Seq::empty()), i + 2)));
            } else {
                crate::text::lemma_join_head(arr_texts(es));
                assert(arr_texts(es)[0] == json_text(es[0]));
                lemma_json_text_head(es[0]);
                assert(json_text(es[0]).len() >= 1);
                assert(jn[0] == json_text(es[0])[0]);
                assert(t[i + 1 + 0] == (jn + seq![']'])[0]);
                assert(t[i + 1] == jn[0]);
                assert(!is_ws(t[i + 1]));
                assert(skip_ws(t, i + 1) == i + 1);
                assert(t[i + 1] != ']');
                assert(forall|x: int| 0 <= x < es.len() ==> json_ints_ok(#[trigger] es[x]));
                lemma_print_parse_elems(es, t, i + 1);
                assert(parse_value(t, i) == Some((Json::Arr(norm_elems(es)), end)));
            }
        },
        Json::Obj(ps) => {
            let jn = join_comma(obj_texts(ps));
            assert(w == seq!['{'] + (jn + seq!['}'])) by {
                assert(seq!['{'] + jn + seq!['}'] =~= seq!['{'] + (jn + seq!['}']));
            }
            lemma_subwindow(t, i, seq!['{'], jn + seq!['}']);
            assert(t[i] == '{');
            assert forall|x: int| 0 <= x < jn.len() + 1 implies t[i + 1 + x] == (jn
                + seq!['}'])[x] by {
                assert(t.subrange(i + 1, end)[x] == (jn + seq!['}'])[x]);
            }
            if ps.len() == 0 {
                assert(obj_texts(ps) =~= Seq::<Seq<char>>::empty());
                assert(jn == Seq::<char>::empty());
                assert(t[i + 1 + 0] == (jn + seq!['}'])[0]);
                assert(t[i + 1] == '}');
                assert(!is_ws('}'));
                assert(skip_ws(t, i + 1) == i + 1);
                assert(norm_members(ps) == Seq::<(Seq<char>, Json)>::empty());
                assert(obj_normalize(Seq::<(Seq<char>, Json)>::empty()) == Seq::<
                    (Seq<char>, Json),
                >::empty());
                assert(parse_value(t, i) == Some((Json::Obj(Seq::empty()), i + 2)));
            } else {
                crate::text::lemma_join_head(obj_texts(ps));
                assert(obj_texts(ps)[0] == str_text(ps[0].0) + seq![':'] + json_text(ps[0].1));
                assert(obj_texts(ps)[0][0] == '"') by {
                    assert((str_text(ps[0].0) + seq![':'] + json_text(ps[0].1))[0] == str_text(
                        ps[0].0,
                    )[0]);
                    assert(str_text(ps[0].0)[0] == '"');
                }
                assert(jn[0] == '"');
                assert(t[i + 1 + 0] == (jn + seq!['}'])[0]);
                assert(t[i + 1] == '"');
                assert(!is_ws('"'));
                assert(skip_ws(t, i + 1) == i + 1);
                assert(t[i + 1] != '}');
                assert(forall|x: int| 0 <= x < ps.len() ==> json_ints_ok(#[trigger] ps[x].1));
                lemma_print_parse_members(ps, t, i + 1);
                assert(parse_value(t, i) == Some(
                    (Json::Obj(obj_normalize(norm_members(ps))), end),
                ));
            }
        },
    }
}

/// Printed array elements followed by the closing bracket parse back to the
/// normalized elements, consuming through the bracket.
proof fn lemma_print_parse_elems(es: Seq<Json>, t: Seq<char>, i: int)
    requires
        es.len() >= 1,
        forall|x: int| 0 <= x < es.len() ==> json_ints_ok(#[trigger] es[x]),
        0 <= i,
        i + join_comma(arr_texts(es)).len() + 1 <= t.len(),
        t.subrange(i, i + join_comma(arr_texts(es)).len() + 1) == join_comma(arr_texts(es))
            + seq![']'],
    ensures
        parse_elems(t, i) == Some((norm_elems(es), i + join_comma(arr_texts(es)).len() + 1)),
    decreases es,
{
    let jn = join_comma(arr_texts(es));
    let w0 = json_text(es[0]);
    let l0 = w0.len() as int;
    assert(arr_texts(es)[0] == w0);
    if es.len() == 1 {
        assert(jn == w0);
        lemma_subwindow(t, i, w0, seq![']']);
        assert(t.subrange(i + l0, i + l0 + 1)[0] == t[i + l0]);
        assert(t[i + l0] == ']');
        assert(!is_digit(']'));
        lemma_print_parse_value(es[0], t, i);
        assert(!is_ws(']'));
        assert(skip_ws(t, i + l0) == i + l0);
        assert(es.drop_first() =~= Seq::<Json>::empty());
        assert(norm_elems(Seq::<Json>::empty()) == Seq::<Json>::empty());
        assert(norm_elems(es) =~= seq![norm_json(es[0])]);
        assert(parse_elems(t, i) == Some((seq![norm_json(es[0])], i + l0 + 1)));
    } else {
        let rest = es.drop_first();
        assert(arr_texts(es).drop_first() =~= arr_texts(rest)) by {
            assert(forall|x: int|
                0 <= x < rest.len() ==> #[trigger] arr_texts(es).drop_first()[x] == arr_texts(
                    es,
                )[x + 1]);
            assert(forall|x: int| 0 <= x < rest.len() ==> #[trigger] rest[x] == es[x + 1]);
        }
        let jr = join_comma(arr_texts(rest));
        assert(jn == w0 + seq![','] + jr);
        assert(jn + seq![']'] == w0 + (seq![','] + (jr + seq![']']))) by {
            assert(w0 + seq![','] + jr + seq![']'] =~= w0 + (seq![','] + (jr + seq![']'])));
        }
        lemma_subwindow(t, i, w0, seq![','] + (jr + seq![']']));
        lemma_subwindow(t, i + l0, seq![','], jr + seq![']']);
        assert(t.subrange(i + l0, i + l0 + 1)[0] == t[i + l0]);
        assert(t[i + l0] == ',');
        assert(!is_digit(','));
        lemma_print_parse_value(es[0], t, i);
        assert(!is_ws(','));
        assert(skip_ws(t, i + l0) == i + l0);
        assert(forall|x: int| 0 <= x < rest.len() ==> json_ints_ok(#[trigger] rest[x]));
        lemma_print_parse_elems(rest, t, i + l0 + 1);
        assert(norm_elems(es) == seq![norm_json(es[0])] + norm_elems(rest));
        assert(parse_elems(t, i) == Some(
            (seq![norm_json(es[0])] + norm_elems(rest), i + jn.len() + 1),
        ));
    }
}

/// Printed object members followed by the closing brace parse back to the
/// normalized members in order, consuming through the brace.
#[verifier::rlimit(100)]
proof fn lemma_print_parse_members(ps: Seq<(Seq<char>, Json)>, t: Seq<char>, i: int)
    requires
        ps.len() >= 1,
        forall|x: int| 0 <= x < ps.len() ==> json_ints_ok(#[trigger] ps[x].1),
        0 <= i,
        i + join_comma(obj_texts(ps)).len() + 1 <= t.len(),
        t.subrange(i, i + join_comma(obj_texts(ps)).len() + 1) == join_comma(obj_texts(ps))
            + seq!['}'],
    ensures
        parse_members(t, i) == Some((norm_members(ps), i + join_comma(obj_texts(ps)).len() + 1)),
    decreases ps,
{
    let jn = join_comma(obj_texts(ps));
    let key = ps[0].0;
    let v0 = ps[0].1;
    let kt = str_text(key);
    let wv = json_text(v0);
    let m0 = kt + seq![':'] + wv;
    assert(obj_texts(ps)[0] == m0);
    let lk = kt.len() as int;
    let lv = wv.len() as int;
    let lm = m0.len() as int;
    assert(lm == lk + 1 + lv);
    let vend = i + lm;
    // decompose the first member: quote, escaped key + quote, colon, value
    let after = if ps.len() == 1 {
        seq!['}']
    } else {
        seq![','] + (join_comma(obj_texts(ps.drop_first())) + seq!['}'])
    };
    assert(jn + seq!['}'] == m0 + after) by {
        if ps.len() == 1 {
            assert(jn == m0);
        } else {
            let restx = obj_texts(ps.drop_first());
            assert(obj_texts(ps).drop_first() =~= restx) by {
                assert(forall|x: int|
                    0 <= x < restx.len() ==> #[trigger] obj_texts(ps).drop_first()[x]
                        == obj_texts(ps)[x + 1]);
                assert(forall|x: int|
                    0 <= x < ps.drop_first().len() ==> #[trigger] ps.drop_first()[x] == ps[x
                        + 1]);
            }
            assert(jn == m0 + seq![','] + join_comma(restx));
            assert(m0 + seq![','] + join_comma(restx) + seq!['}'] =~= m0 + (seq![',']
                + (join_comma(restx) + seq!['}'])));
        }
    }
    assert((jn + seq!['}']).len() == jn.len() + 1);
    assert((m0 + after).len() == m0.len() + after.len());
    assert(m0.len() + after.len() == jn.len() + 1);
    lemma_subwindow(t, i, m0, after);
    assert(t.subrange(i + lm, i + jn.len() + 1) == after);
    assert(m0 == seq!['"'] + ((esc_str(key) + seq!['"']) + (seq![':'] + wv))) by {
        assert(kt == seq!['"'] + esc_str(key) + seq!['"']);
        assert(seq!['"'] + esc_str(key) + seq!['"'] + seq![':'] + wv =~= seq!['"'] + ((esc_str(
            key,
        ) + seq!['"']) + (seq![':'] + wv)));
    }
    assert(t.subrange(i, vend) == m0);
    lemma_subwindow(t, i, seq!['"'], (esc_str(key) + seq!['"']) + (seq![':'] + wv));
    assert(t.subrange(i, i + 1)[0] == t[i]);
    assert(t[i] == '"');
    lemma_subwindow(t, i + 1, esc_str(key) + seq!['"'], seq![':'] + wv);
    lemma_subwindow(t, i + lk, seq![':'], wv);
    assert(t.subrange(i + lk, i + lk + 1)[0] == t[i + lk]);
    assert(t[i + lk] == ':');
    lemma_print_parse_string(key, t, i + 1);
    assert(parse_string(t, i + 1) == Some((key, i + lk)));
    assert(!is_ws(':'));
    assert(skip_ws(t, i + lk) == i + lk);
    // the value runs to vend, followed by ',' or '}'
    assert(after.len() >= 1);
    assert(t.subrange(vend, i + jn.len() + 1)[0] == t[vend + 0]);
    assert(t[vend] == after[0]);
    assert(!is_digit(t[vend]) && !is_ws(t[vend]));
    lemma_print_parse_value(v0, t, i + lk + 1);
    assert(parse_value(t, i + lk + 1) == Some((norm_json(v0), vend)));
    assert(skip_ws(t, vend) == vend);
    if ps.len() == 1 {
        assert(t[vend] == '}');
        assert(ps.drop_first() =~= Seq::<(Seq<char>, Json)>::empty());
        assert(norm_members(Seq::<(Seq<char>, Json)>::empty()) == Seq::<(Seq<char>, Json)>::empty());
        assert(norm_members(ps) =~= seq![(key, norm_json(v0))]);
        assert(parse_members(t, i) == Some((seq![(key, norm_json(v0))], vend + 1)));
    } else {
        assert(t[vend] == ',');
        let rest = ps.drop_first();
        let restx = obj_texts(rest);
        assert(obj_texts(ps).drop_first() =~= restx) by {
            assert(forall|x: int|
                0 <= x < restx.len() ==> #[trigger] obj_texts(ps).drop_first()[x] == obj_texts(
                    ps,
                )[x + 1]);
            assert(forall|x: int|
                0 <= x < ps.drop_first().len() ==> #[trigger] ps.drop_first()[x] == ps[x + 1]);
        }
        lemma_subwindow(t, vend, seq![','], join_comma(restx) + seq!['}']);
        crate::text::lemma_join_head(restx);
        assert(restx[0] == str_text(rest[0].0) + seq![':'] + json_text(rest[0].1));
        assert(restx[0][0] == '"') by {
            assert((str_text(rest[0].0) + seq![':'] + json_text(rest[0].1))[0] == str_text(
                rest[0].0,
            )[0]);
            assert(str_text(rest[0].0)[0] == '"');
        }
        assert(join_comma(restx)[0] == '"');
        assert(t.subrange(vend + 1, i + jn.len() + 1)[0] == t[vend + 1]);
        assert(t[vend + 1] == '"');
        assert(!is_ws('"'));
        assert(skip_ws(t, vend + 1) == vend + 1);
        assert(forall|x: int| 0 <= x < rest.len() ==> json_ints_ok(#[trigger] rest[x].1));
        lemma_print_parse_members(rest, t, vend + 1);
        assert(norm_members(ps) == seq![(key, norm_json(v0))] + norm_members(rest));
        assert(parse_members(t, i) == Some(
            (seq![(key, norm_json(v0))] + norm_members(rest), i + jn.len() + 1),
        ));
    }
}

/// The printer-parser round trip: parsing the printed text of any JSON
/// value yields exactly that value with its objects normalized — and so
/// yields the value itself whenever its objects are already sorted with
/// unique keys.
pub proof fn lemma_text_round_trip(j: Json)
    requires
        json_ints_ok(j),
    ensures
        spec_parse_json(json_text(j)) == Some(norm_json(j)),
{
    let t = json_text(j);
    lemma_json_text_head(j);
    assert(t.subrange(0, t.len() as int) =~= t);
    lemma_print_parse_value(j, t, 0);
    assert(skip_ws(t, t.len() as int) == t.len());
}

} // verus!
