//! The codec between resources and JSON values: the merge of `_links`,
//! `_embedded` and the payload into one flat object, and its inverse.
//!
//! `resource_json` specifies the exact JSON value a resource serializes to;
//! `resource_from_json` specifies what a JSON value deserializes to. Both
//! sides are executable here, and the round-trip laws relate them.

use vstd::prelude::*;

use crate::error::HalError;
use crate::json::{obj_view, FromJson, Json, JsonValue, ToJson};
use crate::link::{link_json, HalLink, LinkV};
use crate::one_or_many::{oom_from_json, oom_json, OneOrMany, OomV};
use crate::order::{map_get, map_upsert, str_compare, vec_keys_sorted};
use crate::resource::{
    entries_view, k_curies, k_embedded, k_links, lemma_emb_map_view_props,
    lemma_entries_view_embedded, lemma_oom_res_view_is_view, oom_upsert, sorted_map_put,
    HalResource, ResourceV,
};

verus! {

/// The serialized elements of a link container.
pub open spec fn link_jsons(es: Seq<LinkV>) -> Seq<Json> {
    Seq::new(
        es.len(),
        |j: int|
            if 0 <= j < es.len() {
                link_json(es[j])
            } else {
                Json::Null
            },
    )
}

/// The members of the `_links` object: one per relation, in map order, each
/// rendered by the one-or-many rule.
pub open spec fn links_members(ls: Seq<(Seq<char>, OomV<LinkV>)>) -> Seq<(Seq<char>, Json)> {
    Seq::new(
        ls.len(),
        |i: int|
            if 0 <= i < ls.len() {
                (ls[i].0, oom_json(ls[i].1.force, link_jsons(ls[i].1.elems)))
            } else {
                (Seq::<char>::empty(), Json::Null)
            },
    )
}

/// The serialized elements of an embedded-resource container.
pub open spec fn res_jsons(es: Seq<ResourceV>) -> Seq<Json>
    decreases es,
{
    if es.len() == 0 {
        Seq::empty()
    } else {
        seq![resource_json(es[0])] + res_jsons(es.drop_first())
    }
}

/// The members of the `_embedded` object: one per relation, in map order,
/// each rendered by the one-or-many rule.
pub open spec fn embedded_members(es: Seq<(Seq<char>, OomV<ResourceV>)>) -> Seq<
    (Seq<char>, Json),
>
    decreases es,
{
    if es.len() == 0 {
        Seq::empty()
    } else {
        seq![(es[0].0, oom_json(es[0].1.force, res_jsons(es[0].1.elems)))] + embedded_members(
            es.drop_first(),
        )
    }
}

/// The exact JSON object a resource serializes to: `_links` when any links
/// exist, then `_embedded` when any embedded resources exist, then the
/// payload entries, all in one flat object.
pub open spec fn resource_json(r: ResourceV) -> Json
    decreases r,
{
    Json::Obj(
        (if r.links.len() > 0 {
            seq![(k_links(), Json::Obj(links_members(r.links)))]
        } else {
            Seq::<(Seq<char>, Json)>::empty()
        }) + (if r.embedded.len() > 0 {
            seq![(k_embedded(), Json::Obj(embedded_members(r.embedded)))]
        } else {
            Seq::<(Seq<char>, Json)>::empty()
        }) + (match r.data {
            Some(d) => d,
            None => Seq::<(Seq<char>, Json)>::empty(),
        }),
    )
}

pub broadcast proof fn lemma_res_jsons_props(es: Seq<ResourceV>)
    ensures
        (#[trigger] res_jsons(es)).len() == es.len(),
        forall|i: int| 0 <= i < es.len() ==> #[trigger] res_jsons(es)[i] == resource_json(es[i]),
    decreases es,
{
    if es.len() == 0 {
        assert(res_jsons(es).len() == 0);
    } else {
        assert(res_jsons(es) == seq![resource_json(es[0])] + res_jsons(es.drop_first()));
        lemma_res_jsons_props(es.drop_first());
        assert forall|i: int| 0 <= i < es.len() implies #[trigger] res_jsons(es)[i]
            == resource_json(es[i]) by {
            if i == 0 {
                assert(res_jsons(es)[0] == resource_json(es[0]));
            } else {
                assert(res_jsons(es)[i] == res_jsons(es.drop_first())[i - 1]);
                assert(es.drop_first()[i - 1] == es[i]);
            }
        }
    }
}

pub broadcast proof fn lemma_embedded_members_props(es: Seq<(Seq<char>, OomV<ResourceV>)>)
    ensures
        (#[trigger] embedded_members(es)).len() == es.len(),
        forall|i: int|
            0 <= i < es.len() ==> #[trigger] embedded_members(es)[i] == (
                es[i].0,
                oom_json(es[i].1.force, res_jsons(es[i].1.elems)),
            ),
    decreases es,
{
    if es.len() == 0 {
        assert(embedded_members(es).len() == 0);
    } else {
        assert(embedded_members(es) == seq![
            (es[0].0, oom_json(es[0].1.force, res_jsons(es[0].1.elems))),
        ] + embedded_members(es.drop_first()));
        lemma_embedded_members_props(es.drop_first());
        assert forall|i: int| 0 <= i < es.len() implies #[trigger] embedded_members(es)[i] == (
            es[i].0,
            oom_json(es[i].1.force, res_jsons(es[i].1.elems)),
        ) by {
            if i == 0 {
                assert(embedded_members(es)[0] == (
                    es[0].0,
                    oom_json(es[0].1.force, res_jsons(es[0].1.elems)),
                ));
            } else {
                assert(embedded_members(es)[i] == embedded_members(es.drop_first())[i - 1]);
                assert(es.drop_first()[i - 1] == es[i]);
            }
        }
    }
}

/// Serialize a container of resources by the one-or-many rule.
#[verifier::loop_isolation(false)]
fn oom_resources_to_json(c: &OneOrMany<HalResource>) -> (r: JsonValue)
    ensures
        r@ == oom_json(c@.force, res_jsons(c@.elems)),
    decreases c,
{
    proof {
        lemma_res_jsons_props(c@.elems);
    }
    if c.content.len() == 0 && !c.force_many {
        proof {
            assert(res_jsons(c@.elems) =~= Seq::<Json>::empty());
        }
        JsonValue::Null
    } else if c.content.len() == 1 && !c.force_many {
        let r = c.content[0].to_json();
        proof {
            assert(c@.elems[0] == c.content@[0]@);
        }
        r
    } else {
        let n = c.content.len();
        let ghost target = res_jsons(c@.elems);
        let mut out: Vec<JsonValue> = Vec::new();
        let mut i: usize = 0;
        proof {
            assert(crate::json::arr_view(out@) =~= target.take(0));
        }
        while i < n
            invariant
                i <= n,
                crate::json::arr_view(out@) == target.take(i as int),
            decreases n - i,
        {
            let x = c.content[i].to_json();
            let ghost xg = x@;
            out.push(x);
            proof {
                assert(c@.elems[i as int] == c.content@[i as int]@);
                assert(xg == target[i as int]);
                assert(crate::json::arr_view(out@) =~= target.take(i as int + 1));
            }
            i += 1;
        }
        proof {
            assert(target.take(n as int) =~= target);
        }
        JsonValue::Arr(out)
    }
}

impl HalResource {
    /// Serialize this resource to its flat JSON object, exactly as
    /// `resource_json` specifies.
    #[verifier::loop_isolation(false)]
    pub fn to_json(&self) -> (r: JsonValue)
        ensures
            r@ == resource_json(self@),
        decreases self,
    {
        let mut entries: Vec<(String, JsonValue)> = Vec::new();
        proof {
            reveal_strlit("_links");
            reveal_strlit("_embedded");
            assert("_links"@ =~= k_links());
            assert("_embedded"@ =~= k_embedded());
        }
        let ghost seg_links: Seq<(Seq<char>, Json)> = if self@.links.len() > 0 {
            seq![(k_links(), Json::Obj(links_members(self@.links)))]
        } else {
            Seq::empty()
        };
        if self.links.len() > 0 {
            let nl = self.links.len();
            let ghost lm_target = links_members(self@.links);
            let mut lm: Vec<(String, JsonValue)> = Vec::new();
            let mut i: usize = 0;
            proof {
                assert(obj_view(lm@) =~= lm_target.take(0));
            }
            while i < nl
                invariant
                    i <= nl,
                    obj_view(lm@) == lm_target.take(i as int),
                decreases nl - i,
            {
                let key = self.links[i].0.clone();
                let val = self.links[i].1.to_json();
                let ghost vg = val@;
                lm.push((key, val));
                proof {
                    assert(self@.links[i as int] == (self.links@[i as int].0@, self.links@[i
                        as int].1@));
                    assert(vg == oom_json(
                        self@.links[i as int].1.force,
                        Seq::new(
                            self@.links[i as int].1.elems.len(),
                            |j: int| HalLink::json_of(self@.links[i as int].1.elems[j]),
                        ),
                    ));
                    assert(Seq::new(
                        self@.links[i as int].1.elems.len(),
                        |j: int| HalLink::json_of(self@.links[i as int].1.elems[j]),
                    ) =~= link_jsons(self@.links[i as int].1.elems));
                    assert(obj_view(lm@) =~= lm_target.take(i as int + 1));
                }
                i += 1;
            }
            proof {
                assert(lm_target.take(nl as int) =~= lm_target);
            }
            entries.push(("_links".to_owned(), JsonValue::Obj(lm)));
        }
        proof {
            assert(obj_view(entries@) =~= seg_links);
        }
        let ghost seg_emb: Seq<(Seq<char>, Json)> = if self@.embedded.len() > 0 {
            seq![(k_embedded(), Json::Obj(embedded_members(self@.embedded)))]
        } else {
            Seq::empty()
        };
        if self.embedded.len() > 0 {
            let ne = self.embedded.len();
            let ghost em_target = embedded_members(self@.embedded);
            let mut em: Vec<(String, JsonValue)> = Vec::new();
            let mut i: usize = 0;
            proof {
                lemma_embedded_members_props(self@.embedded);
                lemma_emb_map_view_props(self.embedded@);
                assert(obj_view(em@) =~= em_target.take(0));
            }
            while i < ne
                invariant
                    i <= ne,
                    obj_view(em@) == em_target.take(i as int),
                decreases ne - i,
            {
                let key = self.embedded[i].0.clone();
                let val = oom_resources_to_json(&self.embedded[i].1);
                let ghost vg = val@;
                em.push((key, val));
                proof {
                    crate::resource::lemma_embedded_view(self, i as int);
                    lemma_oom_res_view_is_view(self.embedded@[i as int].1);
                    assert(self@.embedded[i as int].1 == self.embedded@[i as int].1@);
                    assert(vg == oom_json(
                        self@.embedded[i as int].1.force,
                        res_jsons(self@.embedded[i as int].1.elems),
                    ));
                    assert(obj_view(em@) =~= em_target.take(i as int + 1));
                }
                i += 1;
            }
            proof {
                assert(em_target.take(ne as int) =~= em_target);
            }
            entries.push(("_embedded".to_owned(), JsonValue::Obj(em)));
        }
        proof {
            assert(obj_view(entries@) =~= seg_links + seg_emb);
        }
        match &self.data {
            Some(m) => {
                let nd = m.len();
                let mut i: usize = 0;
                proof {
                    assert(obj_view(entries@) =~= seg_links + seg_emb + obj_view(m@).take(0));
                }
                while i < nd
                    invariant
                        i <= nd,
                        obj_view(entries@) == seg_links + seg_emb + obj_view(m@).take(i as int),
                    decreases nd - i,
                {
                    let ghost before = obj_view(entries@);
                    let k = m[i].0.clone();
                    let v = m[i].1.clone();
                    let ghost kv = (k@, v@);
                    entries.push((k, v));
                    proof {
                        assert(kv == obj_view(m@)[i as int]);
                        assert(obj_view(entries@) =~= before.push(kv));
                        assert(obj_view(m@).take(i as int + 1) =~= obj_view(m@).take(
                            i as int,
                        ).push(kv));
                        assert(obj_view(entries@) =~= seg_links + seg_emb + obj_view(m@).take(
                            i as int + 1,
                        ));
                    }
                    i += 1;
                }
                proof {
                    assert(obj_view(m@).take(nd as int) =~= obj_view(m@));
                }
            },
            None => {
                proof {
                    assert(obj_view(entries@) =~= seg_links + seg_emb + Seq::<
                        (Seq<char>, Json),
                    >::empty());
                }
            },
        }
        proof {
            assert(resource_json(self@)->Obj_0 =~= seg_links + seg_emb + (match self@.data {
                Some(d) => d,
                None => Seq::<(Seq<char>, Json)>::empty(),
            }));
            assert(obj_view(entries@) =~= resource_json(self@)->Obj_0);
        }
        JsonValue::Obj(entries)
    }
}

/// The resource with no links, no embedded resources and no payload.
pub open spec fn empty_resource() -> ResourceV {
    ResourceV { links: Seq::empty(), embedded: Seq::empty(), data: None }
}

/// What a JSON value deserializes to as a resource: an object whose
/// `_links` and `_embedded` members become the two relation maps and whose
/// remaining members are accumulated, in order, into the payload. Any
/// non-object input is rejected.
pub open spec fn resource_from_json(j: Json) -> Option<ResourceV>
    decreases j, 0int,
{
    match j {
        Json::Obj(ps) => res_fold(ps),
        _ => None,
    }
}

/// Fold the members of a resource object from first to last.
pub open spec fn res_fold(ps: Seq<(Seq<char>, Json)>) -> Option<ResourceV>
    decreases ps, 0int,
{
    if ps.len() == 0 {
        Some(empty_resource())
    } else {
        match res_fold(ps.drop_last()) {
            Some(acc) => res_step(acc, ps.last().0, ps.last().1),
            None => None,
        }
    }
}

/// One member of a resource object: `_links` replaces the link map (its
/// value must be an object of relation containers), `_embedded` replaces
/// the embedded map likewise, and any other member joins the payload,
/// replacing an entry with the same key.
pub open spec fn res_step(acc: ResourceV, k: Seq<char>, v: Json) -> Option<ResourceV>
    decreases v, 0int,
{
    if k == k_links() {
        match v {
            Json::Obj(lps) => match links_entries_from(lps) {
                Some(ls) => Some(ResourceV { links: ls, ..acc }),
                None => None,
            },
            _ => None,
        }
    } else if k == k_embedded() {
        match v {
            Json::Obj(eps) => match embedded_entries_from(eps) {
                Some(es) => Some(ResourceV { embedded: es, ..acc }),
                None => None,
            },
            _ => None,
        }
    } else {
        Some(
            ResourceV {
                data: Some(
                    map_upsert(
                        match acc.data {
                            Some(d) => d,
                            None => Seq::<(Seq<char>, Json)>::empty(),
                        },
                        k,
                        v,
                    ),
                ),
                ..acc
            },
        )
    }
}

/// Fold the members of a `_links` object into a sorted relation map,
/// later duplicates winning.
pub open spec fn links_entries_from(lps: Seq<(Seq<char>, Json)>) -> Option<
    Seq<(Seq<char>, OomV<LinkV>)>,
>
    decreases lps,
{
    if lps.len() == 0 {
        Some(Seq::empty())
    } else {
        match links_entries_from(lps.drop_last()) {
            Some(acc) => match oom_from_json::<HalLink>(lps.last().1) {
                Some(c) => Some(map_upsert(acc, lps.last().0, c)),
                None => None,
            },
            None => None,
        }
    }
}

/// Fold the members of an `_embedded` object into a sorted relation map,
/// later duplicates winning.
pub open spec fn embedded_entries_from(eps: Seq<(Seq<char>, Json)>) -> Option<
    Seq<(Seq<char>, OomV<ResourceV>)>,
>
    decreases eps, 0int,
{
    if eps.len() == 0 {
        Some(Seq::empty())
    } else {
        match embedded_entries_from(eps.drop_last()) {
            Some(acc) => match oom_resources_from(eps.last().1) {
                Some(c) => Some(map_upsert(acc, eps.last().0, c)),
                None => None,
            },
            None => None,
        }
    }
}

/// What a JSON value deserializes to as a container of resources: an array
/// yields its elements in order; anything else is handed to the resource
/// parser and yields an unforced singleton. The forced flag is never set by
/// deserialization.
pub open spec fn oom_resources_from(j: Json) -> Option<OomV<ResourceV>>
    decreases j, 1int,
{
    match j {
        Json::Arr(es) => match res_seq_from(es) {
            Some(ms) => Some(OomV { force: false, elems: ms }),
            None => None,
        },
        _ => match resource_from_json(j) {
            Some(m) => Some(OomV { force: false, elems: seq![m] }),
            None => None,
        },
    }
}

/// Deserialize every element of a sequence as a resource.
pub open spec fn res_seq_from(es: Seq<Json>) -> Option<Seq<ResourceV>>
    decreases es, 1int,
{
    if es.len() == 0 {
        Some(Seq::empty())
    } else {
        match resource_from_json(es[0]) {
            Some(m) => match res_seq_from(es.drop_first()) {
                Some(rest) => Some(seq![m] + rest),
                None => None,
            },
            None => None,
        }
    }
}

pub proof fn lemma_res_seq_from_snoc(es: Seq<Json>, x: Json)
    ensures
        res_seq_from(es.push(x)) == (match (res_seq_from(es), resource_from_json(x)) {
            (Some(ms), Some(m)) => Some(ms.push(m)),
            _ => None::<Seq<ResourceV>>,
        }),
    decreases es.len(),
{
    let t = es.push(x);
    if es.len() == 0 {
        assert(t.drop_first() =~= Seq::<Json>::empty());
        assert(res_seq_from(Seq::<Json>::empty()) == Some(Seq::<ResourceV>::empty()));
        if resource_from_json(x) is Some {
            assert(seq![resource_from_json(x)->0] + Seq::<ResourceV>::empty() =~= Seq::<
                ResourceV,
            >::empty().push(resource_from_json(x)->0));
        }
    } else {
        assert(t.drop_first() =~= es.drop_first().push(x));
        lemma_res_seq_from_snoc(es.drop_first(), x);
        if resource_from_json(es[0]) is Some {
            let m0 = resource_from_json(es[0])->0;
            match res_seq_from(es.drop_first()) {
                Some(rest) => {
                    match resource_from_json(x) {
                        Some(m) => {
                            assert(seq![m0] + rest.push(m) =~= (seq![m0] + rest).push(m));
                        },
                        None => {},
                    }
                },
                None => {},
            }
        }
    }
}

pub proof fn lemma_res_seq_from_none(es: Seq<Json>, i: int)
    requires
        0 <= i < es.len(),
        resource_from_json(es[i]) is None,
    ensures
        res_seq_from(es) is None,
    decreases i,
{
    if i > 0 {
        lemma_res_seq_from_none(es.drop_first(), i - 1);
    }
}

/// A fold that has already failed on a prefix fails on the whole.
pub proof fn lemma_res_fold_extend_none(ps: Seq<(Seq<char>, Json)>, i: int)
    requires
        0 <= i <= ps.len(),
        res_fold(ps.take(i)) is None,
    ensures
        res_fold(ps) is None,
    decreases ps.len() - i,
{
    if i == ps.len() {
        assert(ps.take(i) =~= ps);
    } else {
        assert(ps.take(i + 1).drop_last() =~= ps.take(i));
        lemma_res_fold_extend_none(ps, i + 1);
    }
}

pub proof fn lemma_links_entries_extend_none(ps: Seq<(Seq<char>, Json)>, i: int)
    requires
        0 <= i <= ps.len(),
        links_entries_from(ps.take(i)) is None,
    ensures
        links_entries_from(ps) is None,
    decreases ps.len() - i,
{
    if i == ps.len() {
        assert(ps.take(i) =~= ps);
    } else {
        assert(ps.take(i + 1).drop_last() =~= ps.take(i));
        lemma_links_entries_extend_none(ps, i + 1);
    }
}

pub proof fn lemma_embedded_entries_extend_none(ps: Seq<(Seq<char>, Json)>, i: int)
    requires
        0 <= i <= ps.len(),
        embedded_entries_from(ps.take(i)) is None,
    ensures
        embedded_entries_from(ps) is None,
    decreases ps.len() - i,
{
    if i == ps.len() {
        assert(ps.take(i) =~= ps);
    } else {
        assert(ps.take(i + 1).drop_last() =~= ps.take(i));
        lemma_embedded_entries_extend_none(ps, i + 1);
    }
}

/// Deserialize a container of resources, as `oom_resources_from` specifies.
#[verifier::loop_isolation(false)]
fn oom_resources_from_value(v: &JsonValue) -> (r: Result<OneOrMany<HalResource>, HalError>)
    ensures
        match oom_resources_from(v@) {
            Some(m) => r matches Ok(x) && x@ == m,
            None => r matches Err(e) && e is Json,
        },
    decreases v, 1int,
{
    match v {
        JsonValue::Arr(elems) => {
            let n = elems.len();
            let mut content: Vec<HalResource> = Vec::new();
            let mut i: usize = 0;
            proof {
                assert(crate::json::arr_view(elems@).take(0) =~= Seq::<Json>::empty());
                assert(res_seq_from(crate::json::arr_view(elems@).take(0)) == Some(Seq::<
                    ResourceV,
                >::empty()));
                assert(content@.map_values(|t: HalResource| t@) =~= Seq::<ResourceV>::empty());
            }
            while i < n
                invariant
                    i <= n,
                    res_seq_from(crate::json::arr_view(elems@).take(i as int)) == Some(
                        content@.map_values(|t: HalResource| t@),
                    ),
                decreases n - i,
            {
                let ghost prefix = crate::json::arr_view(elems@).take(i as int);
                let ghost cv = content@.map_values(|t: HalResource| t@);
                let x = match HalResource::from_json(&elems[i]) {
                    Ok(x) => x,
                    Err(e) => {
                        proof {
                            lemma_res_seq_from_none(crate::json::arr_view(elems@), i as int);
                        }
                        return Err(e);
                    },
                };
                let ghost xg = x;
                content.push(x);
                proof {
                    lemma_res_seq_from_snoc(prefix, crate::json::arr_view(elems@)[i as int]);
                    assert(crate::json::arr_view(elems@).take(i as int + 1) =~= prefix.push(
                        crate::json::arr_view(elems@)[i as int],
                    ));
                    assert(content@.map_values(|t: HalResource| t@) =~= cv.push(xg@));
                }
                i += 1;
            }
            proof {
                assert(crate::json::arr_view(elems@).take(n as int) =~= crate::json::arr_view(
                    elems@,
                ));
            }
            let r = OneOrMany { force_many: false, content };
            proof {
                assert(r@.elems =~= r.content@.map_values(|t: HalResource| t@));
            }
            Ok(r)
        },
        _ => {
            let x = match HalResource::from_json(v) {
                Ok(x) => x,
                Err(e) => {
                    return Err(e);
                },
            };
            let ghost xg = x;
            let mut content: Vec<HalResource> = Vec::new();
            content.push(x);
            let r = OneOrMany { force_many: false, content };
            proof {
                assert(r@.elems =~= seq![xg@]);
            }
            Ok(r)
        },
    }
}

impl HalResource {
    /// Deserialize a resource from a JSON value, exactly as
    /// `resource_from_json` specifies.
    #[verifier::loop_isolation(false)]
    pub fn from_json(v: &JsonValue) -> (r: Result<HalResource, HalError>)
        ensures
            match resource_from_json(v@) {
                Some(m) => r matches Ok(x) && x@ == m,
                None => r matches Err(e) && e is Json,
            },
        decreases v, 0int,
    {
        proof {
            reveal_strlit("_links");
            reveal_strlit("_embedded");
            assert("_links"@ =~= k_links());
            assert("_embedded"@ =~= k_embedded());
        }
        let m = match v {
            JsonValue::Obj(m) => m,
            _ => {
                return Err(HalError::Json("a resource must be a JSON object".to_owned()));
            },
        };
        let ghost ps = obj_view(m@);
        let mut links: Vec<(String, OneOrMany<HalLink>)> = Vec::new();
        let mut embedded: Vec<(String, OneOrMany<HalResource>)> = Vec::new();
        let mut data: Vec<(String, JsonValue)> = Vec::new();
        let mut has_data: bool = false;
        proof {
            assert(ps.take(0) =~= Seq::<(Seq<char>, Json)>::empty());
            assert(entries_view(links@) =~= Seq::<(Seq<char>, OomV<LinkV>)>::empty());
            assert(entries_view(embedded@) =~= Seq::<(Seq<char>, OomV<ResourceV>)>::empty());
        }
        let n = m.len();
        let mut i: usize = 0;
        while i < n
            invariant
                i <= n,
                res_fold(ps.take(i as int)) == Some(
                    (ResourceV {
                        links: entries_view(links@),
                        embedded: entries_view(embedded@),
                        data: if has_data {
                            Some(obj_view(data@))
                        } else {
                            None
                        },
                    }),
                ),
                vec_keys_sorted(data@),
                !has_data ==> data@.len() == 0,
            decreases n - i,
        {
            let ghost acc = ResourceV {
                links: entries_view(links@),
                embedded: entries_view(embedded@),
                data: if has_data {
                    Some(obj_view(data@))
                } else {
                    None
                },
            };
            proof {
                assert(ps.take(i as int + 1).drop_last() =~= ps.take(i as int));
                assert(ps.take(i as int + 1).last() == ps[i as int]);
            }
            let c1 = str_compare(m[i].0.as_str(), "_links");
            let c2 = str_compare(m[i].0.as_str(), "_embedded");
            if c1 == 0 {
                match &m[i].1 {
                    JsonValue::Obj(lm) => {
                        let ghost lps = obj_view(lm@);
                        let nl = lm.len();
                        let mut nv: Vec<(String, OneOrMany<HalLink>)> = Vec::new();
                        let mut j: usize = 0;
                        proof {
                            assert(lps.take(0) =~= Seq::<(Seq<char>, Json)>::empty());
                            assert(entries_view(nv@) =~= Seq::<
                                (Seq<char>, OomV<LinkV>),
                            >::empty());
                        }
                        while j < nl
                            invariant
                                j <= nl,
                                vec_keys_sorted(nv@),
                                links_entries_from(lps.take(j as int)) == Some(
                                    entries_view(nv@),
                                ),
                            decreases nl - j,
                        {
                            proof {
                                assert(lps.take(j as int + 1).drop_last() =~= lps.take(
                                    j as int,
                                ));
                                assert(lps.take(j as int + 1).last() == lps[j as int]);
                            }
                            let c = match OneOrMany::<HalLink>::from_json(&lm[j].1) {
                                Ok(c) => c,
                                Err(e) => {
                                    proof {
                                        lemma_links_entries_extend_none(lps, j as int + 1);
                                        lemma_res_fold_extend_none(ps, i as int + 1);
                                    }
                                    return Err(e);
                                },
                            };
                            sorted_map_put(&mut nv, lm[j].0.as_str(), c);
                            j += 1;
                        }
                        proof {
                            assert(lps.take(nl as int) =~= lps);
                        }
                        links = nv;
                    },
                    _ => {
                        proof {
                            lemma_res_fold_extend_none(ps, i as int + 1);
                        }
                        return Err(
                            HalError::Json("the _links section must be a JSON object".to_owned()),
                        );
                    },
                }
            } else if c2 == 0 {
                match &m[i].1 {
                    JsonValue::Obj(em) => {
                        let ghost eps = obj_view(em@);
                        let ne = em.len();
                        let mut nv: Vec<(String, OneOrMany<HalResource>)> = Vec::new();
                        let mut j: usize = 0;
                        proof {
                            assert(eps.take(0) =~= Seq::<(Seq<char>, Json)>::empty());
                            assert(entries_view(nv@) =~= Seq::<
                                (Seq<char>, OomV<ResourceV>),
                            >::empty());
                        }
                        while j < ne
                            invariant
                                j <= ne,
                                vec_keys_sorted(nv@),
                                embedded_entries_from(eps.take(j as int)) == Some(
                                    entries_view(nv@),
                                ),
                            decreases ne - j,
                        {
                            proof {
                                assert(eps.take(j as int + 1).drop_last() =~= eps.take(
                                    j as int,
                                ));
                                assert(eps.take(j as int + 1).last() == eps[j as int]);
                            }
                            let c = match oom_resources_from_value(&em[j].1) {
                                Ok(c) => c,
                                Err(e) => {
                                    proof {
                                        lemma_embedded_entries_extend_none(eps, j as int + 1);
                                        lemma_res_fold_extend_none(ps, i as int + 1);
                                    }
                                    return Err(e);
                                },
                            };
                            sorted_map_put(&mut nv, em[j].0.as_str(), c);
                            j += 1;
                        }
                        proof {
                            assert(eps.take(ne as int) =~= eps);
                        }
                        embedded = nv;
                    },
                    _ => {
                        proof {
                            lemma_res_fold_extend_none(ps, i as int + 1);
                        }
                        return Err(
                            HalError::Json(
                                "the _embedded section must be a JSON object".to_owned(),
                            ),
                        );
                    },
                }
            } else {
                let val = m[i].1.clone();
                proof {
                    if !has_data {
                        assert(obj_view(data@) =~= Seq::<(Seq<char>, Json)>::empty());
                    }
                }
                crate::json::obj_entries_upsert(&mut data, m[i].0.as_str(), val);
                has_data = true;
            }
            proof {
                assert(res_fold(ps.take(i as int + 1)) == res_step(
                    acc,
                    ps[i as int].0,
                    ps[i as int].1,
                ));
            }
            i += 1;
        }
        proof {
            assert(ps.take(n as int) =~= ps);
        }
        let data_opt = if has_data {
            Some(data)
        } else {
            None
        };
        let r = HalResource { links, embedded, data: data_opt };
        proof {
            lemma_entries_view_embedded(&r);
        }
        Ok(r)
    }

    /// Serialize this resource to HAL+JSON text: the JSON text of exactly
    /// the object `resource_json` specifies.
    pub fn serialize(&self) -> (out: String)
        ensures
            out@ == crate::text::json_text(resource_json(self@)),
    {
        let v = self.to_json();
        crate::text::json_to_string(&v)
    }

    /// Deserialize HAL+JSON text into a resource: the text must parse as
    /// JSON (`spec_parse_json`) and the value must be a resource object
    /// (`resource_from_json`); each failure is a JSON error.
    pub fn deserialize(text: &str) -> (r: Result<HalResource, HalError>)
        ensures
            match crate::parse::spec_parse_json(text@) {
                None => r matches Err(e) && e is Json,
                Some(j) => match resource_from_json(j) {
                    Some(m) => r matches Ok(x) && x@ == m,
                    None => r matches Err(e) && e is Json,
                },
            },
    {
        match crate::parse::parse_json(text) {
            Ok(v) => HalResource::from_json(&v),
            Err(e) => Err(e),
        }
    }
}

/// The one-or-many rendering rule, stated as a law: an unforced singleton
/// collapses to its element, an unforced empty container renders as null,
/// and everything else — two or more elements, or any forced container —
/// renders as the array of elements in insertion order.
pub proof fn lemma_one_or_many_rendering(force: bool, elems: Seq<Json>)
    ensures
        elems.len() == 1 && !force ==> oom_json(force, elems) == elems[0],
        elems.len() >= 2 || force ==> oom_json(force, elems) == Json::Arr(elems),
        elems.len() == 0 && !force ==> oom_json(force, elems) == Json::Null,
{
}

/// A resource with no links and no embedded resources serializes to
/// exactly its payload object; with no payload either, to the empty object.
pub proof fn lemma_payload_only_serialization(r: ResourceV)
    requires
        r.links.len() == 0,
        r.embedded.len() == 0,
    ensures
        resource_json(r) == Json::Obj(
            match r.data {
                Some(d) => d,
                None => Seq::<(Seq<char>, Json)>::empty(),
            },
        ),
{
    assert(resource_json(r)->Obj_0 =~= (match r.data {
        Some(d) => d,
        None => Seq::<(Seq<char>, Json)>::empty(),
    }));
}

/// In the `_links` object, a relation with exactly one link and no forced
/// array renders as the link object itself; with two or more links, or
/// forced, as the array of link objects in insertion order.
pub proof fn lemma_link_relation_rendering(r: ResourceV, i: int)
    requires
        0 <= i < r.links.len(),
    ensures
        resource_json(r)->Obj_0[0] == (k_links(), Json::Obj(links_members(r.links))),
        links_members(r.links)[i].0 == r.links[i].0,
        r.links[i].1.elems.len() == 1 && !r.links[i].1.force ==> links_members(r.links)[i].1
            == link_json(r.links[i].1.elems[0]),
        r.links[i].1.elems.len() >= 2 || r.links[i].1.force ==> links_members(r.links)[i].1
            == Json::Arr(link_jsons(r.links[i].1.elems)),
{
    assert(links_members(r.links)[i] == (
        r.links[i].0,
        oom_json(r.links[i].1.force, link_jsons(r.links[i].1.elems)),
    ));
}

/// Inserting under `curies` (which the builders always do with the forced
/// flag) leaves the `curies` container forced, whether it was fresh or
/// already present and forced.
pub proof fn lemma_curies_stays_forced<V>(
    s: Seq<(Seq<char>, OomV<V>)>,
    vs: Seq<V>,
)
    requires
        match map_get(s, k_curies()) {
            None => true,
            Some(c) => c.force,
        },
    ensures
        match map_get(oom_upsert(s, k_curies(), true, vs), k_curies()) {
            Some(c) => c.force,
            None => false,
        },
{
    let c = match map_get(s, k_curies()) {
        None => OomV { force: true, elems: vs },
        Some(c0) => OomV { force: c0.force, elems: c0.elems + vs },
    };
    crate::order::lemma_map_upsert_get(s, k_curies(), c);
}

/// A forced container of links — the `curies` relation in particular —
/// always renders as an array, even with exactly one element.
pub proof fn lemma_forced_links_render_array(c: OomV<LinkV>)
    requires
        c.force,
    ensures
        oom_json(c.force, link_jsons(c.elems)) == Json::Arr(link_jsons(c.elems)),
{
}

/// Embedding an empty batch under a fresh relation keeps the relation in
/// the document: its container is forced and empty, and renders as `[]`
/// rather than being omitted.
pub proof fn lemma_empty_batch_renders_empty_array(
    s: Seq<(Seq<char>, OomV<ResourceV>)>,
    k: Seq<char>,
)
    requires
        map_get(s, k) is None,
    ensures
        map_get(oom_upsert(s, k, true, Seq::empty()), k) == Some(
            (OomV { force: true, elems: Seq::<ResourceV>::empty() }),
        ),
        oom_json(true, res_jsons(Seq::<ResourceV>::empty())) == Json::Arr(Seq::<Json>::empty()),
{
    crate::order::lemma_map_upsert_get(
        s,
        k,
        OomV { force: true, elems: Seq::<ResourceV>::empty() },
    );
    assert(res_jsons(Seq::<ResourceV>::empty()) =~= Seq::<Json>::empty());
}

/// Resource equality is identity by self link: two resources compare equal
/// exactly when both lack a `self` link or both have one with the same
/// href, whatever their other links, embedded resources and payloads.
pub proof fn lemma_equality_is_self_href(a: &HalResource, b: &HalResource)
    ensures
        vstd::std_specs::cmp::PartialEqSpec::eq_spec(a, b) <==> crate::resource::self_href(a@)
            == crate::resource::self_href(b@),
{
}

} // verus!
