//! The HAL resource: a sorted map of relation name to links, a sorted map of
//! relation name to embedded resources (recursively), and an optional JSON
//! object payload.
//!
//! The three parts are kept apart in the data model and merged into one flat
//! JSON object on serialization: `_links`, then `_embedded`, then the payload
//! keys. Relation names and payload keys are kept in lexicographic order,
//! which fixes the key order of the output.

use vstd::prelude::*;
use vstd::string::StringExecFns;

use crate::error::HalError;
use crate::json::{obj_entries_get, obj_entries_upsert, obj_view, FromJson, Json, JsonValue};
use crate::link::{HalLink, LinkV};
use crate::one_or_many::{OneOrMany, OomV};
use crate::order::{
    keys_sorted, lemma_map_get_at, lemma_map_get_none, lemma_map_upsert_insert,
    lemma_map_upsert_keys, lemma_map_upsert_replace, lemma_map_upsert_sorted,
    lemma_seq_lt_strict, map_get, map_upsert, seq_lt, str_compare, vec_keys_sorted, find_slot,
};

verus! {

/// The model of a resource: links and embedded resources as sorted
/// association lists of relation name to container, and the payload object,
/// if any, as its entries.
pub struct ResourceV {
    pub links: Seq<(Seq<char>, OomV<LinkV>)>,
    pub embedded: Seq<(Seq<char>, OomV<ResourceV>)>,
    pub data: Option<Seq<(Seq<char>, Json)>>,
}

/// A HAL resource.
#[derive(Debug)]
pub struct HalResource {
    pub(crate) links: Vec<(String, OneOrMany<HalLink>)>,
    pub(crate) embedded: Vec<(String, OneOrMany<HalResource>)>,
    pub(crate) data: Option<Vec<(String, JsonValue)>>,
}

/// The model of a sorted entry vector, whatever its value type.
pub open spec fn entries_view<V: View>(m: Seq<(String, V)>) -> Seq<(Seq<char>, V::V)> {
    Seq::new(
        m.len(),
        |i: int|
            if 0 <= i < m.len() {
                (m[i].0@, m[i].1@)
            } else {
                vstd::pervasive::arbitrary()
            },
    )
}

impl View for HalResource {
    type V = ResourceV;

    open(crate) spec fn view(&self) -> ResourceV
        decreases self,
    {
        ResourceV {
            links: entries_view(self.links@),
            embedded: emb_map_view(self.embedded@),
            data: match &self.data {
                Some(m) => Some(obj_view(m@)),
                None => None,
            },
        }
    }
}

/// The models of a sequence of resources.
pub open(crate) spec fn res_seq_view(s: Seq<HalResource>) -> Seq<ResourceV>
    decreases s,
{
    if s.len() == 0 {
        Seq::empty()
    } else {
        seq![s[0]@] + res_seq_view(s.drop_first())
    }
}

/// The model of a container of resources.
pub open(crate) spec fn oom_res_view(c: OneOrMany<HalResource>) -> OomV<ResourceV>
    decreases c,
{
    OomV { force: c.force_many, elems: res_seq_view(c.content@) }
}

/// The model of an embedded entry vector.
pub open(crate) spec fn emb_map_view(s: Seq<(String, OneOrMany<HalResource>)>) -> Seq<
    (Seq<char>, OomV<ResourceV>),
>
    decreases s,
{
    if s.len() == 0 {
        Seq::empty()
    } else {
        seq![(s[0].0@, oom_res_view(s[0].1))] + emb_map_view(s.drop_first())
    }
}

pub(crate) broadcast proof fn lemma_res_seq_view_props(s: Seq<HalResource>)
    ensures
        (#[trigger] res_seq_view(s)).len() == s.len(),
        forall|i: int| 0 <= i < s.len() ==> #[trigger] res_seq_view(s)[i] == s[i]@,
    decreases s,
{
    if s.len() == 0 {
        assert(res_seq_view(s).len() == 0);
    } else {
        assert(res_seq_view(s) == seq![s[0]@] + res_seq_view(s.drop_first()));
        lemma_res_seq_view_props(s.drop_first());
        assert(res_seq_view(s).len() == s.len());
        assert forall|i: int| 0 <= i < s.len() implies #[trigger] res_seq_view(s)[i]
            == s[i]@ by {
            if i == 0 {
                assert(res_seq_view(s)[0] == s[0]@);
            } else {
                assert(res_seq_view(s)[i] == res_seq_view(s.drop_first())[i - 1]);
                assert(s.drop_first()[i - 1] == s[i]);
            }
        }
    }
}

pub(crate) broadcast proof fn lemma_emb_map_view_props(s: Seq<(String, OneOrMany<HalResource>)>)
    ensures
        (#[trigger] emb_map_view(s)).len() == s.len(),
        forall|i: int|
            0 <= i < s.len() ==> #[trigger] emb_map_view(s)[i] == (s[i].0@, oom_res_view(s[i].1)),
    decreases s,
{
    if s.len() == 0 {
        assert(emb_map_view(s).len() == 0);
    } else {
        assert(emb_map_view(s) == seq![(s[0].0@, oom_res_view(s[0].1))] + emb_map_view(
            s.drop_first(),
        ));
        lemma_emb_map_view_props(s.drop_first());
        assert(emb_map_view(s).len() == s.len());
        assert forall|i: int| 0 <= i < s.len() implies #[trigger] emb_map_view(s)[i] == (
            s[i].0@,
            oom_res_view(s[i].1),
        ) by {
            if i == 0 {
                assert(emb_map_view(s)[0] == (s[0].0@, oom_res_view(s[0].1)));
            } else {
                assert(emb_map_view(s)[i] == emb_map_view(s.drop_first())[i - 1]);
                assert(s.drop_first()[i - 1] == s[i]);
            }
        }
    }
}

/// The dedicated container view coincides with the container's own view.
pub(crate) broadcast proof fn lemma_oom_res_view_is_view(c: OneOrMany<HalResource>)
    ensures
        #[trigger] oom_res_view(c) == c@,
{
    lemma_res_seq_view_props(c.content@);
    assert(oom_res_view(c).elems == res_seq_view(c.content@));
    assert(c@.elems.len() == c.content@.len());
    assert forall|i: int| 0 <= i < c.content@.len() implies c@.elems[i] == c.content@[i]@ by {}
    assert(oom_res_view(c).elems =~= c@.elems);
}

/// The resource view's embedded map coincides with the generic entry view.
pub(crate) broadcast proof fn lemma_emb_map_view_is_entries_view(
    s: Seq<(String, OneOrMany<HalResource>)>,
)
    ensures
        #[trigger] emb_map_view(s) == entries_view(s),
{
    lemma_emb_map_view_props(s);
    assert forall|i: int| 0 <= i < s.len() implies emb_map_view(s)[i] == entries_view(s)[i] by {
        lemma_oom_res_view_is_view(s[i].1);
        assert(entries_view(s)[i] == (s[i].0@, s[i].1@));
        assert(emb_map_view(s)[i] == (s[i].0@, oom_res_view(s[i].1)));
    }
    assert(emb_map_view(s) =~= entries_view(s));
}

/// The resource's embedded map, seen through the container views.
pub(crate) proof fn lemma_embedded_view(r: &HalResource, i: int)
    requires
        0 <= i < r.embedded@.len(),
    ensures
        r@.embedded.len() == r.embedded@.len(),
        r@.embedded[i] == (r.embedded@[i].0@, r.embedded@[i].1@),
{
    lemma_emb_map_view_props(r.embedded@);
    lemma_oom_res_view_is_view(r.embedded@[i].1);
}

/// Whether a relation map is well-formed: relation names strictly sorted,
/// and no container both empty and unforced (such a container would not
/// survive serialization).
pub open spec fn oom_map_wf<V>(s: Seq<(Seq<char>, OomV<V>)>) -> bool {
    &&& keys_sorted(s)
    &&& forall|i: int|
        0 <= i < s.len() ==> ((#[trigger] s[i].1).elems.len() > 0 || s[i].1.force)
}

/// Whether a resource model is well-formed: both relation maps well-formed,
/// the payload keys sorted, and every embedded resource well-formed in turn.
/// Every resource the public API builds satisfies this.
pub open spec fn rv_wf(r: ResourceV) -> bool
    decreases r,
{
    &&& oom_map_wf(r.links)
    &&& oom_map_wf(r.embedded)
    &&& match r.data {
        Some(d) => keys_sorted(d),
        None => true,
    }
    &&& forall|i: int, j: int|
        0 <= i < r.embedded.len() && 0 <= j < r.embedded[i].1.elems.len() ==> rv_wf(
            #[trigger] r.embedded[i].1.elems[j],
        )
}

pub open spec fn k_self() -> Seq<char> {
    seq!['s', 'e', 'l', 'f']
}

pub open spec fn k_curies() -> Seq<char> {
    seq!['c', 'u', 'r', 'i', 'e', 's']
}

pub open spec fn k_links() -> Seq<char> {
    seq!['_', 'l', 'i', 'n', 'k', 's']
}

pub open spec fn k_embedded() -> Seq<char> {
    seq!['_', 'e', 'm', 'b', 'e', 'd', 'd', 'e', 'd']
}

/// Insert elements into the container under `k`: a fresh container (forced
/// if `forced_new`) when the relation is new, appended elements otherwise.
pub open spec fn oom_upsert<V>(
    s: Seq<(Seq<char>, OomV<V>)>,
    k: Seq<char>,
    forced_new: bool,
    vs: Seq<V>,
) -> Seq<(Seq<char>, OomV<V>)> {
    match map_get(s, k) {
        None => map_upsert(s, k, OomV { force: forced_new, elems: vs }),
        Some(c) => map_upsert(s, k, OomV { force: c.force, elems: c.elems + vs }),
    }
}

/// A found entry is an entry: `map_get` returning a value means some entry
/// holds the key and that value.
pub proof fn lemma_map_get_is_entry<V>(s: Seq<(Seq<char>, V)>, k: Seq<char>)
    requires
        map_get(s, k) is Some,
    ensures
        exists|x: int| 0 <= x < s.len() && (#[trigger] s[x]) == (k, map_get(s, k)->0),
    decreases s.len(),
{
    if s.len() > 0 {
        if s[0].0 == k {
            assert(s[0] == (k, map_get(s, k)->0));
        } else {
            lemma_map_get_is_entry(s.drop_first(), k);
            let x = choose|x: int|
                0 <= x < s.drop_first().len() && (#[trigger] s.drop_first()[x]) == (
                    k,
                    map_get(s, k)->0,
                );
            assert(s[x + 1] == s.drop_first()[x]);
        }
    }
}

/// `oom_upsert` keeps a relation map well-formed, as long as the inserted
/// batch is nonempty or the fresh container is forced.
pub proof fn lemma_oom_upsert_wf<V>(
    s: Seq<(Seq<char>, OomV<V>)>,
    k: Seq<char>,
    forced_new: bool,
    vs: Seq<V>,
)
    requires
        oom_map_wf(s),
        vs.len() > 0 || forced_new,
    ensures
        oom_map_wf(oom_upsert(s, k, forced_new, vs)),
{
    let c = match map_get(s, k) {
        None => OomV { force: forced_new, elems: vs },
        Some(c0) => OomV { force: c0.force, elems: c0.elems + vs },
    };
    let r = map_upsert(s, k, c);
    assert(oom_upsert(s, k, forced_new, vs) == r);
    lemma_map_upsert_sorted(s, k, c);
    if map_get(s, k) is Some {
        lemma_map_get_is_entry(s, k);
    }
    assert forall|i: int|
        0 <= i < r.len() implies ((#[trigger] r[i].1).elems.len() > 0 || r[i].1.force) by {
        lemma_map_upsert_keys(s, k, c, i);
    }
}

/// `oom_upsert` on an embedded map keeps every contained resource
/// well-formed, as long as the batch holds only well-formed resources.
pub proof fn lemma_oom_upsert_wf_res(
    s: Seq<(Seq<char>, OomV<ResourceV>)>,
    k: Seq<char>,
    forced_new: bool,
    vs: Seq<ResourceV>,
)
    requires
        oom_map_wf(s),
        vs.len() > 0 || forced_new,
        forall|x: int, y: int|
            0 <= x < s.len() && 0 <= y < s[x].1.elems.len() ==> rv_wf(
                #[trigger] s[x].1.elems[y],
            ),
        forall|y: int| 0 <= y < vs.len() ==> rv_wf(#[trigger] vs[y]),
    ensures
        oom_map_wf(oom_upsert(s, k, forced_new, vs)),
        forall|i: int, j: int|
            0 <= i < oom_upsert(s, k, forced_new, vs).len() && 0 <= j < oom_upsert(
                s,
                k,
                forced_new,
                vs,
            )[i].1.elems.len() ==> rv_wf(#[trigger] oom_upsert(s, k, forced_new, vs)[i].1.elems[j]),
{
    lemma_oom_upsert_wf(s, k, forced_new, vs);
    let c = match map_get(s, k) {
        None => OomV { force: forced_new, elems: vs },
        Some(c0) => OomV { force: c0.force, elems: c0.elems + vs },
    };
    let u = oom_upsert(s, k, forced_new, vs);
    assert(u == map_upsert(s, k, c));
    if map_get(s, k) is Some {
        lemma_map_get_is_entry(s, k);
    }
    assert forall|i: int, j: int|
        0 <= i < u.len() && 0 <= j < u[i].1.elems.len() implies rv_wf(
        #[trigger] u[i].1.elems[j],
    ) by {
        lemma_map_upsert_keys(s, k, c, i);
        if u[i] == (k, c) {
            match map_get(s, k) {
                None => {
                    assert(u[i].1.elems[j] == vs[j]);
                    assert(rv_wf(vs[j]));
                },
                Some(c0) => {
                    let x = choose|x: int| 0 <= x < s.len() && (#[trigger] s[x]) == (k, c0);
                    if j < c0.elems.len() {
                        assert(u[i].1.elems[j] == s[x].1.elems[j]);
                        assert(rv_wf(s[x].1.elems[j]));
                    } else {
                        assert(u[i].1.elems[j] == vs[j - c0.elems.len()]);
                        assert(rv_wf(vs[j - c0.elems.len()]));
                    }
                },
            }
        } else {
            let x = choose|x: int| 0 <= x < s.len() && (#[trigger] s[x]) == u[i];
            assert(u[i].1.elems[j] == s[x].1.elems[j]);
            assert(rv_wf(s[x].1.elems[j]));
        }
    }
}

/// Replace the whole entry under `key` in a sorted entry vector (or insert
/// it): the executable form of `map_upsert`, for any entry type.
pub(crate) fn sorted_map_put<V: View>(m: &mut Vec<(String, V)>, key: &str, v: V)
    requires
        vec_keys_sorted(old(m)@),
    ensures
        vec_keys_sorted(final(m)@),
        entries_view(final(m)@) == map_upsert(entries_view(old(m)@), key@, v@),
{
    let ghost s0 = entries_view(m@);
    proof {
        assert(forall|i: int, j: int|
            0 <= i < j < s0.len() ==> seq_lt(#[trigger] s0[i].0, #[trigger] s0[j].0));
    }
    let (found, idx) = find_slot(m, key);
    if found {
        let old_pair = m.remove(idx);
        m.insert(idx, (old_pair.0, v));
        proof {
            assert(entries_view(m@) =~= s0.update(idx as int, (key@, v@)));
            lemma_map_upsert_replace(s0, key@, v@, idx as int);
            assert(forall|i: int, j: int|
                0 <= i < j < m@.len() ==> seq_lt(#[trigger] m@[i].0@, #[trigger] m@[j].0@));
        }
    } else {
        m.insert(idx, (key.to_owned(), v));
        proof {
            assert(entries_view(m@) =~= s0.subrange(0, idx as int) + seq![(key@, v@)]
                + s0.subrange(idx as int, s0.len() as int));
            lemma_map_upsert_insert(s0, key@, v@, idx as int);
            assert forall|i: int, j: int|
                0 <= i < j < m@.len() implies seq_lt(m@[i].0@, m@[j].0@) by {
                if i < idx && j > idx {
                    crate::order::lemma_seq_lt_trans(s0[i].0, key@, s0[j - 1].0);
                }
            }
        }
    }
}

/// Look a relation up: the first entry with that name, if any.
pub(crate) fn oom_map_get<'a, T: View>(m: &'a Vec<(String, OneOrMany<T>)>, key: &str) -> (r:
    Option<&'a OneOrMany<T>>)
    ensures
        match r {
            Some(c) => map_get(entries_view(m@), key@) == Some(c@),
            None => map_get(entries_view(m@), key@) is None,
        },
{
    let n = m.len();
    let mut i: usize = 0;
    proof {
        assert(entries_view(m@).skip(0) =~= entries_view(m@));
    }
    while i < n
        invariant
            i <= n,
            n == m@.len(),
            map_get(entries_view(m@), key@) == map_get(entries_view(m@).skip(i as int), key@),
        decreases n - i,
    {
        proof {
            let s = entries_view(m@).skip(i as int);
            assert(s.len() > 0);
            assert(s[0] == entries_view(m@)[i as int]);
            assert(s.drop_first() =~= entries_view(m@).skip(i as int + 1));
        }
        let c = str_compare(m[i].0.as_str(), key);
        if c == 0 {
            return Some(&m[i].1);
        }
        i += 1;
    }
    proof {
        assert(entries_view(m@).skip(n as int) =~= Seq::<(Seq<char>, OomV<T::V>)>::empty());
    }
    None
}

/// Append a batch to the container under `key` (creating it if absent): the
/// executable form of `oom_upsert`.
#[verifier::loop_isolation(false)]
pub(crate) fn oom_map_append<T: View>(
    m: &mut Vec<(String, OneOrMany<T>)>,
    key: &str,
    forced_new: bool,
    vals: Vec<T>,
)
    requires
        vec_keys_sorted(old(m)@),
    ensures
        vec_keys_sorted(final(m)@),
        entries_view(final(m)@) == oom_upsert(
            entries_view(old(m)@),
            key@,
            forced_new,
            vals@.map_values(|t: T| t@),
        ),
{
    let ghost s0 = entries_view(m@);
    let ghost vs = vals@.map_values(|t: T| t@);
    proof {
        assert(forall|i: int, j: int|
            0 <= i < j < s0.len() ==> seq_lt(#[trigger] s0[i].0, #[trigger] s0[j].0));
    }
    let (found, idx) = find_slot(m, key);
    let mut vals = vals;
    let ghost vals0 = vals@;
    if found {
        proof {
            lemma_map_get_at(s0, key@, idx as int);
        }
        let ghost c0 = s0[idx as int].1;
        let mut entry = m.remove(idx);
        proof {
            assert(entry.1@ == c0);
            assert(vals0.map_values(|t: T| t@).take(0) =~= Seq::<T::V>::empty());
            assert(c0.elems + vs.take(0) =~= c0.elems);
        }
        while vals.len() > 0
            invariant
                vals0.len() >= vals@.len(),
                vals@ =~= vals0.skip(vals0.len() - vals@.len()),
                entry.0@ == key@,
                entry.1@.force == c0.force,
                entry.1@.elems == c0.elems + vs.take(vals0.len() - vals@.len()),
            decreases vals@.len(),
        {
            let ghost k = vals0.len() - vals@.len();
            let v = vals.remove(0);
            proof {
                assert(v == vals0[k]);
                assert(vals@ =~= vals0.skip(k + 1));
            }
            entry.1.push_value(v);
            proof {
                assert(vs.take(k + 1) =~= vs.take(k).push(vals0[k]@));
                assert(entry.1@.elems =~= c0.elems + vs.take(k + 1));
            }
        }
        proof {
            assert(vs.take(vals0.len() as int) =~= vs);
        }
        m.insert(idx, entry);
        proof {
            let newc = OomV { force: c0.force, elems: c0.elems + vs };
            assert(entry.1@ == newc);
            assert(entries_view(m@) =~= s0.update(idx as int, (key@, newc)));
            lemma_map_upsert_replace(s0, key@, newc, idx as int);
            assert(forall|i: int, j: int|
                0 <= i < j < m@.len() ==> seq_lt(#[trigger] m@[i].0@, #[trigger] m@[j].0@));
        }
    } else {
        let mut c: OneOrMany<T> = OneOrMany::new();
        if forced_new {
            c = c.force_many();
        }
        proof {
            assert(c@.elems =~= vs.take(0));
        }
        while vals.len() > 0
            invariant
                vals0.len() >= vals@.len(),
                vals@ =~= vals0.skip(vals0.len() - vals@.len()),
                c@.force == forced_new,
                c@.elems == vs.take(vals0.len() - vals@.len()),
            decreases vals@.len(),
        {
            let ghost k = vals0.len() - vals@.len();
            let v = vals.remove(0);
            proof {
                assert(v == vals0[k]);
                assert(vals@ =~= vals0.skip(k + 1));
            }
            c.push_value(v);
            proof {
                assert(vs.take(k + 1) =~= vs.take(k).push(vals0[k]@));
                assert(c@.elems =~= vs.take(k + 1));
            }
        }
        proof {
            assert(vs.take(vals0.len() as int) =~= vs);
        }
        m.insert(idx, (key.to_owned(), c));
        proof {
            let newc = OomV { force: forced_new, elems: vs };
            assert(c@ == newc);
            assert forall|i: int| 0 <= i < s0.len() implies (#[trigger] s0[i].0) != key@ by {
                if i < idx {
                    lemma_seq_lt_strict(s0[i].0, key@);
                } else {
                    lemma_seq_lt_strict(key@, s0[i].0);
                }
            }
            lemma_map_get_none(s0, key@);
            assert(entries_view(m@) =~= s0.subrange(0, idx as int) + seq![(key@, newc)]
                + s0.subrange(idx as int, s0.len() as int));
            lemma_map_upsert_insert(s0, key@, newc, idx as int);
            assert forall|i: int, j: int|
                0 <= i < j < m@.len() implies seq_lt(m@[i].0@, m@[j].0@) by {
                if i < idx && j > idx {
                    crate::order::lemma_seq_lt_trans(s0[i].0, key@, s0[j - 1].0);
                }
            }
        }
    }
}

/// Anything that can serve as a link when inserting under a relation: a
/// ready-made link, or a bare href that becomes `HalLink::new(href)`.
pub trait IntoHalLink: Sized {
    /// The model of the link this value stands for.
    spec fn link_model(&self) -> LinkV;

    /// Turn the value into that link.
    fn into_link(self) -> (r: HalLink)
        ensures
            r@ == self.link_model(),
    ;
}

impl IntoHalLink for HalLink {
    open spec fn link_model(&self) -> LinkV {
        self@
    }

    fn into_link(self) -> (r: HalLink) {
        self
    }
}

impl IntoHalLink for &str {
    open spec fn link_model(&self) -> LinkV {
        LinkV::plain(self@)
    }

    fn into_link(self) -> (r: HalLink) {
        HalLink::new(self)
    }
}

impl IntoHalLink for String {
    open spec fn link_model(&self) -> LinkV {
        LinkV::plain(self@)
    }

    fn into_link(self) -> (r: HalLink) {
        let r = HalLink::new(self.as_str());
        r
    }
}

/// The payload a resource keeps for a given payload value: object payloads
/// are kept (normalized to sorted, duplicate-free keys, later entries
/// winning); any other payload is silently dropped.
pub open spec fn new_data(j: Json) -> Option<Seq<(Seq<char>, Json)>> {
    match j {
        Json::Obj(ps) => Some(obj_normalize(ps)),
        _ => None,
    }
}

/// Entries inserted one after the other into an empty sorted map: sorted,
/// duplicate-free, later entries winning.
pub open spec fn obj_normalize(ps: Seq<(Seq<char>, Json)>) -> Seq<(Seq<char>, Json)>
    decreases ps.len(),
{
    if ps.len() == 0 {
        Seq::empty()
    } else {
        map_upsert(obj_normalize(ps.drop_last()), ps.last().0, ps.last().1)
    }
}

pub proof fn lemma_obj_normalize_sorted(ps: Seq<(Seq<char>, Json)>)
    ensures
        keys_sorted(obj_normalize(ps)),
    decreases ps.len(),
{
    if ps.len() > 0 {
        lemma_obj_normalize_sorted(ps.drop_last());
        lemma_map_upsert_sorted(obj_normalize(ps.drop_last()), ps.last().0, ps.last().1);
    }
}

/// A payload object that is already sorted with unique keys normalizes to
/// itself.
pub proof fn lemma_obj_normalize_id(ps: Seq<(Seq<char>, Json)>)
    requires
        keys_sorted(ps),
    ensures
        obj_normalize(ps) == ps,
    decreases ps.len(),
{
    if ps.len() > 0 {
        let front = ps.drop_last();
        assert(forall|i: int| 0 <= i < front.len() ==> #[trigger] front[i] == ps[i]);
        lemma_obj_normalize_id(front);
        lemma_map_upsert_snoc(front, ps.last().0, ps.last().1);
        assert(map_upsert(front, ps.last().0, ps.last().1) =~= ps);
    }
}

/// Inserting a key above every key of a sorted map appends the entry.
pub proof fn lemma_map_upsert_snoc<V>(s: Seq<(Seq<char>, V)>, k: Seq<char>, v: V)
    requires
        keys_sorted(s),
        forall|i: int| 0 <= i < s.len() ==> seq_lt(#[trigger] s[i].0, k),
    ensures
        map_upsert(s, k, v) == s.push((k, v)),
    decreases s.len(),
{
    if s.len() == 0 {
        assert(map_upsert(s, k, v) =~= s.push((k, v)));
    } else {
        lemma_seq_lt_strict(s[0].0, k);
        lemma_seq_lt_strict(k, s[0].0);
        crate::order::lemma_sorted_drop_first(s);
        assert(forall|i: int|
            0 <= i < s.drop_first().len() ==> #[trigger] s.drop_first()[i] == s[i + 1]);
        lemma_map_upsert_snoc(s.drop_first(), k, v);
        assert(map_upsert(s, k, v) =~= s.push((k, v)));
    }
}

impl HalResource {
    /// A resource around `payload`: links and embedded maps empty. An
    /// object payload is kept, its top-level keys normalized to sorted
    /// order with later duplicates winning; any other payload is silently
    /// dropped — construction never fails.
    pub fn new(payload: JsonValue) -> (r: HalResource)
        ensures
            r@.links == Seq::<(Seq<char>, OomV<LinkV>)>::empty(),
            r@.embedded == Seq::<(Seq<char>, OomV<ResourceV>)>::empty(),
            r@.data == new_data(payload@),
            rv_wf(r@),
    {
        let data = match payload {
            JsonValue::Obj(m) => {
                let ghost ps = obj_view(m@);
                let mut m = m;
                let mut out: Vec<(String, JsonValue)> = Vec::new();
                proof {
                    assert(obj_view(out@) =~= obj_normalize(ps.take(0)));
                    assert(obj_view(m@) =~= ps.skip(0));
                }
                while m.len() > 0
                    invariant
                        ps.len() >= m@.len(),
                        obj_view(m@) =~= ps.skip(ps.len() - m@.len()),
                        vec_keys_sorted(out@),
                        obj_view(out@) == obj_normalize(ps.take(ps.len() - m@.len())),
                    decreases m@.len(),
                {
                    let ghost k = ps.len() - m@.len();
                    let ghost m0 = m@;
                    let pair = m.remove(0);
                    proof {
                        assert((pair.0@, pair.1@) == obj_view(m0)[0]);
                        assert((pair.0@, pair.1@) == ps[k]);
                        assert(obj_view(m@) =~= ps.skip(k + 1)) by {
                            assert(m@ =~= m0.drop_first());
                            assert(forall|x: int|
                                0 <= x < m@.len() ==> #[trigger] obj_view(m@)[x] == obj_view(
                                    m0,
                                )[x + 1]);
                        }
                    }
                    obj_entries_upsert(&mut out, pair.0.as_str(), pair.1);
                    proof {
                        assert(ps.take(k + 1).drop_last() =~= ps.take(k));
                        assert(ps.take(k + 1).last() == ps[k]);
                        assert(obj_view(out@) == obj_normalize(ps.take(k + 1)));
                    }
                }
                proof {
                    assert(ps.take(ps.len() as int) =~= ps);
                }
                Some(out)
            },
            _ => None,
        };
        let r = HalResource { links: Vec::new(), embedded: Vec::new(), data };
        proof {
            assert(r@.links =~= Seq::<(Seq<char>, OomV<LinkV>)>::empty());
            assert(r@.embedded =~= Seq::<(Seq<char>, OomV<ResourceV>)>::empty());
            match r@.data {
                Some(d) => {
                    assert(forall|i: int, j: int|
                        0 <= i < j < d.len() ==> seq_lt(#[trigger] d[i].0, #[trigger] d[j].0));
                },
                None => {},
            }
        }
        r
    }

    /// Insert a link under a relation: a new singleton container when the
    /// relation is absent (forced to array form for `curies`), appended
    /// otherwise.
    pub fn with_link<L: IntoHalLink>(self, name: &str, link: L) -> (r: Self)
        requires
            rv_wf(self@),
        ensures
            rv_wf(r@),
            r@.links == oom_upsert(
                self@.links,
                name@,
                name@ == k_curies(),
                seq![link.link_model()],
            ),
            r@.embedded == self@.embedded,
            r@.data == self@.data,
    {
        proof {
            reveal_strlit("curies");
            assert("curies"@ =~= k_curies());
        }
        let forced = str_compare(name, "curies") == 0;
        let l = link.into_link();
        let ghost lv = l@;
        let mut vals: Vec<HalLink> = Vec::new();
        vals.push(l);
        let mut r = self;
        proof {
            lemma_links_map_sorted(&r);
            assert(vals@.map_values(|t: HalLink| t@) =~= seq![lv]);
        }
        oom_map_append(&mut r.links, name, forced, vals);
        proof {
            lemma_oom_upsert_wf(self@.links, name@, name@ == k_curies(), seq![lv]);
            assert(r@.links == oom_upsert(
                self@.links,
                name@,
                name@ == k_curies(),
                seq![link.link_model()],
            ));
            assert(r@.embedded =~= self@.embedded);
        }
        r
    }

    /// The first link under the relation, if there is one.
    pub fn get_link(&self, name: &str) -> (r: Option<&HalLink>)
        ensures
            match link_of(self@, name@) {
                Some(l) => r matches Some(x) && x@ == l,
                None => r is None,
            },
    {
        match oom_map_get(&self.links, name) {
            Some(c) => c.single(),
            None => None,
        }
    }

    /// The first link under the `self` relation, if there is one.
    pub fn get_self(&self) -> (r: Option<&HalLink>)
        ensures
            match link_of(self@, k_self()) {
                Some(l) => r matches Some(x) && x@ == l,
                None => r is None,
            },
    {
        proof {
            reveal_strlit("self");
            assert("self"@ =~= k_self());
        }
        self.get_link("self")
    }

    /// All links under the relation, if the relation exists.
    pub fn get_links(&self, name: &str) -> (r: Option<&Vec<HalLink>>)
        ensures
            match map_get(self@.links, name@) {
                Some(c) => r matches Some(v) && v@.len() == c.elems.len() && (forall|i: int|
                    0 <= i < v@.len() ==> (#[trigger] v@[i])@ == c.elems[i]),
                None => r is None,
            },
    {
        match oom_map_get(&self.links, name) {
            Some(c) => Some(c.many()),
            None => None,
        }
    }

    /// Embed one resource under a relation: a new unforced singleton
    /// container when the relation is absent, appended otherwise.
    pub fn with_resource(self, name: &str, resource: HalResource) -> (r: Self)
        requires
            rv_wf(self@),
            rv_wf(resource@),
        ensures
            rv_wf(r@),
            r@.embedded == oom_upsert(self@.embedded, name@, false, seq![resource@]),
            r@.links == self@.links,
            r@.data == self@.data,
    {
        let ghost rv = resource@;
        let mut vals: Vec<HalResource> = Vec::new();
        vals.push(resource);
        let mut r = self;
        proof {
            lemma_embedded_map_sorted(&r);
            assert(vals@.map_values(|t: HalResource| t@) =~= seq![rv]);
        }
        oom_map_append(&mut r.embedded, name, false, vals);
        proof {
            lemma_emb_map_view_is_entries_view(self.embedded@);
            lemma_entries_view_embedded(&r);
            assert(seq![rv][0] == rv);
            lemma_oom_upsert_wf_res(self@.embedded, name@, false, seq![rv]);
            assert(r@.links =~= self@.links);
        }
        r
    }

    /// Embed a batch of resources under a relation. A new container is
    /// forced to array form, so an empty batch still serializes the relation
    /// as `[]` rather than omitting it; appending to an existing relation
    /// leaves its form unchanged.
    pub fn with_resources(self, name: &str, resources: Vec<HalResource>) -> (r: Self)
        requires
            rv_wf(self@),
            forall|i: int| 0 <= i < resources@.len() ==> rv_wf((#[trigger] resources@[i])@),
        ensures
            rv_wf(r@),
            r@.embedded == oom_upsert(
                self@.embedded,
                name@,
                true,
                resources@.map_values(|t: HalResource| t@),
            ),
            r@.links == self@.links,
            r@.data == self@.data,
    {
        let ghost vs = resources@.map_values(|t: HalResource| t@);
        let mut r = self;
        proof {
            lemma_embedded_map_sorted(&r);
        }
        oom_map_append(&mut r.embedded, name, true, resources);
        proof {
            lemma_emb_map_view_is_entries_view(self.embedded@);
            lemma_entries_view_embedded(&r);
            assert(forall|y: int|
                0 <= y < vs.len() ==> rv_wf(#[trigger] vs[y]) && vs[y] == resources@[y]@);
            lemma_oom_upsert_wf_res(self@.embedded, name@, true, vs);
            assert(r@.links =~= self@.links);
        }
        r
    }

    /// Declare a curie: a templated link named `name`, stored under the
    /// `curies` relation, which always serializes as an array.
    pub fn with_curie(self, name: &str, href: &str) -> (r: Self)
        requires
            rv_wf(self@),
        ensures
            rv_wf(r@),
            r@.links == oom_upsert(
                self@.links,
                k_curies(),
                true,
                seq![
                    (LinkV {
                        templated: true,
                        name: Some(name@),
                        ..LinkV::plain(href@)
                    }),
                ],
            ),
            r@.embedded == self@.embedded,
            r@.data == self@.data,
    {
        proof {
            reveal_strlit("curies");
            assert("curies"@ =~= k_curies());
        }
        self.with_link("curies", HalLink::new(href).templated(true).with_name(name))
    }

    /// Add one payload entry. When no object payload is present a fresh
    /// one-entry object is substituted; an existing entry under the same key
    /// is replaced.
    ///
    /// A key named like a reserved section (`_links`, `_embedded`) is
    /// accepted and collides with that section on serialization: the
    /// document then holds the key twice, and on re-reading the later
    /// member — the payload entry — wins.
    pub fn with_extra_data(self, name: &str, value: JsonValue) -> (r: Self)
        requires
            rv_wf(self@),
        ensures
            rv_wf(r@),
            r@.data == Some(
                map_upsert(
                    match self@.data {
                        Some(d) => d,
                        None => Seq::<(Seq<char>, Json)>::empty(),
                    },
                    name@,
                    value@,
                ),
            ),
            r@.links == self@.links,
            r@.embedded == self@.embedded,
    {
        let HalResource { links, embedded, data } = self;
        let mut m = match data {
            Some(m) => m,
            None => Vec::new(),
        };
        proof {
            match self@.data {
                Some(d) => {
                    lemma_data_map_sorted(m@);
                },
                None => {
                    assert(obj_view(m@) =~= Seq::<(Seq<char>, Json)>::empty());
                },
            }
        }
        obj_entries_upsert(&mut m, name, value);
        let r = HalResource { links, embedded, data: Some(m) };
        proof {
            lemma_map_upsert_sorted(
                match self@.data {
                    Some(d) => d,
                    None => Seq::<(Seq<char>, Json)>::empty(),
                },
                name@,
                value@,
            );
            assert(r@.links =~= self@.links);
            assert(r@.embedded == self@.embedded);
        }
        r
    }

    /// Extract the payload entry under `name`, converted to `V`.
    ///
    /// Fails with a domain error when no object payload is present or the
    /// key is missing, and with a JSON error when the entry does not convert.
    pub fn get_extra_data<V: FromJson>(&self, name: &str) -> (r: Result<V, HalError>)
        ensures
            match self@.data {
                None => r matches Err(e) && e is Custom && e.msg() == "Invalid payload"@,
                Some(d) => match map_get(d, name@) {
                    None => r matches Err(e) && e is Custom && e.msg() == "Key "@ + name@
                        + " missing in payload"@,
                    Some(j) => match V::from_json_of(j) {
                        Some(m) => r matches Ok(x) && x@ == m,
                        None => r matches Err(e) && e is Json,
                    },
                },
            },
    {
        let m = match &self.data {
            Some(m) => m,
            None => {
                return Err(HalError::Custom("Invalid payload".to_owned()));
            },
        };
        match obj_entries_get(m, name) {
            Some(v) => V::from_json(v),
            None => {
                let msg = String::from_str("Key ").concat(name).concat(" missing in payload");
                proof {
                    assert(msg@ =~= "Key "@ + name@ + " missing in payload"@);
                }
                Err(HalError::Custom(msg))
            },
        }
    }

    /// Extract the whole payload object, converted to `V`.
    ///
    /// Fails with a domain error when no object payload is present, and
    /// with a JSON error when the payload does not convert.
    pub fn get_data<V: FromJson>(&self) -> (r: Result<V, HalError>)
        ensures
            match self@.data {
                None => r matches Err(e) && e is Custom && e.msg() == "No value"@,
                Some(d) => match V::from_json_of(Json::Obj(d)) {
                    Some(m) => r matches Ok(x) && x@ == m,
                    None => r matches Err(e) && e is Json,
                },
            },
    {
        let m = match &self.data {
            Some(m) => m,
            None => {
                return Err(HalError::Custom("No value".to_owned()));
            },
        };
        let copy = clone_obj_entries(m);
        let v = JsonValue::Obj(copy);
        V::from_json(&v)
    }
}

/// Clone the entries of a payload object, preserving the model.
#[verifier::loop_isolation(false)]
fn clone_obj_entries(m: &Vec<(String, JsonValue)>) -> (r: Vec<(String, JsonValue)>)
    ensures
        obj_view(r@) == obj_view(m@),
{
    let n = m.len();
    let mut out: Vec<(String, JsonValue)> = Vec::new();
    proof {
        assert(obj_view(out@) =~= obj_view(m@).take(0));
    }
    let mut i: usize = 0;
    while i < n
        invariant
            i <= n,
            n == m@.len(),
            obj_view(out@) == obj_view(m@).take(i as int),
        decreases n - i,
    {
        let k = m[i].0.clone();
        let v = m[i].1.clone();
        out.push((k, v));
        proof {
            assert(obj_view(out@) =~= obj_view(m@).take(i as int + 1));
        }
        i += 1;
    }
    proof {
        assert(obj_view(m@).take(n as int) =~= obj_view(m@));
    }
    out
}

/// The first link under a relation of a resource model, if any.
pub open spec fn link_of(r: ResourceV, name: Seq<char>) -> Option<LinkV> {
    match map_get(r.links, name) {
        Some(c) => if c.elems.len() > 0 {
            Some(c.elems[0])
        } else {
            None
        },
        None => None,
    }
}

/// The href of the resource's `self` link, if any: the resource's identity.
pub open spec fn self_href(r: ResourceV) -> Option<Seq<char>> {
    match link_of(r, k_self()) {
        Some(l) => Some(l.href),
        None => None,
    }
}

/// Two resources are the same exactly when their `self` links are: same
/// href, or both absent. This is identity-style equality, not structural:
/// payloads, other links and embedded content do not take part.
impl PartialEq for HalResource {
    fn eq(&self, other: &HalResource) -> (r: bool) {
        proof {
            reveal_strlit("self");
            assert("self"@ =~= k_self());
        }
        let a = self.get_link("self");
        let b = other.get_link("self");
        match (a, b) {
            (Some(x), Some(y)) => x.href == y.href,
            (None, None) => true,
            _ => false,
        }
    }
}

impl vstd::std_specs::cmp::PartialEqSpecImpl for HalResource {
    open spec fn obeys_eq_spec() -> bool {
        true
    }

    open spec fn eq_spec(&self, other: &HalResource) -> bool {
        self_href(self@) == self_href(other@)
    }
}

/// The embedded entry vector of a well-formed resource has sorted keys.
pub(crate) proof fn lemma_embedded_map_sorted(r: &HalResource)
    requires
        rv_wf(r@),
    ensures
        vec_keys_sorted(r.embedded@),
{
    lemma_emb_map_view_props(r.embedded@);
    assert forall|i: int, j: int|
        0 <= i < j < r.embedded@.len() implies seq_lt(r.embedded@[i].0@, r.embedded@[j].0@) by {
        assert(r@.embedded[i].0 == r.embedded@[i].0@);
        assert(r@.embedded[j].0 == r.embedded@[j].0@);
        assert(seq_lt(r@.embedded[i].0, r@.embedded[j].0));
    }
}

/// A resource view with sorted link names has a sorted link entry vector.
pub(crate) proof fn lemma_links_map_sorted(r: &HalResource)
    requires
        keys_sorted(r@.links),
    ensures
        vec_keys_sorted(r.links@),
{
    assert forall|i: int, j: int|
        0 <= i < j < r.links@.len() implies seq_lt(r.links@[i].0@, r.links@[j].0@) by {
        assert(entries_view(r.links@)[i].0 == r.links@[i].0@);
        assert(entries_view(r.links@)[j].0 == r.links@[j].0@);
        assert(seq_lt(entries_view(r.links@)[i].0, entries_view(r.links@)[j].0));
    }
}

/// An entry vector whose model has sorted keys is itself sorted.
pub(crate) proof fn lemma_data_map_sorted(m: Seq<(String, JsonValue)>)
    requires
        keys_sorted(obj_view(m)),
    ensures
        vec_keys_sorted(m),
{
    assert forall|i: int, j: int|
        0 <= i < j < m.len() implies seq_lt(m[i].0@, m[j].0@) by {
        assert(obj_view(m)[i].0 == m[i].0@);
        assert(obj_view(m)[j].0 == m[j].0@);
        assert(seq_lt(obj_view(m)[i].0, obj_view(m)[j].0));
    }
}

/// The resource view's embedded map coincides with the generic entry view
/// of its entry vector.
pub(crate) proof fn lemma_entries_view_embedded(r: &HalResource)
    ensures
        r@.embedded == entries_view(r.embedded@),
{
    lemma_emb_map_view_is_entries_view(r.embedded@);
}

} // verus!
