//! A container that serializes as a bare value when it holds exactly one
//! element, and as an array otherwise.
//!
//! The `force_many` flag opts out of the collapsing: a forced container
//! always serializes as an array, even when empty or a singleton. An empty
//! container that is not forced serializes as null (in a HAL document the
//! enclosing resource omits such relations entirely).

use vstd::prelude::*;
use vstd::pervasive::cloned;

use crate::error::HalError;
use crate::json::{arr_view, FromJson, Json, JsonValue, ToJson};

verus! {

/// The model of a container: the element models in insertion order, and the
/// flag that forces array form.
pub struct OomV<T> {
    pub force: bool,
    pub elems: Seq<T>,
}

/// A wrapper around a vector with the one-or-many serialization rule.
#[derive(Debug, Clone)]
pub struct OneOrMany<T> {
    pub(crate) force_many: bool,
    pub(crate) content: Vec<T>,
}

impl<T: View> View for OneOrMany<T> {
    type V = OomV<T::V>;

    open(crate) spec fn view(&self) -> OomV<T::V> {
        OomV {
            force: self.force_many,
            elems: Seq::new(
                self.content@.len(),
                |i: int|
                    if 0 <= i < self.content@.len() {
                        self.content@[i]@
                    } else {
                        vstd::pervasive::arbitrary()
                    },
            ),
        }
    }
}

impl<T: View> OneOrMany<T> {
    /// An empty container, not forced to array form.
    pub fn new() -> (r: OneOrMany<T>)
        ensures
            r@.force == false,
            r@.elems == Seq::<T::V>::empty(),
    {
        let r = OneOrMany { content: Vec::new(), force_many: false };
        proof {
            assert(r@.elems =~= Seq::<T::V>::empty());
        }
        r
    }

    /// The same container, forced to serialize as an array even when it
    /// holds zero or one element.
    pub fn force_many(self) -> (r: Self)
        ensures
            r@.force == true,
            r@.elems == self@.elems,
    {
        let r = OneOrMany { force_many: true, ..self };
        proof {
            assert(r@.elems =~= self@.elems);
        }
        r
    }

    /// How many elements the container holds.
    pub fn len(&self) -> (r: usize)
        ensures
            r == self@.elems.len(),
    {
        self.content.len()
    }

    /// Whether the container holds no elements.
    pub fn is_empty(&self) -> (r: bool)
        ensures
            r == (self@.elems.len() == 0),
    {
        self.content.is_empty()
    }

    /// The first element, if there is one.
    pub fn single(&self) -> (r: Option<&T>)
        ensures
            match r {
                Some(x) => self@.elems.len() > 0 && x@ == self@.elems[0],
                None => self@.elems.len() == 0,
            },
    {
        if self.content.is_empty() {
            None
        } else {
            Some(&self.content[0])
        }
    }

    /// All elements, read-only, in insertion order.
    pub fn many(&self) -> (r: &Vec<T>)
        ensures
            r@.len() == self@.elems.len(),
            forall|i: int| 0 <= i < r@.len() ==> (#[trigger] r@[i])@ == self@.elems[i],
    {
        &self.content
    }

    /// Append an owned element.
    pub(crate) fn push_value(&mut self, v: T)
        ensures
            final(self)@.force == old(self)@.force,
            final(self)@.elems == old(self)@.elems.push(v@),
    {
        let ghost vg = v;
        self.content.push(v);
        proof {
            assert(final(self)@.elems =~= old(self)@.elems.push(vg@));
        }
    }
}

impl<T: View + Clone> OneOrMany<T> {
    /// Append a clone of the element.
    pub fn push(&mut self, newval: &T)
        ensures
            final(self)@.force == old(self)@.force,
            exists|x: T|
                #[trigger] cloned::<T>(*newval, x) && final(self)@.elems == old(
                    self,
                )@.elems.push(x@),
    {
        let x = newval.clone();
        proof {
            assert(cloned::<T>(*newval, x));
        }
        let ghost xg = x;
        self.content.push(x);
        proof {
            assert(final(self)@.elems =~= old(self)@.elems.push(xg@));
        }
    }

    /// Append a clone of the element, chainable.
    pub fn with(self, newval: &T) -> (r: Self)
        ensures
            r@.force == self@.force,
            exists|x: T| #[trigger] cloned::<T>(*newval, x) && r@.elems == self@.elems.push(x@),
    {
        let mut r = self;
        r.push(newval);
        r
    }

}

/// The one-or-many collapsing rule, on already-serialized elements: an
/// unforced singleton is the element itself; an unforced empty container is
/// null; everything else is an array.
pub open spec fn oom_json(force: bool, elems: Seq<Json>) -> Json {
    if elems.len() == 0 && !force {
        Json::Null
    } else if elems.len() == 1 && !force {
        elems[0]
    } else {
        Json::Arr(elems)
    }
}

/// What a sequence of JSON values deserializes to as elements of `T`, if
/// every element is accepted.
pub open spec fn seq_from_json<T: FromJson>(es: Seq<Json>) -> Option<Seq<T::V>>
    decreases es.len(),
{
    if es.len() == 0 {
        Some(Seq::empty())
    } else {
        match T::from_json_of(es[0]) {
            Some(m) => match seq_from_json::<T>(es.drop_first()) {
                Some(rest) => Some(seq![m] + rest),
                None => None,
            },
            None => None,
        }
    }
}

/// What a JSON value deserializes to as a container: an array yields its
/// elements in order; any other value — an object or a bare scalar — is
/// handed to the element type and yields an unforced singleton. The forced
/// flag is never set by deserialization.
pub open spec fn oom_from_json<T: FromJson>(j: Json) -> Option<OomV<T::V>> {
    match j {
        Json::Arr(es) => match seq_from_json::<T>(es) {
            Some(ms) => Some(OomV { force: false, elems: ms }),
            None => None,
        },
        _ => match T::from_json_of(j) {
            Some(m) => Some(OomV { force: false, elems: seq![m] }),
            None => None,
        },
    }
}

pub proof fn lemma_seq_from_json_snoc<T: FromJson>(es: Seq<Json>, x: Json)
    ensures
        seq_from_json::<T>(es.push(x)) == (match (seq_from_json::<T>(es), T::from_json_of(x)) {
            (Some(ms), Some(m)) => Some(ms.push(m)),
            _ => None::<Seq<T::V>>,
        }),
    decreases es.len(),
{
    let t = es.push(x);
    if es.len() == 0 {
        assert(t.drop_first() =~= Seq::<Json>::empty());
        assert(seq_from_json::<T>(Seq::<Json>::empty()) == Some(Seq::<T::V>::empty()));
        if T::from_json_of(x) is Some {
            assert(seq_from_json::<T>(t) == Some(
                seq![T::from_json_of(x)->0] + Seq::<T::V>::empty(),
            ));
            assert(seq![T::from_json_of(x)->0] + Seq::<T::V>::empty() =~= Seq::<
                T::V,
            >::empty().push(T::from_json_of(x)->0));
        }
    } else {
        assert(t.drop_first() =~= es.drop_first().push(x));
        lemma_seq_from_json_snoc::<T>(es.drop_first(), x);
        if T::from_json_of(es[0]) is Some {
            let m0 = T::from_json_of(es[0])->0;
            match seq_from_json::<T>(es.drop_first()) {
                Some(rest) => {
                    match T::from_json_of(x) {
                        Some(m) => {
                            assert(seq![m0] + rest.push(m) =~= (seq![m0] + rest).push(m));
                        },
                        None => {},
                    }
                },
                None => {},
            }
        }
    }
}

impl<T: FromJson + Clone> OneOrMany<T> {
    /// Deserialize a container, as `oom_from_json` specifies.
    #[verifier::loop_isolation(false)]
    pub fn from_json(v: &JsonValue) -> (r: Result<Self, HalError>)
        ensures
            match oom_from_json::<T>(v@) {
                Some(m) => r matches Ok(x) && x@ == m,
                None => r matches Err(e) && e is Json,
            },
    {
        match v {
            JsonValue::Arr(elems) => {
                let n = elems.len();
                let mut out: Vec<T> = Vec::new();
                let mut i: usize = 0;
                proof {
                    assert(arr_view(elems@).take(0) =~= Seq::<Json>::empty());
                    assert(seq_from_json::<T>(arr_view(elems@).take(0)) == Some(
                        Seq::<T::V>::empty(),
                    ));
                    assert(out@.map_values(|t: T| t@) =~= Seq::<T::V>::empty());
                }
                while i < n
                    invariant
                        i <= n,
                        n == elems@.len(),
                        seq_from_json::<T>(arr_view(elems@).take(i as int)) == Some(
                            out@.map_values(|t: T| t@),
                        ),
                    decreases n - i,
                {
                    let ghost prefix = arr_view(elems@).take(i as int);
                    let ghost outv = out@.map_values(|t: T| t@);
                    let x = match T::from_json(&elems[i]) {
                        Ok(x) => x,
                        Err(e) => {
                            proof {
                                lemma_seq_from_json_none::<T>(arr_view(elems@), i as int);
                            }
                            return Err(e);
                        },
                    };
                    let ghost xg = x;
                    out.push(x);
                    proof {
                        lemma_seq_from_json_snoc::<T>(prefix, arr_view(elems@)[i as int]);
                        assert(arr_view(elems@).take(i as int + 1) =~= prefix.push(
                            arr_view(elems@)[i as int],
                        ));
                        assert(out@.map_values(|t: T| t@) =~= outv.push(xg@));
                    }
                    i += 1;
                }
                proof {
                    assert(arr_view(elems@).take(n as int) =~= arr_view(elems@));
                }
                let r = OneOrMany { force_many: false, content: out };
                proof {
                    assert(r@.elems =~= r.content@.map_values(|t: T| t@));
                }
                Ok(r)
            },
            _ => {
                let x = match T::from_json(v) {
                    Ok(x) => x,
                    Err(e) => {
                        return Err(e);
                    },
                };
                let ghost xg = x;
                let mut content: Vec<T> = Vec::new();
                content.push(x);
                let r = OneOrMany { force_many: false, content };
                proof {
                    assert(r@.elems =~= seq![xg@]);
                }
                Ok(r)
            },
        }
    }
}

/// If some element of `es` up to and including position `i` is rejected,
/// the whole sequence is rejected.
pub proof fn lemma_seq_from_json_none<T: FromJson>(es: Seq<Json>, i: int)
    requires
        0 <= i < es.len(),
        T::from_json_of(es[i]) is None,
    ensures
        seq_from_json::<T>(es) is None,
    decreases i,
{
    if es.len() > 0 {
        if i == 0 {
        } else {
            lemma_seq_from_json_none::<T>(es.drop_first(), i - 1);
        }
    }
}

/// Serialize a container of serializable elements, as the collapsing rule
/// specifies.
impl<T: ToJson + Clone> OneOrMany<T> {
    #[verifier::loop_isolation(false)]
    pub fn to_json(&self) -> (r: JsonValue)
        ensures
            r@ == oom_json(
                self@.force,
                Seq::new(self@.elems.len(), |i: int| T::json_of(self@.elems[i])),
            ),
    {
        let ghost target = Seq::new(self@.elems.len(), |i: int| T::json_of(self@.elems[i]));
        if self.content.is_empty() && !self.force_many {
            proof {
                assert(target =~= Seq::<Json>::empty());
            }
            JsonValue::Null
        } else if self.content.len() == 1 && !self.force_many {
            let r = self.content[0].to_json();
            proof {
                assert(target[0] == T::json_of(self@.elems[0]));
            }
            r
        } else {
            let n = self.content.len();
            let mut out: Vec<JsonValue> = Vec::new();
            let mut i: usize = 0;
            proof {
                assert(arr_view(out@) =~= target.take(0));
            }
            while i < n
                invariant
                    i <= n,
                    n == self.content@.len(),
                    n == self@.elems.len(),
                    target == Seq::new(self@.elems.len(), |j: int| T::json_of(self@.elems[j])),
                    arr_view(out@) == target.take(i as int),
                decreases n - i,
            {
                let x = self.content[i].to_json();
                let ghost xg = x@;
                out.push(x);
                proof {
                    assert(xg == target[i as int]);
                    assert(arr_view(out@) =~= target.take(i as int + 1));
                }
                i += 1;
            }
            proof {
                assert(target.take(n as int) =~= target);
            }
            JsonValue::Arr(out)
        }
    }
}

} // verus!
