//! The untyped JSON tree this library works on, and its mathematical model.
//!
//! Numbers are restricted to 64-bit signed integers: the HAL layer itself
//! never computes with numbers, and this keeps the model exact.

use vstd::prelude::*;

use crate::order::{
    keys_sorted, lemma_map_get_at, lemma_map_get_none, lemma_map_upsert_insert,
    lemma_map_upsert_replace, map_get, map_upsert, vec_keys_sorted, find_slot,
};

verus! {

/// The mathematical model of a JSON value: an untyped tree of null, booleans,
/// integers, strings, arrays and objects. Objects are sequences of key/value
/// pairs, in the order in which they serialize.
pub enum Json {
    Null,
    Bool(bool),
    Int(int),
    Str(Seq<char>),
    Arr(Seq<Json>),
    Obj(Seq<(Seq<char>, Json)>),
}

/// An untyped JSON value. Payloads handed to a resource and values extracted
/// from one are of this type.
#[derive(Debug)]
pub enum JsonValue {
    Null,
    Bool(bool),
    Int(i64),
    Str(String),
    Arr(Vec<JsonValue>),
    Obj(Vec<(String, JsonValue)>),
}

impl View for JsonValue {
    type V = Json;

    open spec fn view(&self) -> Json
        decreases self,
    {
        match self {
            JsonValue::Null => Json::Null,
            JsonValue::Bool(b) => Json::Bool(*b),
            JsonValue::Int(i) => Json::Int(*i as int),
            JsonValue::Str(s) => Json::Str(s@),
            JsonValue::Arr(v) => Json::Arr(arr_view(v@)),
            JsonValue::Obj(m) => Json::Obj(obj_view(m@)),
        }
    }
}

/// The model of the element vector of an array.
pub open spec fn arr_view(s: Seq<JsonValue>) -> Seq<Json>
    decreases s,
{
    Seq::new(
        s.len(),
        |i: int|
            if 0 <= i < s.len() {
                s[i]@
            } else {
                Json::Null
            },
    )
}

/// The model of the entry vector of an object.
pub open spec fn obj_view(m: Seq<(String, JsonValue)>) -> Seq<(Seq<char>, Json)>
    decreases m,
{
    Seq::new(
        m.len(),
        |i: int|
            if 0 <= i < m.len() {
                (m[i].0@, m[i].1@)
            } else {
                (Seq::<char>::empty(), Json::Null)
            },
    )
}

impl Clone for JsonValue {
    /// A deep copy with the same model.
    #[verifier::loop_isolation(false)]
    fn clone(&self) -> (res: Self)
        ensures
            res@ == self@,
        decreases self,
    {
        match self {
            JsonValue::Null => JsonValue::Null,
            JsonValue::Bool(b) => JsonValue::Bool(*b),
            JsonValue::Int(i) => JsonValue::Int(*i),
            JsonValue::Str(s) => JsonValue::Str(s.clone()),
            JsonValue::Arr(v) => {
                let n = v.len();
                let mut out: Vec<JsonValue> = Vec::new();
                let mut i: usize = 0;
                while i < n
                    invariant
                        i <= n,
                        arr_view(out@) == arr_view(v@).take(i as int),
                    decreases n - i,
                {
                    let x = v[i].clone();
                    out.push(x);
                    proof {
                        assert(arr_view(out@) =~= arr_view(v@).take(i as int + 1));
                    }
                    i += 1;
                }
                proof {
                    assert(arr_view(v@).take(n as int) =~= arr_view(v@));
                }
                JsonValue::Arr(out)
            },
            JsonValue::Obj(m) => {
                let n = m.len();
                let mut out: Vec<(String, JsonValue)> = Vec::new();
                let mut i: usize = 0;
                while i < n
                    invariant
                        i <= n,
                        obj_view(out@) == obj_view(m@).take(i as int),
                    decreases n - i,
                {
                    let k = m[i].0.clone();
                    let x = m[i].1.clone();
                    out.push((k, x));
                    proof {
                        assert(obj_view(out@) =~= obj_view(m@).take(i as int + 1));
                    }
                    i += 1;
                }
                proof {
                    assert(obj_view(m@).take(n as int) =~= obj_view(m@));
                }
                JsonValue::Obj(out)
            },
        }
    }
}

impl JsonValue {
    /// Whether this value is a JSON object.
    pub fn is_object(&self) -> (r: bool)
        ensures
            r == (self@ is Obj),
    {
        match self {
            JsonValue::Obj(_) => true,
            _ => false,
        }
    }

    /// Look a key up in an object; `None` on any other kind of value, or
    /// when the key is missing. Returns the first entry with the key.
    pub fn get<'a>(&'a self, key: &str) -> (r: Option<&'a JsonValue>)
        ensures
            match r {
                Some(v) => self@ is Obj && map_get(self@->Obj_0, key@) == Some(v@),
                None => !(self@ is Obj) || map_get(self@->Obj_0, key@) is None,
            },
    {
        match self {
            JsonValue::Obj(m) => obj_entries_get(m, key),
            _ => None,
        }
    }
}

/// Look a key up in an entry vector: the first entry with that key.
pub fn obj_entries_get<'a>(m: &'a Vec<(String, JsonValue)>, key: &str) -> (r: Option<
    &'a JsonValue,
>)
    ensures
        match r {
            Some(v) => map_get(obj_view(m@), key@) == Some(v@),
            None => map_get(obj_view(m@), key@) is None,
        },
{
    let n = m.len();
    let mut i: usize = 0;
    proof {
        assert(obj_view(m@).skip(0) =~= obj_view(m@));
    }
    while i < n
        invariant
            i <= n,
            n == m@.len(),
            map_get(obj_view(m@), key@) == map_get(obj_view(m@).skip(i as int), key@),
        decreases n - i,
    {
        proof {
            let s = obj_view(m@).skip(i as int);
            assert(s.len() > 0);
            assert(s[0] == obj_view(m@)[i as int]);
            assert(s.drop_first() =~= obj_view(m@).skip(i as int + 1));
        }
        let c = crate::order::str_compare(m[i].0.as_str(), key);
        if c == 0 {
            return Some(&m[i].1);
        }
        i += 1;
    }
    proof {
        assert(obj_view(m@).skip(n as int) =~= Seq::<(Seq<char>, Json)>::empty());
    }
    None
}

/// Insert `(key, v)` into a sorted entry vector, replacing the value if the
/// key is present: the executable form of `map_upsert`.
pub fn obj_entries_upsert(m: &mut Vec<(String, JsonValue)>, key: &str, v: JsonValue)
    requires
        vec_keys_sorted(old(m)@),
    ensures
        vec_keys_sorted(final(m)@),
        obj_view(final(m)@) == map_upsert(obj_view(old(m)@), key@, v@),
{
    let ghost s0 = obj_view(m@);
    let (found, idx) = find_slot(m, key);
    if found {
        let old_pair = m.remove(idx);
        m.insert(idx, (old_pair.0, v));
        proof {
            assert(obj_view(m@) =~= s0.update(idx as int, (key@, v@)));
            lemma_map_upsert_replace(s0, key@, v@, idx as int);
            assert(forall|i: int, j: int|
                0 <= i < j < m@.len() ==> seq_lt(#[trigger] m@[i].0@, #[trigger] m@[j].0@));
        }
    } else {
        m.insert(idx, (key.to_owned(), v));
        proof {
            assert(obj_view(m@) =~= s0.subrange(0, idx as int) + seq![(key@, v@)] + s0.subrange(
                idx as int,
                s0.len() as int,
            ));
            lemma_map_upsert_insert(s0, key@, v@, idx as int);
            assert(forall|i: int, j: int|
                0 <= i < j < m@.len() ==> seq_lt(#[trigger] m@[i].0@, #[trigger] m@[j].0@)) by {
                assert(forall|i: int|
                    0 <= i < idx ==> #[trigger] m@[i].0@ == s0[i].0);
                assert(m@[idx as int].0@ == key@);
                assert(forall|j: int|
                    idx < j < m@.len() ==> #[trigger] m@[j].0@ == s0[j - 1].0);
                assert forall|i: int, j: int|
                    0 <= i < j < m@.len() implies seq_lt(m@[i].0@, m@[j].0@) by {
                    if i < idx && j > idx {
                        crate::order::lemma_seq_lt_trans(s0[i].0, key@, s0[j - 1].0);
                    }
                }
            }
        }
    }
}

use crate::order::seq_lt;

/// Types that serialize to a JSON value, with the exact value specified on
/// the model.
pub trait ToJson: View + Sized {
    /// The JSON value the model serializes to.
    spec fn json_of(v: Self::V) -> Json;

    /// Serialize, producing exactly `Self::json_of(self@)`.
    fn to_json(&self) -> (r: JsonValue)
        ensures
            r@ == Self::json_of(self@),
    ;
}

/// Types that deserialize from a JSON value, with the accepted inputs and
/// the result specified on the model.
pub trait FromJson: View + Sized {
    /// What the JSON value deserializes to, if anything.
    spec fn from_json_of(j: Json) -> Option<Self::V>;

    /// Deserialize: succeeds with exactly the specified model, and reports a
    /// JSON error exactly on the inputs the specification rejects.
    fn from_json(v: &JsonValue) -> (r: Result<Self, crate::error::HalError>)
        ensures
            match Self::from_json_of(v@) {
                Some(m) => r matches Ok(x) && x@ == m,
                None => r matches Err(e) && e is Json,
            },
    ;
}

impl ToJson for String {
    open spec fn json_of(v: Seq<char>) -> Json {
        Json::Str(v)
    }

    fn to_json(&self) -> (r: JsonValue) {
        JsonValue::Str(self.clone())
    }
}

impl FromJson for String {
    open spec fn from_json_of(j: Json) -> Option<Seq<char>> {
        match j {
            Json::Str(s) => Some(s),
            _ => None,
        }
    }

    fn from_json(v: &JsonValue) -> (r: Result<Self, crate::error::HalError>) {
        match v {
            JsonValue::Str(s) => Ok(s.clone()),
            _ => Err(crate::error::HalError::Json("expected a JSON string".to_owned())),
        }
    }
}

impl ToJson for bool {
    open spec fn json_of(v: bool) -> Json {
        Json::Bool(v)
    }

    fn to_json(&self) -> (r: JsonValue) {
        JsonValue::Bool(*self)
    }
}

impl FromJson for bool {
    open spec fn from_json_of(j: Json) -> Option<bool> {
        match j {
            Json::Bool(b) => Some(b),
            _ => None,
        }
    }

    fn from_json(v: &JsonValue) -> (r: Result<Self, crate::error::HalError>) {
        match v {
            JsonValue::Bool(b) => Ok(*b),
            _ => Err(crate::error::HalError::Json("expected a JSON boolean".to_owned())),
        }
    }
}

impl ToJson for i64 {
    open spec fn json_of(v: i64) -> Json {
        Json::Int(v as int)
    }

    fn to_json(&self) -> (r: JsonValue) {
        JsonValue::Int(*self)
    }
}

impl FromJson for i64 {
    open spec fn from_json_of(j: Json) -> Option<i64> {
        match j {
            Json::Int(n) => if i64::MIN <= n <= i64::MAX {
                Some(n as i64)
            } else {
                None
            },
            _ => None,
        }
    }

    fn from_json(v: &JsonValue) -> (r: Result<Self, crate::error::HalError>) {
        match v {
            JsonValue::Int(n) => Ok(*n),
            _ => Err(crate::error::HalError::Json("expected a JSON integer".to_owned())),
        }
    }
}

impl FromJson for i32 {
    open spec fn from_json_of(j: Json) -> Option<i32> {
        match j {
            Json::Int(n) => if i32::MIN <= n <= i32::MAX {
                Some(n as i32)
            } else {
                None
            },
            _ => None,
        }
    }

    fn from_json(v: &JsonValue) -> (r: Result<Self, crate::error::HalError>) {
        match v {
            JsonValue::Int(n) => {
                let n = *n;
                if n >= i32::MIN as i64 && n <= i32::MAX as i64 {
                    Ok(n as i32)
                } else {
                    Err(
                        crate::error::HalError::Json(
                            "integer out of range of the requested type".to_owned(),
                        ),
                    )
                }
            },
            _ => Err(crate::error::HalError::Json("expected a JSON integer".to_owned())),
        }
    }
}

} // verus!
