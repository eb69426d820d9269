//! Lexicographic order on character sequences, and sorted association lists
//! keyed by strings. Relation names and payload keys are kept in sorted maps,
//! which fixes the key order of serialized output.

use vstd::prelude::*;

verus! {

/// Strict lexicographic order on character sequences, comparing characters
/// by their Unicode scalar values.
pub open spec fn seq_lt(a: Seq<char>, b: Seq<char>) -> bool
    decreases a.len(),
{
    if b.len() == 0 {
        false
    } else if a.len() == 0 {
        true
    } else if a[0] < b[0] {
        true
    } else if b[0] < a[0] {
        false
    } else {
        seq_lt(a.drop_first(), b.drop_first())
    }
}

/// `seq_lt` is a strict order: irreflexive and asymmetric.
pub proof fn lemma_seq_lt_strict(a: Seq<char>, b: Seq<char>)
    ensures
        !(seq_lt(a, b) && seq_lt(b, a)),
        a == b ==> !seq_lt(a, b),
    decreases a.len(),
{
    if a.len() > 0 && b.len() > 0 && a[0] == b[0] {
        lemma_seq_lt_strict(a.drop_first(), b.drop_first());
    }
}

/// `seq_lt` is total: two sequences are ordered or equal.
pub proof fn lemma_seq_lt_total(a: Seq<char>, b: Seq<char>)
    ensures
        seq_lt(a, b) || seq_lt(b, a) || a == b,
    decreases a.len(),
{
    if a.len() > 0 && b.len() > 0 && a[0] == b[0] {
        lemma_seq_lt_total(a.drop_first(), b.drop_first());
        if a.drop_first() == b.drop_first() {
            assert(a =~= b) by {
                assert(a.len() == b.len());
                assert forall|i: int| 0 <= i < a.len() implies a[i] == b[i] by {
                    if i > 0 {
                        assert(a[i] == a.drop_first()[i - 1]);
                        assert(b[i] == b.drop_first()[i - 1]);
                    }
                }
            }
        }
    }
}

/// `seq_lt` is transitive.
pub proof fn lemma_seq_lt_trans(a: Seq<char>, b: Seq<char>, c: Seq<char>)
    requires
        seq_lt(a, b),
        seq_lt(b, c),
    ensures
        seq_lt(a, c),
    decreases a.len(),
{
    if a.len() > 0 && b.len() > 0 && c.len() > 0 && a[0] == b[0] && b[0] == c[0] {
        lemma_seq_lt_trans(a.drop_first(), b.drop_first(), c.drop_first());
    }
}

/// If `a` and `b` agree below position `i` and differ at `i`, the one with
/// the smaller character at `i` is the smaller sequence.
proof fn lemma_seq_lt_at(a: Seq<char>, b: Seq<char>, i: int)
    requires
        0 <= i < a.len(),
        i < b.len(),
        forall|j: int| 0 <= j < i ==> a[j] == b[j],
        a[i] < b[i],
    ensures
        seq_lt(a, b),
    decreases i,
{
    if i > 0 {
        lemma_seq_lt_at(a.drop_first(), b.drop_first(), i - 1);
    }
}

/// A strict prefix is smaller.
proof fn lemma_seq_lt_prefix(a: Seq<char>, b: Seq<char>)
    requires
        a.len() < b.len(),
        forall|j: int| 0 <= j < a.len() ==> a[j] == b[j],
    ensures
        seq_lt(a, b),
    decreases a.len(),
{
    if a.len() > 0 {
        lemma_seq_lt_prefix(a.drop_first(), b.drop_first());
    }
}

/// Three-way lexicographic comparison of two strings by characters.
/// Returns -1, 0 or 1 as `a` is below, equal to, or above `b`.
pub fn str_compare(a: &str, b: &str) -> (o: i8)
    ensures
        -1i8 <= o <= 1i8,
        (o == -1i8) <==> seq_lt(a@, b@),
        (o == 0i8) <==> a@ == b@,
        (o == 1i8) <==> seq_lt(b@, a@),
{
    proof {
        lemma_seq_lt_strict(a@, b@);
        lemma_seq_lt_strict(b@, a@);
        lemma_seq_lt_total(a@, b@);
    }
    let la = a.unicode_len();
    let lb = b.unicode_len();
    let mut i: usize = 0;
    while i < la && i < lb
        invariant
            i <= la,
            i <= lb,
            la == a@.len(),
            lb == b@.len(),
            forall|j: int| 0 <= j < i ==> a@[j] == b@[j],
        decreases la - i,
    {
        let ca = a.get_char(i);
        let cb = b.get_char(i);
        if ca < cb {
            proof {
                lemma_seq_lt_at(a@, b@, i as int);
                lemma_seq_lt_strict(a@, b@);
                lemma_seq_lt_strict(b@, a@);
            }
            return -1;
        }
        if cb < ca {
            proof {
                lemma_seq_lt_at(b@, a@, i as int);
                lemma_seq_lt_strict(a@, b@);
                lemma_seq_lt_strict(b@, a@);
            }
            return 1;
        }
        i += 1;
    }
    if la < lb {
        proof {
            lemma_seq_lt_prefix(a@, b@);
        }
        -1
    } else if lb < la {
        proof {
            lemma_seq_lt_prefix(b@, a@);
        }
        1
    } else {
        proof {
            assert(a@ =~= b@);
        }
        0
    }
}

/// Whether every key of `s` is strictly below every later key.
pub open spec fn keys_sorted<V>(s: Seq<(Seq<char>, V)>) -> bool {
    forall|i: int, j: int| 0 <= i < j < s.len() ==> seq_lt(#[trigger] s[i].0, #[trigger] s[j].0)
}

/// The value under `k`: the first entry with that key, if any.
pub open spec fn map_get<V>(s: Seq<(Seq<char>, V)>, k: Seq<char>) -> Option<V>
    decreases s.len(),
{
    if s.len() == 0 {
        None
    } else if s[0].0 == k {
        Some(s[0].1)
    } else {
        map_get(s.drop_first(), k)
    }
}

/// Insert `(k, v)` into the sorted association list `s`, replacing the value
/// if the key is already present.
pub open spec fn map_upsert<V>(s: Seq<(Seq<char>, V)>, k: Seq<char>, v: V) -> Seq<(Seq<char>, V)>
    decreases s.len(),
{
    if s.len() == 0 {
        seq![(k, v)]
    } else if seq_lt(k, s[0].0) {
        seq![(k, v)] + s
    } else if k == s[0].0 {
        seq![(k, v)] + s.drop_first()
    } else {
        seq![s[0]] + map_upsert(s.drop_first(), k, v)
    }
}

/// Lookup distributes over concatenation: the left part wins.
pub proof fn lemma_map_get_append<V>(a: Seq<(Seq<char>, V)>, b: Seq<(Seq<char>, V)>, k: Seq<char>)
    ensures
        map_get(a + b, k) == (match map_get(a, k) {
            Some(v) => Some(v),
            None => map_get(b, k),
        }),
    decreases a.len(),
{
    if a.len() == 0 {
        assert(a + b =~= b);
    } else {
        assert((a + b).drop_first() =~= a.drop_first() + b);
        assert((a + b)[0] == a[0]);
        lemma_map_get_append(a.drop_first(), b, k);
    }
}

/// After `map_upsert`, the inserted key maps to the inserted value.
pub proof fn lemma_map_upsert_get<V>(s: Seq<(Seq<char>, V)>, k: Seq<char>, v: V)
    ensures
        map_get(map_upsert(s, k, v), k) == Some(v),
    decreases s.len(),
{
    if s.len() == 0 {
    } else if seq_lt(k, s[0].0) {
    } else if k == s[0].0 {
    } else {
        lemma_map_upsert_get(s.drop_first(), k, v);
        let r = seq![s[0]] + map_upsert(s.drop_first(), k, v);
        assert(r.drop_first() =~= map_upsert(s.drop_first(), k, v));
        assert(r[0] == s[0]);
    }
}

/// In a sorted list an entry at position `i` is the one `map_get` finds.
pub proof fn lemma_map_get_at<V>(s: Seq<(Seq<char>, V)>, k: Seq<char>, i: int)
    requires
        keys_sorted(s),
        0 <= i < s.len(),
        s[i].0 == k,
    ensures
        map_get(s, k) == Some(s[i].1),
    decreases i,
{
    if i > 0 {
        assert(seq_lt(s[0].0, s[i].0));
        lemma_seq_lt_strict(s[0].0, s[i].0);
        assert(keys_sorted(s.drop_first())) by {
            assert(forall|x: int, y: int|
                0 <= x < y < s.drop_first().len() ==> seq_lt(
                    #[trigger] s.drop_first()[x].0,
                    #[trigger] s.drop_first()[y].0,
                )) by {
                assert(forall|x: int|
                    0 <= x < s.drop_first().len() ==> #[trigger] s.drop_first()[x] == s[x + 1]);
            }
        }
        lemma_map_get_at(s.drop_first(), k, i - 1);
    }
}

/// If no entry of `s` has key `k`, `map_get` returns `None`.
pub proof fn lemma_map_get_none<V>(s: Seq<(Seq<char>, V)>, k: Seq<char>)
    requires
        forall|i: int| 0 <= i < s.len() ==> (#[trigger] s[i].0) != k,
    ensures
        map_get(s, k) is None,
    decreases s.len(),
{
    if s.len() > 0 {
        assert(forall|i: int|
            0 <= i < s.drop_first().len() ==> #[trigger] s.drop_first()[i] == s[i + 1]);
        lemma_map_get_none(s.drop_first(), k);
    }
}

/// Dropping the first entry of a sorted list keeps it sorted.
pub proof fn lemma_sorted_drop_first<V>(s: Seq<(Seq<char>, V)>)
    requires
        keys_sorted(s),
        s.len() > 0,
    ensures
        keys_sorted(s.drop_first()),
{
    assert(forall|x: int|
        0 <= x < s.drop_first().len() ==> #[trigger] s.drop_first()[x] == s[x + 1]);
}

/// In a sorted list, replacing the value at the position of key `k` is
/// exactly `map_upsert`.
pub proof fn lemma_map_upsert_replace<V>(s: Seq<(Seq<char>, V)>, k: Seq<char>, v: V, i: int)
    requires
        keys_sorted(s),
        0 <= i < s.len(),
        s[i].0 == k,
    ensures
        map_upsert(s, k, v) =~= s.update(i, (k, v)),
    decreases i,
{
    lemma_seq_lt_strict(k, s[0].0);
    if i == 0 {
        assert(map_upsert(s, k, v) =~= seq![(k, v)] + s.drop_first());
    } else {
        assert(seq_lt(s[0].0, s[i].0));
        lemma_sorted_drop_first(s);
        lemma_map_upsert_replace(s.drop_first(), k, v, i - 1);
        assert(map_upsert(s, k, v) =~= seq![s[0]] + map_upsert(s.drop_first(), k, v));
    }
}

/// In a sorted list with keys below `k` before position `i` and above `k`
/// from `i` on, inserting `(k, v)` at `i` is exactly `map_upsert`.
pub proof fn lemma_map_upsert_insert<V>(s: Seq<(Seq<char>, V)>, k: Seq<char>, v: V, i: int)
    requires
        keys_sorted(s),
        0 <= i <= s.len(),
        forall|j: int| 0 <= j < i ==> seq_lt(#[trigger] s[j].0, k),
        forall|j: int| i <= j < s.len() ==> seq_lt(k, #[trigger] s[j].0),
    ensures
        map_upsert(s, k, v) =~= s.subrange(0, i) + seq![(k, v)] + s.subrange(i, s.len() as int),
    decreases i,
{
    if s.len() == 0 {
        assert(map_upsert(s, k, v) =~= seq![(k, v)]);
    } else if i == 0 {
        assert(seq_lt(k, s[0].0));
        assert(map_upsert(s, k, v) =~= seq![(k, v)] + s);
    } else {
        assert(seq_lt(s[0].0, k));
        lemma_seq_lt_strict(s[0].0, k);
        lemma_seq_lt_strict(k, s[0].0);
        lemma_sorted_drop_first(s);
        assert(forall|x: int|
            0 <= x < s.drop_first().len() ==> #[trigger] s.drop_first()[x] == s[x + 1]);
        lemma_map_upsert_insert(s.drop_first(), k, v, i - 1);
        assert(map_upsert(s, k, v) =~= seq![s[0]] + map_upsert(s.drop_first(), k, v));
    }
}

/// `map_upsert` keeps the list sorted.
pub proof fn lemma_map_upsert_sorted<V>(s: Seq<(Seq<char>, V)>, k: Seq<char>, v: V)
    requires
        keys_sorted(s),
    ensures
        keys_sorted(map_upsert(s, k, v)),
    decreases s.len(),
{
    if s.len() == 0 {
    } else if seq_lt(k, s[0].0) {
        let r = seq![(k, v)] + s;
        assert(forall|j: int| 1 <= j < r.len() ==> #[trigger] r[j] == s[j - 1]);
        assert(forall|j: int| 1 <= j < r.len() ==> seq_lt(r[0].0, #[trigger] r[j].0)) by {
            assert(forall|j: int|
                1 <= j < s.len() ==> seq_lt(s[0].0, #[trigger] s[j].0));
            assert(forall|j: int| 2 <= j < r.len() ==> seq_lt(k, #[trigger] r[j].0)) by {
                assert(forall|j: int|
                    1 <= j < s.len() ==> seq_lt(s[0].0, #[trigger] s[j].0));
                assert forall|j: int| 2 <= j < r.len() implies seq_lt(k, #[trigger] r[j].0) by {
                    lemma_seq_lt_trans(k, s[0].0, s[j - 1].0);
                }
            }
        }
    } else if k == s[0].0 {
        let r = seq![(k, v)] + s.drop_first();
        assert(forall|j: int| 1 <= j < r.len() ==> #[trigger] r[j] == s[j]);
    } else {
        lemma_seq_lt_total(k, s[0].0);
        assert(seq_lt(s[0].0, k));
        lemma_sorted_drop_first(s);
        lemma_map_upsert_sorted(s.drop_first(), k, v);
        let t = map_upsert(s.drop_first(), k, v);
        let r = seq![s[0]] + t;
        assert(forall|j: int| 1 <= j < r.len() ==> #[trigger] r[j] == t[j - 1]);
        assert forall|j: int| 1 <= j < r.len() implies seq_lt(r[0].0, #[trigger] r[j].0) by {
            lemma_map_upsert_keys(s.drop_first(), k, v, j - 1);
            if t[j - 1] == (k, v) {
            } else {
                let x = choose|x: int|
                    0 <= x < s.drop_first().len() && #[trigger] s.drop_first()[x] == t[j - 1];
                assert(seq_lt(s[0].0, s[x + 1].0));
                assert(s.drop_first()[x] == s[x + 1]);
            }
        }
    }
}

/// Every entry of `map_upsert(s, k, v)` is `(k, v)` or an entry of `s`.
pub proof fn lemma_map_upsert_keys<V>(s: Seq<(Seq<char>, V)>, k: Seq<char>, v: V, j: int)
    requires
        0 <= j < map_upsert(s, k, v).len(),
    ensures
        map_upsert(s, k, v)[j] == (k, v) || exists|x: int|
            0 <= x < s.len() && (#[trigger] s[x]) == map_upsert(s, k, v)[j],
    decreases s.len(),
{
    let r = map_upsert(s, k, v);
    if s.len() == 0 {
    } else if seq_lt(k, s[0].0) {
        if j > 0 {
            assert(r[j] == s[j - 1]);
        }
    } else if k == s[0].0 {
        if j > 0 {
            assert(r[j] == s.drop_first()[j - 1]);
            assert(s.drop_first()[j - 1] == s[j]);
        }
    } else {
        if j == 0 {
            assert(r[0] == s[0]);
        } else {
            assert(r[j] == map_upsert(s.drop_first(), k, v)[j - 1]);
            lemma_map_upsert_keys(s.drop_first(), k, v, j - 1);
            if map_upsert(s.drop_first(), k, v)[j - 1] != (k, v) {
                let x = choose|x: int|
                    0 <= x < s.drop_first().len() && (#[trigger] s.drop_first()[x])
                        == map_upsert(s.drop_first(), k, v)[j - 1];
                assert(s[x + 1] == s.drop_first()[x]);
                assert(s[x + 1] == r[j]);
            }
        }
    }
}

/// Keys of the entries of an association list held in a `Vec`.
pub open spec fn vec_keys_sorted<V>(s: Seq<(String, V)>) -> bool {
    forall|i: int, j: int|
        0 <= i < j < s.len() ==> seq_lt(#[trigger] s[i].0@, #[trigger] s[j].0@)
}

/// Binary-search-free lookup of the slot for `key` in a sorted entry vector:
/// returns `(found, idx)` where `idx` is the position of `key` if present,
/// and otherwise the position where it would be inserted.
pub fn find_slot<V>(entries: &Vec<(String, V)>, key: &str) -> (r: (bool, usize))
    requires
        vec_keys_sorted(entries@),
    ensures
        r.1 <= entries@.len(),
        r.0 <==> (r.1 < entries@.len() && entries@[r.1 as int].0@ == key@),
        forall|j: int| 0 <= j < r.1 ==> seq_lt(#[trigger] entries@[j].0@, key@),
        forall|j: int| r.1 < j < entries@.len() ==> seq_lt(key@, #[trigger] entries@[j].0@),
        !r.0 && r.1 < entries@.len() ==> seq_lt(key@, entries@[r.1 as int].0@),
{
    let n = entries.len();
    let mut i: usize = 0;
    while i < n
        invariant
            i <= n,
            n == entries@.len(),
            vec_keys_sorted(entries@),
            forall|j: int| 0 <= j < i ==> seq_lt(#[trigger] entries@[j].0@, key@),
        decreases n - i,
    {
        let c = str_compare(entries[i].0.as_str(), key);
        if c == 0 {
            return (true, i);
        }
        if c == 1 {
            proof {
                assert forall|j: int| i < j < entries@.len() implies seq_lt(
                    key@,
                    #[trigger] entries@[j].0@,
                ) by {
                    lemma_seq_lt_trans(key@, entries@[i as int].0@, entries@[j].0@);
                }
                lemma_seq_lt_strict(key@, entries@[i as int].0@);
            }
            return (false, i);
        }
        i += 1;
    }
    (false, i)
}

} // verus!
