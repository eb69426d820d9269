//! Serialization of JSON values to JSON text.
//!
//! `json_text` is the specification: the exact character sequence a value
//! serializes to. `json_to_string` produces exactly that text. Output is
//! compact (no added whitespace); object members appear in the order the
//! object stores them; strings escape `"`, `\` and control characters, the
//! latter as `\b`, `\f`, `\n`, `\r`, `\t` or `\u00XX` with lowercase hex.

use vstd::prelude::*;
use vstd::string::StrSliceExecFns;
use vstd::string::StringExecFns;

use crate::json::{arr_view, obj_view, Json, JsonValue};

verus! {

/// Relies on `String::push`: appends the given character to the string.
pub assume_specification[ String::push ](s: &mut String, c: char)
    ensures
        final(s)@ == old(s)@.push(c),
;

/// The character for a decimal or lowercase hexadecimal digit.
pub open spec fn hex_char(d: int) -> char {
    if d == 0 { '0' }
    else if d == 1 { '1' }
    else if d == 2 { '2' }
    else if d == 3 { '3' }
    else if d == 4 { '4' }
    else if d == 5 { '5' }
    else if d == 6 { '6' }
    else if d == 7 { '7' }
    else if d == 8 { '8' }
    else if d == 9 { '9' }
    else if d == 10 { 'a' }
    else if d == 11 { 'b' }
    else if d == 12 { 'c' }
    else if d == 13 { 'd' }
    else if d == 14 { 'e' }
    else { 'f' }
}

/// How one character appears inside a JSON string literal.
pub open spec fn esc_char(c: char) -> Seq<char> {
    if c == '"' {
        seq!['\\', '"']
    } else if c == '\\' {
        seq!['\\', '\\']
    } else if c == '\u{0008}' {
        seq!['\\', 'b']
    } else if c == '\u{000C}' {
        seq!['\\', 'f']
    } else if c == '\n' {
        seq!['\\', 'n']
    } else if c == '\r' {
        seq!['\\', 'r']
    } else if c == '\t' {
        seq!['\\', 't']
    } else if (c as u32) < 0x20 {
        seq!['\\', 'u', '0', '0', hex_char((c as u32) as int / 16), hex_char((c as u32) as int % 16)]
    } else {
        seq![c]
    }
}

/// The body of a JSON string literal: every character escaped as needed.
pub open spec fn esc_str(s: Seq<char>) -> Seq<char>
    decreases s.len(),
{
    if s.len() == 0 {
        Seq::empty()
    } else {
        esc_char(s[0]) + esc_str(s.drop_first())
    }
}

pub proof fn lemma_esc_str_snoc(s: Seq<char>, c: char)
    ensures
        esc_str(s.push(c)) == esc_str(s) + esc_char(c),
    decreases s.len(),
{
    let t = s.push(c);
    if s.len() == 0 {
        reveal_with_fuel(esc_str, 2);
        assert(t.drop_first() =~= Seq::<char>::empty());
        assert(esc_str(t) =~= esc_char(c));
        assert(esc_str(s) + esc_char(c) =~= esc_char(c));
    } else {
        assert(t.drop_first() =~= s.drop_first().push(c));
        lemma_esc_str_snoc(s.drop_first(), c);
        assert(esc_str(t) =~= esc_str(s) + esc_char(c));
    }
}

/// A whole JSON string literal, quotes included.
pub open spec fn str_text(s: Seq<char>) -> Seq<char> {
    seq!['"'] + esc_str(s) + seq!['"']
}

/// The decimal digits of a non-negative integer.
pub open spec fn dec_digits(n: int) -> Seq<char>
    decreases n,
{
    if n < 0 {
        Seq::empty()
    } else if n < 10 {
        seq![hex_char(n)]
    } else {
        dec_digits(n / 10) + seq![hex_char(n % 10)]
    }
}

/// The decimal text of an integer, with a leading minus sign if negative.
pub open spec fn int_text(n: int) -> Seq<char> {
    if n < 0 {
        seq!['-'] + dec_digits(-n)
    } else {
        dec_digits(n)
    }
}

/// Parts joined by commas.
pub open spec fn join_comma(parts: Seq<Seq<char>>) -> Seq<char>
    decreases parts.len(),
{
    if parts.len() == 0 {
        Seq::empty()
    } else if parts.len() == 1 {
        parts[0]
    } else {
        parts[0] + seq![','] + join_comma(parts.drop_first())
    }
}

pub proof fn lemma_join_comma_snoc(parts: Seq<Seq<char>>, x: Seq<char>)
    ensures
        parts.len() == 0 ==> join_comma(parts.push(x)) == x,
        parts.len() > 0 ==> join_comma(parts.push(x)) == join_comma(parts) + seq![','] + x,
    decreases parts.len(),
{
    let t = parts.push(x);
    if parts.len() == 0 {
        assert(join_comma(t) == t[0]);
        assert(t[0] == x);
    } else if parts.len() == 1 {
        assert(t.drop_first() =~= parts.drop_first().push(x));
        assert(parts.drop_first() =~= Seq::<Seq<char>>::empty());
        assert(join_comma(t) == t[0] + seq![','] + join_comma(t.drop_first()));
        assert(join_comma(t.drop_first()) == x);
        assert(join_comma(t) =~= join_comma(parts) + seq![','] + x);
    } else {
        assert(t.drop_first() =~= parts.drop_first().push(x));
        lemma_join_comma_snoc(parts.drop_first(), x);
        assert(join_comma(t) =~= join_comma(parts) + seq![','] + x);
    }
}

/// A comma-joined text opens with the first part's first character.
pub proof fn lemma_join_head(parts: Seq<Seq<char>>)
    requires
        parts.len() >= 1,
        parts[0].len() >= 1,
    ensures
        join_comma(parts).len() >= 1,
        join_comma(parts)[0] == parts[0][0],
{
    if parts.len() == 1 {
    } else {
        assert(join_comma(parts) == parts[0] + seq![','] + join_comma(parts.drop_first()));
        assert((parts[0] + seq![','] + join_comma(parts.drop_first()))[0] == parts[0][0]);
    }
}

/// The texts of the elements of an array.
pub open spec fn arr_texts(es: Seq<Json>) -> Seq<Seq<char>>
    decreases es,
{
    Seq::new(
        es.len(),
        |i: int|
            if 0 <= i < es.len() {
                json_text(es[i])
            } else {
                Seq::empty()
            },
    )
}

/// The texts of the members of an object: quoted key, colon, value.
pub open spec fn obj_texts(ps: Seq<(Seq<char>, Json)>) -> Seq<Seq<char>>
    decreases ps,
{
    Seq::new(
        ps.len(),
        |i: int|
            if 0 <= i < ps.len() {
                str_text(ps[i].0) + seq![':'] + json_text(ps[i].1)
            } else {
                Seq::empty()
            },
    )
}

/// The exact JSON text of a value.
pub open spec fn json_text(j: Json) -> Seq<char>
    decreases j,
{
    match j {
        Json::Null => seq!['n', 'u', 'l', 'l'],
        Json::Bool(b) => if b {
            seq!['t', 'r', 'u', 'e']
        } else {
            seq!['f', 'a', 'l', 's', 'e']
        },
        Json::Int(n) => int_text(n),
        Json::Str(s) => str_text(s),
        Json::Arr(es) => seq!['['] + join_comma(arr_texts(es)) + seq![']'],
        Json::Obj(ps) => seq!['{'] + join_comma(obj_texts(ps)) + seq!['}'],
    }
}

/// Append one character's escaped form to `out`.
fn write_esc_char(out: &mut String, c: char)
    ensures
        final(out)@ == old(out)@ + esc_char(c),
{
    if c == '"' {
        out.push('\\');
        out.push('"');
    } else if c == '\\' {
        out.push('\\');
        out.push('\\');
    } else if c == '\u{0008}' {
        out.push('\\');
        out.push('b');
    } else if c == '\u{000C}' {
        out.push('\\');
        out.push('f');
    } else if c == '\n' {
        out.push('\\');
        out.push('n');
    } else if c == '\r' {
        out.push('\\');
        out.push('r');
    } else if c == '\t' {
        out.push('\\');
        out.push('t');
    } else if (c as u32) < 0x20 {
        out.push('\\');
        out.push('u');
        out.push('0');
        out.push('0');
        let cv = c as u32;
        let hi = cv / 16;
        let lo = cv % 16;
        let hc = if hi < 10 {
            (48u8 + (hi as u8)) as char
        } else {
            (97u8 + ((hi - 10) as u8)) as char
        };
        let lc = if lo < 10 {
            (48u8 + (lo as u8)) as char
        } else {
            (97u8 + ((lo - 10) as u8)) as char
        };
        proof {
            assert(hc == hex_char(cv as int / 16));
            assert(lc == hex_char(cv as int % 16));
        }
        out.push(hc);
        out.push(lc);
        proof {
            assert(final(out)@ =~= old(out)@ + esc_char(c));
        }
    } else {
        out.push(c);
        proof {
            assert(final(out)@ =~= old(out)@ + esc_char(c));
        }
    }
    proof {
        assert(final(out)@ =~= old(out)@ + esc_char(c));
    }
}

/// Append a JSON string literal for `s` to `out`.
fn write_json_string(out: &mut String, s: &str)
    ensures
        final(out)@ == old(out)@ + str_text(s@),
{
    let ghost start = out@;
    out.push('"');
    let n = s.unicode_len();
    let mut i: usize = 0;
    proof {
        assert(s@.take(0) =~= Seq::<char>::empty());
    }
    while i < n
        invariant
            i <= n,
            n == s@.len(),
            out@ == start + seq!['"'] + esc_str(s@.take(i as int)),
        decreases n - i,
    {
        let c = s.get_char(i);
        write_esc_char(out, c);
        proof {
            lemma_esc_str_snoc(s@.take(i as int), c);
            assert(s@.take(i as int + 1) =~= s@.take(i as int).push(c));
            assert(out@ =~= start + seq!['"'] + esc_str(s@.take(i as int + 1)));
        }
        i += 1;
    }
    out.push('"');
    proof {
        assert(s@.take(n as int) =~= s@);
        assert(final(out)@ =~= start + str_text(s@));
    }
}

/// Append the decimal text of `n` to `out`.
fn write_int(out: &mut String, n: i64)
    ensures
        final(out)@ == old(out)@ + int_text(n as int),
{
    let ghost start = out@;
    let mut m: u64;
    if n < 0 {
        out.push('-');
        m = (-(n as i128)) as u64;
        proof {
            assert(m as int == -(n as int));
        }
    } else {
        m = n as u64;
    }
    let ghost whole = m as int;
    let mut buf: Vec<char> = Vec::new();
    let mut rem: u64 = m;
    while rem >= 10
        invariant
            dec_digits(whole) =~= dec_digits(rem as int) + buf@,
        decreases rem,
    {
        let d = rem % 10;
        let c = (48u8 + (d as u8)) as char;
        let ghost buf0 = buf@;
        proof {
            assert(c == hex_char(d as int));
            assert(dec_digits(rem as int) == dec_digits(rem as int / 10) + seq![
                hex_char(rem as int % 10),
            ]);
        }
        buf.insert(0, c);
        proof {
            assert(buf@ =~= seq![c] + buf0);
            assert(dec_digits(rem as int / 10) + buf@ =~= dec_digits(rem as int) + buf0);
        }
        rem = rem / 10;
    }
    let d0 = (48u8 + (rem as u8)) as char;
    proof {
        assert(d0 == hex_char(rem as int));
        assert(dec_digits(rem as int) =~= seq![hex_char(rem as int)]);
    }
    out.push(d0);
    let k = buf.len();
    let mut i: usize = 0;
    proof {
        assert(buf@.take(0) =~= Seq::<char>::empty());
        assert(out@ =~= start + (if (n as int) < 0 { seq!['-'] } else { Seq::<char>::empty() })
            + dec_digits(rem as int) + buf@.take(0));
    }
    while i < k
        invariant
            i <= k,
            k == buf@.len(),
            out@ == start + (if (n as int) < 0 { seq!['-'] } else { Seq::<char>::empty() })
                + dec_digits(rem as int) + buf@.take(i as int),
        decreases k - i,
    {
        let c = buf[i];
        out.push(c);
        proof {
            assert(buf@.take(i as int + 1) =~= buf@.take(i as int).push(c));
            assert(out@ =~= start + (if (n as int) < 0 { seq!['-'] } else { Seq::<char>::empty() })
                + dec_digits(rem as int) + buf@.take(i as int + 1));
        }
        i += 1;
    }
    proof {
        assert(buf@.take(k as int) =~= buf@);
        assert(dec_digits(rem as int) + buf@ =~= dec_digits(whole));
        assert(final(out)@ =~= start + int_text(n as int));
    }
}

/// Append the JSON text of `v` to `out`.
#[verifier::loop_isolation(false)]
pub fn write_json(out: &mut String, v: &JsonValue)
    ensures
        final(out)@ == old(out)@ + json_text(v@),
    decreases v,
{
    let ghost start = out@;
    match v {
        JsonValue::Null => {
            out.append("null");
            proof {
                reveal_strlit("null");
                assert(final(out)@ =~= start + json_text(v@));
            }
        },
        JsonValue::Bool(b) => {
            if *b {
                out.append("true");
                proof {
                    reveal_strlit("true");
                    assert(final(out)@ =~= start + json_text(v@));
                }
            } else {
                out.append("false");
                proof {
                    reveal_strlit("false");
                    assert(final(out)@ =~= start + json_text(v@));
                }
            }
        },
        JsonValue::Int(n) => {
            write_int(out, *n);
        },
        JsonValue::Str(s) => {
            write_json_string(out, s.as_str());
        },
        JsonValue::Arr(elems) => {
            out.push('[');
            let n = elems.len();
            let ghost parts = arr_texts(arr_view(elems@));
            let mut i: usize = 0;
            proof {
                assert(parts.take(0) =~= Seq::<Seq<char>>::empty());
                assert(out@ =~= start + seq!['['] + join_comma(parts.take(0)));
            }
            while i < n
                invariant
                    i <= n,
                    n == elems@.len(),
                    parts == arr_texts(arr_view(elems@)),
                    out@ == start + seq!['['] + join_comma(parts.take(i as int)),
                decreases n - i,
            {
                if i > 0 {
                    out.push(',');
                }
                write_json(out, &elems[i]);
                proof {
                    lemma_join_comma_snoc(parts.take(i as int), parts[i as int]);
                    assert(parts.take(i as int + 1) =~= parts.take(i as int).push(
                        parts[i as int],
                    ));
                    assert(parts[i as int] == json_text(elems@[i as int]@));
                    assert(out@ =~= start + seq!['['] + join_comma(parts.take(i as int + 1)));
                }
                i += 1;
            }
            out.push(']');
            proof {
                assert(parts.take(n as int) =~= parts);
                assert(final(out)@ =~= start + json_text(v@));
            }
        },
        JsonValue::Obj(members) => {
            out.push('{');
            let n = members.len();
            let ghost parts = obj_texts(obj_view(members@));
            let mut i: usize = 0;
            proof {
                assert(parts.take(0) =~= Seq::<Seq<char>>::empty());
                assert(out@ =~= start + seq!['{'] + join_comma(parts.take(0)));
            }
            while i < n
                invariant
                    i <= n,
                    n == members@.len(),
                    parts == obj_texts(obj_view(members@)),
                    out@ == start + seq!['{'] + join_comma(parts.take(i as int)),
                decreases n - i,
            {
                if i > 0 {
                    out.push(',');
                }
                write_json_string(out, members[i].0.as_str());
                out.push(':');
                write_json(out, &members[i].1);
                proof {
                    lemma_join_comma_snoc(parts.take(i as int), parts[i as int]);
                    assert(parts.take(i as int + 1) =~= parts.take(i as int).push(
                        parts[i as int],
                    ));
                    assert(parts[i as int] == str_text(members@[i as int].0@) + seq![':']
                        + json_text(members@[i as int].1@));
                    assert(out@ =~= start + seq!['{'] + join_comma(parts.take(i as int + 1)));
                }
                i += 1;
            }
            out.push('}');
            proof {
                assert(parts.take(n as int) =~= parts);
                assert(final(out)@ =~= start + json_text(v@));
            }
        },
    }
}

/// The JSON text of `v`, as specified by `json_text`.
pub fn json_to_string(v: &JsonValue) -> (r: String)
    ensures
        r@ == json_text(v@),
{
    let mut out = String::new();
    write_json(&mut out, v);
    out
}

} // verus!
