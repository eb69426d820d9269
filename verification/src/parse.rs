//! Parsing JSON text into JSON values.
//!
//! The spec-level parser (`spec_parse_json` and its helpers) defines exactly
//! which texts are accepted and what value each yields; `parse_json` is the
//! executable parser, proved to agree with it. The grammar is JSON with two
//! restrictions: numbers must be integers in the 64-bit signed range (no
//! fractions or exponents), and a `\u` escape must denote a Unicode scalar
//! value (unpaired surrogates are rejected). Objects are normalized while
//! parsing: keys sorted, duplicates collapsed, later members winning.

use vstd::prelude::*;
use vstd::string::StrSliceExecFns;

use crate::error::HalError;
use crate::json::{Json, JsonValue};
use crate::resource::obj_normalize;

verus! {

/// Relies on `char::from_u32`: `Some` exactly for Unicode scalar values
/// (not a surrogate, at most 0x10FFFF), and the character has that value.
pub assume_specification[ char::from_u32 ](n: u32) -> (r: Option<char>)
    ensures
        match r {
            Some(c) => c as u32 == n,
            None => true,
        },
        (n < 0xD800 || (0xE000 <= n && n <= 0x10FFFF)) <==> r is Some,
;

/// JSON whitespace.
pub open spec fn is_ws(c: char) -> bool {
    c == ' ' || c == '\t' || c == '\n' || c == '\r'
}

pub open spec fn is_digit(c: char) -> bool {
    '0' <= c && c <= '9'
}

pub open spec fn digit_val(c: char) -> int {
    (c as u32) as int - ('0' as u32) as int
}

pub open spec fn is_hex(c: char) -> bool {
    is_digit(c) || ('a' <= c && c <= 'f') || ('A' <= c && c <= 'F')
}

pub open spec fn hex_val(c: char) -> int {
    if is_digit(c) {
        digit_val(c)
    } else if 'a' <= c && c <= 'f' {
        (c as u32) as int - ('a' as u32) as int + 10
    } else {
        (c as u32) as int - ('A' as u32) as int + 10
    }
}

/// The character with the given Unicode scalar value.
pub open spec fn char_of(n: int) -> char {
    choose|c: char| (#[trigger] (c as u32)) as int == n
}

/// The first position at or after `i` that does not hold whitespace.
pub open spec fn skip_ws(s: Seq<char>, i: int) -> int
    decreases s.len() - i,
{
    if 0 <= i < s.len() && is_ws(s[i]) {
        skip_ws(s, i + 1)
    } else {
        i
    }
}

/// Parse the body of a string literal starting at `i` (just after the
/// opening quote): the decoded characters and the position after the
/// closing quote. Escapes are the eight JSON escapes; a `\u` escape must
/// be four hex digits denoting a scalar value; raw control characters are
/// rejected.
pub open spec fn parse_string(s: Seq<char>, i: int) -> Option<(Seq<char>, int)>
    decreases s.len() - i,
{
    if i < 0 || i >= s.len() {
        None
    } else {
        let c = s[i];
        if c == '"' {
            Some((Seq::empty(), i + 1))
        } else if (c as u32) < 0x20 {
            None
        } else if c == '\\' {
            if i + 1 >= s.len() {
                None
            } else {
                let e = s[i + 1];
                if e == 'u' {
                    if i + 6 <= s.len() && is_hex(s[i + 2]) && is_hex(s[i + 3]) && is_hex(
                        s[i + 4],
                    ) && is_hex(s[i + 5]) {
                        let n = hex_val(s[i + 2]) * 4096 + hex_val(s[i + 3]) * 256 + hex_val(
                            s[i + 4],
                        ) * 16 + hex_val(s[i + 5]);
                        if n < 0xD800 || n >= 0xE000 {
                            match parse_string(s, i + 6) {
                                Some((rest, j)) => Some((seq![char_of(n)] + rest, j)),
                                None => None,
                            }
                        } else {
                            None
                        }
                    } else {
                        None
                    }
                } else {
                    let d: Option<char> = if e == '"' {
                        Some('"')
                    } else if e == '\\' {
                        Some('\\')
                    } else if e == '/' {
                        Some('/')
                    } else if e == 'b' {
                        Some('\u{0008}')
                    } else if e == 'f' {
                        Some('\u{000C}')
                    } else if e == 'n' {
                        Some('\n')
                    } else if e == 'r' {
                        Some('\r')
                    } else if e == 't' {
                        Some('\t')
                    } else {
                        None
                    };
                    match d {
                        Some(dc) => match parse_string(s, i + 2) {
                            Some((rest, j)) => Some((seq![dc] + rest, j)),
                            None => None,
                        },
                        None => None,
                    }
                }
            }
        } else {
            match parse_string(s, i + 1) {
                Some((rest, j)) => Some((seq![c] + rest, j)),
                None => None,
            }
        }
    }
}

/// Parse a run of digits with an accumulator, failing as soon as the value
/// would pass `bound`: the magnitude and the position after the digits.
pub open spec fn parse_digits(s: Seq<char>, i: int, acc: int, bound: int) -> Option<(int, int)>
    decreases s.len() - i,
{
    if 0 <= i < s.len() && is_digit(s[i]) {
        let a2 = acc * 10 + digit_val(s[i]);
        if a2 > bound {
            None
        } else {
            parse_digits(s, i + 1, a2, bound)
        }
    } else {
        Some((acc, i))
    }
}

/// Parse a number at `i`: an optional minus sign and digits without a
/// leading zero, within the 64-bit signed range. Fractions and exponents
/// are not accepted (the stray `.` or `e` fails the enclosing parse).
pub open spec fn parse_number(s: Seq<char>, i: int) -> Option<(Json, int)> {
    if i < 0 || i >= s.len() {
        None
    } else {
        let neg = s[i] == '-';
        let d0 = if neg {
            i + 1
        } else {
            i
        };
        if d0 >= s.len() || !is_digit(s[d0]) {
            None
        } else if s[d0] == '0' && d0 + 1 < s.len() && is_digit(s[d0 + 1]) {
            None
        } else {
            let bound: int = if neg {
                0x8000000000000000
            } else {
                0x7fffffffffffffff
            };
            match parse_digits(s, d0, 0, bound) {
                Some((m, j)) => Some(
                    (
                        Json::Int(
                            if neg {
                                -m
                            } else {
                                m
                            },
                        ),
                        j,
                    ),
                ),
                None => None,
            }
        }
    }
}

/// Parse one JSON value, leading whitespace included: the value and the
/// position just after it.
pub open spec fn parse_value(s: Seq<char>, i: int) -> Option<(Json, int)>
    decreases s.len() - i, 2int,
{
    let j = skip_ws(s, i);
    if j < i || j >= s.len() {
        None
    } else {
        let c = s[j];
        if c == 'n' {
            if j + 4 <= s.len() && s[j + 1] == 'u' && s[j + 2] == 'l' && s[j + 3] == 'l' {
                Some((Json::Null, j + 4))
            } else {
                None
            }
        } else if c == 't' {
            if j + 4 <= s.len() && s[j + 1] == 'r' && s[j + 2] == 'u' && s[j + 3] == 'e' {
                Some((Json::Bool(true), j + 4))
            } else {
                None
            }
        } else if c == 'f' {
            if j + 5 <= s.len() && s[j + 1] == 'a' && s[j + 2] == 'l' && s[j + 3] == 's' && s[j
                + 4] == 'e' {
                Some((Json::Bool(false), j + 5))
            } else {
                None
            }
        } else if c == '"' {
            match parse_string(s, j + 1) {
                Some((cs, k)) => Some((Json::Str(cs), k)),
                None => None,
            }
        } else if c == '[' {
            let k = skip_ws(s, j + 1);
            if k < j + 1 || k > s.len() {
                None
            } else if k < s.len() && s[k] == ']' {
                Some((Json::Arr(Seq::empty()), k + 1))
            } else {
                match parse_elems(s, k) {
                    Some((es, k2)) => Some((Json::Arr(es), k2)),
                    None => None,
                }
            }
        } else if c == '{' {
            let k = skip_ws(s, j + 1);
            if k < j + 1 || k > s.len() {
                None
            } else if k < s.len() && s[k] == '}' {
                Some((Json::Obj(Seq::empty()), k + 1))
            } else {
                match parse_members(s, k) {
                    Some((ms, k2)) => Some((Json::Obj(obj_normalize(ms)), k2)),
                    None => None,
                }
            }
        } else if c == '-' || is_digit(c) {
            parse_number(s, j)
        } else {
            None
        }
    }
}

/// Parse the elements of a non-empty array, starting at the first element:
/// the elements and the position after the closing bracket.
pub open spec fn parse_elems(s: Seq<char>, i: int) -> Option<(Seq<Json>, int)>
    decreases s.len() - i, 3int,
{
    match parse_value(s, i) {
        Some((v, j)) => {
            if j <= i || j > s.len() {
                None
            } else {
                let k = skip_ws(s, j);
                if k < j {
                    None
                } else if k < s.len() && s[k] == ',' {
                    match parse_elems(s, k + 1) {
                        Some((rest, k2)) => Some((seq![v] + rest, k2)),
                        None => None,
                    }
                } else if k < s.len() && s[k] == ']' {
                    Some((seq![v], k + 1))
                } else {
                    None
                }
            }
        },
        None => None,
    }
}

/// Parse the members of a non-empty object, starting at the quote of the
/// first key: the members in textual order and the position after the
/// closing brace.
pub open spec fn parse_members(s: Seq<char>, i: int) -> Option<(Seq<(Seq<char>, Json)>, int)>
    decreases s.len() - i, 3int,
{
    if i < 0 || i >= s.len() || s[i] != '"' {
        None
    } else {
        match parse_string(s, i + 1) {
            Some((key, j)) => {
                if j <= i || j > s.len() {
                    None
                } else {
                    let k = skip_ws(s, j);
                    if k < j {
                        None
                    } else if k < s.len() && s[k] == ':' {
                        match parse_value(s, k + 1) {
                            Some((v, j2)) => {
                                if j2 <= k || j2 > s.len() {
                                    None
                                } else {
                                    let k2 = skip_ws(s, j2);
                                    if k2 < j2 {
                                        None
                                    } else if k2 < s.len() && s[k2] == ',' {
                                        let k3 = skip_ws(s, k2 + 1);
                                        if k3 < k2 + 1 || k3 > s.len() {
                                            None
                                        } else {
                                            match parse_members(s, k3) {
                                                Some((rest, k4)) => Some(
                                                    (seq![(key, v)] + rest, k4),
                                                ),
                                                None => None,
                                            }
                                        }
                                    } else if k2 < s.len() && s[k2] == '}' {
                                        Some((seq![(key, v)], k2 + 1))
                                    } else {
                                        None
                                    }
                                }
                            },
                            None => None,
                        }
                    } else {
                        None
                    }
                }
            },
            None => None,
        }
    }
}

/// What a whole JSON text parses to: one value, with nothing but
/// whitespace around it.
pub open spec fn spec_parse_json(s: Seq<char>) -> Option<Json> {
    match parse_value(s, 0) {
        Some((v, i)) => if skip_ws(s, i) == s.len() {
            Some(v)
        } else {
            None
        },
        None => None,
    }
}

/// The characters of a string, one by one.
fn str_chars(s: &str) -> (r: Vec<char>)
    ensures
        r@ == s@,
{
    let n = s.unicode_len();
    let mut out: Vec<char> = Vec::new();
    let mut i: usize = 0;
    proof {
        assert(out@ =~= s@.take(0));
    }
    while i < n
        invariant
            i <= n,
            n == s@.len(),
            out@ == s@.take(i as int),
        decreases n - i,
    {
        let c = s.get_char(i);
        out.push(c);
        proof {
            assert(out@ =~= s@.take(i as int + 1));
        }
        i += 1;
    }
    proof {
        assert(s@.take(n as int) =~= s@);
    }
    out
}

/// A character with the given scalar value exists, so `char_of` picks it.
proof fn lemma_char_of_eq(c: char)
    ensures
        char_of((c as u32) as int) == c,
{
    let n = (c as u32) as int;
    assert(exists|x: char| (#[trigger] (x as u32)) as int == n) by {
        assert((c as u32) as int == n);
    }
    let w = char_of(n);
    assert((w as u32) as int == n);
}

/// A successful digit run never moves backwards.
proof fn lemma_parse_digits_ge(s: Seq<char>, i: int, acc: int, bound: int)
    requires
        parse_digits(s, i, acc, bound) is Some,
    ensures
        match parse_digits(s, i, acc, bound) {
            Some(p) => p.1 >= i,
            None => true,
        },
    decreases s.len() - i,
{
    if 0 <= i < s.len() && is_digit(s[i]) {
        let a2 = acc * 10 + digit_val(s[i]);
        if a2 <= bound {
            lemma_parse_digits_ge(s, i + 1, a2, bound);
        }
    }
}

fn json_err(msg: &str) -> (r: HalError)
    ensures
        r is Json,
{
    HalError::Json(msg.to_owned())
}

fn e_is_ws(c: char) -> (r: bool)
    ensures
        r == is_ws(c),
{
    c == ' ' || c == '\t' || c == '\n' || c == '\r'
}

fn e_skip_ws(s: &Vec<char>, i: usize) -> (r: usize)
    requires
        i <= s@.len(),
    ensures
        i <= r <= s@.len(),
        r as int == skip_ws(s@, i as int),
{
    let n = s.len();
    let mut r = i;
    while r < n && e_is_ws(s[r])
        invariant
            i <= r <= n,
            n == s@.len(),
            skip_ws(s@, i as int) == skip_ws(s@, r as int),
        decreases n - r,
    {
        r += 1;
    }
    r
}

fn e_is_hex(c: char) -> (r: bool)
    ensures
        r == is_hex(c),
{
    (c >= '0' && c <= '9') || (c >= 'a' && c <= 'f') || (c >= 'A' && c <= 'F')
}

fn e_hex_val(c: char) -> (r: u32)
    requires
        is_hex(c),
    ensures
        r as int == hex_val(c),
        r < 16,
{
    if c >= '0' && c <= '9' {
        (c as u32) - ('0' as u32)
    } else if c >= 'a' && c <= 'f' {
        (c as u32) - ('a' as u32) + 10
    } else {
        (c as u32) - ('A' as u32) + 10
    }
}

/// Parse a string literal body, as `parse_string` specifies.
fn e_parse_string(s: &Vec<char>, i: usize) -> (r: Result<(String, usize), HalError>)
    requires
        i <= s@.len(),
    ensures
        match parse_string(s@, i as int) {
            Some((cs, j)) => r matches Ok(p) && p.0@ == cs && p.1 as int == j && i < p.1
                <= s@.len(),
            None => r matches Err(e) && e is Json,
        },
    decreases s@.len() - i,
{
    let n = s.len();
    if i >= n {
        return Err(json_err("unterminated string"));
    }
    let c = s[i];
    if c == '"' {
        Ok((String::new(), i + 1))
    } else if (c as u32) < 0x20 {
        Err(json_err("raw control character in string"))
    } else if c == '\\' {
        if n - i < 2 {
            return Err(json_err("unterminated escape"));
        }
        let e = s[i + 1];
        if e == 'u' {
            if n - i >= 6 && e_is_hex(s[i + 2]) && e_is_hex(s[i + 3]) && e_is_hex(s[i + 4])
                && e_is_hex(s[i + 5]) {
                let n: u32 = e_hex_val(s[i + 2]) * 4096 + e_hex_val(s[i + 3]) * 256 + e_hex_val(
                    s[i + 4],
                ) * 16 + e_hex_val(s[i + 5]);
                if n < 0xD800 || n >= 0xE000 {
                    let c0 = match char::from_u32(n) {
                        Some(c0) => c0,
                        None => {
                            proof {
                                assert(false);
                            }
                            return Err(json_err("invalid escape"));
                        },
                    };
                    proof {
                        lemma_char_of_eq(c0);
                        assert(char_of(n as int) == c0);
                    }
                    match e_parse_string(s, i + 6) {
                        Ok((rest, j)) => {
                            let mut out = String::new();
                            out.push(c0);
                            out.append(rest.as_str());
                            proof {
                                assert(out@ =~= seq![char_of(n as int)] + rest@);
                            }
                            Ok((out, j))
                        },
                        Err(e2) => Err(e2),
                    }
                } else {
                    Err(json_err("escape denotes a surrogate"))
                }
            } else {
                Err(json_err("malformed unicode escape"))
            }
        } else {
            let d: Option<char> = if e == '"' {
                Some('"')
            } else if e == '\\' {
                Some('\\')
            } else if e == '/' {
                Some('/')
            } else if e == 'b' {
                Some('\u{0008}')
            } else if e == 'f' {
                Some('\u{000C}')
            } else if e == 'n' {
                Some('\n')
            } else if e == 'r' {
                Some('\r')
            } else if e == 't' {
                Some('\t')
            } else {
                None
            };
            match d {
                Some(dc) => {
                    match e_parse_string(s, i + 2) {
                        Ok((rest, j)) => {
                            let mut out = String::new();
                            out.push(dc);
                            out.append(rest.as_str());
                            proof {
                                assert(out@ =~= seq![dc] + rest@);
                            }
                            Ok((out, j))
                        },
                        Err(e2) => Err(e2),
                    }
                },
                None => Err(json_err("unknown escape")),
            }
        }
    } else {
        match e_parse_string(s, i + 1) {
            Ok((rest, j)) => {
                let mut out = String::new();
                out.push(c);
                out.append(rest.as_str());
                proof {
                    assert(out@ =~= seq![c] + rest@);
                }
                Ok((out, j))
            },
            Err(e2) => Err(e2),
        }
    }
}

/// Parse a digit run, as `parse_digits` specifies.
fn e_parse_digits(s: &Vec<char>, i: usize, acc: u64, bound: u64) -> (r: Result<
    (u64, usize),
    HalError,
>)
    requires
        i <= s@.len(),
        acc <= bound,
    ensures
        match parse_digits(s@, i as int, acc as int, bound as int) {
            Some((m, j)) => r matches Ok(p) && p.0 as int == m && p.0 <= bound && p.1 as int == j
                && i <= p.1 <= s@.len(),
            None => r matches Err(e) && e is Json,
        },
    decreases s@.len() - i,
{
    if i < s.len() {
        let c = s[i];
        if c >= '0' && c <= '9' {
            let d: u32 = (c as u32) - ('0' as u32);
            let a2: u128 = (acc as u128) * 10 + (d as u128);
            if a2 > (bound as u128) {
                Err(json_err("number out of range"))
            } else {
                e_parse_digits(s, i + 1, a2 as u64, bound)
            }
        } else {
            Ok((acc, i))
        }
    } else {
        Ok((acc, i))
    }
}

/// Parse a number, as `parse_number` specifies.
fn e_parse_number(s: &Vec<char>, i: usize) -> (r: Result<(JsonValue, usize), HalError>)
    requires
        i < s@.len(),
    ensures
        match parse_number(s@, i as int) {
            Some((v, j)) => r matches Ok(p) && p.0@ == v && p.1 as int == j && i < p.1
                <= s@.len(),
            None => r matches Err(e) && e is Json,
        },
{
    let n = s.len();
    let neg = s[i] == '-';
    let d0 = if neg {
        i + 1
    } else {
        i
    };
    if d0 >= n {
        return Err(json_err("expected a digit"));
    }
    let c0 = s[d0];
    if !(c0 >= '0' && c0 <= '9') {
        return Err(json_err("expected a digit"));
    }
    if c0 == '0' && d0 + 1 < n {
        let c1 = s[d0 + 1];
        if c1 >= '0' && c1 <= '9' {
            return Err(json_err("leading zero in number"));
        }
    }
    let bound: u64 = if neg {
        0x8000000000000000
    } else {
        0x7fffffffffffffff
    };
    match e_parse_digits(s, d0, 0, bound) {
        Ok((m, j)) => {
            proof {
                lemma_parse_digits_ge(s@, d0 as int + 1, digit_val(s@[d0 as int]), bound as int);
            }
            let v: i64 = if neg {
                if m == 0x8000000000000000 {
                    i64::MIN
                } else {
                    -(m as i64)
                }
            } else {
                m as i64
            };
            proof {
                if neg {
                    assert(v as int == -(m as int));
                }
            }
            Ok((JsonValue::Int(v), j))
        },
        Err(e) => Err(e),
    }
}

/// Parse one JSON value, as `parse_value` specifies.
fn e_parse_value(s: &Vec<char>, i: usize) -> (r: Result<(JsonValue, usize), HalError>)
    requires
        i <= s@.len(),
    ensures
        match parse_value(s@, i as int) {
            Some((v, j)) => r matches Ok(p) && p.0@ == v && p.1 as int == j && i < p.1
                <= s@.len(),
            None => r matches Err(e) && e is Json,
        },
    decreases s@.len() - i, 2int,
{
    let n = s.len();
    let j = e_skip_ws(s, i);
    if j >= n {
        return Err(json_err("expected a JSON value"));
    }
    let c = s[j];
    if c == 'n' {
        if n - j >= 4 && s[j + 1] == 'u' && s[j + 2] == 'l' && s[j + 3] == 'l' {
            Ok((JsonValue::Null, j + 4))
        } else {
            Err(json_err("malformed literal"))
        }
    } else if c == 't' {
        if n - j >= 4 && s[j + 1] == 'r' && s[j + 2] == 'u' && s[j + 3] == 'e' {
            Ok((JsonValue::Bool(true), j + 4))
        } else {
            Err(json_err("malformed literal"))
        }
    } else if c == 'f' {
        if n - j >= 5 && s[j + 1] == 'a' && s[j + 2] == 'l' && s[j + 3] == 's' && s[j + 4]
            == 'e' {
            Ok((JsonValue::Bool(false), j + 5))
        } else {
            Err(json_err("malformed literal"))
        }
    } else if c == '"' {
        match e_parse_string(s, j + 1) {
            Ok((cs, k)) => Ok((JsonValue::Str(cs), k)),
            Err(e) => Err(e),
        }
    } else if c == '[' {
        let k = e_skip_ws(s, j + 1);
        if k < s.len() && s[k] == ']' {
            let out: Vec<JsonValue> = Vec::new();
            proof {
                assert(crate::json::arr_view(out@) =~= Seq::<Json>::empty());
            }
            Ok((JsonValue::Arr(out), k + 1))
        } else if k >= s.len() {
            Err(json_err("unterminated array"))
        } else {
            match e_parse_elems(s, k) {
                Ok((es, k2)) => Ok((JsonValue::Arr(es), k2)),
                Err(e) => Err(e),
            }
        }
    } else if c == '{' {
        let k = e_skip_ws(s, j + 1);
        if k < s.len() && s[k] == '}' {
            let out: Vec<(String, JsonValue)> = Vec::new();
            proof {
                assert(crate::json::obj_view(out@) =~= Seq::<(Seq<char>, Json)>::empty());
            }
            Ok((JsonValue::Obj(out), k + 1))
        } else if k >= s.len() {
            Err(json_err("unterminated object"))
        } else {
            match e_parse_members(s, k) {
                Ok((ms, k2)) => {
                    let nm = normalize_entries(ms);
                    Ok((JsonValue::Obj(nm), k2))
                },
                Err(e) => Err(e),
            }
        }
    } else if c == '-' || (c >= '0' && c <= '9') {
        e_parse_number(s, j)
    } else {
        Err(json_err("unexpected character"))
    }
}

/// Parse the elements of a non-empty array, as `parse_elems` specifies.
fn e_parse_elems(s: &Vec<char>, i: usize) -> (r: Result<(Vec<JsonValue>, usize), HalError>)
    requires
        i <= s@.len(),
    ensures
        match parse_elems(s@, i as int) {
            Some((es, j)) => r matches Ok(p) && crate::json::arr_view(p.0@) == es && p.1 as int
                == j && i < p.1 <= s@.len(),
            None => r matches Err(e) && e is Json,
        },
    decreases s@.len() - i, 3int,
{
    match e_parse_value(s, i) {
        Ok((v, j)) => {
            let k = e_skip_ws(s, j);
            if k < s.len() && s[k] == ',' {
                match e_parse_elems(s, k + 1) {
                    Ok((rest, k2)) => {
                        let mut out = rest;
                        out.insert(0, v);
                        proof {
                            let pv = parse_value(s@, i as int)->0;
                            let pe = parse_elems(s@, k as int + 1)->0;
                            assert(crate::json::arr_view(out@) =~= seq![pv.0] + pe.0);
                        }
                        Ok((out, k2))
                    },
                    Err(e) => Err(e),
                }
            } else if k < s.len() && s[k] == ']' {
                let mut out: Vec<JsonValue> = Vec::new();
                out.push(v);
                proof {
                    let pv = parse_value(s@, i as int)->0;
                    assert(crate::json::arr_view(out@) =~= seq![pv.0]);
                }
                Ok((out, k + 1))
            } else {
                Err(json_err("expected a comma or a closing bracket"))
            }
        },
        Err(e) => Err(e),
    }
}

/// Parse the members of a non-empty object, as `parse_members` specifies.
fn e_parse_members(s: &Vec<char>, i: usize) -> (r: Result<
    (Vec<(String, JsonValue)>, usize),
    HalError,
>)
    requires
        i <= s@.len(),
    ensures
        match parse_members(s@, i as int) {
            Some((ms, j)) => r matches Ok(p) && crate::json::obj_view(p.0@) == ms && p.1 as int
                == j && i < p.1 <= s@.len(),
            None => r matches Err(e) && e is Json,
        },
    decreases s@.len() - i, 3int,
{
    if i >= s.len() {
        return Err(json_err("expected an object member"));
    }
    if s[i] != '"' {
        return Err(json_err("expected a quoted key"));
    }
    match e_parse_string(s, i + 1) {
        Ok((key, j)) => {
            let k = e_skip_ws(s, j);
            if k < s.len() && s[k] == ':' {
                match e_parse_value(s, k + 1) {
                    Ok((v, j2)) => {
                        let k2 = e_skip_ws(s, j2);
                        if k2 < s.len() && s[k2] == ',' {
                            let k3 = e_skip_ws(s, k2 + 1);
                            match e_parse_members(s, k3) {
                                Ok((rest, k4)) => {
                                    let ghost keyg = key@;
                                    let ghost vg = v@;
                                    let mut out = rest;
                                    out.insert(0, (key, v));
                                    proof {
                                        let pm = parse_members(s@, k3 as int)->0;
                                        assert(crate::json::obj_view(out@) =~= seq![(keyg, vg)]
                                            + pm.0);
                                    }
                                    Ok((out, k4))
                                },
                                Err(e) => Err(e),
                            }
                        } else if k2 < s.len() && s[k2] == '}' {
                            let ghost keyg = key@;
                            let ghost vg = v@;
                            let mut out: Vec<(String, JsonValue)> = Vec::new();
                            out.push((key, v));
                            proof {
                                assert(crate::json::obj_view(out@) =~= seq![(keyg, vg)]);
                            }
                            Ok((out, k2 + 1))
                        } else {
                            Err(json_err("expected a comma or a closing brace"))
                        }
                    },
                    Err(e) => Err(e),
                }
            } else {
                Err(json_err("expected a colon"))
            }
        },
        Err(e) => Err(e),
    }
}

/// Re-insert parsed members into an empty map: sorted keys, duplicates
/// collapsed, later members winning.
#[verifier::loop_isolation(false)]
fn normalize_entries(ms: Vec<(String, JsonValue)>) -> (r: Vec<(String, JsonValue)>)
    ensures
        crate::json::obj_view(r@) == obj_normalize(crate::json::obj_view(ms@)),
        crate::order::vec_keys_sorted(r@),
{
    let ghost ps = crate::json::obj_view(ms@);
    let mut ms = ms;
    let mut out: Vec<(String, JsonValue)> = Vec::new();
    proof {
        assert(crate::json::obj_view(out@) =~= obj_normalize(ps.take(0)));
        assert(crate::json::obj_view(ms@) =~= ps.skip(0));
    }
    while ms.len() > 0
        invariant
            ps.len() >= ms@.len(),
            crate::json::obj_view(ms@) =~= ps.skip(ps.len() - ms@.len()),
            crate::order::vec_keys_sorted(out@),
            crate::json::obj_view(out@) == obj_normalize(ps.take(ps.len() - ms@.len())),
        decreases ms@.len(),
    {
        let ghost k = ps.len() - ms@.len();
        let ghost m0 = ms@;
        let pair = ms.remove(0);
        proof {
            assert((pair.0@, pair.1@) == crate::json::obj_view(m0)[0]);
            assert((pair.0@, pair.1@) == ps[k]);
            assert(crate::json::obj_view(ms@) =~= ps.skip(k + 1)) by {
                assert(ms@ =~= m0.drop_first());
                assert(forall|x: int|
                    0 <= x < ms@.len() ==> #[trigger] crate::json::obj_view(ms@)[x]
                        == crate::json::obj_view(m0)[x + 1]);
            }
        }
        crate::json::obj_entries_upsert(&mut out, pair.0.as_str(), pair.1);
        proof {
            assert(ps.take(k + 1).drop_last() =~= ps.take(k));
            assert(ps.take(k + 1).last() == ps[k]);
            assert(crate::json::obj_view(out@) == obj_normalize(ps.take(k + 1)));
        }
    }
    proof {
        assert(ps.take(ps.len() as int) =~= ps);
    }
    out
}

/// Parse a whole JSON text, as `spec_parse_json` specifies: exactly one
/// value, with nothing but whitespace around it.
pub fn parse_json(text: &str) -> (r: Result<JsonValue, HalError>)
    ensures
        match spec_parse_json(text@) {
            Some(j) => r matches Ok(v) && v@ == j,
            None => r matches Err(e) && e is Json,
        },
{
    let cs = str_chars(text);
    match e_parse_value(&cs, 0) {
        Ok((v, j)) => {
            let k = e_skip_ws(&cs, j);
            if k == cs.len() {
                Ok(v)
            } else {
                Err(json_err("trailing characters after the JSON value"))
            }
        },
        Err(e) => Err(e),
    }
}

} // verus!
