//! The executable parsers, each proved against its grammar spec function.
//!
//! The parsers work on a `&str` and a character position; the public
//! functions at the bottom take and hand back plain string slices, so that a
//! value can be cut out of the front of larger host text.

use vstd::prelude::*;
use vstd::string::StrSliceExecFns;
use crate::value::{
    Jval, JsonValue, ParseError, seq_view, entries_view, entries_map, seq_wf, entries_wf,
    keys_unique, lemma_entries_view, lemma_entries_map_dom,
};
use crate::grammar::{
    skip_ws, digits_len, frac_len, exp_len, number_len, spec_number, spec_null, spec_bool, p_ok,
    p_err, lemma_skip_skip, is_hex_digit, hex_val, hex4_at, hex4_val, combined_scalar, char_of,
    spec_escape, spec_str_body, spec_str_lit, is_normal_char, spec_string, spec_value,
    spec_value_sp, spec_list, spec_elements, spec_obj, spec_entries, spec_parse_prefix,
    spec_parse, DEFAULT_DEPTH,
};

verus! {

/// Relies on `char::from_u32` of std: it returns `Some` exactly on Unicode
/// scalar values, and the returned character has the given code point.
pub assume_specification[ char::from_u32 ](v: u32) -> (r: Option<char>)
    ensures
        r is Some <==> vstd::utf8::is_scalar(v),
        r matches Some(c) ==> c as u32 == v,
;

/// Relies on `String`'s `FromIterator` impl of std: collecting characters
/// yields the string of exactly those characters, in order.
#[verifier::external_body]
fn string_from_chars(v: &Vec<char>) -> (r: String)
    ensures
        r@ == v@,
{
    v.iter().collect()
}

/// The position where the whitespace that starts at `pos` ends.
fn ws_end(s: &str, pos: usize) -> (r: usize)
    requires
        pos <= s@.len(),
    ensures
        pos <= r <= s@.len(),
        s@.skip(r as int) == skip_ws(s@.skip(pos as int)),
    decreases s@.len() - pos,
{
    broadcast use lemma_skip_skip;

    let n = s.unicode_len();
    if pos < n {
        let c = s.get_char(pos);
        if c == ' ' || c == '\t' || c == '\n' || c == '\r' {
            proof {
                assert(s@.skip(pos as int).drop_first() =~= s@.skip(pos as int + 1));
            }
            return ws_end(s, pos + 1);
        }
    }
    pos
}

/// The position where the digit run that starts at `pos` ends.
fn digits_end(s: &str, pos: usize) -> (r: usize)
    requires
        pos <= s@.len(),
    ensures
        pos <= r <= s@.len(),
        r - pos == digits_len(s@.skip(pos as int)),
    decreases s@.len() - pos,
{
    broadcast use lemma_skip_skip;

    let n = s.unicode_len();
    if pos < n {
        let c = s.get_char(pos);
        if '0' <= c && c <= '9' {
            proof {
                assert(s@.skip(pos as int).drop_first() =~= s@.skip(pos as int + 1));
            }
            return digits_end(s, pos + 1);
        }
    }
    pos
}

/// The literal `null` at `pos`.
fn null_at(s: &str, pos: usize) -> (r: Result<usize, ParseError>)
    requires
        pos <= s@.len(),
    ensures
        r matches Ok(p) ==> pos < p <= s@.len() && p_ok(
            spec_null(s@.skip(pos as int)),
            JsonValue::Null,
            s@.skip(p as int),
        ),
        r matches Err(e) ==> p_err(spec_null(s@.skip(pos as int)), e),
{
    broadcast use lemma_skip_skip;

    let n = s.unicode_len();
    if n - pos >= 4 && s.get_char(pos) == 'n' && s.get_char(pos + 1) == 'u' && s.get_char(pos + 2)
        == 'l' && s.get_char(pos + 3) == 'l' {
        Ok(pos + 4)
    } else {
        Err(ParseError::UnexpectedToken)
    }
}

/// The literal `true` or `false` at `pos`.
fn bool_at(s: &str, pos: usize) -> (r: Result<(bool, usize), ParseError>)
    requires
        pos <= s@.len(),
    ensures
        r matches Ok((b, p)) ==> pos < p <= s@.len() && p_ok(
            spec_bool(s@.skip(pos as int)),
            JsonValue::Bool(b),
            s@.skip(p as int),
        ),
        r matches Err(e) ==> p_err(spec_bool(s@.skip(pos as int)), e),
{
    broadcast use lemma_skip_skip;

    let n = s.unicode_len();
    if n - pos >= 4 && s.get_char(pos) == 't' && s.get_char(pos + 1) == 'r' && s.get_char(pos + 2)
        == 'u' && s.get_char(pos + 3) == 'e' {
        Ok((true, pos + 4))
    } else if n - pos >= 5 && s.get_char(pos) == 'f' && s.get_char(pos + 1) == 'a' && s.get_char(
        pos + 2,
    ) == 'l' && s.get_char(pos + 3) == 's' && s.get_char(pos + 4) == 'e' {
        Ok((false, pos + 5))
    } else {
        Err(ParseError::UnexpectedToken)
    }
}

/// The end of the numeric literal that starts at `pos`, when one matches
/// there.
#[verifier::rlimit(50)]
fn number_end(s: &str, pos: usize) -> (r: Result<usize, ParseError>)
    requires
        pos <= s@.len(),
    ensures
        r matches Ok(p) ==> pos < p <= s@.len() && p - pos == number_len(s@.skip(pos as int)),
        r matches Err(e) ==> e == ParseError::UnexpectedToken && number_len(s@.skip(pos as int))
            == 0,
{
    let ghost t = s@.skip(pos as int);
    let n = s.unicode_len();
    let sign: usize = if pos < n && s.get_char(pos) == '-' {
        1
    } else {
        0
    };
    proof {
        assert((sign == 1) == (t.len() > 0 && t[0] == '-'));
        lemma_skip_skip(s@, pos as int, sign as int);
    }
    let d_end = digits_end(s, pos + sign);
    proof {
        assert(digits_len(t.skip(sign as int)) == d_end - pos - sign);
    }
    if d_end == pos + sign {
        assert(number_len(t) == 0);
        return Err(ParseError::UnexpectedToken);
    }
    let ghost ip = (d_end - pos) as nat;
    // the fractional part, when one is there
    let mut p = d_end;
    if p < n && s.get_char(p) == '.' {
        let f_end = digits_end(s, p + 1);
        proof {
            lemma_skip_skip(s@, pos as int, ip as int);
            lemma_skip_skip(t, ip as int, 1);
            lemma_skip_skip(s@, pos as int, ip as int + 1);
            assert(t.skip(ip as int) == s@.skip(d_end as int));
            assert(t.skip(ip as int).skip(1) == s@.skip(d_end as int + 1));
            assert(digits_len(s@.skip(d_end as int + 1)) == f_end - d_end - 1);
        }
        if f_end > p + 1 {
            assert(frac_len(t.skip(ip as int)) == f_end - d_end);
            p = f_end;
        } else {
            assert(frac_len(t.skip(ip as int)) == 0);
        }
    } else {
        proof {
            lemma_skip_skip(s@, pos as int, ip as int);
            assert(t.skip(ip as int) == s@.skip(d_end as int));
            assert(frac_len(t.skip(ip as int)) == 0);
        }
    }
    let ghost ipf = (p - pos) as nat;
    assert(ipf == ip + frac_len(t.skip(ip as int)));
    proof {
        lemma_skip_skip(s@, pos as int, ipf as int);
        assert(t.skip(ipf as int) == s@.skip(p as int));
    }
    let ghost u = t.skip(ipf as int);
    // the exponent part, when one is there
    if p < n {
        let c = s.get_char(p);
        if c == 'e' || c == 'E' {
            let esign: usize = if p + 1 < n && (s.get_char(p + 1) == '+' || s.get_char(p + 1)
                == '-') {
                1
            } else {
                0
            };
            proof {
                assert((esign == 1) == (u.len() > 1 && (u[1] == '+' || u[1] == '-')));
                lemma_skip_skip(s@, p as int, 1 + esign as int);
                assert(u.skip(1 + esign as int) == s@.skip((p + 1 + esign) as int));
            }
            let e_end = digits_end(s, p + 1 + esign);
            proof {
                assert(digits_len(u.skip(1 + esign as int)) == e_end - p - 1 - esign);
            }
            if e_end > p + 1 + esign {
                assert(exp_len(u) == e_end - p);
                p = e_end;
            } else {
                assert(exp_len(u) == 0);
            }
        } else {
            assert(exp_len(u) == 0);
        }
    } else {
        assert(exp_len(u) == 0);
    }
    proof {
        assert(p - pos == ipf + exp_len(u));
        assert(number_len(t) == ip + frac_len(t.skip(ip as int)) + exp_len(u));
    }
    Ok(p)
}

/// The value of one hexadecimal digit.
fn hex_digit(c: char) -> (r: Option<u32>)
    ensures
        r is Some <==> is_hex_digit(c),
        r matches Some(v) ==> v == hex_val(c) && v <= 15,
{
    if '0' <= c && c <= '9' {
        Some(c as u32 - '0' as u32)
    } else if 'a' <= c && c <= 'f' {
        Some(c as u32 - 'a' as u32 + 10)
    } else if 'A' <= c && c <= 'F' {
        Some(c as u32 - 'A' as u32 + 10)
    } else {
        None
    }
}

/// The value of the four hexadecimal digits at `pos`, when they stand there.
fn hex4(s: &str, pos: usize) -> (r: Option<u32>)
    requires
        pos <= s@.len(),
    ensures
        r is Some <==> hex4_at(s@, pos as int),
        r matches Some(v) ==> v == hex4_val(s@, pos as int) && v <= 0xFFFF,
{
    let n = s.unicode_len();
    if n - pos < 4 {
        return None;
    }
    let h0 = hex_digit(s.get_char(pos));
    let h1 = hex_digit(s.get_char(pos + 1));
    let h2 = hex_digit(s.get_char(pos + 2));
    let h3 = hex_digit(s.get_char(pos + 3));
    match (h0, h1, h2, h3) {
        (Some(v0), Some(v1), Some(v2), Some(v3)) => Some(
            v0 * 0x1000 + v1 * 0x100 + v2 * 0x10 + v3,
        ),
        _ => None,
    }
}

/// The escape sequence whose backslash stands at `pos`: the decoded
/// character and the number of characters the escape spans.
fn escape_at(s: &str, pos: usize) -> (r: Result<(char, usize), ParseError>)
    requires
        pos < s@.len(),
        s@[pos as int] == '\\',
    ensures
        r matches Ok((c, k)) ==> 2 <= k && pos + k <= s@.len() && spec_escape(s@.skip(pos as int))
            == Ok::<(char, nat), ParseError>((c, k as nat)),
        r matches Err(e) ==> spec_escape(s@.skip(pos as int)) == Err::<(char, nat), ParseError>(e),
{
    broadcast use lemma_skip_skip;

    let ghost t = s@.skip(pos as int);
    let n = s.unicode_len();
    if n - pos < 2 {
        return Err(ParseError::UnterminatedString);
    }
    let c1 = s.get_char(pos + 1);
    if c1 == '"' {
        Ok(('"', 2))
    } else if c1 == '\\' {
        Ok(('\\', 2))
    } else if c1 == '/' {
        Ok(('/', 2))
    } else if c1 == 'b' {
        Ok(('\u{0008}', 2))
    } else if c1 == 'f' {
        Ok(('\u{000C}', 2))
    } else if c1 == 'n' {
        Ok(('\n', 2))
    } else if c1 == 'r' {
        Ok(('\r', 2))
    } else if c1 == 't' {
        Ok(('\t', 2))
    } else if c1 == 'u' {
        proof {
            assert(hex4_at(t, 2) == hex4_at(s@, pos + 2));
            assert(hex4_at(t, 2) ==> hex4_val(t, 2) == hex4_val(s@, pos + 2));
        }
        match hex4(s, pos + 2) {
            None => Err(ParseError::InvalidUnicodeEscape),
            Some(v) => {
                if 0xDC00 <= v && v <= 0xDFFF {
                    Err(ParseError::InvalidSurrogate)
                } else if 0xD800 <= v && v <= 0xDBFF {
                    if n - pos >= 8 && s.get_char(pos + 6) == '\\' && s.get_char(pos + 7) == 'u' {
                        proof {
                            assert(hex4_at(t, 8) == hex4_at(s@, pos + 8));
                            assert(hex4_at(t, 8) ==> hex4_val(t, 8) == hex4_val(s@, pos + 8));
                        }
                        match hex4(s, pos + 8) {
                            None => Err(ParseError::InvalidUnicodeEscape),
                            Some(w) => {
                                if 0xDC00 <= w && w <= 0xDFFF {
                                    let code = 0x10000 + (v - 0xD800) * 0x400 + (w - 0xDC00);
                                    proof {
                                        assert(code as nat == combined_scalar(v as nat, w as nat));
                                        assert(vstd::utf8::is_scalar(code));
                                    }
                                    match char::from_u32(code) {
                                        Some(c) => {
                                            proof {
                                                vstd::utf8::char_u32_cast(c, code);
                                                assert(char_of(code as nat) == c);
                                            }
                                            Ok((c, 12))
                                        },
                                        None => {
                                            proof {
                                                assert(false);
                                            }
                                            Err(ParseError::InvalidSurrogate)
                                        },
                                    }
                                } else {
                                    Err(ParseError::InvalidSurrogate)
                                }
                            },
                        }
                    } else {
                        Err(ParseError::InvalidSurrogate)
                    }
                } else {
                    proof {
                        assert(vstd::utf8::is_scalar(v));
                    }
                    match char::from_u32(v) {
                        Some(c) => {
                            proof {
                                vstd::utf8::char_u32_cast(c, v);
                                assert(char_of(v as nat) == c);
                            }
                            Ok((c, 6))
                        },
                        None => {
                            proof {
                                assert(false);
                            }
                            Err(ParseError::InvalidSurrogate)
                        },
                    }
                }
            },
        }
    } else {
        Err(ParseError::InvalidEscape)
    }
}

/// The string body that starts at `pos` (after the opening quote): the
/// decoded characters and the position after the closing quote.
fn str_body_at(s: &str, pos: usize) -> (r: Result<(Vec<char>, usize), ParseError>)
    requires
        pos <= s@.len(),
    ensures
        r matches Ok((t, p)) ==> pos < p <= s@.len() && spec_str_body(s@.skip(pos as int)) == Ok::<
            (Seq<char>, Seq<char>),
            ParseError,
        >((t@, s@.skip(p as int))),
        r matches Err(e) ==> spec_str_body(s@.skip(pos as int)) == Err::<
            (Seq<char>, Seq<char>),
            ParseError,
        >(e),
    decreases s@.len() - pos,
{
    broadcast use lemma_skip_skip;

    let n = s.unicode_len();
    if pos >= n {
        return Err(ParseError::UnterminatedString);
    }
    let c = s.get_char(pos);
    if c == '"' {
        let t: Vec<char> = Vec::new();
        Ok((t, pos + 1))
    } else if c == '\\' {
        match escape_at(s, pos) {
            Err(e) => Err(e),
            Ok((ch, k)) => {
                match str_body_at(s, pos + k) {
                    Err(e) => Err(e),
                    Ok((mut t, p)) => {
                        proof {
                            assert(t@.insert(0, ch) =~= seq![ch] + t@);
                        }
                        t.insert(0, ch);
                        Ok((t, p))
                    },
                }
            },
        }
    } else {
        let u = c as u32;
        if u >= 0x20 {
            proof {
                assert(is_normal_char(c));
            }
            match str_body_at(s, pos + 1) {
                Err(e) => Err(e),
                Ok((mut t, p)) => {
                    proof {
                        assert(t@.insert(0, c) =~= seq![c] + t@);
                    }
                    t.insert(0, c);
                    Ok((t, p))
                },
            }
        } else {
            proof {
                assert(!is_normal_char(c));
            }
            Err(ParseError::UnterminatedString)
        }
    }
}

/// The string literal that starts at `pos`: its decoded text and the
/// position after the closing quote.
fn str_lit_at(s: &str, pos: usize) -> (r: Result<(String, usize), ParseError>)
    requires
        pos <= s@.len(),
    ensures
        r matches Ok((t, p)) ==> pos + 2 <= p <= s@.len() && spec_str_lit(s@.skip(pos as int))
            == Ok::<(Seq<char>, Seq<char>), ParseError>((t@, s@.skip(p as int))),
        r matches Err(e) ==> spec_str_lit(s@.skip(pos as int)) == Err::<
            (Seq<char>, Seq<char>),
            ParseError,
        >(e),
{
    broadcast use lemma_skip_skip;

    let n = s.unicode_len();
    if pos >= n || s.get_char(pos) != '"' {
        return Err(ParseError::UnexpectedToken);
    }
    match str_body_at(s, pos + 1) {
        Err(e) => Err(e),
        Ok((t, p)) => {
            let text = string_from_chars(&t);
            Ok((text, p))
        },
    }
}

/// The value whose first character stands at `pos`: the dispatcher,
/// committed to an alternative by that character.
#[verifier::rlimit(100)]
fn value_at(s: &str, pos: usize, depth: usize) -> (r: Result<(Jval, usize), ParseError>)
    requires
        pos <= s@.len(),
    ensures
        r matches Ok((v, p)) ==> pos < p <= s@.len() && p_ok(
            spec_value(s@.skip(pos as int), depth as nat),
            v@,
            s@.skip(p as int),
        ) && v.wf(),
        r matches Err(e) ==> p_err(spec_value(s@.skip(pos as int), depth as nat), e),
    decreases depth, s@.len() - pos, 2int,
{
    broadcast use lemma_skip_skip;

        let n = s.unicode_len();
    if depth == 0 {
        return Err(ParseError::NestingTooDeep);
    }
    if pos >= n {
        return Err(ParseError::NoMatchingForm);
    }
    let c = s.get_char(pos);
    if c == 'n' {
        match null_at(s, pos) {
            Ok(p) => Ok((Jval::Null, p)),
            Err(e) => Err(e),
        }
    } else if c == 't' || c == 'f' {
        match bool_at(s, pos) {
            Ok((b, p)) => Ok((Jval::Bool(b), p)),
            Err(e) => Err(e),
        }
    } else if c == '-' || ('0' <= c && c <= '9') {
        match number_end(s, pos) {
            Ok(p) => {
                let text = s.substring_char(pos, p);
                let num = String::from_str(text);
                proof {
                    assert(num@ =~= s@.skip(pos as int).take(p - pos));
                }
                Ok((Jval::Num(num), p))
            },
            Err(e) => Err(e),
        }
    } else if c == '"' {
        match str_lit_at(s, pos) {
            Ok((t, p)) => Ok((Jval::Str(t), p)),
            Err(e) => Err(e),
        }
    } else if c == '[' {
        list_at(s, pos, depth)
    } else if c == '{' {
        obj_at(s, pos, depth)
    } else {
        Err(ParseError::NoMatchingForm)
    }
}

/// The dispatcher wrapped in whitespace skipping on both sides.
fn value_sp_at(s: &str, pos: usize, depth: usize) -> (r: Result<(Jval, usize), ParseError>)
    requires
        pos <= s@.len(),
    ensures
        r matches Ok((v, p)) ==> pos < p <= s@.len() && p_ok(
            spec_value_sp(s@.skip(pos as int), depth as nat),
            v@,
            s@.skip(p as int),
        ) && v.wf(),
        r matches Err(e) ==> p_err(spec_value_sp(s@.skip(pos as int), depth as nat), e),
    decreases depth, s@.len() - pos, 3int,
{
    let a = ws_end(s, pos);
    match value_at(s, a, depth) {
        Err(e) => Err(e),
        Ok((v, p)) => {
            let b = ws_end(s, p);
            Ok((v, b))
        },
    }
}

/// The array whose `[` stands at `pos`.
fn list_at(s: &str, pos: usize, depth: usize) -> (r: Result<(Jval, usize), ParseError>)
    requires
        pos <= s@.len(),
    ensures
        r matches Ok((v, p)) ==> pos < p <= s@.len() && p_ok(
            spec_list(s@.skip(pos as int), depth as nat),
            v@,
            s@.skip(p as int),
        ) && v.wf(),
        r matches Err(e) ==> p_err(spec_list(s@.skip(pos as int), depth as nat), e),
    decreases depth, s@.len() - pos, 1int,
{
    broadcast use lemma_skip_skip;

    let n = s.unicode_len();
    if pos >= n || s.get_char(pos) != '[' {
        return Err(ParseError::UnexpectedToken);
    }
    let t = ws_end(s, pos + 1);
    if t < n && s.get_char(t) == ']' {
        let es: Vec<Jval> = Vec::new();
        proof {
            crate::value::lemma_views_empty();
            assert(es@ =~= Seq::<Jval>::empty());
        }
        return Ok((Jval::List(es), t + 1));
    }
    match elements_at(s, pos + 1, depth) {
        Err(e) => Err(e),
        Ok((es, p)) => Ok((Jval::List(es), p)),
    }
}

/// One or more array elements followed by the closing `]`, starting right
/// after the `[` or after a separating `,`.
fn elements_at(s: &str, pos: usize, depth: usize) -> (r: Result<(Vec<Jval>, usize), ParseError>)
    requires
        pos <= s@.len(),
    ensures
        r matches Ok((es, p)) ==> pos < p <= s@.len() && spec_elements(
            s@.skip(pos as int),
            depth as nat,
        ) == Ok::<(Seq<JsonValue>, Seq<char>), ParseError>((seq_view(es@), s@.skip(p as int)))
            && seq_wf(es@),
        r matches Err(e) ==> spec_elements(s@.skip(pos as int), depth as nat) == Err::<
            (Seq<JsonValue>, Seq<char>),
            ParseError,
        >(e),
    decreases depth, s@.len() - pos, 4int,
{
        let n = s.unicode_len();
    if depth == 0 {
        return Err(ParseError::NestingTooDeep);
    }
    match value_sp_at(s, pos, depth - 1) {
        Err(e) => Err(
            if e == ParseError::NoMatchingForm {
                ParseError::MalformedArray
            } else {
                e
            },
        ),
        Ok((v, p)) => {
            proof {
                if p < n {
                    lemma_skip_skip(s@, p as int, 1);
                }
            }
            if p < n && s.get_char(p) == ',' {
                match elements_at(s, p + 1, depth) {
                    Err(e) => Err(e),
                    Ok((mut es, p2)) => {
                        proof {
                            assert(es@.insert(0, v) =~= seq![v] + es@);
                            crate::value::lemma_seq_view_cons(v, es@);
                        }
                        es.insert(0, v);
                        Ok((es, p2))
                    },
                }
            } else if p < n && s.get_char(p) == ']' {
                let mut es: Vec<Jval> = Vec::new();
                es.push(v);
                proof {
                    assert(es@ =~= seq![v]);
                    crate::value::lemma_seq_view_singleton(v);
                }
                Ok((es, p + 1))
            } else {
                Err(ParseError::MalformedArray)
            }
        },
    }
}

/// Whether some entry carries this key.
fn has_key(es: &Vec<(String, Jval)>, k: &String) -> (r: bool)
    ensures
        r == entries_map(entries_view(es@)).dom().contains(k@),
{
    let mut i: usize = 0;
    while i < es.len()
        invariant
            i <= es@.len(),
            forall|j: int| 0 <= j < i ==> (#[trigger] es@[j]).0@ != k@,
        decreases es@.len() - i,
    {
        if es[i].0 == *k {
            proof {
                lemma_entries_view(es@);
                lemma_entries_map_dom(entries_view(es@));
                assert(entries_view(es@)[i as int].0 == k@);
            }
            return true;
        }
        i = i + 1;
    }
    proof {
        lemma_entries_view(es@);
        lemma_entries_map_dom(entries_view(es@));
        assert forall|i2: int| 0 <= i2 < entries_view(es@).len() implies (#[trigger] entries_view(
            es@,
        )[i2]).0 != k@ by {
            assert(entries_view(es@)[i2].0 == es@[i2].0@);
        }
    }
    false
}

/// The object whose `{` stands at `pos`.
#[verifier::rlimit(50)]
fn obj_at(s: &str, pos: usize, depth: usize) -> (r: Result<(Jval, usize), ParseError>)
    requires
        pos <= s@.len(),
    ensures
        r matches Ok((v, p)) ==> pos < p <= s@.len() && p_ok(
            spec_obj(s@.skip(pos as int), depth as nat),
            v@,
            s@.skip(p as int),
        ) && v.wf(),
        r matches Err(e) ==> p_err(spec_obj(s@.skip(pos as int), depth as nat), e),
    decreases depth, s@.len() - pos, 1int,
{
    broadcast use lemma_skip_skip;

    let n = s.unicode_len();
    if pos >= n || s.get_char(pos) != '{' {
        return Err(ParseError::UnexpectedToken);
    }
    let t = ws_end(s, pos + 1);
    if t < n && s.get_char(t) == '}' {
        let es: Vec<(String, Jval)> = Vec::new();
        proof {
            crate::value::lemma_views_empty();
            assert(es@ =~= Seq::<(String, Jval)>::empty());
        }
        return Ok((Jval::Obj(es), t + 1));
    }
    match entries_at(s, pos + 1, depth) {
        Err(e) => Err(e),
        Ok((es, p)) => Ok((Jval::Obj(es), p)),
    }
}

/// One or more object entries followed by the closing `}`, starting right
/// after the `{` or after a separating `,`.
#[verifier::rlimit(100)]
fn entries_at(s: &str, pos: usize, depth: usize) -> (r: Result<
    (Vec<(String, Jval)>, usize),
    ParseError,
>)
    requires
        pos <= s@.len(),
    ensures
        r matches Ok((es, p)) ==> pos < p <= s@.len() && spec_entries(
            s@.skip(pos as int),
            depth as nat,
        ) == Ok::<(Map<Seq<char>, JsonValue>, Seq<char>), ParseError>(
            (entries_map(entries_view(es@)), s@.skip(p as int)),
        ) && entries_wf(es@) && keys_unique(es@),
        r matches Err(e) ==> spec_entries(s@.skip(pos as int), depth as nat) == Err::<
            (Map<Seq<char>, JsonValue>, Seq<char>),
            ParseError,
        >(e),
    decreases depth, s@.len() - pos, 4int,
{
        let n = s.unicode_len();
    if depth == 0 {
        return Err(ParseError::NestingTooDeep);
    }
    let a = ws_end(s, pos);
    if a >= n || s.get_char(a) != '"' {
        return Err(ParseError::MalformedObject);
    }
    match str_lit_at(s, a) {
        Err(e) => Err(e),
        Ok((key, p1)) => {
            let b = ws_end(s, p1);
            if b >= n || s.get_char(b) != ':' {
                return Err(ParseError::MalformedObject);
            }
            proof {
                lemma_skip_skip(s@, b as int, 1);
            }
            match value_sp_at(s, b + 1, depth - 1) {
                Err(e) => Err(
                    if e == ParseError::NoMatchingForm {
                        ParseError::MalformedObject
                    } else {
                        e
                    },
                ),
                Ok((v, p3)) => {
                    proof {
                        if p3 < n {
                            lemma_skip_skip(s@, p3 as int, 1);
                        }
                    }
                    if p3 < n && s.get_char(p3) == ',' {
                        match entries_at(s, p3 + 1, depth) {
                            Err(e) => Err(e),
                            Ok((mut es, p4)) => {
                                let ghost m = entries_map(entries_view(es@));
                                if has_key(&es, &key) {
                                    Ok((es, p4))
                                } else {
                                    proof {
                                        assert(es@.insert(0, (key, v)) =~= seq![(key, v)] + es@);
                                        crate::value::lemma_entries_cons(key, v, es@);
                                    }
                                    es.insert(0, (key, v));
                                    Ok((es, p4))
                                }
                            },
                        }
                    } else if p3 < n && s.get_char(p3) == '}' {
                        let mut es: Vec<(String, Jval)> = Vec::new();
                        es.push((key, v));
                        proof {
                            assert(es@ =~= seq![(key, v)]);
                            crate::value::lemma_entries_singleton(key, v);
                        }
                        Ok((es, p3 + 1))
                    } else {
                        Err(ParseError::MalformedObject)
                    }
                },
            }
        },
    }
}

/// A `null` at the head of the input.
pub fn p_null<'a>(i: &'a str) -> (r: Result<(Jval, &'a str), ParseError>)
    ensures
        r matches Ok((v, rest)) ==> (spec_null(i@) matches Ok(pr) && pr.0 == v@ && pr.1 == rest@)
            && v.wf(),
        r matches Err(e) ==> p_err(spec_null(i@), e),
{
    proof {
        assert(i@.skip(0) =~= i@);
    }
    match null_at(i, 0) {
        Err(e) => Err(e),
        Ok(p) => {
            let n = i.unicode_len();
            let rest = i.substring_char(p, n);
            proof {
                assert(rest@ =~= i@.skip(p as int));
            }
            Ok((Jval::Null, rest))
        },
    }
}

/// A `true` or `false` at the head of the input.
pub fn p_bool<'a>(i: &'a str) -> (r: Result<(Jval, &'a str), ParseError>)
    ensures
        r matches Ok((v, rest)) ==> (spec_bool(i@) matches Ok(pr) && pr.0 == v@ && pr.1 == rest@)
            && v.wf(),
        r matches Err(e) ==> p_err(spec_bool(i@), e),
{
    proof {
        assert(i@.skip(0) =~= i@);
    }
    match bool_at(i, 0) {
        Err(e) => Err(e),
        Ok((b, p)) => {
            let n = i.unicode_len();
            let rest = i.substring_char(p, n);
            proof {
                assert(rest@ =~= i@.skip(p as int));
            }
            Ok((Jval::Bool(b), rest))
        },
    }
}

/// A numeric literal at the head of the input. The value keeps the matched
/// text; converting it to a double is the caller's affair.
pub fn p_float<'a>(i: &'a str) -> (r: Result<(Jval, &'a str), ParseError>)
    ensures
        r matches Ok((v, rest)) ==> (spec_number(i@) matches Ok(pr) && pr.0 == v@ && pr.1 == rest@)
            && v.wf(),
        r matches Err(e) ==> p_err(spec_number(i@), e),
{
    proof {
        assert(i@.skip(0) =~= i@);
    }
    match number_end(i, 0) {
        Err(e) => Err(e),
        Ok(p) => {
            let text = i.substring_char(0, p);
            let num = String::from_str(text);
            let n = i.unicode_len();
            let rest = i.substring_char(p, n);
            proof {
                assert(num@ =~= i@.take(p as int));
                assert(rest@ =~= i@.skip(p as int));
            }
            Ok((Jval::Num(num), rest))
        },
    }
}

/// A string literal at the head of the input, decoded.
pub fn p_str<'a>(i: &'a str) -> (r: Result<(Jval, &'a str), ParseError>)
    ensures
        r matches Ok((v, rest)) ==> (spec_string(i@) matches Ok(pr) && pr.0 == v@ && pr.1 == rest@)
            && v.wf(),
        r matches Err(e) ==> p_err(spec_string(i@), e),
{
    proof {
        assert(i@.skip(0) =~= i@);
    }
    match str_lit_at(i, 0) {
        Err(e) => Err(e),
        Ok((t, p)) => {
            let n = i.unicode_len();
            let rest = i.substring_char(p, n);
            proof {
                assert(rest@ =~= i@.skip(p as int));
            }
            Ok((Jval::Str(t), rest))
        },
    }
}

/// An array at the head of the input.
pub fn p_list<'a>(i: &'a str) -> (r: Result<(Jval, &'a str), ParseError>)
    ensures
        r matches Ok((v, rest)) ==> (spec_list(i@, DEFAULT_DEPTH as nat) matches Ok(pr) && pr.0
            == v@ && pr.1 == rest@) && v.wf(),
        r matches Err(e) ==> p_err(spec_list(i@, DEFAULT_DEPTH as nat), e),
{
    proof {
        assert(i@.skip(0) =~= i@);
    }
    match list_at(i, 0, DEFAULT_DEPTH) {
        Err(e) => Err(e),
        Ok((v, p)) => {
            let n = i.unicode_len();
            let rest = i.substring_char(p, n);
            proof {
                assert(rest@ =~= i@.skip(p as int));
            }
            Ok((v, rest))
        },
    }
}

/// An object at the head of the input.
pub fn p_obj<'a>(i: &'a str) -> (r: Result<(Jval, &'a str), ParseError>)
    ensures
        r matches Ok((v, rest)) ==> (spec_obj(i@, DEFAULT_DEPTH as nat) matches Ok(pr) && pr.0
            == v@ && pr.1 == rest@) && v.wf(),
        r matches Err(e) ==> p_err(spec_obj(i@, DEFAULT_DEPTH as nat), e),
{
    proof {
        assert(i@.skip(0) =~= i@);
    }
    match obj_at(i, 0, DEFAULT_DEPTH) {
        Err(e) => Err(e),
        Ok((v, p)) => {
            let n = i.unicode_len();
            let rest = i.substring_char(p, n);
            proof {
                assert(rest@ =~= i@.skip(p as int));
            }
            Ok((v, rest))
        },
    }
}

/// A value at the head of the input, committed to by its first character,
/// with no whitespace tolerance.
pub fn p_value<'a>(i: &'a str) -> (r: Result<(Jval, &'a str), ParseError>)
    ensures
        r matches Ok((v, rest)) ==> (spec_value(i@, DEFAULT_DEPTH as nat) matches Ok(pr) && pr.0
            == v@ && pr.1 == rest@) && v.wf(),
        r matches Err(e) ==> p_err(spec_value(i@, DEFAULT_DEPTH as nat), e),
{
    proof {
        assert(i@.skip(0) =~= i@);
    }
    match value_at(i, 0, DEFAULT_DEPTH) {
        Err(e) => Err(e),
        Ok((v, p)) => {
            let n = i.unicode_len();
            let rest = i.substring_char(p, n);
            proof {
                assert(rest@ =~= i@.skip(p as int));
            }
            Ok((v, rest))
        },
    }
}

/// One whitespace-wrapped value and the unconsumed remainder: the prefix
/// parse of a document.
pub fn parse_prefix<'a>(i: &'a str) -> (r: Result<(Jval, &'a str), ParseError>)
    ensures
        r matches Ok((v, rest)) ==> (spec_parse_prefix(i@) matches Ok(pr) && pr.0 == v@ && pr.1
            == rest@) && v.wf(),
        r matches Err(e) ==> p_err(spec_parse_prefix(i@), e),
{
    proof {
        assert(i@.skip(0) =~= i@);
    }
    match value_sp_at(i, 0, DEFAULT_DEPTH) {
        Err(e) => Err(e),
        Ok((v, p)) => {
            let n = i.unicode_len();
            let rest = i.substring_char(p, n);
            proof {
                assert(rest@ =~= i@.skip(p as int));
            }
            Ok((v, rest))
        },
    }
}

/// A value wrapped in whitespace on both sides, as the composite parsers
/// consume their elements.
pub fn p_value_unspaced<'a>(i: &'a str) -> (r: Result<(Jval, &'a str), ParseError>)
    ensures
        r matches Ok((v, rest)) ==> (spec_parse_prefix(i@) matches Ok(pr) && pr.0 == v@ && pr.1
            == rest@) && v.wf(),
        r matches Err(e) ==> p_err(spec_parse_prefix(i@), e),
{
    parse_prefix(i)
}

/// A prefix parse with a caller-chosen nesting bound in place of
/// `DEFAULT_DEPTH`.
pub fn parse_prefix_with_depth<'a>(i: &'a str, depth: usize) -> (r: Result<
    (Jval, &'a str),
    ParseError,
>)
    ensures
        r matches Ok((v, rest)) ==> (spec_value_sp(i@, depth as nat) matches Ok(pr) && pr.0 == v@
            && pr.1 == rest@) && v.wf(),
        r matches Err(e) ==> p_err(spec_value_sp(i@, depth as nat), e),
{
    proof {
        assert(i@.skip(0) =~= i@);
    }
    match value_sp_at(i, 0, depth) {
        Err(e) => Err(e),
        Ok((v, p)) => {
            let n = i.unicode_len();
            let rest = i.substring_char(p, n);
            proof {
                assert(rest@ =~= i@.skip(p as int));
            }
            Ok((v, rest))
        },
    }
}

/// A whole-document parse: one whitespace-wrapped value that must consume
/// the input entirely, else `TrailingData`.
pub fn parse(i: &str) -> (r: Result<Jval, ParseError>)
    ensures
        r matches Ok(v) ==> (spec_parse(i@) matches Ok(m) && m == v@) && v.wf(),
        r matches Err(e) ==> spec_parse(i@) == Err::<JsonValue, ParseError>(e),
{
    proof {
        assert(i@.skip(0) =~= i@);
    }
    match value_sp_at(i, 0, DEFAULT_DEPTH) {
        Err(e) => Err(e),
        Ok((v, p)) => {
            let n = i.unicode_len();
            if p == n {
                proof {
                    assert(i@.skip(p as int).len() == 0);
                }
                Ok(v)
            } else {
                Err(ParseError::TrailingData)
            }
        },
    }
}

} // verus!
