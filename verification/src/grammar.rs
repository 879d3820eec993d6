//! The grammar, as spec functions.
//!
//! Each function here defines, on a character sequence, what the matching
//! parser returns: the parsed value together with the unconsumed remainder of
//! the input, or the failure. The executable parsers in [`crate::parser`] are
//! proved to return exactly these results.

use vstd::prelude::*;
use crate::value::{JsonValue, ParseError};

verus! {

/// What a parser returns on a piece of input: a value and the remainder, or
/// a failure.
pub type SpecParsed = Result<(JsonValue, Seq<char>), ParseError>;

/// The nesting bound of the whole-document entry points: a document whose
/// arrays and objects nest deeper than this fails with `NestingTooDeep`.
pub const DEFAULT_DEPTH: usize = 256;

/// The parse succeeded with this value and this remainder.
pub open spec fn p_ok(r: SpecParsed, v: JsonValue, rest: Seq<char>) -> bool {
    r == Ok::<(JsonValue, Seq<char>), ParseError>((v, rest))
}

/// The parse failed with this error.
pub open spec fn p_err(r: SpecParsed, e: ParseError) -> bool {
    r == Err::<(JsonValue, Seq<char>), ParseError>(e)
}

/// The whitespace the grammar tolerates around values.
pub open spec fn is_ws(c: char) -> bool {
    c == ' ' || c == '\t' || c == '\n' || c == '\r'
}

/// The suffix that remains once leading whitespace is dropped.
pub open spec fn skip_ws(s: Seq<char>) -> Seq<char>
    decreases s.len(),
{
    if s.len() > 0 && is_ws(s[0]) {
        skip_ws(s.drop_first())
    } else {
        s
    }
}

pub proof fn lemma_skip_ws_len(s: Seq<char>)
    ensures
        skip_ws(s).len() <= s.len(),
    decreases s.len(),
{
    if s.len() > 0 && is_ws(s[0]) {
        lemma_skip_ws_len(s.drop_first());
    }
}

/// Dropping `a` characters and then `b` more drops `a + b` characters.
pub broadcast proof fn lemma_skip_skip(s: Seq<char>, a: int, b: int)
    requires
        0 <= a,
        0 <= b,
        a + b <= s.len(),
    ensures
        #[trigger] s.skip(a).skip(b) == s.skip(a + b),
{
    assert(s.skip(a).skip(b) =~= s.skip(a + b));
}

pub open spec fn is_digit(c: char) -> bool {
    '0' <= c && c <= '9'
}

/// The length of the maximal run of decimal digits at the head of the input.
pub open spec fn digits_len(s: Seq<char>) -> nat
    decreases s.len(),
{
    if s.len() > 0 && is_digit(s[0]) {
        1 + digits_len(s.drop_first())
    } else {
        0
    }
}

pub proof fn lemma_digits_len_bound(s: Seq<char>)
    ensures
        digits_len(s) <= s.len(),
    decreases s.len(),
{
    if s.len() > 0 && is_digit(s[0]) {
        lemma_digits_len_bound(s.drop_first());
    }
}

/// The length of a fractional part `.digit+` at the head of the input, or 0
/// when there is none.
pub open spec fn frac_len(s: Seq<char>) -> nat {
    if s.len() > 0 && s[0] == '.' && digits_len(s.skip(1)) > 0 {
        1 + digits_len(s.skip(1))
    } else {
        0
    }
}

/// The length of an exponent part `[eE][+-]?digit+` at the head of the
/// input, or 0 when there is none.
pub open spec fn exp_len(s: Seq<char>) -> nat {
    if s.len() > 0 && (s[0] == 'e' || s[0] == 'E') {
        let sign: nat = if s.len() > 1 && (s[1] == '+' || s[1] == '-') {
            1
        } else {
            0
        };
        let d = digits_len(s.skip(1 + sign as int));
        if d > 0 {
            1 + sign + d
        } else {
            0
        }
    } else {
        0
    }
}

/// The length of the numeric literal `-?digit+(.digit+)?([eE][+-]?digit+)?`
/// at the head of the input, or 0 when none matches. Leading zeros are
/// permitted.
pub open spec fn number_len(s: Seq<char>) -> nat {
    let sign: nat = if s.len() > 0 && s[0] == '-' {
        1
    } else {
        0
    };
    let d = digits_len(s.skip(sign as int));
    if d == 0 {
        0
    } else {
        let ip = sign + d;
        let fr = frac_len(s.skip(ip as int));
        let ex = exp_len(s.skip((ip + fr) as int));
        ip + fr + ex
    }
}

/// A numeric literal never runs past the end of the input.
pub proof fn lemma_number_len_bound(s: Seq<char>)
    ensures
        number_len(s) <= s.len(),
{
    let sign: nat = if s.len() > 0 && s[0] == '-' {
        1
    } else {
        0
    };
    lemma_digits_len_bound(s.skip(sign as int));
    let d = digits_len(s.skip(sign as int));
    if d > 0 {
        let ip = sign + d;
        let sp = s.skip(ip as int);
        if sp.len() > 0 && sp[0] == '.' {
            lemma_digits_len_bound(sp.skip(1));
        }
        let fr = frac_len(sp);
        let u = s.skip((ip + fr) as int);
        if u.len() > 0 && (u[0] == 'e' || u[0] == 'E') {
            let esign: nat = if u.len() > 1 && (u[1] == '+' || u[1] == '-') {
                1
            } else {
                0
            };
            lemma_digits_len_bound(u.skip(1 + esign as int));
        }
    }
}

/// A number parse: the matched literal text is kept as the value.
pub open spec fn spec_number(s: Seq<char>) -> SpecParsed {
    let n = number_len(s);
    if n == 0 {
        Err(ParseError::UnexpectedToken)
    } else {
        Ok((JsonValue::Num(s.take(n as int)), s.skip(n as int)))
    }
}

/// A null parse: exactly the literal `null`.
pub open spec fn spec_null(s: Seq<char>) -> SpecParsed {
    if s.len() >= 4 && s[0] == 'n' && s[1] == 'u' && s[2] == 'l' && s[3] == 'l' {
        Ok((JsonValue::Null, s.skip(4)))
    } else {
        Err(ParseError::UnexpectedToken)
    }
}

/// A boolean parse: exactly the literal `true` or `false`.
pub open spec fn spec_bool(s: Seq<char>) -> SpecParsed {
    if s.len() >= 4 && s[0] == 't' && s[1] == 'r' && s[2] == 'u' && s[3] == 'e' {
        Ok((JsonValue::Bool(true), s.skip(4)))
    } else if s.len() >= 5 && s[0] == 'f' && s[1] == 'a' && s[2] == 'l' && s[3] == 's' && s[4]
        == 'e' {
        Ok((JsonValue::Bool(false), s.skip(5)))
    } else {
        Err(ParseError::UnexpectedToken)
    }
}

/// A character that may stand unescaped in a string body: any code point at
/// or above U+0020 except the quote and the backslash.
pub open spec fn is_normal_char(c: char) -> bool {
    c >= ' ' && c != '"' && c != '\\'
}

pub open spec fn is_hex_digit(c: char) -> bool {
    is_digit(c) || ('a' <= c && c <= 'f') || ('A' <= c && c <= 'F')
}

/// The value of one hexadecimal digit.
pub open spec fn hex_val(c: char) -> nat {
    if is_digit(c) {
        (c as u32 - '0' as u32) as nat
    } else if 'a' <= c && c <= 'f' {
        (c as u32 - 'a' as u32 + 10) as nat
    } else {
        (c as u32 - 'A' as u32 + 10) as nat
    }
}

/// Whether four hexadecimal digits stand at offset `i`.
pub open spec fn hex4_at(s: Seq<char>, i: int) -> bool {
    s.len() >= i + 4 && is_hex_digit(s[i]) && is_hex_digit(s[i + 1]) && is_hex_digit(s[i + 2])
        && is_hex_digit(s[i + 3])
}

/// The value of the four hexadecimal digits at offset `i`.
pub open spec fn hex4_val(s: Seq<char>, i: int) -> nat {
    hex_val(s[i]) * 0x1000 + hex_val(s[i + 1]) * 0x100 + hex_val(s[i + 2]) * 0x10 + hex_val(
        s[i + 3],
    )
}

pub open spec fn is_high_surrogate(v: nat) -> bool {
    0xD800 <= v && v <= 0xDBFF
}

pub open spec fn is_low_surrogate(v: nat) -> bool {
    0xDC00 <= v && v <= 0xDFFF
}

/// The supplementary-plane code point a surrogate pair denotes.
pub open spec fn combined_scalar(hi: nat, lo: nat) -> nat {
    (0x10000 + (hi - 0xD800) * 0x400 + (lo - 0xDC00)) as nat
}

/// The character with the given code point.
pub open spec fn char_of(v: nat) -> char {
    (v as u32) as char
}

/// An escape sequence, starting at the backslash: the decoded character and
/// the number of input characters the escape spans (2, 6, or 12).
pub open spec fn spec_escape(s: Seq<char>) -> Result<(char, nat), ParseError> {
    if s.len() < 2 {
        Err(ParseError::UnterminatedString)
    } else if s[1] == '"' {
        Ok(('"', 2))
    } else if s[1] == '\\' {
        Ok(('\\', 2))
    } else if s[1] == '/' {
        Ok(('/', 2))
    } else if s[1] == 'b' {
        Ok(('\u{0008}', 2))
    } else if s[1] == 'f' {
        Ok(('\u{000C}', 2))
    } else if s[1] == 'n' {
        Ok(('\n', 2))
    } else if s[1] == 'r' {
        Ok(('\r', 2))
    } else if s[1] == 't' {
        Ok(('\t', 2))
    } else if s[1] == 'u' {
        if !hex4_at(s, 2) {
            Err(ParseError::InvalidUnicodeEscape)
        } else {
            let v = hex4_val(s, 2);
            if is_low_surrogate(v) {
                Err(ParseError::InvalidSurrogate)
            } else if is_high_surrogate(v) {
                if s.len() >= 8 && s[6] == '\\' && s[7] == 'u' {
                    if !hex4_at(s, 8) {
                        Err(ParseError::InvalidUnicodeEscape)
                    } else {
                        let w = hex4_val(s, 8);
                        if is_low_surrogate(w) {
                            Ok((char_of(combined_scalar(v, w)), 12))
                        } else {
                            Err(ParseError::InvalidSurrogate)
                        }
                    }
                } else {
                    Err(ParseError::InvalidSurrogate)
                }
            } else {
                Ok((char_of(v), 6))
            }
        }
    } else {
        Err(ParseError::InvalidEscape)
    }
}

/// Every escape spans at least two characters and never more than the input
/// holds.
pub proof fn lemma_escape_span(s: Seq<char>)
    ensures
        spec_escape(s) matches Ok((c, n)) ==> 2 <= n <= s.len(),
{
}

/// A string body, starting after the opening quote: the decoded text and the
/// remainder after the closing quote.
pub open spec fn spec_str_body(s: Seq<char>) -> Result<(Seq<char>, Seq<char>), ParseError>
    decreases s.len(),
{
    if s.len() == 0 {
        Err(ParseError::UnterminatedString)
    } else if s[0] == '"' {
        Ok((Seq::empty(), s.skip(1)))
    } else if s[0] == '\\' {
        match spec_escape(s) {
            Err(e) => Err(e),
            Ok((c, n)) => {
                // an escape spans at least two characters and never past the
                // end of the input (lemma_escape_span), so this test always
                // passes
                if 1 <= n <= s.len() {
                    match spec_str_body(s.skip(n as int)) {
                        Err(e) => Err(e),
                        Ok((t, r)) => Ok((seq![c] + t, r)),
                    }
                } else {
                    Err(ParseError::UnterminatedString)
                }
            },
        }
    } else if is_normal_char(s[0]) {
        match spec_str_body(s.skip(1)) {
            Err(e) => Err(e),
            Ok((t, r)) => Ok((seq![s[0]] + t, r)),
        }
    } else {
        // a raw control character: the literal match fails before a closing
        // quote is found
        Err(ParseError::UnterminatedString)
    }
}

/// A string literal: an opening quote, a body, a closing quote. The result
/// is the decoded text.
pub open spec fn spec_str_lit(s: Seq<char>) -> Result<(Seq<char>, Seq<char>), ParseError> {
    if s.len() == 0 || s[0] != '"' {
        Err(ParseError::UnexpectedToken)
    } else {
        spec_str_body(s.skip(1))
    }
}

/// A string parse: a string literal taken as a value.
pub open spec fn spec_string(s: Seq<char>) -> SpecParsed {
    match spec_str_lit(s) {
        Ok((t, r)) => Ok((JsonValue::Str(t), r)),
        Err(e) => Err(e),
    }
}

/// The dispatcher: the six alternatives, committed to by the leading
/// character, with a depth bound on nesting.
pub open spec fn spec_value(s: Seq<char>, depth: nat) -> SpecParsed
    decreases depth, s.len(), 2int,
{
    if depth == 0 {
        Err(ParseError::NestingTooDeep)
    } else if s.len() == 0 {
        Err(ParseError::NoMatchingForm)
    } else if s[0] == 'n' {
        spec_null(s)
    } else if s[0] == 't' || s[0] == 'f' {
        spec_bool(s)
    } else if s[0] == '-' || is_digit(s[0]) {
        spec_number(s)
    } else if s[0] == '"' {
        spec_string(s)
    } else if s[0] == '[' {
        spec_list(s, depth)
    } else if s[0] == '{' {
        spec_obj(s, depth)
    } else {
        Err(ParseError::NoMatchingForm)
    }
}

/// The dispatcher wrapped in whitespace skipping on both sides.
pub open spec fn spec_value_sp(s: Seq<char>, depth: nat) -> SpecParsed
    decreases depth, s.len(), 3int,
    via spec_value_sp_decreases
{
    match spec_value(skip_ws(s), depth) {
        Ok((v, r)) => Ok((v, skip_ws(r))),
        Err(e) => Err(e),
    }
}

#[via_fn]
proof fn spec_value_sp_decreases(s: Seq<char>, depth: nat) {
    lemma_skip_ws_len(s);
}

/// An array parse: `[`, whitespace-wrapped values separated by `,`, `]`.
pub open spec fn spec_list(s: Seq<char>, depth: nat) -> SpecParsed
    decreases depth, s.len(), 1int,
{
    if s.len() == 0 || s[0] != '[' {
        Err(ParseError::UnexpectedToken)
    } else {
        let t = skip_ws(s.skip(1));
        if t.len() > 0 && t[0] == ']' {
            Ok((JsonValue::List(Seq::empty()), t.skip(1)))
        } else {
            match spec_elements(s.skip(1), depth) {
                Ok((es, r)) => Ok((JsonValue::List(es), r)),
                Err(e) => Err(e),
            }
        }
    }
}

/// One or more array elements followed by the closing `]`. A failure of the
/// dispatcher to match any form where an element is required is a malformed
/// list; a committed element failure keeps its own error.
pub open spec fn spec_elements(s: Seq<char>, depth: nat) -> Result<
    (Seq<JsonValue>, Seq<char>),
    ParseError,
>
    decreases depth, s.len(), 4int,
{
    if depth == 0 {
        Err(ParseError::NestingTooDeep)
    } else {
        match spec_value_sp(s, (depth - 1) as nat) {
            Err(e) => Err(
                if e == ParseError::NoMatchingForm {
                    ParseError::MalformedArray
                } else {
                    e
                },
            ),
            Ok((v, r)) => {
                // the remainder of a parse is a suffix of its input
                // (crate::laws::lemma_value_sp_suffix), so this test always
                // passes
                if r.len() <= s.len() {
                    if r.len() > 0 && r[0] == ',' {
                        match spec_elements(r.skip(1), depth) {
                            Ok((es, r2)) => Ok((seq![v] + es, r2)),
                            Err(e) => Err(e),
                        }
                    } else if r.len() > 0 && r[0] == ']' {
                        Ok((seq![v], r.skip(1)))
                    } else {
                        Err(ParseError::MalformedArray)
                    }
                } else {
                    Err(ParseError::MalformedArray)
                }
            },
        }
    }
}

/// An object parse: `{`, whitespace-wrapped entries separated by `,`, `}`.
pub open spec fn spec_obj(s: Seq<char>, depth: nat) -> SpecParsed
    decreases depth, s.len(), 1int,
{
    if s.len() == 0 || s[0] != '{' {
        Err(ParseError::UnexpectedToken)
    } else {
        let t = skip_ws(s.skip(1));
        if t.len() > 0 && t[0] == '}' {
            Ok((JsonValue::Obj(Map::empty()), t.skip(1)))
        } else {
            match spec_entries(s.skip(1), depth) {
                Ok((m, r)) => Ok((JsonValue::Obj(m), r)),
                Err(e) => Err(e),
            }
        }
    }
}

/// One or more object entries followed by the closing `}`. An entry is a
/// string-literal key, a colon, and a value; on duplicate keys the later
/// entry wins.
pub open spec fn spec_entries(s: Seq<char>, depth: nat) -> Result<
    (Map<Seq<char>, JsonValue>, Seq<char>),
    ParseError,
>
    decreases depth, s.len(), 4int,
{
    if depth == 0 {
        Err(ParseError::NestingTooDeep)
    } else {
        let t = skip_ws(s);
        if t.len() == 0 || t[0] != '"' {
            Err(ParseError::MalformedObject)
        } else {
            match spec_str_lit(t) {
                Err(e) => Err(e),
                Ok((k, r1)) => {
                    let r2 = skip_ws(r1);
                    if r2.len() == 0 || r2[0] != ':' {
                        Err(ParseError::MalformedObject)
                    } else {
                        match spec_value_sp(r2.skip(1), (depth - 1) as nat) {
                            Err(e) => Err(
                                if e == ParseError::NoMatchingForm {
                                    ParseError::MalformedObject
                                } else {
                                    e
                                },
                            ),
                            Ok((v, r3)) => {
                                // the remainder of a parse is a suffix of its
                                // input (crate::laws::lemma_value_sp_suffix),
                                // so this test always passes
                                if r3.len() <= s.len() {
                                    if r3.len() > 0 && r3[0] == ',' {
                                        match spec_entries(r3.skip(1), depth) {
                                            Err(e) => Err(e),
                                            Ok((m, r4)) => Ok(
                                                (
                                                    if m.dom().contains(k) {
                                                        m
                                                    } else {
                                                        m.insert(k, v)
                                                    },
                                                    r4,
                                                ),
                                            ),
                                        }
                                    } else if r3.len() > 0 && r3[0] == '}' {
                                        Ok((Map::empty().insert(k, v), r3.skip(1)))
                                    } else {
                                        Err(ParseError::MalformedObject)
                                    }
                                } else {
                                    Err(ParseError::MalformedObject)
                                }
                            },
                        }
                    }
                },
            }
        }
    }
}

/// A prefix parse of a document: one whitespace-wrapped value and the
/// unconsumed remainder.
pub open spec fn spec_parse_prefix(s: Seq<char>) -> SpecParsed {
    spec_value_sp(s, DEFAULT_DEPTH as nat)
}

/// A whole-document parse: one whitespace-wrapped value that must consume
/// the input entirely.
pub open spec fn spec_parse(s: Seq<char>) -> Result<JsonValue, ParseError> {
    match spec_parse_prefix(s) {
        Ok((v, r)) => if r.len() == 0 {
            Ok(v)
        } else {
            Err(ParseError::TrailingData)
        },
        Err(e) => Err(e),
    }
}

} // verus!
