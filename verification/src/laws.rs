//! Laws that relate the parsing functions to one another.
//!
//! Two facts are stated here. A whole-document parse succeeds exactly when
//! the prefix parse of the same text succeeds and leaves nothing behind
//! ([`lemma_parse_whole`]). And the remainder a prefix parse hands back is a
//! true suffix of its input ([`lemma_reparse_remainder`]): since every
//! parsing function is a function of its input characters alone, re-parsing
//! that remainder is consistent with parsing the same suffix cut from the
//! original text directly.

use vstd::prelude::*;
use crate::value::{ParseError, JsonValue};
use crate::grammar::{
    skip_ws, lemma_number_len_bound, spec_escape, spec_str_body, spec_str_lit, spec_value,
    spec_value_sp, spec_list, spec_elements, spec_obj, spec_entries, spec_parse_prefix,
    spec_parse, lemma_skip_skip,
};

verus! {

/// `r` is a suffix of `s`.
pub open spec fn is_suffix_of(r: Seq<char>, s: Seq<char>) -> bool {
    exists|n: int| 0 <= n <= s.len() && r == s.skip(n)
}

pub proof fn lemma_suffix_refl(s: Seq<char>)
    ensures
        is_suffix_of(s, s),
{
    assert(s.skip(0) =~= s);
}

pub proof fn lemma_suffix_trans(a: Seq<char>, b: Seq<char>, c: Seq<char>)
    requires
        is_suffix_of(a, b),
        is_suffix_of(b, c),
    ensures
        is_suffix_of(a, c),
{
    let n1 = choose|n1: int| 0 <= n1 <= b.len() && a == b.skip(n1);
    let n2 = choose|n2: int| 0 <= n2 <= c.len() && b == c.skip(n2);
    lemma_skip_skip(c, n2, n1);
    assert(a == c.skip(n2 + n1));
}

/// Dropping leading whitespace leaves a suffix.
pub proof fn lemma_skip_ws_suffix(s: Seq<char>)
    ensures
        is_suffix_of(skip_ws(s), s),
    decreases s.len(),
{
    if s.len() > 0 && crate::grammar::is_ws(s[0]) {
        lemma_skip_ws_suffix(s.drop_first());
        assert(s.drop_first() == s.skip(1));
        lemma_suffix_trans(skip_ws(s), s.skip(1), s);
    } else {
        lemma_suffix_refl(s);
    }
}

/// The remainder of a string-body parse is a suffix of the body.
pub proof fn lemma_str_body_suffix(s: Seq<char>)
    ensures
        spec_str_body(s) matches Ok(pr) ==> is_suffix_of(pr.1, s),
    decreases s.len(),
{
    if s.len() == 0 {
    } else if s[0] == '"' {
    } else if s[0] == '\\' {
        match spec_escape(s) {
            Err(e) => {},
            Ok((c, n)) => {
                if 1 <= n <= s.len() {
                    lemma_str_body_suffix(s.skip(n as int));
                    match spec_str_body(s.skip(n as int)) {
                        Ok(pr) => {
                            lemma_suffix_trans(pr.1, s.skip(n as int), s);
                        },
                        Err(e) => {},
                    }
                }
            },
        }
    } else if crate::grammar::is_normal_char(s[0]) {
        lemma_str_body_suffix(s.skip(1));
        match spec_str_body(s.skip(1)) {
            Ok(pr) => {
                lemma_suffix_trans(pr.1, s.skip(1), s);
            },
            Err(e) => {},
        }
    }
}

/// The remainder of a string-literal parse is a suffix of the input.
pub proof fn lemma_str_lit_suffix(s: Seq<char>)
    ensures
        spec_str_lit(s) matches Ok(pr) ==> is_suffix_of(pr.1, s),
{
    if s.len() > 0 && s[0] == '"' {
        lemma_str_body_suffix(s.skip(1));
        match spec_str_body(s.skip(1)) {
            Ok(pr) => {
                lemma_suffix_trans(pr.1, s.skip(1), s);
            },
            Err(e) => {},
        }
    }
}

/// The remainder of the dispatcher is a suffix of the input.
pub proof fn lemma_value_suffix(s: Seq<char>, d: nat)
    ensures
        spec_value(s, d) matches Ok(pr) ==> is_suffix_of(pr.1, s),
    decreases d, s.len(), 2int,
{
    if d == 0 || s.len() == 0 {
    } else if s[0] == 'n' || s[0] == 't' || s[0] == 'f' {
    } else if s[0] == '-' || crate::grammar::is_digit(s[0]) {
        lemma_number_len_bound(s);
    } else if s[0] == '"' {
        lemma_str_lit_suffix(s);
    } else if s[0] == '[' {
        lemma_list_suffix(s, d);
    } else if s[0] == '{' {
        lemma_obj_suffix(s, d);
    }
}

/// The remainder of the whitespace-wrapped dispatcher is a suffix of the
/// input.
pub proof fn lemma_value_sp_suffix(s: Seq<char>, d: nat)
    ensures
        spec_value_sp(s, d) matches Ok(pr) ==> is_suffix_of(pr.1, s),
    decreases d, s.len(), 3int,
{
    let t = skip_ws(s);
    crate::grammar::lemma_skip_ws_len(s);
    lemma_skip_ws_suffix(s);
    lemma_value_suffix(t, d);
    match spec_value(t, d) {
        Ok(pr) => {
            lemma_skip_ws_suffix(pr.1);
            lemma_suffix_trans(pr.1, t, s);
            lemma_suffix_trans(skip_ws(pr.1), pr.1, s);
        },
        Err(e) => {},
    }
}

/// The remainder of an array parse is a suffix of the input.
pub proof fn lemma_list_suffix(s: Seq<char>, d: nat)
    ensures
        spec_list(s, d) matches Ok(pr) ==> is_suffix_of(pr.1, s),
    decreases d, s.len(), 1int,
{
    if s.len() > 0 && s[0] == '[' {
        let t = skip_ws(s.skip(1));
        lemma_skip_ws_suffix(s.skip(1));
        lemma_suffix_trans(t, s.skip(1), s);
        if t.len() > 0 && t[0] == ']' {
            let n = choose|n: int| 0 <= n <= s.len() && t == s.skip(n);
            lemma_skip_skip(s, n, 1);
            assert(t.skip(1) == s.skip(n + 1));
        } else {
            lemma_elements_suffix(s.skip(1), d);
            match spec_elements(s.skip(1), d) {
                Ok(pr) => {
                    lemma_suffix_trans(pr.1, s.skip(1), s);
                },
                Err(e) => {},
            }
        }
    }
}

/// The remainder of an element-list parse is a suffix of the input.
pub proof fn lemma_elements_suffix(s: Seq<char>, d: nat)
    ensures
        spec_elements(s, d) matches Ok(pr) ==> is_suffix_of(pr.1, s),
    decreases d, s.len(), 4int,
{
    if d > 0 {
        lemma_value_sp_suffix(s, (d - 1) as nat);
        match spec_value_sp(s, (d - 1) as nat) {
            Err(e) => {},
            Ok((v, r)) => {
                if r.len() <= s.len() {
                    if r.len() > 0 && r[0] == ',' {
                        lemma_elements_suffix(r.skip(1), d);
                        match spec_elements(r.skip(1), d) {
                            Ok(pr) => {
                                let n = choose|n: int| 0 <= n <= s.len() && r == s.skip(n);
                                lemma_skip_skip(s, n, 1);
                                assert(r.skip(1) == s.skip(n + 1));
                                lemma_suffix_trans(pr.1, r.skip(1), s);
                            },
                            Err(e) => {},
                        }
                    } else if r.len() > 0 && r[0] == ']' {
                        let n = choose|n: int| 0 <= n <= s.len() && r == s.skip(n);
                        lemma_skip_skip(s, n, 1);
                        assert(r.skip(1) == s.skip(n + 1));
                    }
                }
            },
        }
    }
}

/// The remainder of an object parse is a suffix of the input.
pub proof fn lemma_obj_suffix(s: Seq<char>, d: nat)
    ensures
        spec_obj(s, d) matches Ok(pr) ==> is_suffix_of(pr.1, s),
    decreases d, s.len(), 1int,
{
    if s.len() > 0 && s[0] == '{' {
        let t = skip_ws(s.skip(1));
        lemma_skip_ws_suffix(s.skip(1));
        lemma_suffix_trans(t, s.skip(1), s);
        if t.len() > 0 && t[0] == '}' {
            let n = choose|n: int| 0 <= n <= s.len() && t == s.skip(n);
            lemma_skip_skip(s, n, 1);
            assert(t.skip(1) == s.skip(n + 1));
        } else {
            lemma_entries_suffix(s.skip(1), d);
            match spec_entries(s.skip(1), d) {
                Ok(pr) => {
                    lemma_suffix_trans(pr.1, s.skip(1), s);
                },
                Err(e) => {},
            }
        }
    }
}

/// The remainder of an entry-list parse is a suffix of the input.
pub proof fn lemma_entries_suffix(s: Seq<char>, d: nat)
    ensures
        spec_entries(s, d) matches Ok(pr) ==> is_suffix_of(pr.1, s),
    decreases d, s.len(), 4int,
{
    if d > 0 {
        let t = skip_ws(s);
        lemma_skip_ws_suffix(s);
        if t.len() > 0 && t[0] == '"' {
            lemma_str_lit_suffix(t);
            match spec_str_lit(t) {
                Err(e) => {},
                Ok((k, r1)) => {
                    lemma_suffix_trans(r1, t, s);
                    let r2 = skip_ws(r1);
                    lemma_skip_ws_suffix(r1);
                    lemma_suffix_trans(r2, r1, s);
                    if r2.len() > 0 && r2[0] == ':' {
                        let n2 = choose|n2: int| 0 <= n2 <= s.len() && r2 == s.skip(n2);
                        lemma_skip_skip(s, n2, 1);
                        assert(r2.skip(1) == s.skip(n2 + 1));
                        lemma_value_sp_suffix(r2.skip(1), (d - 1) as nat);
                        match spec_value_sp(r2.skip(1), (d - 1) as nat) {
                            Err(e) => {},
                            Ok((v, r3)) => {
                                lemma_suffix_trans(r3, r2.skip(1), s);
                                if r3.len() <= s.len() {
                                    if r3.len() > 0 && r3[0] == ',' {
                                        lemma_entries_suffix(r3.skip(1), d);
                                        match spec_entries(r3.skip(1), d) {
                                            Ok(pr) => {
                                                let n3 = choose|n3: int|
                                                    0 <= n3 <= s.len() && r3 == s.skip(n3);
                                                lemma_skip_skip(s, n3, 1);
                                                assert(r3.skip(1) == s.skip(n3 + 1));
                                                lemma_suffix_trans(pr.1, r3.skip(1), s);
                                            },
                                            Err(e) => {},
                                        }
                                    } else if r3.len() > 0 && r3[0] == '}' {
                                        let n3 = choose|n3: int|
                                            0 <= n3 <= s.len() && r3 == s.skip(n3);
                                        lemma_skip_skip(s, n3, 1);
                                        assert(r3.skip(1) == s.skip(n3 + 1));
                                    }
                                }
                            },
                        }
                    }
                },
            }
        }
    }
}

/// A failing string-body parse never reports `TrailingData`.
pub proof fn lemma_str_body_no_trailing(s: Seq<char>)
    ensures
        spec_str_body(s) matches Err(e) ==> e != ParseError::TrailingData,
    decreases s.len(),
{
    if s.len() > 0 && s[0] == '\\' {
        match spec_escape(s) {
            Err(e) => {},
            Ok((c, n)) => {
                if 1 <= n <= s.len() {
                    lemma_str_body_no_trailing(s.skip(n as int));
                }
            },
        }
    } else if s.len() > 0 && crate::grammar::is_normal_char(s[0]) {
        lemma_str_body_no_trailing(s.skip(1));
    }
}

/// A failing dispatcher parse never reports `TrailingData`.
pub proof fn lemma_value_no_trailing(s: Seq<char>, d: nat)
    ensures
        spec_value(s, d) matches Err(e) ==> e != ParseError::TrailingData,
    decreases d, s.len(), 2int,
{
    if d == 0 || s.len() == 0 {
    } else if s[0] == '"' {
        lemma_str_body_no_trailing(s.skip(1));
    } else if s[0] == '[' {
        lemma_list_no_trailing(s, d);
    } else if s[0] == '{' {
        lemma_obj_no_trailing(s, d);
    }
}

/// A failing whitespace-wrapped parse never reports `TrailingData`.
pub proof fn lemma_value_sp_no_trailing(s: Seq<char>, d: nat)
    ensures
        spec_value_sp(s, d) matches Err(e) ==> e != ParseError::TrailingData,
    decreases d, s.len(), 3int,
{
    crate::grammar::lemma_skip_ws_len(s);
    lemma_value_no_trailing(skip_ws(s), d);
}

/// A failing array parse never reports `TrailingData`.
pub proof fn lemma_list_no_trailing(s: Seq<char>, d: nat)
    ensures
        spec_list(s, d) matches Err(e) ==> e != ParseError::TrailingData,
    decreases d, s.len(), 1int,
{
    if s.len() > 0 && s[0] == '[' {
        lemma_elements_no_trailing(s.skip(1), d);
    }
}

/// A failing element-list parse never reports `TrailingData`.
pub proof fn lemma_elements_no_trailing(s: Seq<char>, d: nat)
    ensures
        spec_elements(s, d) matches Err(e) ==> e != ParseError::TrailingData,
    decreases d, s.len(), 4int,
{
    if d > 0 {
        lemma_value_sp_no_trailing(s, (d - 1) as nat);
        match spec_value_sp(s, (d - 1) as nat) {
            Err(e) => {},
            Ok((v, r)) => {
                if r.len() <= s.len() && r.len() > 0 && r[0] == ',' {
                    lemma_elements_no_trailing(r.skip(1), d);
                }
            },
        }
    }
}

/// A failing object parse never reports `TrailingData`.
pub proof fn lemma_obj_no_trailing(s: Seq<char>, d: nat)
    ensures
        spec_obj(s, d) matches Err(e) ==> e != ParseError::TrailingData,
    decreases d, s.len(), 1int,
{
    if s.len() > 0 && s[0] == '{' {
        lemma_entries_no_trailing(s.skip(1), d);
    }
}

/// A failing entry-list parse never reports `TrailingData`.
pub proof fn lemma_entries_no_trailing(s: Seq<char>, d: nat)
    ensures
        spec_entries(s, d) matches Err(e) ==> e != ParseError::TrailingData,
    decreases d, s.len(), 4int,
{
    if d > 0 {
        let t = skip_ws(s);
        if t.len() > 0 && t[0] == '"' {
            lemma_str_body_no_trailing(t.skip(1));
            match spec_str_lit(t) {
                Err(e) => {},
                Ok((k, r1)) => {
                    let r2 = skip_ws(r1);
                    if r2.len() > 0 && r2[0] == ':' {
                        lemma_value_sp_no_trailing(r2.skip(1), (d - 1) as nat);
                        match spec_value_sp(r2.skip(1), (d - 1) as nat) {
                            Err(e) => {},
                            Ok((v, r3)) => {
                                if r3.len() <= s.len() && r3.len() > 0 && r3[0] == ',' {
                                    lemma_entries_no_trailing(r3.skip(1), d);
                                }
                            },
                        }
                    }
                },
            }
        }
    }
}

/// Re-parsing the unconsumed remainder of a prefix parse on the same
/// original text is consistent with parsing that remainder alone: the
/// remainder is a true suffix of the input, and every parsing function here
/// is a function of its input characters alone, so the parse of the
/// handed-back remainder and the parse of the same suffix of the original
/// text are one and the same term, `spec_parse_prefix` of that suffix.
pub proof fn lemma_reparse_remainder(s: Seq<char>)
    ensures
        spec_parse_prefix(s) matches Ok(pr) ==> is_suffix_of(pr.1, s),
{
    lemma_value_sp_suffix(s, crate::grammar::DEFAULT_DEPTH as nat);
}

/// A whole-document parse succeeds exactly when the prefix parse of the
/// same text succeeds and leaves an empty remainder, and it returns that
/// very value; a non-empty remainder is exactly the `TrailingData` failure.
pub proof fn lemma_parse_whole(s: Seq<char>)
    ensures
        (spec_parse(s) matches Ok(v)) <==> (spec_parse_prefix(s) matches Ok(pr) && pr.1.len()
            == 0),
        spec_parse(s) matches Ok(v) ==> (spec_parse_prefix(s) matches Ok(pr) && pr.0 == v),
        (spec_parse(s) == Err::<JsonValue, ParseError>(ParseError::TrailingData)) <==> (
        spec_parse_prefix(s) matches Ok(pr) && pr.1.len() > 0),
        spec_parse_prefix(s) matches Err(e) ==> spec_parse(s) == Err::<JsonValue, ParseError>(e),
{
    lemma_value_sp_no_trailing(s, crate::grammar::DEFAULT_DEPTH as nat);
}

} // verus!
