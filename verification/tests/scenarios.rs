use jparse::parser::{parse, parse_prefix};
use jparse::value::{Jval, ParseError};

/// The double a parsed number denotes.
fn num_of(v: &Jval) -> f64 {
    match v {
        Jval::Num(t) => t.parse().unwrap(),
        _ => panic!("not a number"),
    }
}

#[test]
fn prefix_null() {
    assert_eq!(parse_prefix("null"), Ok((Jval::Null, "")));
}

#[test]
fn prefix_bool_with_remainder() {
    assert_eq!(parse_prefix("falsedd"), Ok((Jval::Bool(false), "dd")));
}

#[test]
fn prefix_negative_exponent() {
    let (v, rest) = parse_prefix("-420e-3").unwrap();
    assert_eq!(rest, "");
    assert_eq!(num_of(&v), -0.42);
}

#[test]
fn prefix_nul_escape() {
    assert_eq!(
        parse_prefix("\"\\u0000\""),
        Ok((Jval::Str("\u{0}".to_string()), ""))
    );
}

#[test]
fn prefix_surrogate_pair() {
    assert_eq!(
        parse_prefix("\"\\uD834\\uDD1E\""),
        Ok((Jval::Str("\u{1d11e}".to_string()), ""))
    );
}

#[test]
fn prefix_list_with_spaces() {
    let (v, rest) = parse_prefix("[ 1 , \" x\" ]").unwrap();
    assert_eq!(rest, "");
    match v {
        Jval::List(es) => {
            assert_eq!(es.len(), 2);
            assert_eq!(num_of(&es[0]), 1.0);
            assert_eq!(es[1], Jval::Str(" x".to_string()));
        }
        _ => panic!("not a list"),
    }
}

#[test]
fn prefix_duplicate_key_last_wins() {
    let (v, rest) = parse_prefix("{ \"1\":\"2\", \"1\":\"3\" }").unwrap();
    assert_eq!(rest, "");
    assert_eq!(
        v,
        Jval::Obj(vec![("1".to_string(), Jval::Str("3".to_string()))])
    );
}

#[test]
fn prefix_lone_high_surrogate() {
    assert_eq!(
        parse_prefix("\"\\ud800\""),
        Err(ParseError::InvalidSurrogate)
    );
}

#[test]
fn boundary_empty_array() {
    assert_eq!(parse_prefix("[ ]"), Ok((Jval::List(vec![]), "")));
}

#[test]
fn boundary_empty_object() {
    assert_eq!(parse_prefix("{ }"), Ok((Jval::Obj(vec![]), "")));
}

#[test]
fn boundary_empty_string() {
    assert_eq!(parse_prefix("\"\""), Ok((Jval::Str("".to_string()), "")));
}

#[test]
fn whole_document() {
    let v = parse(" { \"a\" : [ null , true ] } ").unwrap();
    assert_eq!(
        v,
        Jval::Obj(vec![(
            "a".to_string(),
            Jval::List(vec![Jval::Null, Jval::Bool(true)])
        )])
    );
}

#[test]
fn reparse_remainder_consistent() {
    // the remainder of one prefix parse, parsed again, agrees with parsing
    // that text directly
    let (v1, rest) = parse_prefix("null true").unwrap();
    assert_eq!(v1, Jval::Null);
    assert_eq!(rest, "true");
    assert_eq!(parse_prefix(rest), parse_prefix("true"));
    assert_eq!(parse_prefix(rest), Ok((Jval::Bool(true), "")));
}

#[test]
fn nested_values() {
    let (v, rest) = parse_prefix("[[[{\"k\": [0]}]]]").unwrap();
    assert_eq!(rest, "");
    let inner = Jval::Obj(vec![(
        "k".to_string(),
        Jval::List(vec![Jval::Num("0".to_string())]),
    )]);
    assert_eq!(
        v,
        Jval::List(vec![Jval::List(vec![Jval::List(vec![inner])])])
    );
}

#[test]
fn number_is_kept_as_text() {
    // integers past the double mantissa stay exact in the value tree
    let (v, _) = parse_prefix("9007199254740993").unwrap();
    assert_eq!(v, Jval::Num("9007199254740993".to_string()));
}

#[test]
fn number_stops_before_bare_dot() {
    // the fractional part needs a digit, so the match ends at the dot
    let (v, rest) = jparse::parser::p_float("1.x").unwrap();
    assert_eq!(v, Jval::Num("1".to_string()));
    assert_eq!(rest, ".x");
}
