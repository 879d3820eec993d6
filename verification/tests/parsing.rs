use jparse::parser::{p_null, p_bool, p_float, p_str, p_list, p_obj};
use jparse::value::{Jval, ParseError};

/// The double a parsed number denotes.
fn as_f64(v: &Jval) -> f64 {
    match v {
        Jval::Num(t) => t.parse().unwrap(),
        _ => panic!("not a number"),
    }
}

#[test]
fn test_null() {
    assert_eq!(p_null("null"), Ok((Jval::Null, "")));
    assert_eq!(p_null("nul"), Err(ParseError::UnexpectedToken));
}

#[test]
fn test_bool() {
    assert_eq!(p_bool("true"), Ok((Jval::Bool(true), "")));
    assert_eq!(p_bool("falsedd"), Ok((Jval::Bool(false), "dd")));
    assert!(p_null("fatrue").is_err());
}

#[test]
fn test_float() {
    let (v, rest) = p_float("69").unwrap();
    assert_eq!(rest, "");
    assert_eq!(as_f64(&v), 69.0);

    let (v, rest) = p_float("-420e-3").unwrap();
    assert_eq!(rest, "");
    assert_eq!(as_f64(&v), -0.42);

    let (v, rest) = p_float("01.5").unwrap();
    assert_eq!(rest, "");
    assert_eq!(as_f64(&v), 1.5);

    assert!(p_float("fatrue").is_err());
}

#[test]
fn test_string() {
    // Plain Unicode strings with no escaping
    assert_eq!(p_str("\"\""), Ok((Jval::Str("".to_string()), "")));
    assert_eq!(p_str("\"Hello\""), Ok((Jval::Str("Hello".to_string()), "")));
    assert_eq!(
        p_str("\"\u{201e}\u{c5}\u{c6}\""),
        Ok((Jval::Str("\u{201e}\u{c5}\u{c6}".to_string()), ""))
    );
    assert_eq!(
        p_str("\"\u{f8ff}\u{f9}\u{d1}\u{fb}\""),
        Ok((Jval::Str("\u{f8ff}\u{f9}\u{d1}\u{fb}".to_string()), ""))
    );

    // valid 2-character escapes
    assert_eq!(
        p_str(r#""  \\  ""#),
        Ok((Jval::Str("  \\  ".to_string()), ""))
    );
    assert_eq!(
        p_str(r#""  \"  ""#),
        Ok((Jval::Str("  \"  ".to_string()), ""))
    );

    // valid 6-character escapes
    assert_eq!(
        p_str(r#""\u0000""#),
        Ok((Jval::Str("\x00".to_string()), ""))
    );
    assert_eq!(
        p_str(r#""\u00DF""#),
        Ok((Jval::Str("\u{df}".to_string()), ""))
    );
    assert_eq!(
        p_str(r#""\uD834\uDD1E""#),
        Ok((Jval::Str("\u{1d11e}".to_string()), ""))
    );

    // Invalid because surrogate characters must come in pairs
    assert!(p_str(r#""\ud800""#).is_err());
    // Unknown 2-character escape
    assert!(p_str(r#""\x""#).is_err());
    // Not enough hex digits
    assert!(p_str(r#""\u""#).is_err());
    assert!(p_str(r#""\u001""#).is_err());
    // Naked control character
    assert!(p_str(r#""\x0a""#).is_err());
    // Not a JSON string because it's not wrapped in quotes
    assert!(p_str("abc").is_err());
}

#[test]
fn test_array() {
    assert_eq!(p_list("[ ]"), Ok((Jval::List(vec![]), "")));

    let (v, rest) = p_list("[ 1 ]").unwrap();
    assert_eq!(rest, "");
    match &v {
        Jval::List(es) => {
            assert_eq!(es.len(), 1);
            assert_eq!(as_f64(&es[0]), 1.0);
        }
        _ => panic!("not a list"),
    }

    let expected = Jval::List(vec![
        Jval::Num("1".to_string()),
        Jval::Str(" x".to_string()),
    ]);
    assert_eq!(p_list(r#"[ 1 , " x" ]"#), Ok((expected, "")));
}

#[test]
fn test_object() {
    assert_eq!(p_obj("{ }"), Ok((Jval::Obj(vec![]), "")));

    let expected = Jval::Obj(vec![
        ("1".to_string(), Jval::Str("2".to_string())),
        (
            "2".to_string(),
            Jval::List(vec![
                Jval::Num("-1.0".to_string()),
                Jval::Str("b".to_string()),
            ]),
        ),
    ]);
    assert_eq!(p_obj(r#"{ "1" : "2", "2": [-1.0, "b"] }"#), Ok((expected, "")));
}
