use jparse::parser::{parse, parse_prefix, p_str, p_null};
use jparse::value::{Jval, ParseError};

#[test]
fn unexpected_token() {
    assert_eq!(p_null("nul"), Err(ParseError::UnexpectedToken));
    assert_eq!(parse_prefix("nuLL"), Err(ParseError::UnexpectedToken));
    assert_eq!(parse_prefix("truX"), Err(ParseError::UnexpectedToken));
}

#[test]
fn invalid_escape() {
    assert_eq!(p_str(r#""\x""#), Err(ParseError::InvalidEscape));
    assert_eq!(parse_prefix(r#""a\qb""#), Err(ParseError::InvalidEscape));
}

#[test]
fn invalid_unicode_escape() {
    assert_eq!(p_str(r#""\u""#), Err(ParseError::InvalidUnicodeEscape));
    assert_eq!(p_str(r#""\u001""#), Err(ParseError::InvalidUnicodeEscape));
    assert_eq!(p_str(r#""\u12g4""#), Err(ParseError::InvalidUnicodeEscape));
}

#[test]
fn invalid_surrogate() {
    // a lone high surrogate
    assert_eq!(p_str(r#""\uD800""#), Err(ParseError::InvalidSurrogate));
    // a lone low surrogate
    assert_eq!(p_str(r#""\uDC00""#), Err(ParseError::InvalidSurrogate));
    // a high surrogate followed by an escape that is no low surrogate
    assert_eq!(p_str(r#""\uD834\u0041""#), Err(ParseError::InvalidSurrogate));
    // a high surrogate followed by a plain character
    assert_eq!(p_str(r#""\uD834x""#), Err(ParseError::InvalidSurrogate));
}

#[test]
fn unterminated_string() {
    assert_eq!(p_str("\"abc"), Err(ParseError::UnterminatedString));
    // a raw control character fails the literal before a closing quote
    assert_eq!(p_str("\"a\u{1}b\""), Err(ParseError::UnterminatedString));
}

#[test]
fn malformed_array() {
    assert_eq!(parse_prefix("[1,]"), Err(ParseError::MalformedArray));
    assert_eq!(parse_prefix("[1 2]"), Err(ParseError::MalformedArray));
    assert_eq!(parse_prefix("[1,2"), Err(ParseError::MalformedArray));
    assert_eq!(parse_prefix("[,1]"), Err(ParseError::MalformedArray));
}

#[test]
fn malformed_object() {
    assert_eq!(parse_prefix("{\"a\" 1}"), Err(ParseError::MalformedObject));
    assert_eq!(parse_prefix("{1: 2}"), Err(ParseError::MalformedObject));
    assert_eq!(parse_prefix("{\"a\": 1,}"), Err(ParseError::MalformedObject));
    assert_eq!(parse_prefix("{\"a\": }"), Err(ParseError::MalformedObject));
}

#[test]
fn inner_failure_aborts_the_whole_parse() {
    // a committed element failure keeps its own error
    assert_eq!(
        parse_prefix("[ \"\\ud800\" ]"),
        Err(ParseError::InvalidSurrogate)
    );
    assert_eq!(parse_prefix("{\"a\": nul}"), Err(ParseError::UnexpectedToken));
}

#[test]
fn nesting_too_deep() {
    let deep = "[".repeat(300);
    assert_eq!(parse_prefix(&deep), Err(ParseError::NestingTooDeep));
    // well under the bound, nesting is fine
    let mut doc = "[".repeat(100);
    doc.push_str("null");
    doc.push_str(&"]".repeat(100));
    assert!(parse(&doc).is_ok());
}

#[test]
fn trailing_data() {
    assert_eq!(parse("null x"), Err(ParseError::TrailingData));
    // trailing whitespace alone is consumed
    assert_eq!(parse("null   "), Ok(Jval::Null));
}

#[test]
fn no_matching_form() {
    assert_eq!(parse_prefix(""), Err(ParseError::NoMatchingForm));
    assert_eq!(parse_prefix("]"), Err(ParseError::NoMatchingForm));
    assert_eq!(parse_prefix("x"), Err(ParseError::NoMatchingForm));
}
