use afmt::bind::{bind, BoundPattern, Field};
use afmt::convert::{FieldTy, Value};
use afmt::parse::{Fmt, Token};

fn txt(s: &str) -> Vec<char> {
    s.chars().collect()
}

/// The pattern `"value: " v` bound against a schema with one integer field.
fn simple_pattern() -> BoundPattern {
    let tokens = vec![Token::Lit(txt("value: ")), Token::Ident(txt("v"))];
    let fmt = Fmt::parse(&tokens).unwrap();
    let schema = vec![Field { name: txt("v"), ty: FieldTy::Int }];
    bind(fmt, schema).unwrap()
}

/// The pattern `"x[" x "] y[" y "]"` bound against two integer fields.
fn point_pattern() -> BoundPattern {
    let tokens = vec![
        Token::Lit(txt("x[")),
        Token::Ident(txt("x")),
        Token::Lit(txt("] y[")),
        Token::Ident(txt("y")),
        Token::Lit(txt("]")),
    ];
    let fmt = Fmt::parse(&tokens).unwrap();
    let schema = vec![
        Field { name: txt("x"), ty: FieldTy::Int },
        Field { name: txt("y"), ty: FieldTy::Int },
    ];
    bind(fmt, schema).unwrap()
}

#[test]
fn parse_positive() {
    let input = txt("value: 65");
    let got = simple_pattern().match_input(&input).unwrap();
    assert_eq!(got.len(), 1);
    assert_eq!(got[0].name, txt("v"));
    assert_eq!(got[0].value, Value::Int(65));
}

#[test]
fn parse_negative() {
    let input = txt("value: -45");
    let got = simple_pattern().match_input(&input).unwrap();
    assert_eq!(got[0].value, Value::Int(-45));
}

#[test]
fn parse_zero() {
    let input = txt("value: 000");
    let got = simple_pattern().match_input(&input).unwrap();
    assert_eq!(got[0].value, Value::Int(0));
}

#[test]
fn trailing_space_fails() {
    let input = txt("value: 35  ");
    let got = simple_pattern().match_input(&input);
    assert!(got.is_err());
}

#[test]
fn empty_field_capture() {
    let input = txt("value: ");
    let got = simple_pattern().match_input(&input);
    assert!(got.is_err());
}

#[test]
fn strlit_non_match() {
    let input = txt("val: 35");
    let got = simple_pattern().match_input(&input);
    assert!(got.is_err());
}

#[test]
fn capture_non_parse() {
    let input = txt("value: 5x6");
    let got = simple_pattern().match_input(&input);
    assert!(got.is_err());
}

#[test]
fn parse_correctly() {
    let input = txt("x[5] y[7]");
    let got = point_pattern().match_input(&input).unwrap();
    assert_eq!(got[0].value, Value::Int(5));
    assert_eq!(got[1].value, Value::Int(7));
}

#[test]
fn capture_lookahead_non_match() {
    let input = txt("x[5] y[7}");
    let got = point_pattern().match_input(&input);
    assert!(got.is_err());
}
