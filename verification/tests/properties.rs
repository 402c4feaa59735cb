use afmt::bind::{bind, compile as compile_spec, BindingError, BoundPattern, CompileError, Field};
use afmt::convert::{FieldTy, Value};
use afmt::engine::MatchError;
use afmt::parse::{Capture, CaptureLookahead, Fmt, GrammarError, Section, StrMatch, Token};

fn chars(s: &str) -> Vec<char> {
    s.chars().collect()
}

fn compile(tokens: Vec<Token>, schema: Vec<(&str, FieldTy)>) -> BoundPattern {
    let fields = schema
        .into_iter()
        .map(|(n, ty)| Field { name: chars(n), ty })
        .collect();
    compile_spec(&tokens, fields).unwrap()
}

/// The log-line pattern `"<" level ">" name ": " msg` of the worked example.
fn log_pattern() -> BoundPattern {
    compile(
        vec![
            Token::Lit(chars("<")),
            Token::Ident(chars("level")),
            Token::Lit(chars(">")),
            Token::Ident(chars("name")),
            Token::Lit(chars(": ")),
            Token::Ident(chars("msg")),
        ],
        vec![
            ("level", FieldTy::Int),
            ("name", FieldTy::Text),
            ("msg", FieldTy::Text),
        ],
    )
}

#[test]
fn scenario_two_fields_negative() {
    let bp = compile(
        vec![
            Token::Lit(chars("x[")),
            Token::Ident(chars("x")),
            Token::Lit(chars("] y[")),
            Token::Ident(chars("y")),
            Token::Lit(chars("]")),
        ],
        vec![("x", FieldTy::Int), ("y", FieldTy::Int)],
    );
    let input = chars("x[-34] y[79]");
    let got = bp.match_input(&input).unwrap();
    assert_eq!(got[0].name, chars("x"));
    assert_eq!(got[0].value, Value::Int(-34));
    assert_eq!(got[1].name, chars("y"));
    assert_eq!(got[1].value, Value::Int(79));
}

#[test]
fn scenario_log_line() {
    let input = chars("<43>func<>name: this<>is the msg");
    let got = log_pattern().match_input(&input).unwrap();
    assert_eq!(got[0].name, chars("level"));
    assert_eq!(got[0].value, Value::Int(43));
    assert_eq!(got[1].name, chars("name"));
    assert_eq!(got[1].value, Value::Text(chars("func<>name")));
    assert_eq!(got[2].name, chars("msg"));
    assert_eq!(got[2].value, Value::Text(chars("this<>is the msg")));
}

#[test]
fn scenario_literal_mismatch_details() {
    let bp = compile(
        vec![Token::Lit(chars("value: ")), Token::Ident(chars("v"))],
        vec![("v", FieldTy::Int)],
    );
    let input = chars("val: 35");
    let got = bp.match_input(&input).unwrap_err();
    assert_eq!(
        got,
        MatchError::LiteralMismatch { expected: chars("value: "), section_index: 0 }
    );
}

#[test]
fn scenario_conversion_error_details() {
    let bp = compile(
        vec![Token::Lit(chars("value: ")), Token::Ident(chars("v"))],
        vec![("v", FieldTy::Int)],
    );
    let input = chars("value: 5x6");
    let got = bp.match_input(&input).unwrap_err();
    assert_eq!(
        got,
        MatchError::ValueConversionFailed {
            field: chars("v"),
            raw: chars("5x6"),
            section_index: 1,
        }
    );
}

#[test]
fn lookahead_not_found_details() {
    let bp = compile(
        vec![Token::Ident(chars("a")), Token::Lit(chars("|"))],
        vec![("a", FieldTy::Text)],
    );
    let input = chars("no separator here");
    let got = bp.match_input(&input).unwrap_err();
    assert_eq!(
        got,
        MatchError::LookaheadNotFound { delimiter: chars("|"), section_index: 0 }
    );
}

#[test]
fn empty_pattern_empty_schema_always_succeeds() {
    let bp = compile(vec![], vec![]);
    let input = chars("anything");
    assert_eq!(bp.match_input(&input).unwrap().len(), 0);
    let empty: Vec<char> = vec![];
    assert_eq!(bp.match_input(&empty).unwrap().len(), 0);
}

#[test]
fn reconstruct_consumed_input() {
    // Consumption accounting on the worked example: literals and captured
    // raw texts, concatenated in pattern order, rebuild the input.
    let input = chars("<43>func<>name: this<>is the msg");
    let got = log_pattern().match_input(&input).unwrap();
    let level_raw = match &got[0].value {
        Value::Int(x) => x.to_string().chars().collect::<Vec<char>>(),
        Value::Text(t) => t.clone(),
    };
    let mut rebuilt: Vec<char> = vec![];
    rebuilt.extend(chars("<"));
    rebuilt.extend(level_raw);
    rebuilt.extend(chars(">"));
    match &got[1].value {
        Value::Text(t) => rebuilt.extend(t.iter().copied()),
        Value::Int(_) => panic!("name is text"),
    }
    rebuilt.extend(chars(": "));
    match &got[2].value {
        Value::Text(t) => rebuilt.extend(t.iter().copied()),
        Value::Int(_) => panic!("msg is text"),
    }
    assert_eq!(rebuilt, input);
}

#[test]
fn text_field_accepts_anything() {
    let bp = compile(
        vec![Token::Lit(chars("v: ")), Token::Ident(chars("t"))],
        vec![("t", FieldTy::Text)],
    );
    let input = chars("v: 35  ");
    let got = bp.match_input(&input).unwrap();
    assert_eq!(got[0].value, Value::Text(chars("35  ")));
    let input = chars("v: ");
    let got = bp.match_input(&input).unwrap();
    assert_eq!(got[0].value, Value::Text(chars("")));
}

#[test]
fn leftmost_delimiter_wins() {
    let bp = compile(
        vec![
            Token::Ident(chars("a")),
            Token::Lit(chars("|")),
            Token::Ident(chars("b")),
        ],
        vec![("a", FieldTy::Text), ("b", FieldTy::Text)],
    );
    let input = chars("x|y|z");
    let got = bp.match_input(&input).unwrap();
    assert_eq!(got[0].value, Value::Text(chars("x")));
    assert_eq!(got[1].value, Value::Text(chars("y|z")));
}

#[test]
fn bind_reports_unbound_schema_field() {
    let tokens = vec![
        Token::Ident(chars("a")),
        Token::Lit(chars("-")),
        Token::Ident(chars("b")),
    ];
    let fmt = Fmt::parse(&tokens).unwrap();
    let schema = vec![
        Field { name: chars("a"), ty: FieldTy::Text },
        Field { name: chars("b"), ty: FieldTy::Text },
        Field { name: chars("c"), ty: FieldTy::Text },
    ];
    let got = bind(fmt, schema).unwrap_err();
    assert_eq!(got, BindingError::UnboundField(chars("c")));
}

#[test]
fn bind_reports_unknown_pattern_field() {
    let tokens = vec![
        Token::Ident(chars("a")),
        Token::Lit(chars("-")),
        Token::Ident(chars("b")),
    ];
    let fmt = Fmt::parse(&tokens).unwrap();
    let schema = vec![Field { name: chars("a"), ty: FieldTy::Text }];
    let got = bind(fmt, schema).unwrap_err();
    assert_eq!(got, BindingError::UnknownField(chars("b")));
}

#[test]
fn parse_assembles_sections_with_one_token_lookahead() {
    let tokens = vec![
        Token::Lit(chars("a")),
        Token::Ident(chars("v")),
        Token::Lit(chars("b")),
        Token::Ident(chars("w")),
    ];
    let fmt = Fmt::parse(&tokens).unwrap();
    assert_eq!(
        fmt.sections,
        vec![
            Section::StrMatch(StrMatch { lit: chars("a") }),
            Section::CaptureLookahead(CaptureLookahead {
                field: chars("v"),
                lookahead: chars("b"),
            }),
            Section::Capture(Capture { field: chars("w") }),
        ]
    );
    let empty = Fmt::parse(&vec![]).unwrap();
    assert_eq!(empty.sections.len(), 0);
}

#[test]
fn duplicate_capture_is_rejected() {
    let tokens = vec![
        Token::Ident(chars("a")),
        Token::Lit(chars("-")),
        Token::Ident(chars("a")),
    ];
    let got = Fmt::parse(&tokens).unwrap_err();
    assert_eq!(got, GrammarError::DuplicateCapture(chars("a")));

    let tokens = vec![
        Token::Ident(chars("a")),
        Token::Lit(chars("-")),
        Token::Ident(chars("a")),
        Token::Lit(chars(".")),
    ];
    let got = Fmt::parse(&tokens).unwrap_err();
    assert_eq!(got, GrammarError::DuplicateCapture(chars("a")));

    let tokens = vec![
        Token::Ident(chars("a")),
        Token::Lit(chars("-")),
        Token::Ident(chars("b")),
    ];
    assert!(Fmt::parse(&tokens).is_ok());
}

#[test]
fn compile_reports_each_stage() {
    let tokens = vec![Token::Ident(chars("a")), Token::Ident(chars("b"))];
    let got = compile_spec(&tokens, vec![]).unwrap_err();
    assert_eq!(got, CompileError::Grammar(GrammarError::AmbiguousCapture));

    let tokens = vec![Token::Ident(chars("a"))];
    let got = compile_spec(&tokens, vec![]).unwrap_err();
    assert_eq!(
        got,
        CompileError::Binding(BindingError::UnknownField(chars("a")))
    );

    let tokens = vec![];
    let schema = vec![Field { name: chars("a"), ty: FieldTy::Text }];
    let got = compile_spec(&tokens, schema).unwrap_err();
    assert_eq!(
        got,
        CompileError::Binding(BindingError::UnboundField(chars("a")))
    );
}

#[test]
fn adjacent_captures_are_ambiguous() {
    let tokens = vec![Token::Ident(chars("a")), Token::Ident(chars("b"))];
    let got = Fmt::parse(&tokens).unwrap_err();
    assert_eq!(got, GrammarError::AmbiguousCapture);
}

#[test]
fn integer_bounds_are_exact() {
    let bp = compile(
        vec![Token::Lit(chars("value: ")), Token::Ident(chars("v"))],
        vec![("v", FieldTy::Int)],
    );
    let input = chars("value: 9223372036854775807");
    assert_eq!(bp.match_input(&input).unwrap()[0].value, Value::Int(i64::MAX));
    let input = chars("value: -9223372036854775808");
    assert_eq!(bp.match_input(&input).unwrap()[0].value, Value::Int(i64::MIN));
    let input = chars("value: 9223372036854775808");
    assert!(bp.match_input(&input).is_err());
    let input = chars("value: -9223372036854775809");
    assert!(bp.match_input(&input).is_err());
}

#[test]
fn explicit_plus_sign_is_accepted() {
    let bp = compile(
        vec![Token::Lit(chars("value: ")), Token::Ident(chars("v"))],
        vec![("v", FieldTy::Int)],
    );
    let input = chars("value: +45");
    assert_eq!(bp.match_input(&input).unwrap()[0].value, Value::Int(45));
    let input = chars("value: +");
    assert!(bp.match_input(&input).is_err());
    let input = chars("value: -");
    assert!(bp.match_input(&input).is_err());
}

#[test]
fn empty_delimiter_splits_at_cursor() {
    // An empty delimiter occurs leftmost at the cursor itself: the capture
    // takes the empty text and nothing is consumed by the delimiter.
    let bp = compile(
        vec![Token::Ident(chars("a")), Token::Lit(chars(""))],
        vec![("a", FieldTy::Text)],
    );
    let input = chars("rest");
    let got = bp.match_input(&input).unwrap();
    assert_eq!(got[0].value, Value::Text(chars("")));
}

#[test]
fn consecutive_literals_match_back_to_back() {
    let bp = compile(
        vec![
            Token::Lit(chars("ab")),
            Token::Lit(chars("cd")),
            Token::Ident(chars("v")),
        ],
        vec![("v", FieldTy::Int)],
    );
    let input = chars("abcd7");
    assert_eq!(bp.match_input(&input).unwrap()[0].value, Value::Int(7));
    let input = chars("abx");
    assert!(matches!(
        bp.match_input(&input).unwrap_err(),
        MatchError::LiteralMismatch { section_index: 1, .. }
    ));
}

#[test]
fn result_follows_schema_order() {
    // Capture order in the pattern need not match schema declaration order.
    let bp = compile(
        vec![
            Token::Ident(chars("b")),
            Token::Lit(chars("-")),
            Token::Ident(chars("a")),
        ],
        vec![("a", FieldTy::Text), ("b", FieldTy::Text)],
    );
    let input = chars("x-y");
    let got = bp.match_input(&input).unwrap();
    assert_eq!(got[0].name, chars("a"));
    assert_eq!(got[0].value, Value::Text(chars("y")));
    assert_eq!(got[1].name, chars("b"));
    assert_eq!(got[1].value, Value::Text(chars("x")));
}
