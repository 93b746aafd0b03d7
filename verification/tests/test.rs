use caked::deser::deser_tokens;
use caked::kvp::{Float, KeyValuePair, Value};
use caked::lex::{lex_str, Position, Token};
use caked::ser::ser_str;

/// Drives the split pipeline the way an embedder does: lex, convert the
/// float raws with the platform parser, then build the tree.
fn deser_str(input: &str) -> Result<Vec<KeyValuePair>, caked::deser::DeserError> {
    let tokens = match lex_str(input) {
        Ok(t) => t,
        Err(e) => {
            return Err(caked::deser::DeserError::new(
                e.position,
                caked::deser::DeserErrorKind::Lex(e.kind),
            ))
        }
    };
    let floats = parse_floats(&tokens);
    deser_tokens(&tokens, &floats)
}

fn parse_floats(tokens: &[(Position, Token)]) -> Vec<Option<Float>> {
    tokens
        .iter()
        .map(|(_, t)| match t {
            Token::Float(raw) => raw.parse::<f64>().ok().map(|v| Float {
                bits: v.to_bits(),
                text: format!("{}", v),
            }),
            _ => None,
        })
        .collect()
}

fn float_value(v: f64) -> Value {
    Value::Float(Float {
        bits: v.to_bits(),
        text: format!("{}", v),
    })
}

#[test]
fn it_works() {
    assert_eq!(2 + 2, 4);
}

#[test]
fn abel() {
    let cu = deser_str("<?php [ 'god' => 'willing', 'abc' => 'def', 'ghi' => [ 'jkl' => 1.0, 2.0 ] ]").unwrap();
    assert_eq!(cu.len(), 3);
}

#[test]
fn scenario_keys_and_nesting() {
    let cu = deser_str("<?php return [ 'god' => 'willing', 'abc' => 'def', 'ghi' => [ 'jkl' => 1.0, 2.0 ] ]").unwrap();
    let expected = vec![
        KeyValuePair::new(Some("god".to_owned()), Value::Str("willing".to_owned())),
        KeyValuePair::new(Some("abc".to_owned()), Value::Str("def".to_owned())),
        KeyValuePair::new(
            Some("ghi".to_owned()),
            Value::Array(vec![
                KeyValuePair::new(Some("jkl".to_owned()), float_value(1.0)),
                KeyValuePair::new(None, float_value(2.0)),
            ]),
        ),
    ];
    assert_eq!(cu, expected);
}

#[test]
fn scenario_bools_and_null() {
    let cu = deser_str("[true, false, null]").unwrap();
    let expected = vec![
        KeyValuePair::new(None, Value::Bool(true)),
        KeyValuePair::new(None, Value::Bool(false)),
        KeyValuePair::new(None, Value::Null),
    ];
    assert_eq!(cu, expected);
}

#[test]
fn scenario_missing_comma() {
    let err = deser_str("[1 2]").unwrap_err();
    assert!(matches!(err.kind, caked::deser::DeserErrorKind::MissingComma));
    // the position of the second value token
    assert_eq!(err.position.index, 4);
}

#[test]
fn scenario_invalid_key() {
    let err = deser_str("[1 => 'x']").unwrap_err();
    assert!(matches!(err.kind, caked::deser::DeserErrorKind::InvalidKey));
}

#[test]
fn scenario_unexpected_identifier() {
    let err = deser_str("[foo]").unwrap_err();
    match err.kind {
        caked::deser::DeserErrorKind::UnexpectedIdentifier(w) => assert_eq!(w, "foo"),
        k => panic!("wrong kind: {:?}", k),
    }
}

#[test]
fn trailing_comma_tolerated() {
    let a = deser_str("[1, 2, 3,]").unwrap();
    let b = deser_str("[1, 2, 3]").unwrap();
    assert_eq!(a, b);
    assert_eq!(a.len(), 3);
}

#[test]
fn round_trip_simple() {
    let tree = vec![
        KeyValuePair::new(Some("a".to_owned()), Value::Int(7)),
        KeyValuePair::new(None, Value::Str("it's".to_owned())),
        KeyValuePair::new(Some("n".to_owned()), Value::Null),
    ];
    let text = ser_str(&tree);
    let back = deser_str(&text).unwrap();
    assert_eq!(back, tree);
}

#[test]
fn round_trip_nested_and_floats() {
    let tree = vec![
        KeyValuePair::new(
            Some("outer".to_owned()),
            Value::Array(vec![
                KeyValuePair::new(Some("f".to_owned()), float_value(2.0)),
                KeyValuePair::new(None, float_value(0.5)),
                KeyValuePair::new(Some("empty".to_owned()), Value::Array(vec![])),
            ]),
        ),
        KeyValuePair::new(None, Value::Bool(true)),
    ];
    let text = ser_str(&tree);
    let back = deser_str(&text).unwrap();
    assert_eq!(back, tree);
}

#[test]
fn float_renders_with_dot() {
    let tree = vec![KeyValuePair::new(None, float_value(2.0))];
    let text = ser_str(&tree);
    assert!(text.contains("2.0,"));
    assert!(!text.contains("\t2,"));
}

#[test]
fn newline_string_double_quoted() {
    let tree = vec![KeyValuePair::new(None, Value::Str("a\nb".to_owned()))];
    let text = ser_str(&tree);
    assert!(text.contains("\"a\\nb\""));
    let back = deser_str(&text).unwrap();
    assert_eq!(back, tree);
}

#[test]
fn quote_string_single_quoted() {
    let s = caked::kvp::php_str("it's");
    assert_eq!(s, "'it\\'s'");
}

#[test]
fn control_chars_force_double_quotes() {
    for raw in ["a\0b", "a\x07b", "a\x1bb", "a\x0cb", "a\rb", "a\nb", "a\tb"] {
        let lit = caked::kvp::php_str(raw);
        assert!(lit.starts_with('"'), "expected double quotes for {:?}", raw);
    }
    assert!(caked::kvp::php_str("plain $ \"text\"").starts_with('\''));
}

#[test]
fn empty_nested_set_stays_inline() {
    let tree = vec![KeyValuePair::new(Some("k".to_owned()), Value::Array(vec![]))];
    let text = ser_str(&tree);
    assert!(text.contains("'k' => [],"));
}

#[test]
fn escapes_decode() {
    let cu = deser_str("[\"\\x41\\101\\n\\t\\x{1F600}\"]").unwrap();
    assert_eq!(
        cu,
        vec![KeyValuePair::new(None, Value::Str("AA\n\t\u{1F600}".to_owned()))]
    );
}

#[test]
fn comments_are_skipped() {
    let cu = deser_str("// heading\n[1, /* two, */ 2]").unwrap();
    assert_eq!(
        cu,
        vec![
            KeyValuePair::new(None, Value::Int(1)),
            KeyValuePair::new(None, Value::Int(2)),
        ]
    );
}

#[test]
fn int_overflow_rejected() {
    let err = deser_str("[99999999999999999999]").unwrap_err();
    assert!(matches!(err.kind, caked::deser::DeserErrorKind::IntCast(_)));
}

#[test]
fn unterminated_string_is_eof_error() {
    let err = deser_str("['abc").unwrap_err();
    assert!(matches!(
        err.kind,
        caked::deser::DeserErrorKind::Lex(caked::lex::LexErrorKind::EOF)
    ));
}

#[test]
fn unexpected_character_reported() {
    let err = deser_str("[%]").unwrap_err();
    match err.kind {
        caked::deser::DeserErrorKind::Lex(caked::lex::LexErrorKind::Unexpected(c)) => {
            assert_eq!(c, '%')
        }
        k => panic!("wrong kind: {:?}", k),
    }
}

#[test]
fn position_tracks_lines_and_columns() {
    let mut p = Position::new(0, 0, 0);
    p.advance(false);
    p.advance(true);
    p.advance(false);
    assert_eq!(p, Position::new(3, 1, 1));
}
