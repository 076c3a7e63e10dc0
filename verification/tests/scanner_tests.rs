use std::collections::HashMap;

use pson::expr::{Expr, FloatLit};
use pson::error::ParseError;
use pson::scanner::{parse_str, PsonParser};

fn float(text: &str) -> Expr {
    Expr::Float(FloatLit::new(text.to_string()).unwrap())
}

#[test]
fn general_test() {
    let text = r#"
        N
        T
        F
        1
        1.0
        "hello"
        [1 2 3]
        {a 1 b 2 c 3}
        [1 [2 [3]]]
        {a {b {c N}}}
    "#;
    let mut scanner = PsonParser::new(text);
    scanner.parse().unwrap();
    let expr = scanner.get().unwrap();
    assert_eq!(
        expr,
        Expr::Array(vec![
            Expr::Null(),
            Expr::Boolean(true),
            Expr::Boolean(false),
            Expr::Integer(1),
            float("1.0"),
            Expr::String("hello".to_string()),
            Expr::Array(vec![Expr::Integer(1), Expr::Integer(2), Expr::Integer(3)]),
            Expr::Dict(vec![
                ("a".to_string(), Expr::Integer(1)),
                ("b".to_string(), Expr::Integer(2)),
                ("c".to_string(), Expr::Integer(3)),
            ]),
            Expr::Array(vec![
                Expr::Integer(1),
                Expr::Array(vec![Expr::Integer(2), Expr::Array(vec![Expr::Integer(3)])]),
            ]),
            Expr::Dict(vec![(
                "a".to_string(),
                Expr::Dict(vec![(
                    "b".to_string(),
                    Expr::Dict(vec![("c".to_string(), Expr::Null())]),
                )]),
            )]),
        ])
    );
}

#[test]
fn long_string_test() {
    let text: String = (0..100000).map(|_| "a").collect();
    let mut scanner = PsonParser::new(&text);
    scanner.parse().unwrap();
    let expr = scanner.get().unwrap();
    assert_eq!(expr, Expr::Array(vec![Expr::String(text)]));
}

#[test]
fn long_array_test() {
    let text: String = (0..100000).map(|_| "1 ").collect();
    let mut scanner = PsonParser::new(&text);
    scanner.parse().unwrap();
    let expr = scanner.get().unwrap();
    assert_eq!(expr, Expr::Array(vec![Expr::Integer(1); 100000]));
}

#[test]
fn long_map_test() {
    let mut text = String::with_capacity(111111 * 4);
    text.push('{');
    text.push_str(
        (0..100000)
            .map(|i| format!("a{} 1 ", i))
            .collect::<String>()
            .as_str(),
    );
    text.push('}');
    let mut scanner = PsonParser::new(&text);
    scanner.parse().unwrap();
    let expr = scanner.get().unwrap();
    let mut expected = HashMap::new();
    for i in 0..100000 {
        expected.insert(format!("a{}", i), 1i128);
    }
    // The tree must hold exactly one map with exactly the expected entries;
    // a pairwise equality assertion over a hundred thousand entries would
    // search quadratically, so the entries are checked against a table.
    let top = expr.as_array().unwrap();
    assert_eq!(top.len(), 1);
    let entries = top[0].as_map().unwrap();
    assert_eq!(entries.len(), expected.len());
    let mut seen = HashMap::new();
    for (k, v) in entries.iter() {
        assert_eq!(expected.get(k), Some(&v.as_integer().unwrap()));
        assert!(seen.insert(k.clone(), ()).is_none());
    }
}

#[test]
fn nesting_depth() {
    let expr = parse_str("[1 [2 [3]]]").unwrap();
    assert_eq!(
        expr,
        Expr::Array(vec![Expr::Array(vec![
            Expr::Integer(1),
            Expr::Array(vec![Expr::Integer(2), Expr::Array(vec![Expr::Integer(3)])]),
        ])])
    );
}

#[test]
fn map_pairing() {
    let expr = parse_str("{a 1 b 2 c 3}").unwrap();
    let top = expr.as_array().unwrap();
    let entries = top[0].as_map().unwrap();
    assert_eq!(entries.len(), 3);
    let mut found = HashMap::new();
    for (k, v) in entries.iter() {
        found.insert(k.clone(), v.as_integer().unwrap());
    }
    assert_eq!(found.get("a"), Some(&1));
    assert_eq!(found.get("b"), Some(&2));
    assert_eq!(found.get("c"), Some(&3));
    // pair order plays no role in equality
    assert_eq!(
        top[0],
        Expr::Dict(vec![
            ("c".to_string(), Expr::Integer(3)),
            ("a".to_string(), Expr::Integer(1)),
            ("b".to_string(), Expr::Integer(2)),
        ])
    );
}

#[test]
fn duplicate_keys() {
    let expr = parse_str("{a 1 a 2}").unwrap();
    let top = expr.as_array().unwrap();
    let entries = top[0].as_map().unwrap();
    assert_eq!(entries.len(), 1);
    assert_eq!(entries[0].0, "a");
    assert_eq!(entries[0].1, Expr::Integer(2));
}

#[test]
fn escapes() {
    let expr = parse_str("\"a\\tb\\x41\"").unwrap();
    assert_eq!(
        expr,
        Expr::Array(vec![Expr::String("a\tbA".to_string())])
    );
}

#[test]
fn escape_fallback_and_quoted_numbers() {
    let expr = parse_str("\"\\q\" \"1\" \"a\\n\\r\\\\\\\"b\"").unwrap();
    assert_eq!(
        expr,
        Expr::Array(vec![
            Expr::String("q".to_string()),
            Expr::String("1".to_string()),
            Expr::String("a\n\r\\\"b".to_string()),
        ])
    );
}

#[test]
fn error_unmatched_close() {
    let mut scanner = PsonParser::new("]");
    assert_eq!(scanner.parse(), Err(ParseError::UnmatchedClose));
}

#[test]
fn error_unclosed_at_get() {
    let mut scanner = PsonParser::new("[1 2");
    assert_eq!(scanner.parse(), Ok(()));
    assert_eq!(scanner.get(), Err(ParseError::UnclosedFrame));
}

#[test]
fn error_odd_map() {
    assert_eq!(parse_str("{a}"), Err(ParseError::MapOddLength));
}

#[test]
fn error_nonstring_key() {
    assert_eq!(parse_str("{1 2}"), Err(ParseError::MapKeyNotString));
}

#[test]
fn error_mismatched_close() {
    assert_eq!(parse_str("[1}"), Err(ParseError::MismatchedClose));
    assert_eq!(parse_str("{a 1]"), Err(ParseError::MismatchedClose));
}

#[test]
fn error_unterminated_string() {
    assert_eq!(parse_str("\"abc"), Err(ParseError::UnterminatedString));
    assert_eq!(parse_str("\"abc\\"), Err(ParseError::UnterminatedString));
}

#[test]
fn error_bad_hex_escape() {
    assert_eq!(parse_str("\"\\x4"), Err(ParseError::BadHexEscape));
    assert_eq!(parse_str("\"\\xzz\""), Err(ParseError::BadHexEscape));
}

#[test]
fn second_get_fails() {
    let mut scanner = PsonParser::new("1");
    scanner.parse().unwrap();
    assert!(scanner.get().is_ok());
    assert_eq!(scanner.get(), Err(ParseError::UnclosedFrame));
}

#[test]
fn atom_buffer_flush_rules() {
    // whitespace separates atoms; consecutive whitespace is a no-op; an
    // open bracket does not flush the pending atom
    let expr = parse_str("a  b\t\nc").unwrap();
    assert_eq!(
        expr,
        Expr::Array(vec![
            Expr::String("a".to_string()),
            Expr::String("b".to_string()),
            Expr::String("c".to_string()),
        ])
    );
    let expr2 = parse_str("ab[1]").unwrap();
    assert_eq!(
        expr2,
        Expr::Array(vec![Expr::Array(vec![Expr::String("ab1".to_string())])])
    );
}

#[test]
fn with_buffer_capacity_parses() {
    let mut scanner = PsonParser::with_buffer_capacity("x 1", 64);
    scanner.parse().unwrap();
    let expr = scanner.get().unwrap();
    assert_eq!(
        expr,
        Expr::Array(vec![Expr::String("x".to_string()), Expr::Integer(1)])
    );
}
