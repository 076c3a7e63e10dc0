use pson::expr::{Expr, FloatLit};
use pson::scanner::parse_str;

fn float(text: &str) -> Expr {
    Expr::Float(FloatLit::new(text.to_string()).unwrap())
}

#[test]
fn atom_classification_order() {
    assert_eq!(Expr::from(&"N".to_string()), Expr::Null());
    assert_eq!(Expr::from(&"T".to_string()), Expr::Boolean(true));
    assert_eq!(Expr::from(&"F".to_string()), Expr::Boolean(false));
    assert_eq!(Expr::from(&"1".to_string()), Expr::Integer(1));
    assert_eq!(Expr::from(&"+5".to_string()), Expr::Integer(5));
    assert_eq!(Expr::from(&"-17".to_string()), Expr::Integer(-17));
    assert_eq!(Expr::from(&"1.0".to_string()), float("1.0"));
    assert_eq!(Expr::from(&"5.".to_string()), float("5."));
    assert_eq!(Expr::from(&".5".to_string()), float(".5"));
    assert_eq!(Expr::from(&"1e5".to_string()), float("1e5"));
    assert_eq!(Expr::from(&"inf".to_string()), float("inf"));
    assert_eq!(Expr::from(&"abc".to_string()), Expr::String("abc".to_string()));
    assert_eq!(Expr::from(&"1x".to_string()), Expr::String("1x".to_string()));
    assert_eq!(Expr::from(&"".to_string()), Expr::String("".to_string()));
    // a literal too large for the 128-bit range falls through to the
    // floating-point class, never to an error
    let big = "200000000000000000000000000000000000000000".to_string();
    let e = Expr::from(&big);
    assert!(e.as_float().is_some());
    assert_eq!(e, float(big.as_str()));
}

#[test]
fn accessors_narrow_without_failure() {
    let e = Expr::Integer(7);
    assert_eq!(e.as_integer(), Some(7));
    assert!(e.as_float().is_none());
    assert!(e.as_null().is_none());
    assert!(e.as_boolean().is_none());
    assert!(e.as_string().is_none());
    assert!(e.as_array().is_none());
    assert!(e.as_map().is_none());
    assert_eq!(Expr::Null().as_null(), Some(()));
    assert_eq!(Expr::Boolean(true).as_boolean(), Some(true));
    assert_eq!(
        Expr::String("s".to_string()).as_string(),
        Some("s".to_string())
    );
    let arr = Expr::Array(vec![Expr::Integer(1)]);
    assert_eq!(arr.as_array().unwrap().len(), 1);
    let map = Expr::Dict(vec![("k".to_string(), Expr::Integer(2))]);
    assert_eq!(map.as_map().unwrap().len(), 1);
}

#[test]
fn numeric_cross_equality() {
    // equal under the value-equality operation ...
    assert_eq!(Expr::Integer(1), float("1.0"));
    assert_eq!(float("1.0"), Expr::Integer(1));
    assert_eq!(Expr::Integer(5), float("5e0"));
    assert_eq!(Expr::Integer(0), float("0.0"));
    assert_eq!(Expr::Integer(0), float("-0.0"));
    assert_ne!(Expr::Integer(1), float("1.5"));
    assert_ne!(Expr::Integer(2), float("1.0"));
    // ... but distinguishable by variant inspection
    assert!(Expr::Integer(1).as_integer().is_some());
    assert!(Expr::Integer(1).as_float().is_none());
    assert!(float("1.0").as_float().is_some());
    assert!(float("1.0").as_integer().is_none());
}

#[test]
fn float_value_equality() {
    assert_eq!(float("1.0"), float("1.00"));
    assert_eq!(float("0.1"), float("0.10"));
    assert_eq!(float("1.0"), float("1e0"));
    assert_eq!(float("2.5e3"), float("25e2"));
    assert_eq!(float("0.0"), float("-0.0"));
    assert_eq!(float("inf"), float("Infinity"));
    assert_eq!(float("1e400"), float("inf"));
    assert_ne!(float("inf"), float("-inf"));
    assert_ne!(float("1.0"), float("2.0"));
    // two NaN values are not equal, themselves included
    let nan = FloatLit::new("nan".to_string()).unwrap();
    assert!(!nan.value_eq(&nan));
    assert_ne!(float("nan"), float("nan"));
}

#[test]
fn relaxed_equality_is_recursive() {
    let a = parse_str("[1 {x 2.0}]").unwrap();
    let b = Expr::Array(vec![Expr::Array(vec![
        float("1.0"),
        Expr::Dict(vec![("x".to_string(), Expr::Integer(2))]),
    ])]);
    assert_eq!(a, b);
}

#[test]
fn atom_round_trip() {
    for token in [
        "N", "T", "F", "0", "1", "-17", "170141183460469231731687303715884105727", "1.0",
        "2.5e3", "-0.125", "inf", "hello", "a_b.c",
    ] {
        let parsed = parse_str(token).unwrap();
        let rendered = parsed.as_array().unwrap()[0].to_text();
        let reparsed = parse_str(rendered.as_str()).unwrap();
        assert_eq!(parsed, reparsed);
    }
}

#[test]
fn rendering() {
    assert_eq!(Expr::Null().to_text(), "N");
    assert_eq!(Expr::Boolean(true).to_text(), "T");
    assert_eq!(Expr::Boolean(false).to_text(), "F");
    assert_eq!(Expr::Integer(-42).to_text(), "-42");
    assert_eq!(Expr::Integer(0).to_text(), "0");
    assert_eq!(float("1.50").to_text(), "1.50");
    assert_eq!(Expr::String("a b".to_string()).to_text(), "a b");
    let tree = parse_str("[1 {a 2} x]").unwrap();
    assert_eq!(tree.as_array().unwrap()[0].to_text(), "[1 (a 2) x]");
    assert_eq!(tree.to_text(), "[[1 (a 2) x]]");
    assert_eq!(Expr::Array(vec![]).to_text(), "[]");
    assert_eq!(Expr::Dict(vec![]).to_text(), "()");
}

#[test]
fn float_literal_grammar() {
    for ok in ["1.0", "1.", ".5", "1e5", "1E-5", "+2.5e+3", "-inf", "NaN", "InFiNiTy", "007.25"] {
        assert!(FloatLit::new(ok.to_string()).is_some(), "{}", ok);
    }
    for bad in ["", "-", ".", "e5", "1e", "1e+", "1.2.3", "0x10", "1_000", " 1.0", "1.0 "] {
        assert!(FloatLit::new(bad.to_string()).is_none(), "{}", bad);
    }
}

#[test]
fn clone_is_deep_equality() {
    let tree = parse_str("[1 {a [T \"s\"]} 2.5]").unwrap();
    let copy = tree.clone();
    assert_eq!(tree, copy);
}

#[test]
fn canonical_bytes_per_variant() {
    assert_eq!(Expr::Null().canonical_bytes(), vec![0u8]);
    assert_eq!(Expr::Boolean(true).canonical_bytes(), vec![1u8, 1u8]);
    let mut one = vec![2u8, 1u8];
    one.extend(std::iter::repeat(0u8).take(15));
    assert_eq!(Expr::Integer(1).canonical_bytes(), one);
    let s = Expr::String("A".to_string()).canonical_bytes();
    let mut expected = vec![4u8, 1u8, 0, 0, 0, 0, 0, 0, 0];
    expected.extend([65u8, 0, 0, 0]);
    assert_eq!(s, expected);
    // same-variant consistency: equal values encode equally, an integer and
    // an equal float do not
    let f = float("1.0");
    assert_eq!(f.canonical_bytes(), float("1.0").canonical_bytes());
    // equal floating-point values encode equally, whatever text wrote them
    assert_eq!(f.canonical_bytes(), float("1e0").canonical_bytes());
    assert_eq!(f.canonical_bytes(), float("1.00".to_string().as_str()).canonical_bytes());
    assert_eq!(float("0.0").canonical_bytes(), float("-0.0").canonical_bytes());
    assert_ne!(f.canonical_bytes(), float("2.0").canonical_bytes());
    assert_ne!(Expr::Integer(1).canonical_bytes(), f.canonical_bytes());
}

#[test]
fn canonical_bytes_map_order() {
    // equal maps encode equally, whatever order their entries stand in
    let forward = Expr::Dict(vec![
        ("a".to_string(), Expr::Null()),
        ("bb".to_string(), Expr::Boolean(true)),
    ]);
    let backward = Expr::Dict(vec![
        ("bb".to_string(), Expr::Boolean(true)),
        ("a".to_string(), Expr::Null()),
    ]);
    assert_eq!(forward, backward);
    assert_eq!(forward.canonical_bytes(), backward.canonical_bytes());
    // the same through the parser
    let p1 = parse_str("{a 1 b 2}").unwrap();
    let p2 = parse_str("{b 2 a 1}").unwrap();
    assert_eq!(p1, p2);
    assert_eq!(p1.canonical_bytes(), p2.canonical_bytes());
    // different entries encode differently
    let other = Expr::Dict(vec![
        ("a".to_string(), Expr::Boolean(false)),
        ("bb".to_string(), Expr::Boolean(true)),
    ]);
    assert_ne!(forward.canonical_bytes(), other.canonical_bytes());
}

#[test]
fn scan_for_constants_collects_names() {
    let tree = parse_str("[$ x 1] [$ y 2] [$ x 3] [a b c] 7").unwrap();
    let top = tree.as_array().unwrap();
    let names = pson::constants::scan_for_constants(top);
    assert_eq!(names.len(), 2);
    assert!(names.contains(&"x".to_string()));
    assert!(names.contains(&"y".to_string()));
}
