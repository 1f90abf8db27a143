use clojure_rs::reader::{
    identifier_parser, integer, read_form, try_read, try_read_i32, try_read_list, try_read_map,
    try_read_string, try_read_symbol, try_read_vector, Source,
};
use clojure_rs::value::{Symbol, ToValue, Value};

#[test]
fn unmatched_delimiter_fails() {
    assert!(try_read("(1 2 3").is_err());
    let (rest, v) = try_read("(1 2 3)").unwrap();
    assert_eq!(rest, "");
    assert_eq!(v, Value::PersistentList(vec![Value::I32(1), Value::I32(2), Value::I32(3)]));
}

#[test]
fn reads_atoms() {
    assert_eq!(try_read("  42 rest").unwrap(), (" rest", Value::I32(42)));
    assert_eq!(try_read("cat-dog").unwrap().1, Value::Symbol(Symbol::intern("cat-dog")));
    assert_eq!(
        try_read("+common-lisp-global+").unwrap().1,
        Value::Symbol(Symbol::intern("+common-lisp-global+"))
    );
    assert_eq!(try_read("\"hi there\"").unwrap().1, Value::String("hi there".to_string()));
    assert_eq!(try_read("\"  padded\"").unwrap().1, Value::String("  padded".to_string()));
    assert_eq!(try_read("12cat").unwrap(), ("cat", Value::I32(12)));
}

#[test]
fn read_failures() {
    assert!(try_read("").is_err());
    assert!(try_read("   ").is_err());
    assert!(try_read("'quoted").is_err());
    assert!(try_read("@at").is_err());
    assert!(try_read("\"open").is_err());
    assert!(try_read("2147483648").is_err());
    assert_eq!(try_read("2147483647").unwrap().1, Value::I32(2147483647));
    assert!(try_read("{1}").is_err());
    assert!(try_read("[1 2").is_err());
    assert!(try_read(")").is_err());
    assert_eq!(try_read("  )").unwrap_err().position, 2);
}

#[test]
fn reads_collections() {
    assert_eq!(try_read("()").unwrap().1, Value::PersistentList(vec![]));
    assert_eq!(try_read("[]").unwrap().1, Value::PersistentVector(vec![]));
    assert_eq!(try_read("{}").unwrap().1, Value::PersistentListMap(vec![]));
    let (rest, v) = try_read("[1 2 [5 10 15] 3] tail").unwrap();
    assert_eq!(rest, "tail");
    assert_eq!(v.to_string(), "[1 2 [5 10 15] 3]".to_string());
    let (_, m) = try_read("{a 1 b \"x\" a 3}").unwrap();
    assert_eq!(m.to_string(), "{a 3 b \"x\"}".to_string());
    let (_, l) = try_read("( a ( b c ) \"s\" )").unwrap();
    assert_eq!(l.to_string(), "(a (b c) \"s\")".to_string());
}

#[test]
fn reading_is_resumable() {
    let mut text = "(def x 1) x [x]";
    let mut forms = vec![];
    while let Ok((rest, v)) = try_read(text) {
        forms.push(v.to_string());
        text = rest;
    }
    assert_eq!(forms, vec!["(def x 1)".to_string(), "x".to_string(), "[x]".to_string()]);
}

#[test]
fn parsers_at_positions() {
    let src = Source::new("ab1 12");
    assert_eq!(identifier_parser(&src, 0), Some((3, "ab1".to_string())));
    assert_eq!(identifier_parser(&src, 4), None);
    assert_eq!(integer(&src, 4), Some((6, 12)));
    let src = Source::new("x \"q\" (1)");
    assert_eq!(try_read_string(&src, 2).map(|(e, v)| (e, v.to_string())), Some((5, "q".to_string())));
    assert_eq!(try_read_list(&src, 6).map(|(e, v)| (e, v.to_string())), Some((9, "(1)".to_string())));
    assert_eq!(read_form(&src, 1).map(|(e, _)| e), Some(5));
}

#[test]
fn round_trip_through_printing() {
    for text in ["(a 1 [b \"s\" {c 2}] (x (y)))", "[]", "{1 [2 3]}", "-x", "(quote q)"] {
        let (_, v) = try_read(text).unwrap();
        let printed = v.to_string_explicit();
        let (_, again) = try_read(&printed).unwrap();
        assert_eq!(again, v);
    }
}

#[test]
fn printing() {
    assert_eq!(Value::I32(-12).to_string(), "-12".to_string());
    assert_eq!(Value::I32(i32::MIN).to_string(), "-2147483648".to_string());
    assert_eq!(Value::String("s".to_string()).to_string(), "s".to_string());
    assert_eq!(Value::String("s".to_string()).to_string_explicit(), "\"s\"".to_string());
    assert_eq!(Value::Nil.to_string(), "nil".to_string());
    assert_eq!(Value::QuoteMacro.to_string(), "#macro[quote*]".to_string());
    assert_eq!(Value::LexicalEvalFn.to_string(), "#function[lexical-eval*]".to_string());
    assert_eq!(Value::Condition("bad".to_string()).to_string(), "#Condition[\"bad\"]".to_string());
}

#[test]
fn conversions() {
    assert_eq!(5.to_value(), Value::I32(5));
    assert_eq!("s".to_string().to_value(), Value::String("s".to_string()));
    assert_eq!(Symbol::intern("k").to_value(), Value::Symbol(Symbol::intern("k")));
    assert_eq!(*Value::Nil.to_rc_value(), Value::Nil);
    assert_eq!(vec![Value::I32(1)].to_value().to_string(), "(1)".to_string());
}

#[test]
fn string_content_is_kept_verbatim() {
    assert_eq!(try_read("\" a\"").unwrap(), ("", Value::String(" a".to_string())));
    assert_eq!(try_read("\"\"").unwrap().1, Value::String("".to_string()));
}

#[test]
fn parsers_fail_where_they_do_not_apply() {
    let src = Source::new("12cat");
    assert_eq!(try_read_symbol(&src, 0).map(|(e, _)| e), None);
    assert_eq!(try_read_i32(&src, 0).map(|(e, v)| (e, v.to_string())), Some((2, "12".to_string())));
    assert_eq!(try_read_symbol(&src, 2).map(|(e, v)| (e, v.to_string())), Some((5, "cat".to_string())));
    assert_eq!(integer(&src, 2), None);
    let src = Source::new("'quoted @at");
    assert!(try_read_symbol(&src, 0).is_none());
    assert!(try_read_symbol(&src, 8).is_none());
    let src = Source::new("  (1) [2] {3 4}");
    assert_eq!(try_read_list(&src, 0).map(|(e, v)| (e, v.to_string())), Some((6, "(1)".to_string())));
    assert!(try_read_vector(&src, 0).is_none());
    assert!(try_read_map(&src, 0).is_none());
    assert!(try_read_string(&src, 0).is_none());
    assert_eq!(try_read_vector(&src, 6).map(|(_, v)| v.to_string()), Some("[2]".to_string()));
    assert_eq!(try_read_map(&src, 9).map(|(_, v)| v.to_string()), Some("{3 4}".to_string()));
    assert!(try_read_list(&src, 15).is_none());
}
