use mr_guile_lsp_server::parser::{is_float_text, parse, parse_checked, ParseError, SExpr};

/// The value of a number literal, as the `f64` the server reads it as.
fn number_value(e: &SExpr) -> f64 {
    match e {
        SExpr::Number(t) => t.parse::<f64>().expect("number text"),
        other => panic!("expected a number, got {other:?}"),
    }
}

#[test]
fn parses_a_symbol() {
    assert_eq!(parse("display"), Ok(SExpr::Symbol("display".to_string())));
}

#[test]
fn parses_a_string() {
    assert_eq!(parse("\"hello\""), Ok(SExpr::Str("hello".to_string())));
}

#[test]
fn parses_a_string_with_escapes() {
    // Guile's write escapes: \" \\ \n
    assert_eq!(
        parse(r#""a\"b\\c\nd""#),
        Ok(SExpr::Str("a\"b\\c\nd".to_string()))
    );
}

#[test]
fn parses_an_integer() {
    let e = parse("42").unwrap();
    assert_eq!(e, SExpr::Number("42".to_string()));
    assert_eq!(number_value(&e), 42.0);
}

#[test]
fn parses_a_negative_float() {
    let e = parse("-2.5").unwrap();
    assert_eq!(e, SExpr::Number("-2.5".to_string()));
    assert_eq!(number_value(&e), -2.5);
}

#[test]
fn parses_true_and_false() {
    assert_eq!(parse("#t"), Ok(SExpr::Bool(true)));
    assert_eq!(parse("#f"), Ok(SExpr::Bool(false)));
}

#[test]
fn parses_empty_list() {
    assert_eq!(parse("()"), Ok(SExpr::List(vec![])));
}

#[test]
fn parses_simple_list() {
    assert_eq!(
        parse("(display map fold)"),
        Ok(SExpr::List(vec![
            SExpr::Symbol("display".into()),
            SExpr::Symbol("map".into()),
            SExpr::Symbol("fold".into()),
        ]))
    );
}

#[test]
fn parses_nested_list() {
    assert_eq!(
        parse("(a (b c) d)"),
        Ok(SExpr::List(vec![
            SExpr::Symbol("a".into()),
            SExpr::List(vec![SExpr::Symbol("b".into()), SExpr::Symbol("c".into()),]),
            SExpr::Symbol("d".into()),
        ]))
    );
}

#[test]
fn parses_dotted_pair_alist() {
    // Geiser location format: (("file" . "/x") ("line" . 5))
    let e = parse(r#"(("file" . "/x") ("line" . 5))"#).unwrap();
    assert_eq!(
        e,
        SExpr::List(vec![
            SExpr::Improper(
                vec![SExpr::Str("file".into())],
                Box::new(SExpr::Str("/x".into())),
            ),
            SExpr::Improper(
                vec![SExpr::Str("line".into())],
                Box::new(SExpr::Number("5".into())),
            ),
        ])
    );
    assert_eq!(number_value(e.alist_ref("line").unwrap()), 5.0);
}

#[test]
fn parses_utf8_string_content() {
    // Guile docstrings can contain Chinese; the parser must copy whole chars.
    assert_eq!(
        parse(r#""问候函数""#),
        Ok(SExpr::Str("问候函数".to_string()))
    );
}

#[test]
fn alist_ref_finds_symbol_and_string_keys() {
    // ((warnings . "text") ("error" . #f))
    let expr = parse(r#"(("warnings" . "text") ("error" . #f))"#).unwrap();
    assert_eq!(
        expr.alist_ref("warnings").and_then(|v| v.as_str()),
        Some("text")
    );
    assert!(expr
        .alist_ref("error")
        .map(|v| v.is_false())
        .unwrap_or(false));
    assert!(expr.alist_ref("missing").is_none());
}

#[test]
fn alist_ref_accepts_two_element_lists_and_symbol_keys() {
    let expr = parse("((line 7) (file . \"/a.scm\"))").unwrap();
    assert_eq!(expr.alist_ref("line"), Some(&SExpr::Number("7".into())));
    assert_eq!(expr.alist_ref("file").and_then(|v| v.as_str()), Some("/a.scm"));
    assert!(parse("display").unwrap().alist_ref("line").is_none());
}

#[test]
fn as_list_and_as_str_pick_their_variant() {
    let e = parse("(a \"b\")").unwrap();
    let items = e.as_list().expect("a list");
    assert_eq!(items.len(), 2);
    assert_eq!(items[1].as_str(), Some("b"));
    assert_eq!(items[0].as_str(), None);
    assert!(items[0].as_list().is_none());
    assert!(!items[0].is_false());
}

#[test]
fn parse_errors_name_what_went_wrong() {
    assert_eq!(parse(""), Err(ParseError::Eof));
    assert_eq!(parse("   ; only a comment\n"), Err(ParseError::Eof));
    assert_eq!(parse("\"open"), Err(ParseError::UnterminatedString));
    assert_eq!(parse("(a b"), Err(ParseError::UnterminatedList));
    assert_eq!(parse("#x"), Err(ParseError::Unexpected("#x".into())));
    assert_eq!(parse(")"), Err(ParseError::Unexpected("empty atom".into())));
    assert_eq!(
        parse("(a . b c)"),
        Err(ParseError::Unexpected("expected ')' after dotted tail".into()))
    );
}

#[test]
fn parses_long_booleans_and_improper_lists() {
    assert_eq!(parse("#true"), Ok(SExpr::Bool(true)));
    assert_eq!(parse("#false"), Ok(SExpr::Bool(false)));
    assert_eq!(
        parse("(a b . c)"),
        Ok(SExpr::Improper(
            vec![SExpr::Symbol("a".into()), SExpr::Symbol("b".into())],
            Box::new(SExpr::Symbol("c".into()))
        ))
    );
}

#[test]
fn a_dot_inside_an_atom_is_no_marker() {
    assert_eq!(
        parse("(a .b)"),
        Ok(SExpr::List(vec![SExpr::Symbol("a".into()), SExpr::Symbol(".b".into())]))
    );
}

#[test]
fn number_texts_follow_the_f64_grammar() {
    for t in ["1", "-1", "+2.", ".5", "1e3", "2.5E-2", "007"] {
        assert!(is_float_text(t.as_bytes()), "{t}");
        assert!(t.parse::<f64>().is_ok(), "{t}");
    }
    for t in ["+", "-", ".", "1e", "e3", "1.2.3", "infinite", "0x10", "1_000"] {
        assert!(!is_float_text(t.as_bytes()), "{t}");
        assert!(t.parse::<f64>().is_err(), "{t}");
    }
    assert_eq!(parse("1e3"), Ok(SExpr::Number("1e3".into())));
    assert_eq!(parse("foo1"), Ok(SExpr::Symbol("foo1".into())));
}

#[test]
fn float_words_are_symbols() {
    for t in ["nan", "inf", "infinity", "NaN", "-inf", "+Infinity"] {
        assert!(!is_float_text(t.as_bytes()), "{t}");
        assert_eq!(parse(t), Ok(SExpr::Symbol(t.to_string())), "{t}");
    }
}

#[test]
fn alist_ref_passes_over_an_entry_without_a_key() {
    let e = parse(r#"((. 1) ("k" . 2))"#).unwrap();
    assert_eq!(
        e.as_list().unwrap()[0],
        SExpr::Improper(vec![], Box::new(SExpr::Number("1".into())))
    );
    let v = e.alist_ref("k").unwrap();
    assert_eq!(v, &SExpr::Number("2".into()));
    assert_eq!(number_value(v), 2.0);
    assert!(e.alist_ref("missing").is_none());
}

#[test]
fn parse_checked_flags_the_inputs_the_reader_cannot_take() {
    // An escape of a multi-byte character leaves the reader inside it.
    assert_eq!(parse_checked("\"\\é\""), None);
    assert_eq!(parse_checked("(x)"), Some(Ok(SExpr::List(vec![SExpr::Symbol("x".into())]))));
    assert_eq!(parse_checked("(x"), Some(Err(ParseError::UnterminatedList)));
}

#[test]
fn a_clone_is_equal() {
    let e = parse(r#"(("file" . "/x") ("line" . 5) (a (b #t)))"#).unwrap();
    assert_eq!(e.clone(), e);
}
