use mr_guile_lsp_server::position::{position_to_offset, Position};
use mr_guile_lsp_server::text::{
    called_symbol_before, find_definition_in_text, find_references_in_text, is_ascii_whitespace,
    scan_defines, symbol_at, symbol_prefix_at, text_within_limits, SymbolKind,
};

fn pos(line: u32, ch: u32) -> Position {
    Position {
        line,
        character: ch,
    }
}

#[test]
fn extracts_symbol_under_cursor() {
    // "(display hello)" — cursor on the 'h' of hello (line 0, char 9).
    let text = "(display hello)";
    let (sym, range) = symbol_at(text, &pos(0, 9)).expect("symbol");
    assert_eq!(sym, "hello");
    assert_eq!(range.start, pos(0, 9));
    assert_eq!(range.end, pos(0, 14));
}

#[test]
fn extracts_symbol_with_special_chars() {
    // my-func? should be one symbol.
    let text = "(call my-func?)";
    let (sym, _) = symbol_at(text, &pos(0, 8)).expect("symbol");
    assert_eq!(sym, "my-func?");
}

#[test]
fn returns_none_in_whitespace() {
    let text = "(display  hello)";
    assert!(symbol_at(text, &pos(0, 8)).is_none());
}

#[test]
fn extracts_partial_prefix_for_completion() {
    // "(dis" with cursor at end (col 4) -> prefix "dis".
    let text = "(disp";
    let (prefix, range) = symbol_prefix_at(text, &pos(0, 5)).expect("prefix");
    assert_eq!(prefix, "disp");
    assert_eq!(range.start, pos(0, 1));
    assert_eq!(range.end, pos(0, 5));
}

#[test]
fn prefix_returns_none_at_word_boundary() {
    // Cursor right after "(" — no prefix typed yet.
    assert!(symbol_prefix_at("(display", &pos(0, 1)).is_none());
}

#[test]
fn called_symbol_found_for_signature_help() {
    // Cursor right after the '(' of a call -> the called symbol is "foo".
    let text = "(foo a b)";
    assert_eq!(called_symbol_before(text, &pos(0, 4)), Some("foo".into()));
    // Cursor inside args, after nested close -> still "foo".
    let text2 = "(foo (bar 1) 2)";
    assert_eq!(called_symbol_before(text2, &pos(0, 13)), Some("foo".into()));
}

#[test]
fn called_symbol_none_at_top_level() {
    // Not inside any call.
    assert!(called_symbol_before("hello world", &pos(0, 5)).is_none());
}

#[test]
fn finds_function_definition() {
    let text = "(define (foo x)\n  (* x 2))\n(define bar 1)";
    let range = find_definition_in_text(text, "foo").expect("found foo");
    assert_eq!(range.start, pos(0, 0));
    // "(define (foo" — "foo" occupies cols 9..12; end is just past it.
    assert_eq!(range.end, pos(0, 12));
}

#[test]
fn finds_value_definition() {
    let text = "(define (foo x) x)\n(define bar 1)";
    let range = find_definition_in_text(text, "bar").expect("found bar");
    assert_eq!(range.start, pos(1, 0));
}

#[test]
fn finds_star_define() {
    let text = "(define* (baz #:key a)\n  a)";
    let range = find_definition_in_text(text, "baz").expect("found baz");
    assert_eq!(range.start, pos(0, 0));
}

#[test]
fn definition_not_found_returns_none() {
    assert!(find_definition_in_text("(define (foo) 1)", "missing").is_none());
}

#[test]
fn finds_define_syntax_macro() {
    let text = "(define-syntax my-when\n  (syntax-rules () ((_ b) b)))\n(my-when 1)";
    let range = find_definition_in_text(text, "my-when").expect("macro def found");
    assert_eq!(range.start, pos(0, 0));
}

#[test]
fn finds_define_macro_old_form() {
    let text = "(define-macro (my-old x) x)\n(my-old 1)";
    let range = find_definition_in_text(text, "my-old").expect("macro def found");
    assert_eq!(range.start, pos(0, 0));
}

#[test]
fn finds_all_references_to_symbol() {
    // foo appears as the definition name and as a call -> 2 references.
    let text = "(define (foo x) (foo x))";
    let refs = find_references_in_text(text, "foo");
    assert_eq!(refs.len(), 2);
}

#[test]
fn references_respect_word_boundaries() {
    // `foo` must not match inside `foobar` or `foo?`.
    let text = "(foo foobar foo?)";
    let refs = find_references_in_text(text, "foo");
    assert_eq!(refs.len(), 1);
}

#[test]
fn references_skip_strings_and_comments() {
    // `foo` in a comment and a string literal must not count.
    let text = "(foo)\n; foo here\n\"foo\"";
    let refs = find_references_in_text(text, "foo");
    assert_eq!(refs.len(), 1);
}

#[test]
fn references_match_ranges_are_correct() {
    let text = "(bar) (bar)";
    let refs = find_references_in_text(text, "bar");
    assert_eq!(refs.len(), 2);
    // first `bar` at chars 1..4, second at chars 7..10.
    assert_eq!(refs[0].start, pos(0, 1));
    assert_eq!(refs[1].start, pos(0, 7));
}

#[test]
fn scans_top_level_defines() {
    let text = "(define (foo x)\n  (* x 2))\n\n(define bar 1)";
    let defs = scan_defines(text);
    assert_eq!(defs.len(), 2);
    assert_eq!(defs[0].name, "foo");
    assert_eq!(defs[0].kind, SymbolKind::FUNCTION);
    assert_eq!(defs[1].name, "bar");
    assert_eq!(defs[1].kind, SymbolKind::VARIABLE);
}

#[test]
fn scan_skips_nested_and_string_and_comment_defines() {
    let text =
        "(define (foo)\n  \"(define fake)\"\n  ; (define commented)\n  1)\n(define real 2)";
    let defs = scan_defines(text);
    let names: Vec<_> = defs.iter().map(|d| d.name.as_str()).collect();
    assert_eq!(names, vec!["foo", "real"]);
}

#[test]
fn document_symbol_range_covers_the_whole_form() {
    // `range` must span from '(' to its matching ')', not just the head.
    let text = "(define (foo x)\n  (* x 2))\n(define bar 1)";
    let defs = scan_defines(text);
    assert_eq!(defs.len(), 2);
    // foo form spans to the outer ')' (line 1, char 9); range.end is past it.
    assert_eq!(defs[0].range.start, pos(0, 0));
    assert_eq!(defs[0].range.end, pos(1, 10));
    // selection_range is just the name "foo" (starts at col 9).
    assert_eq!(defs[0].selection_range.start, pos(0, 9));
    // bar form: "(define bar 1)" on line 2.
    assert_eq!(defs[1].range.start, pos(2, 0));
    assert_eq!(defs[1].range.end, pos(2, 14));
}

#[test]
fn symbol_prefix_at_extracts_typed_prefix() {
    // Cursor right after typing "my" inside "(my": prefix should be "my".
    let text = "(define (foo x)\n  (* x 2))\n(my\n";
    // line 2 = "(my", cursor at char 3 (just after 'y')
    let (prefix, _range) = symbol_prefix_at(text, &pos(2, 3)).expect("prefix");
    assert_eq!(prefix, "my");
}

#[test]
fn symbol_prefix_at_returns_none_on_whitespace() {
    // Cursor on whitespace/empty line yields no prefix (no completion there).
    let text = "(define (foo x)\n  x)\n";
    // line 0 char 0 is '(', not a symbol char -> None
    assert!(symbol_prefix_at(text, &pos(0, 0)).is_none());
    // line 1 is "  x)" -> leading spaces at char 1 is whitespace -> None
    assert!(symbol_prefix_at(text, &pos(1, 1)).is_none());
}

#[test]
fn symbol_prefix_at_full_symbol_when_cursor_at_end() {
    // Cursor at the end of a whole symbol returns the whole symbol.
    let text = "(display\n";
    // "display" spans chars 1..8; cursor at char 8 (right after 'y')
    let (prefix, _range) = symbol_prefix_at(text, &pos(0, 8)).expect("prefix");
    assert_eq!(prefix, "display");
}

#[test]
fn symbol_at_end_of_a_symbol_is_none() {
    // The cursor just past the last character is on the `)`.
    assert!(symbol_at("(display)", &pos(0, 8)).is_none());
    assert!(symbol_at("abc", &pos(0, 3)).is_none());
}

#[test]
fn symbol_at_takes_whole_utf8_symbols() {
    let text = "(问候 x)";
    let (sym, range) = symbol_at(text, &pos(0, 4)).expect("symbol");
    assert_eq!(sym, "问候");
    assert_eq!(range.start, pos(0, 1));
    assert_eq!(range.end, pos(0, 7));
}

#[test]
fn reference_range_ends_after_the_symbol() {
    let refs = find_references_in_text("(a)\n  (a b)", "a");
    assert_eq!(refs.len(), 2);
    assert_eq!(refs[1].start, pos(1, 3));
    assert_eq!(refs[1].end, pos(1, 4));
}

#[test]
fn unbalanced_define_spans_to_the_name() {
    let defs = scan_defines("(define (f x)\n  (+ x");
    assert_eq!(defs.len(), 1);
    assert_eq!(defs[0].name, "f");
    assert_eq!(defs[0].kind, SymbolKind::FUNCTION);
    assert_eq!(defs[0].range.end, pos(0, 10));
}

#[test]
fn other_define_heads_are_scanned() {
    let text = "(define-public (pub-fn) 1)\n(define-record-type point)\n(defines x)";
    let names: Vec<String> = scan_defines(text).into_iter().map(|d| d.name).collect();
    assert_eq!(names, vec!["pub-fn".to_string(), "point".to_string()]);
}

#[test]
fn called_symbol_skips_whitespace_after_the_paren() {
    assert_eq!(called_symbol_before("(  foo 1 2", &pos(0, 9)), Some("foo".into()));
    assert_eq!(called_symbol_before("(( 1", &pos(0, 4)), Some("1".into()));
    assert!(called_symbol_before("( ) x", &pos(0, 5)).is_none());
}

#[test]
fn ascii_whitespace_matches_std() {
    for b in 0u8..=255 {
        assert_eq!(is_ascii_whitespace(b), b.is_ascii_whitespace(), "{b}");
    }
}

#[test]
fn ordinary_texts_are_within_limits() {
    assert!(text_within_limits("(define (f) 1)"));
    assert!(text_within_limits(""));
}

#[test]
fn references_come_in_order_and_none_for_the_empty_symbol() {
    let text = "(f a)\n(g a (a))";
    let refs = find_references_in_text(text, "a");
    assert_eq!(refs.len(), 3);
    for w in refs.windows(2) {
        assert!((w[0].end.line, w[0].end.character) <= (w[1].start.line, w[1].start.character));
    }
    assert!(find_references_in_text(text, "").is_empty());
}

#[test]
fn definitions_are_placed_inside_their_forms_in_order() {
    let text = "(define (foo x) x)\n(define-syntax bar\n  (syntax-rules ()))\n(define* baz 1)";
    let defs = scan_defines(text);
    assert_eq!(defs.len(), 3);
    let mut last = None;
    for d in &defs {
        assert!(!d.name.is_empty());
        let s = position_to_offset(text, &d.selection_range.start);
        let e = position_to_offset(text, &d.selection_range.end);
        assert_eq!(&text[s..e], d.name);
        let fs = position_to_offset(text, &d.range.start);
        let fe = position_to_offset(text, &d.range.end);
        assert_eq!(text.as_bytes()[fs], b'(');
        assert!(fs < s && e <= fe);
        if let Some(prev) = last {
            assert!(prev < fs);
        }
        last = Some(fs);
    }
}

#[test]
fn the_definition_search_agrees_with_the_scan() {
    let text = "(define (a) 1)\n(define (b x) (a))\n(define c 2)";
    for name in ["a", "b", "c"] {
        let d = scan_defines(text).into_iter().find(|d| d.name == name).unwrap();
        let r = find_definition_in_text(text, name).unwrap();
        assert_eq!(r.start, d.range.start);
        assert_eq!(r.end, d.selection_range.end);
    }
}

#[test]
fn the_called_symbol_follows_the_nearest_open_paren() {
    // The nearest `(` still open at the cursor is the one before `bar`.
    assert_eq!(called_symbol_before("(foo (bar 1", &pos(0, 11)), Some("bar".into()));
    // Once `(bar 1)` is closed, the nearest open `(` is the outer one.
    assert_eq!(called_symbol_before("(foo (bar 1) ", &pos(0, 13)), Some("foo".into()));
    // Every `(` is closed: no call.
    assert!(called_symbol_before("(a) (b) ", &pos(0, 8)).is_none());
    // The open `(` is followed by no symbol.
    assert!(called_symbol_before("( (x) ", &pos(0, 6)).is_none());
}

#[test]
fn references_are_found_wherever_code_resumes() {
    let text = "(foo \"a \\\" foo\" foo) ; foo\nfoo \"foo";
    let refs = find_references_in_text(text, "foo");
    assert_eq!(refs.len(), 3);
    assert_eq!(refs[0].start, pos(0, 1));
    assert_eq!(refs[1].start, pos(0, 16));
    assert_eq!(refs[2].start, pos(1, 0));
}
