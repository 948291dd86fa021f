use mr_guile_lsp_server::backend::{
    check_syntax_request, choose_root, completion_labels, completion_prefix, completions_request,
    definition_request, diagnostics_from_reply, documentation_request, geiser_location,
    geiser_start_line, hover_markdown, is_scheme_extension, is_skipped_dir_name,
    load_file_request, pick_definition, query_matches, reply_text, scheme_string, signature_request,
    signature_symbol, workspace_symbols, WorkspaceWalk, MAX_FILES,
};
use mr_guile_lsp_server::diagnostics::DiagnosticSeverity;
use mr_guile_lsp_server::guile::ReplError;
use mr_guile_lsp_server::parser::{parse, SExpr};
use mr_guile_lsp_server::position::Position;

fn reply(text: &str) -> Option<Result<SExpr, ReplError>> {
    Some(Ok(parse(text).expect("reply parses")))
}

#[test]
fn scheme_string_escapes_quotes_and_backslashes() {
    assert_eq!(scheme_string("plain"), "\"plain\"");
    assert_eq!(scheme_string("a\"b\\c"), "\"a\\\"b\\\\c\"");
    assert_eq!(scheme_string(""), "\"\"");
    assert_eq!(scheme_string("中"), "\"中\"");
}

#[test]
fn requests_quote_their_argument() {
    assert_eq!(completions_request("disp"), "(lsp-completions \"disp\")");
    assert_eq!(
        documentation_request("map"),
        "(lsp-documentation (string->symbol \"map\"))"
    );
    assert_eq!(signature_request("map"), "(lsp-signature (string->symbol \"map\"))");
    assert_eq!(
        definition_request("beta"),
        "(lsp-find-definition (string->symbol \"beta\"))"
    );
    assert_eq!(load_file_request("/tmp/a.scm"), "(lsp-load-file \"/tmp/a.scm\")");
    assert_eq!(
        check_syntax_request("C:\\x.scm"),
        "(lsp-check-syntax \"C:\\\\x.scm\")"
    );
}

#[test]
fn completion_labels_keep_the_strings_of_a_list() {
    let labels = completion_labels(reply("(\"display\" sym 3 \"display*\")")).unwrap();
    assert_eq!(labels, vec!["display".to_string(), "display*".to_string()]);
    assert_eq!(completion_labels(reply("()")), Some(vec![]));
    assert_eq!(completion_labels(reply("\"display\"")), None);
    assert_eq!(completion_labels(Some(Err(ReplError::Eof))), None);
    assert_eq!(completion_labels(None), None);
}

#[test]
fn reply_text_takes_non_empty_strings() {
    assert_eq!(reply_text(reply("\"Say hi\"")), Some("Say hi".to_string()));
    assert_eq!(reply_text(reply("\"\"")), None);
    assert_eq!(reply_text(reply("#f")), None);
    assert_eq!(reply_text(None), None);
}

#[test]
fn hover_prefers_documentation_then_signature() {
    assert_eq!(
        hover_markdown("greet", Some("Say hi".into()), Some("(greet name)".into())),
        Some("`greet` — Say hi".to_string())
    );
    assert_eq!(
        hover_markdown("greet", None, Some("(greet name)".into())),
        Some("`(greet name)`".to_string())
    );
    assert_eq!(hover_markdown("greet", None, None), None);
}

#[test]
fn completion_prefix_needs_a_typed_prefix() {
    assert_eq!(completion_prefix("(disp", &Position::new(0, 5)), Some("disp".to_string()));
    assert_eq!(completion_prefix("(disp", &Position::new(0, 1)), None);
    assert_eq!(completion_prefix("", &Position::new(0, 0)), None);
}

#[test]
fn signature_symbol_falls_back_to_the_call() {
    assert_eq!(signature_symbol("(foo a b)", &Position::new(0, 5)), Some("a".to_string()));
    assert_eq!(signature_symbol("(foo a b)", &Position::new(0, 6)), Some("foo".to_string()));
    assert_eq!(signature_symbol("x y", &Position::new(0, 1)), None);
}

#[test]
fn geiser_location_reads_line_and_file() {
    let loc = geiser_location(reply("((\"file\" . \"/src/a.scm\") (\"line\" . 12))")).unwrap();
    assert_eq!(loc.line, "12");
    assert_eq!(loc.file, Some("/src/a.scm".to_string()));
    let loc = geiser_location(reply("((\"file\" . \"\") (\"line\" . 3))")).unwrap();
    assert_eq!(loc.file, None);
    let loc = geiser_location(reply("((\"file\" . #f) (\"line\" . 3))")).unwrap();
    assert_eq!(loc.file, None);
    assert!(geiser_location(reply("#f")).is_none());
    assert!(geiser_location(reply("((\"file\" . \"/a\") (\"line\" . \"x\"))")).is_none());
    assert!(geiser_location(reply("((\"file\" . \"/a\"))")).is_none());
    assert!(geiser_location(Some(Err(ReplError::Eof))).is_none());
}

#[test]
fn geiser_lines_become_zero_based() {
    assert_eq!(geiser_start_line(12), 11);
    assert_eq!(geiser_start_line(1), 0);
    assert_eq!(geiser_start_line(0), 0);
}

#[test]
fn syntax_check_replies_become_diagnostics() {
    let text = "(define (broken)\n  undefined-symbol-here)\n";
    let r = reply(
        "((\"warnings\" . \";;; /x.scm:2:3: warning: possibly unbound variable `undefined-symbol-here'\\n\") (\"error\" . #f))",
    );
    let diags = diagnostics_from_reply(text, r);
    assert_eq!(diags.len(), 1);
    assert_eq!(diags[0].range.start, Position::new(1, 2));
    assert_eq!(diags[0].range.end, Position::new(1, 23));
    assert_eq!(diags[0].severity, Some(DiagnosticSeverity::WARNING));

    let r = reply("((\"warnings\" . \"\") (\"error\" . \"/x.scm:3:1: unexpected end of input\"))");
    let diags = diagnostics_from_reply("(f\n\n", r);
    assert_eq!(diags.len(), 1);
    assert_eq!(diags[0].severity, Some(DiagnosticSeverity::ERROR));
    assert_eq!(diags[0].range.start.line, 2);

    assert!(diagnostics_from_reply(text, Some(Err(ReplError::Eof))).is_empty());
    assert!(diagnostics_from_reply(text, None).is_empty());
    assert!(diagnostics_from_reply(text, reply("#f")).is_empty());
}

#[test]
fn queries_match_by_substring() {
    assert!(query_matches("", "anything"));
    assert!(query_matches("name", "unique-name-fn"));
    assert!(query_matches("unique-name-fn", "unique-name-fn"));
    assert!(!query_matches("names", "unique-name-fn"));
    assert!(!query_matches("x", ""));
}

#[test]
fn workspace_symbols_ignore_case() {
    let content = "(define (Unique-Name-Fn a) a)\n(define other 1)";
    let found = workspace_symbols(content, "UNIQUE");
    assert_eq!(found.len(), 1);
    assert_eq!(found[0].name, "Unique-Name-Fn");
    assert_eq!(workspace_symbols(content, "").len(), 2);
    assert!(workspace_symbols(content, "missing").is_empty());
}

#[test]
fn walk_filters_directories_and_extensions() {
    assert!(is_skipped_dir_name(".git"));
    assert!(is_skipped_dir_name("target"));
    assert!(is_skipped_dir_name("node_modules"));
    assert!(!is_skipped_dir_name("src"));
    assert!(!is_skipped_dir_name("targets"));
    assert!(is_scheme_extension("scm"));
    assert!(is_scheme_extension("sld"));
    assert!(!is_scheme_extension("rs"));
    assert!(!is_scheme_extension("SCM"));
}

#[test]
fn walk_visits_directories_depth_first() {
    let mut w = WorkspaceWalk::new("root".to_string());
    assert_eq!(w.next_dir(), Some("root".to_string()));
    w.add_entry("root/a.scm".to_string(), false, Some("a.scm"), Some("scm"));
    w.add_entry("root/.git".to_string(), true, Some(".git"), None);
    w.add_entry("root/lib".to_string(), true, Some("lib"), None);
    w.add_entry("root/notes.txt".to_string(), false, Some("notes.txt"), Some("txt"));
    assert_eq!(w.next_dir(), Some("root/lib".to_string()));
    w.add_entry("root/lib/b.ss".to_string(), false, Some("b.ss"), Some("ss"));
    assert_eq!(w.next_dir(), None);
    assert_eq!(w.into_files(), vec!["root/a.scm".to_string(), "root/lib/b.ss".to_string()]);
}

#[test]
fn walk_stops_collecting_at_the_cap() {
    let mut w = WorkspaceWalk::new(0usize);
    for i in 0..(MAX_FILES + 5) {
        w.add_entry(i, false, None, Some("scm"));
    }
    assert_eq!(w.into_files().len(), MAX_FILES);
}

#[test]
fn the_first_named_root_wins() {
    assert_eq!(choose_root(Some(1), Some(2), Some(3)), Some(1));
    assert_eq!(choose_root(None, Some(2), Some(3)), Some(2));
    assert_eq!(choose_root(None, None, Some(3)), Some(3));
    assert_eq!(choose_root::<i32>(None, None, None), None);
}

#[test]
fn scheme_strings_read_back_through_the_parser() {
    for s in ["", "plain", "a\"b", "back\\slash", "line\nbreak", "中文 \\\" mix", "\\"] {
        assert_eq!(parse(&scheme_string(s)), Ok(SExpr::Str(s.to_string())), "{s:?}");
    }
}

#[test]
fn the_document_then_the_workspace_then_the_repl_answer() {
    assert_eq!(pick_definition(Some("doc"), Some("ws"), Some("repl")), Some("doc"));
    assert_eq!(pick_definition(None, Some("ws"), Some("repl")), Some("ws"));
    assert_eq!(pick_definition(None, None, Some("repl")), Some("repl"));
    assert_eq!(pick_definition::<&str>(None, None, None), None);
}
