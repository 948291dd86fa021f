use mr_guile_lsp_server::diagnostics::{
    build_diagnostics, parse_compile_output, parse_error_output, DiagnosticSeverity, RawDiag,
};

#[test]
fn parses_unbound_variable_warning() {
    let raw = ";;; /tmp/x.scm:2:2: warning: possibly unbound variable `foo'\n";
    let diags = parse_compile_output(raw);
    assert_eq!(diags.len(), 1);
    assert_eq!(
        diags[0],
        RawDiag {
            line: 1,
            col: 1,
            severity: DiagnosticSeverity::WARNING,
            message: "possibly unbound variable `foo'".to_string(),
        }
    );
}

#[test]
fn parses_multiple_lines() {
    let raw = "\
;;; /x.scm:1:1: warning: a
;;; /x.scm:3:8: warning: b
;;; /x.scm:5:0: error: c
";
    let diags = parse_compile_output(raw);
    assert_eq!(diags.len(), 3);
    assert_eq!(diags[0].line, 0);
    assert_eq!(diags[1].line, 2);
    assert_eq!(diags[1].col, 7);
    assert_eq!(diags[2].severity, DiagnosticSeverity::ERROR);
    assert_eq!(diags[2].line, 4);
}

#[test]
fn ignores_non_diagnostic_lines() {
    let raw = "\
;;; compiling /x.scm
;;; compiled /home/u/.cache/.../x.scm.go
;;; /x.scm:1:1: warning: real warning
";
    let diags = parse_compile_output(raw);
    assert_eq!(diags.len(), 1);
    assert_eq!(diags[0].message, "real warning");
}

#[test]
fn empty_input_yields_nothing() {
    assert!(parse_compile_output("").is_empty());
}

#[test]
fn build_diagnostics_ranges_span_the_identifier() {
    let text = "(define (broken)\n  undefined-symbol-here)\n";
    // Guile reports col 3 (1-based) on line 2 (1-based) -> 0-based (1, 2).
    let raw = ";;; /x.scm:2:3: warning: possibly unbound variable `undefined-symbol-here'\n";
    let diags = build_diagnostics(text, raw, None);
    assert_eq!(diags.len(), 1);
    let d = &diags[0];
    assert_eq!(d.range.start.line, 1);
    assert_eq!(d.range.start.character, 2);
    // The identifier `undefined-symbol-here` (21 chars) starts at col 2.
    assert_eq!(d.range.end.line, 1);
    assert_eq!(d.range.end.character, 2 + 21);
    assert_eq!(d.severity, Some(DiagnosticSeverity::WARNING));
    assert_eq!(d.source.as_deref(), Some("guile"));
    assert!(d.message.contains("unbound"));
}

#[test]
fn build_diagnostics_empty_when_no_warnings() {
    let diags = build_diagnostics("(display 1)", "", None);
    assert!(diags.is_empty());
}

#[test]
fn parse_error_output_handles_unbalanced_parens() {
    let raw = "/x.scm:3:1: unexpected end of input while searching for: )";
    let d = parse_error_output(raw).expect("parsed");
    assert_eq!(d.line, 2);
    assert_eq!(d.col, 0);
    assert_eq!(d.severity, DiagnosticSeverity::ERROR);
    assert!(d.message.starts_with("unexpected end of input"));
}

#[test]
fn build_diagnostics_includes_compile_error() {
    let text = "(define (f)\n  (display \"hi\")\n";
    let err = "/x.scm:3:1: unexpected end of input while searching for: )";
    let diags = build_diagnostics(text, "", Some(err));
    assert_eq!(diags.len(), 1);
    assert_eq!(diags[0].severity, Some(DiagnosticSeverity::ERROR));
    assert_eq!(diags[0].range.start.line, 2);
}

#[test]
fn line_zero_is_kept_at_zero() {
    let diags = parse_compile_output(";;; /x.scm:0:0: warning: w\n");
    assert_eq!(diags.len(), 1);
    assert_eq!(diags[0].line, 0);
    assert_eq!(diags[0].col, 0);
}

#[test]
fn a_line_without_a_kind_is_ignored() {
    assert!(parse_compile_output(";;; /x.scm:1:1: note: n\n").is_empty());
    // The `;;;` markers are optional.
    assert_eq!(parse_compile_output("/x.scm:1:1: warning: w\n").len(), 1);
}

#[test]
fn error_output_without_a_location_is_none() {
    assert!(parse_error_output("no location here").is_none());
    assert!(parse_error_output("").is_none());
}

#[test]
fn a_diagnostic_past_the_text_ends_at_its_end() {
    let diags = build_diagnostics("(f)", ";;; /x.scm:9:1: warning: far\n", None);
    assert_eq!(diags.len(), 1);
    assert_eq!(diags[0].range.start.line, 8);
    assert_eq!(diags[0].range.end.line, 0);
    assert_eq!(diags[0].range.end.character, 3);
}

#[test]
fn joined_outputs_give_joined_diagnostics() {
    let a = ";;; /x.scm:1:1: warning: a\n;;; compiling";
    let b = ";;; C:/y.scm:2:3: error: b\n";
    let joined = parse_compile_output(&format!("{a}\n{b}"));
    let mut apart = parse_compile_output(a);
    apart.extend(parse_compile_output(b));
    assert_eq!(joined, apart);
    assert_eq!(joined.len(), 2);
}

#[test]
fn the_path_ends_at_the_first_line_col_colon() {
    let d = parse_error_output("C:/x.scm:2:3: m").expect("parsed");
    assert_eq!((d.line, d.col), (1, 2));
    assert_eq!(d.message, "m");
    let d = parse_error_output("/a:b/9:1:4:5: n").expect("parsed");
    assert_eq!((d.line, d.col), (0, 3));
    assert_eq!(d.message, "5: n");
}
