use mr_guile_lsp_server::guile::{LineStep, ReplError, ResponseReader};
use mr_guile_lsp_server::parser::{ParseError, SExpr};

#[test]
fn a_reply_ends_at_the_sentinel() {
    let mut r = ResponseReader::new();
    assert_eq!(r.accept_line(Some("(\"display\"\n")), LineStep::More);
    assert_eq!(r.accept_line(Some(" \"display*\")\r\n")), LineStep::More);
    assert_eq!(r.accept_line(Some("%%LSP-DONE%%\n")), LineStep::Complete);
    assert_eq!(r.reply(), "(\"display\"\n \"display*\")");
    match r.result() {
        Some(Ok(SExpr::List(items))) => assert_eq!(items.len(), 2),
        other => panic!("expected a list, got {other:?}"),
    }
}

#[test]
fn the_sentinel_counts_without_a_line_ending() {
    let mut r = ResponseReader::new();
    assert_eq!(r.accept_line(Some("#f\n")), LineStep::More);
    assert_eq!(r.accept_line(Some("%%LSP-DONE%%")), LineStep::Complete);
    assert_eq!(r.result().unwrap().unwrap(), SExpr::Bool(false));
}

#[test]
fn end_of_output_before_the_sentinel_is_eof() {
    let mut r = ResponseReader::new();
    assert_eq!(r.accept_line(Some("(partial\n")), LineStep::More);
    assert_eq!(r.accept_line(None), LineStep::Eof);
    assert_eq!(r.reply(), "(partial");
}

#[test]
fn leading_empty_lines_add_no_newline() {
    let mut r = ResponseReader::new();
    assert_eq!(r.accept_line(Some("\n")), LineStep::More);
    assert_eq!(r.accept_line(Some("\"x\"\n")), LineStep::More);
    assert_eq!(r.reply(), "\"x\"");
}

#[test]
fn an_unparsable_reply_is_a_parse_error() {
    let mut r = ResponseReader::new();
    r.accept_line(Some("(a b\n"));
    r.accept_line(Some("%%LSP-DONE%%\n"));
    match r.result() {
        Some(Err(ReplError::Parse(ParseError::UnterminatedList))) => {}
        other => panic!("expected a parse error, got {other:?}"),
    }
}

#[test]
fn an_empty_reply_is_an_eof_parse_error() {
    let mut r = ResponseReader::new();
    r.accept_line(Some("%%LSP-DONE%%\n"));
    assert!(matches!(r.result(), Some(Err(ReplError::Parse(ParseError::Eof)))));
}

#[test]
fn errors_convert_from_their_sources() {
    let e: ReplError = ParseError::Eof.into();
    assert!(matches!(e, ReplError::Parse(ParseError::Eof)));
    let io = std::io::Error::new(std::io::ErrorKind::BrokenPipe, "pipe");
    let e: ReplError = io.into();
    assert!(matches!(e, ReplError::Io(_)));
}

#[test]
fn error_messages_match_their_display_text() {
    assert_eq!(ReplError::Eof.message(), "repl reached eof (subprocess exited)");
    assert_eq!(
        ReplError::Parse(ParseError::Eof).message(),
        "could not parse repl response: Eof"
    );
    let e = ParseError::Unexpected("#x \"y\"".into());
    assert_eq!(
        ReplError::Parse(e.clone()).message(),
        format!("could not parse repl response: {e:?}")
    );
    let io = std::io::Error::new(std::io::ErrorKind::BrokenPipe, "pipe closed");
    assert_eq!(ReplError::Io(io).message(), "io error: pipe closed");
}
