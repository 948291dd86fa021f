//! The Guile REPL's reply protocol.
//!
//! The REPL (running `lsp-serve`) answers each one-line request with the
//! `write`-formatted result over one or more lines, then a line holding only
//! the `%%LSP-DONE%%` sentinel. A `ResponseReader` takes those lines one by
//! one, as the reader of the process's output hands them over, and gathers the
//! reply; the whole reply is then parsed with [`crate::parser`].
use vstd::prelude::*;
use vstd::string::{StringExecFns, StringSliceAdditionalSpecFns};
use crate::diagnostics::{chars_equal, chars_of, string_of};
use crate::parser::{parse_checked, parse_outcome, ParseError, ParseErrorV, SExpr, Step};

verus! {

#[verifier::external_type_specification]
#[verifier::external_body]
pub struct ExIoError(std::io::Error);

/// Errors that can arise while talking to the Guile subprocess.
#[derive(Debug)]
pub enum ReplError {
    Io(std::io::Error),
    Eof,
    Parse(ParseError),
}

impl From<std::io::Error> for ReplError {
    fn from(e: std::io::Error) -> (r: Self) {
        ReplError::Io(e)
    }
}

impl vstd::std_specs::convert::FromSpecImpl<std::io::Error> for ReplError {
    open spec fn obeys_from_spec() -> bool {
        true
    }

    open spec fn from_spec(v: std::io::Error) -> ReplError {
        ReplError::Io(v)
    }
}

impl From<ParseError> for ReplError {
    fn from(e: ParseError) -> (r: Self) {
        ReplError::Parse(e)
    }
}

impl vstd::std_specs::convert::FromSpecImpl<ParseError> for ReplError {
    open spec fn obeys_from_spec() -> bool {
        true
    }

    open spec fn from_spec(v: ParseError) -> ReplError {
        ReplError::Parse(v)
    }
}

/// The end-of-response marker emitted by `lsp-serve`.
pub open spec fn sentinel() -> Seq<char> {
    "%%LSP-DONE%%"@
}

/// A line without its trailing `\n` and `\r` characters (all of them).
pub open spec fn trim_line_end(s: Seq<char>) -> Seq<char>
    decreases s.len(),
{
    if s.len() > 0 && (s.last() == '\n' || s.last() == '\r') {
        trim_line_end(s.drop_last())
    } else {
        s
    }
}

/// The reply gathered so far with one more line: lines are joined by `\n`,
/// and nothing is put before the first non-empty text.
pub open spec fn join_line(reply: Seq<char>, line: Seq<char>) -> Seq<char> {
    if reply.len() == 0 {
        line
    } else {
        reply.push('\n') + line
    }
}

/// What became of one line handed to a `ResponseReader`.
#[derive(Clone, Copy, Debug, PartialEq, Eq, Structural)]
pub enum LineStep {
    /// The line was part of the reply; more lines follow.
    More,
    /// The output ended before the sentinel (the subprocess exited).
    Eof,
    /// The line was the sentinel: the reply is complete.
    Complete,
}

/// Gathers the lines of one reply of the REPL.
pub struct ResponseReader {
    reply: Vec<char>,
}

impl View for ResponseReader {
    type V = Seq<char>;

    closed spec fn view(&self) -> Seq<char> {
        self.reply@
    }
}

/// `s` without its trailing `\n` and `\r` characters.
fn trimmed_line(s: &str) -> (t: Vec<char>)
    ensures
        t@ == trim_line_end(s@),
{
    let v = chars_of(s);
    let mut e: usize = v.len();
    assert(v@.take(v@.len() as int) =~= v@);
    while e > 0 && (v[e - 1] == '\n' || v[e - 1] == '\r')
        invariant
            e <= v@.len(),
            trim_line_end(v@.take(e as int)) == trim_line_end(v@),
        decreases e,
    {
        assert(v@.take(e as int).drop_last() =~= v@.take(e - 1));
        e = e - 1;
    }
    assert(v@.take(v@.len() as int) =~= v@);
    let mut t: Vec<char> = Vec::new();
    let mut k: usize = 0;
    while k < e
        invariant
            k <= e <= v@.len(),
            t@ == v@.take(k as int),
        decreases e - k,
    {
        t.push(v[k]);
        assert(v@.take(k + 1) =~= v@.take(k as int).push(v@[k as int]));
        k = k + 1;
    }
    t
}

impl ResponseReader {
    pub fn new() -> (r: Self)
        ensures
            r@ == Seq::<char>::empty(),
    {
        ResponseReader { reply: Vec::new() }
    }

    /// Take the next line of output as read, line ending included; `None`
    /// stands for the end of the output.
    pub fn accept_line(&mut self, line: Option<&str>) -> (step: LineStep)
        ensures
            line is None ==> step == LineStep::Eof && final(self)@ == old(self)@,
            line matches Some(l) ==> (if trim_line_end(l@) == sentinel() {
                step == LineStep::Complete && final(self)@ == old(self)@
            } else {
                step == LineStep::More && final(self)@ == join_line(old(self)@, trim_line_end(l@))
            }),
    {
        match line {
            None => LineStep::Eof,
            Some(l) => {
                let t = trimmed_line(l);
                let marker = chars_of("%%LSP-DONE%%");
                if chars_equal(&t, &marker) {
                    LineStep::Complete
                } else {
                    if self.reply.len() > 0 {
                        self.reply.push('\n');
                    }
                    let mut k: usize = 0;
                    let ghost start = self.reply@;
                    while k < t.len()
                        invariant
                            k <= t@.len(),
                            self.reply@ == start + t@.take(k as int),
                        decreases t@.len() - k,
                    {
                        self.reply.push(t[k]);
                        assert(t@.take(k + 1) =~= t@.take(k as int).push(t@[k as int]));
                        k = k + 1;
                    }
                    assert(t@.take(t@.len() as int) =~= t@);
                    LineStep::More
                }
            },
        }
    }

    /// The reply gathered so far, as one string.
    pub fn reply(&self) -> (s: String)
        ensures
            s@ == self@,
    {
        string_of(&self.reply)
    }

    /// The parsed reply, a parse failure becoming `ReplError::Parse`: `None` on
    /// the replies on which the parser panics (see [`parse_checked`]).
    pub fn result(&self) -> (r: Option<Result<SExpr, ReplError>>)
        ensures
            r is None <==> parse_outcome(encoded(self@)) is Panic,
            parse_outcome(encoded(self@)) matches Step::Done(v, _) ==> r matches Some(Ok(e))
                && e@ == v,
            parse_outcome(encoded(self@)) matches Step::Fail(err) ==> r matches Some(
                Err(ReplError::Parse(e)),
            ) && e@ == err,
    {
        let s = self.reply();
        match parse_checked(s.as_str()) {
            Some(Ok(e)) => Some(Ok(e)),
            Some(Err(e)) => Some(Err(ReplError::from(e))),
            None => None,
        }
    }
}

/// The UTF-8 bytes of a text.
pub open spec fn encoded(s: Seq<char>) -> Seq<u8> {
    vstd::utf8::encode_utf8(s)
}

/// Trusted: the `Display` text of an `std::io::Error` (`ToString::to_string`).
/// What the text says depends on the error and the platform, so nothing is
/// claimed of it.
#[verifier::external_body]
fn io_error_text(e: &std::io::Error) -> String {
    e.to_string()
}

/// What `<str as Debug>::fmt` writes for a text: the text in double quotes,
/// with quotes, backslashes and unprintable characters escaped.
pub uninterp spec fn debug_quoted(s: Seq<char>) -> Seq<char>;

/// Trusted: `<str as Debug>::fmt` through `format!("{:?}")`, whose text is
/// named by [`debug_quoted`].
#[verifier::external_body]
fn str_debug(s: &str) -> (r: String)
    ensures
        r@ == debug_quoted(s@),
{
    format!("{:?}", s)
}

/// The `Debug` text of a parse error, as `#[derive(Debug)]` writes it.
pub open spec fn parse_error_debug(e: ParseErrorV) -> Seq<char> {
    match e {
        ParseErrorV::Unexpected(s) => "Unexpected("@ + debug_quoted(s) + ")"@,
        ParseErrorV::UnterminatedString => "UnterminatedString"@,
        ParseErrorV::UnterminatedList => "UnterminatedList"@,
        ParseErrorV::Eof => "Eof"@,
    }
}

/// The `Debug` text of a parse error (see [`parse_error_debug`]).
pub fn parse_error_text(e: &ParseError) -> (r: String)
    ensures
        r@ == parse_error_debug(e@),
{
    match e {
        ParseError::Unexpected(s) => {
            let mut r = String::from_str("Unexpected(");
            let q = str_debug(s.as_str());
            r.append(q.as_str());
            r.append(")");
            r
        },
        ParseError::UnterminatedString => String::from_str("UnterminatedString"),
        ParseError::UnterminatedList => String::from_str("UnterminatedList"),
        ParseError::Eof => String::from_str("Eof"),
    }
}

impl ReplError {
    /// What the error says to a reader of the log: `io error: ` and the I/O
    /// error's text; that the REPL reached the end of its output; or
    /// `could not parse repl response: ` and the parse error's `Debug` text.
    pub fn message(&self) -> (r: String)
        ensures
            self matches ReplError::Io(_) ==> exists|t: Seq<char>| r@ == "io error: "@ + t,
            self matches ReplError::Eof ==> r@ == "repl reached eof (subprocess exited)"@,
            self matches ReplError::Parse(e) ==> r@ == "could not parse repl response: "@
                + parse_error_debug(e@),
    {
        match self {
            ReplError::Io(e) => {
                let mut r = String::from_str("io error: ");
                let t = io_error_text(e);
                r.append(t.as_str());
                r
            },
            ReplError::Eof => String::from_str("repl reached eof (subprocess exited)"),
            ReplError::Parse(e) => {
                let mut r = String::from_str("could not parse repl response: ");
                let t = parse_error_text(e);
                r.append(t.as_str());
                r
            },
        }
    }
}

} // verus!
