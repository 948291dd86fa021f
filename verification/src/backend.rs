//! The decisions of the language server's handlers: the requests they send to
//! the Guile REPL, how they read its replies, and how they pick what to
//! answer. The protocol plumbing, the REPL process and the file system stay
//! with the caller, which hands these functions plain values.
use vstd::prelude::*;
use vstd::string::{StringExecFns, StringSliceAdditionalSpecFns};
use vstd::utf8::*;
use crate::diagnostics::{
    build_diagnostics, chars_of, place_diag, raw_diags, string_of, Diagnostic, RawDiagV,
};
use crate::guile::ReplError;
use crate::parser::{alist_scan, escape_char, parse_outcome, sexprs_view, string_body, utf8_width, SExpr, SExprV, Step};
use crate::position::{lines_fit, offset_of, Position};
use crate::text::{
    BACKSLASH, QUOTE, call_scan, called_symbol_before, called_symbol_spec, scan_defines, scan_from, symbol_at,
    symbol_at_spec, symbol_prefix_at, symbol_prefix_at_spec, DefineInfo, DefineView,
};

verus! {

/// How one character is written inside a Guile string literal.
pub open spec fn escape_char_seq(c: char) -> Seq<char> {
    if c == '"' {
        seq!['\\', '"']
    } else if c == '\\' {
        seq!['\\', '\\']
    } else {
        seq![c]
    }
}

/// The characters of a text with `"` and `\` escaped.
pub open spec fn escaped(s: Seq<char>) -> Seq<char>
    decreases s.len(),
{
    if s.len() == 0 {
        seq![]
    } else {
        escaped(s.drop_last()) + escape_char_seq(s.last())
    }
}

/// A text as a Guile string literal.
pub open spec fn scheme_literal(s: Seq<char>) -> Seq<char> {
    seq!['"'] + escaped(s) + seq!['"']
}

/// Render `s` as a Guile string literal (escape `"` and `\`).
pub fn scheme_string(s: &str) -> (r: String)
    ensures
        r@ == scheme_literal(s@),
{
    let cs = chars_of(s);
    let mut out: Vec<char> = Vec::new();
    out.push('"');
    let mut k: usize = 0;
    while k < cs.len()
        invariant
            k <= cs@.len(),
            out@ == seq!['"'] + escaped(cs@.take(k as int)),
        decreases cs@.len() - k,
    {
        let c = cs[k];
        assert(cs@.take(k + 1).drop_last() =~= cs@.take(k as int));
        if c == '"' {
            out.push('\\');
            out.push('"');
        } else if c == '\\' {
            out.push('\\');
            out.push('\\');
        } else {
            out.push(c);
        }
        assert(out@ =~= seq!['"'] + escaped(cs@.take(k + 1)));
        k = k + 1;
    }
    assert(cs@.take(cs@.len() as int) =~= cs@);
    out.push('"');
    assert(out@ =~= scheme_literal(s@));
    string_of(&out)
}

/// The UTF-8 encoding of two texts one after the other is the encodings one
/// after the other.
proof fn lemma_encode_concat(a: Seq<char>, c: Seq<char>)
    ensures
        encode_utf8(a + c) == encode_utf8(a) + encode_utf8(c),
    decreases a.len(),
{
    if a.len() == 0 {
        assert(a + c =~= c);
        assert(encode_utf8(a) =~= Seq::<u8>::empty());
        assert(encode_utf8(a) + encode_utf8(c) =~= encode_utf8(c));
    } else {
        assert((a + c).drop_first() =~= a.drop_first() + c);
        assert((a + c)[0] == a[0]);
        lemma_encode_concat(a.drop_first(), c);
        assert(encode_utf8(a + c) =~= encode_utf8(a) + encode_utf8(c));
    }
}

/// Escaping works character by character from the front too.
proof fn lemma_escaped_first(s: Seq<char>)
    requires
        s.len() > 0,
    ensures
        escaped(s) == escape_char_seq(s[0]) + escaped(s.drop_first()),
    decreases s.len(),
{
    if s.len() == 1 {
        assert(s.drop_last() =~= Seq::<char>::empty());
        assert(s.drop_first() =~= Seq::<char>::empty());
        assert(escaped(s) =~= escape_char_seq(s[0]) + escaped(s.drop_first()));
    } else {
        lemma_escaped_first(s.drop_last());
        assert(s.drop_last().drop_first() =~= s.drop_first().drop_last());
        assert(s.drop_last()[0] == s[0]);
        assert(s.drop_first().last() == s.last());
        assert(escaped(s) =~= escape_char_seq(s[0]) + escaped(s.drop_first()));
    }
}

/// The encoding of one character starts with a byte that announces its width,
/// which is neither `"` nor `\` unless the character is.
proof fn lemma_encode_one(c: char)
    ensures
        encode_utf8(seq![c]).len() > 0,
        utf8_width(encode_utf8(seq![c])[0]) == encode_utf8(seq![c]).len(),
        (encode_utf8(seq![c])[0] == QUOTE) == (c == '"'),
        (encode_utf8(seq![c])[0] == BACKSLASH) == (c == '\\'),
        valid_utf8(encode_utf8(seq![c])),
        decode_utf8(encode_utf8(seq![c])) == seq![c],
{
    let e = encode_utf8(seq![c]);
    encode_utf8_first_scalar(seq![c]);
    encode_utf8_valid_utf8(seq![c]);
    encode_utf8_decode_utf8(seq![c]);
    assert(seq![c].drop_first() =~= Seq::<char>::empty());
    assert(encode_utf8(Seq::<char>::empty()) =~= Seq::<u8>::empty());
    assert(seq![c][0] == c);
    assert(e =~= encode_scalar(c as u32) + encode_utf8(Seq::<char>::empty()));
    assert(e =~= encode_scalar(c as u32));
    let b0 = e[0];
    if is_leading_byte_width_1(b0) {
        let v = c as u32;
        assert(decode_first_codepoint(e) == codepoint_width_1(b0));
        assert(codepoint_width_1(b0) == b0 as u32) by (bit_vector)
            requires
                0 <= b0 <= 0x7f,
        ;
        assert(v == b0 as u32);
        assert((b0 == 34u8) == (v == 34u32));
        assert((b0 == 92u8) == (v == 92u32));
    }
}

/// Reading the body of a string literal that holds the escaped text `t`
/// (then its closing quote) gives `t` back.
proof fn lemma_string_body_escaped(b: Seq<u8>, p: int, t: Seq<char>, acc: Seq<char>)
    requires
        0 <= p,
        p + encode_utf8(escaped(t)).len() < b.len(),
        b.subrange(p, p + encode_utf8(escaped(t)).len()) == encode_utf8(escaped(t)),
        b[p + encode_utf8(escaped(t)).len()] == QUOTE,
    ensures
        string_body(b, p, acc) == Step::Done(
            SExprV::Str(acc + t),
            p + encode_utf8(escaped(t)).len() + 1,
        ),
    decreases t.len(),
{
    let e = encode_utf8(escaped(t));
    if t.len() == 0 {
        assert(acc + t =~= acc);
        assert(escaped(t) =~= Seq::<char>::empty());
        assert(e.len() == 0);
    } else {
        let c = t[0];
        let rest = t.drop_first();
        lemma_escaped_first(t);
        lemma_encode_concat(escape_char_seq(c), escaped(rest));
        let head = encode_utf8(escape_char_seq(c));
        let er = encode_utf8(escaped(rest));
        assert(e == head + er);
        let n = head.len();
        assert(b.subrange(p, p + n) =~= head) by {
            assert forall|k: int| 0 <= k < n implies b.subrange(p, p + n)[k] == head[k] by {
                assert(b.subrange(p, p + e.len())[k] == e[k]);
            }
        }
        assert(b.subrange(p + n, p + n + er.len()) =~= er) by {
            assert forall|k: int| 0 <= k < er.len() implies b.subrange(p + n, p + n + er.len())[k]
                == er[k] by {
                assert(b.subrange(p, p + e.len())[n + k] == e[n + k]);
            }
        }
        if c == '"' || c == '\\' {
            let bs = '\\';
            assert(escape_char_seq(c) == seq![bs, c]);
            lemma_encode_concat(seq![bs], seq![c]);
            assert(seq![bs] + seq![c] =~= seq![bs, c]);
            lemma_encode_one(bs);
            lemma_encode_one(c);
            assert(encode_utf8(seq![bs]) =~= seq![BACKSLASH]);
            assert(c == '"' ==> encode_utf8(seq![c]) =~= seq![QUOTE]);
            assert(c == '\\' ==> encode_utf8(seq![c]) =~= seq![BACKSLASH]);
            assert(n == 2);
            assert(b[p] == head[0]);
            assert(b[p + 1] == head[1]);
            assert(escape_char(b[p + 1]) == c);
            lemma_string_body_escaped(b, p + 2, rest, acc.push(c));
            assert(acc.push(c) + rest =~= acc + t);
        } else {
            assert(escape_char_seq(c) == seq![c]);
            lemma_encode_one(c);
            assert(b[p] == head[0]);
            assert(b.subrange(p, p + utf8_width(b[p])) == head);
            lemma_string_body_escaped(b, p + n, rest, acc + seq![c]);
            assert(acc + seq![c] + rest =~= acc + t);
        }
    }
}

/// A text written as a Guile string literal by [`scheme_string`] reads back,
/// through the reply parser, as a string holding exactly that text.
pub proof fn law_scheme_string_reads_back(s: Seq<char>)
    ensures
        parse_outcome(encode_utf8(scheme_literal(s))) == Step::Done(
            SExprV::Str(s),
            encode_utf8(scheme_literal(s)).len() as int,
        ),
{
    let q = '"';
    let e = encode_utf8(escaped(s));
    lemma_encode_one(q);
    assert(encode_utf8(seq![q]) =~= seq![QUOTE]);
    lemma_encode_concat(seq![q] + escaped(s), seq![q]);
    lemma_encode_concat(seq![q], escaped(s));
    let b = encode_utf8(scheme_literal(s));
    assert(b =~= seq![QUOTE] + e + seq![QUOTE]);
    assert(b[0] == QUOTE);
    assert(b.subrange(1, 1 + e.len() as int) =~= e);
    assert(b[1 + e.len() as int] == QUOTE);
    lemma_string_body_escaped(b, 1, s, Seq::<char>::empty());
    assert(Seq::<char>::empty() + s =~= s);
}

/// How Guile's `write` prints one character inside a string literal: `"`,
/// backslash, line feed, tab and carriage return as two-character escapes, any
/// other character as itself.
pub open spec fn write_escape(c: char) -> Seq<char> {
    if c == '"' {
        seq!['\\', '"']
    } else if c == '\\' {
        seq!['\\', '\\']
    } else if c == '\n' {
        seq!['\\', 'n']
    } else if c == '\t' {
        seq!['\\', 't']
    } else if c == '\r' {
        seq!['\\', 'r']
    } else {
        seq![c]
    }
}

/// The body of the literal that `write` prints for a string.
pub open spec fn write_escaped(s: Seq<char>) -> Seq<char>
    decreases s.len(),
{
    if s.len() == 0 {
        seq![]
    } else {
        write_escape(s[0]) + write_escaped(s.drop_first())
    }
}

/// An ASCII character is encoded as its own byte.
proof fn lemma_encode_ascii(c: char)
    requires
        '\0' <= c <= '\u{7f}',
    ensures
        encode_utf8(seq![c]) == seq![c as u8],
{
    assert(is_ascii_chars(seq![c]));
    is_ascii_chars_encode_utf8(seq![c]);
    assert(encode_utf8(seq![c]) =~= seq![c as u8]);
}

/// Reading the body of a string literal that holds the `write`-escaped text
/// `t` (then its closing quote) gives `t` back.
proof fn lemma_string_body_written(b: Seq<u8>, p: int, t: Seq<char>, acc: Seq<char>)
    requires
        0 <= p,
        p + encode_utf8(write_escaped(t)).len() < b.len(),
        b.subrange(p, p + encode_utf8(write_escaped(t)).len()) == encode_utf8(write_escaped(t)),
        b[p + encode_utf8(write_escaped(t)).len()] == QUOTE,
    ensures
        string_body(b, p, acc) == Step::Done(
            SExprV::Str(acc + t),
            p + encode_utf8(write_escaped(t)).len() + 1,
        ),
    decreases t.len(),
{
    let e = encode_utf8(write_escaped(t));
    if t.len() == 0 {
        assert(acc + t =~= acc);
        assert(write_escaped(t) =~= Seq::<char>::empty());
        assert(e.len() == 0);
    } else {
        let c = t[0];
        let rest = t.drop_first();
        lemma_encode_concat(write_escape(c), write_escaped(rest));
        let head = encode_utf8(write_escape(c));
        let er = encode_utf8(write_escaped(rest));
        assert(e == head + er);
        let n = head.len();
        assert(b.subrange(p, p + n) =~= head) by {
            assert forall|k: int| 0 <= k < n implies b.subrange(p, p + n)[k] == head[k] by {
                assert(b.subrange(p, p + e.len())[k] == e[k]);
            }
        }
        assert(b.subrange(p + n, p + n + er.len()) =~= er) by {
            assert forall|k: int| 0 <= k < er.len() implies b.subrange(p + n, p + n + er.len())[k]
                == er[k] by {
                assert(b.subrange(p, p + e.len())[n + k] == e[n + k]);
            }
        }
        if c == '"' || c == '\\' || c == '\n' || c == '\t' || c == '\r' {
            let bs = '\\';
            let x = write_escape(c)[1];
            assert(write_escape(c) == seq![bs, x]);
            assert(x == '"' || x == '\\' || x == 'n' || x == 't' || x == 'r');
            lemma_encode_concat(seq![bs], seq![x]);
            assert(seq![bs] + seq![x] =~= seq![bs, x]);
            lemma_encode_ascii(bs);
            lemma_encode_ascii(x);
            assert(head =~= seq![BACKSLASH, x as u8]);
            assert(n == 2);
            assert(b[p] == head[0]);
            assert(b[p + 1] == head[1]);
            assert(escape_char(b[p + 1]) == c);
            lemma_string_body_written(b, p + 2, rest, acc.push(c));
            assert(acc.push(c) + rest =~= acc + t);
        } else {
            assert(write_escape(c) == seq![c]);
            lemma_encode_one(c);
            assert(b[p] == head[0]);
            assert(b.subrange(p, p + utf8_width(b[p])) == head);
            lemma_string_body_written(b, p + n, rest, acc + seq![c]);
            assert(acc + seq![c] + rest =~= acc + t);
        }
    }
}

/// Reading back what Guile's `write` prints for any string gives that
/// string: the literal with `\n`, `\t`, `\r`, `\\` and `\"` escapes
/// parses as a string holding exactly the original text.
pub proof fn law_written_strings_read_back(s: Seq<char>)
    ensures
        parse_outcome(encode_utf8(seq!['"'] + write_escaped(s) + seq!['"'])) == Step::Done(
            SExprV::Str(s),
            encode_utf8(seq!['"'] + write_escaped(s) + seq!['"']).len() as int,
        ),
{
    let q = '"';
    let e = encode_utf8(write_escaped(s));
    lemma_encode_one(q);
    assert(encode_utf8(seq![q]) =~= seq![QUOTE]);
    lemma_encode_concat(seq![q] + write_escaped(s), seq![q]);
    lemma_encode_concat(seq![q], write_escaped(s));
    let b = encode_utf8(seq!['"'] + write_escaped(s) + seq!['"']);
    assert(b =~= seq![QUOTE] + e + seq![QUOTE]);
    assert(b[0] == QUOTE);
    assert(b.subrange(1, 1 + e.len() as int) =~= e);
    assert(b[1 + e.len() as int] == QUOTE);
    lemma_string_body_written(b, 1, s, Seq::<char>::empty());
    assert(Seq::<char>::empty() + s =~= s);
}

/// `head`, the literal of `arg`, then `tail`.
fn call_text(head: &str, arg: &str, tail: &str) -> (r: String)
    ensures
        r@ == head@ + scheme_literal(arg@) + tail@,
{
    let mut r = String::from_str(head);
    let lit = scheme_string(arg);
    r.append(lit.as_str());
    r.append(tail);
    r
}

/// The completion request for a symbol prefix.
pub fn completions_request(prefix: &str) -> (r: String)
    ensures
        r@ == "(lsp-completions "@ + scheme_literal(prefix@) + ")"@,
{
    call_text("(lsp-completions ", prefix, ")")
}

/// The documentation request for a symbol.
pub fn documentation_request(sym: &str) -> (r: String)
    ensures
        r@ == "(lsp-documentation (string->symbol "@ + scheme_literal(sym@) + "))"@,
{
    call_text("(lsp-documentation (string->symbol ", sym, "))")
}

/// The signature request for a symbol.
pub fn signature_request(sym: &str) -> (r: String)
    ensures
        r@ == "(lsp-signature (string->symbol "@ + scheme_literal(sym@) + "))"@,
{
    call_text("(lsp-signature (string->symbol ", sym, "))")
}

/// The definition-location request for a symbol.
pub fn definition_request(sym: &str) -> (r: String)
    ensures
        r@ == "(lsp-find-definition (string->symbol "@ + scheme_literal(sym@) + "))"@,
{
    call_text("(lsp-find-definition (string->symbol ", sym, "))")
}

/// The request that loads a source file into the REPL.
pub fn load_file_request(path: &str) -> (r: String)
    ensures
        r@ == "(lsp-load-file "@ + scheme_literal(path@) + ")"@,
{
    call_text("(lsp-load-file ", path, ")")
}

/// The request that compiles a source file and reports its warnings and error.
pub fn check_syntax_request(path: &str) -> (r: String)
    ensures
        r@ == "(lsp-check-syntax "@ + scheme_literal(path@) + ")"@,
{
    call_text("(lsp-check-syntax ", path, ")")
}

/// The strings among a list's elements, in order.
pub open spec fn string_items(items: Seq<SExprV>) -> Seq<Seq<char>>
    decreases items.len(),
{
    if items.len() == 0 {
        seq![]
    } else {
        let rest = string_items(items.drop_last());
        match items.last() {
            SExprV::Str(s) => rest.push(s),
            _ => rest,
        }
    }
}

/// What a completion reply offers: the strings of a list reply; `None` for a
/// failed request, a REPL that is not running, or a reply that is no list.
pub open spec fn completion_labels_spec(reply: Option<Result<SExprV, ()>>) -> Option<Seq<Seq<char>>> {
    match reply {
        Some(Ok(SExprV::List(items))) => Some(string_items(items)),
        _ => None,
    }
}

/// A REPL reply (`None` when no REPL is running) with its value as a view and
/// its error forgotten.
pub open spec fn reply_view(reply: Option<Result<SExpr, ReplError>>) -> Option<Result<SExprV, ()>> {
    match reply {
        Some(Ok(e)) => Some(Ok(e@)),
        Some(Err(_)) => Some(Err(())),
        None => None,
    }
}

/// The completion labels that a reply offers (see [`completion_labels_spec`]).
pub fn completion_labels(reply: Option<Result<SExpr, ReplError>>) -> (r: Option<Vec<String>>)
    ensures
        completion_labels_spec(reply_view(reply)) matches Some(l) ==> r matches Some(v) && v@.map_values(
            |s: String| s@,
        ) == l,
        completion_labels_spec(reply_view(reply)) is None ==> r is None,
{
    match reply {
        Some(Ok(SExpr::List(items))) => {
            let ghost iv = sexprs_view(items@);
            let mut out: Vec<String> = Vec::new();
            let mut k: usize = 0;
            while k < items.len()
                invariant
                    iv == sexprs_view(items@),
                    k <= items@.len(),
                    out@.map_values(|s: String| s@) == string_items(iv.take(k as int)),
                decreases items@.len() - k,
            {
                assert(iv.take(k + 1).drop_last() =~= iv.take(k as int));
                assert(iv[k as int] == items@[k as int]@);
                match &items[k] {
                    SExpr::Str(s) => {
                        out.push(s.clone());
                        assert(out@.map_values(|s: String| s@) =~= string_items(iv.take(k + 1)));
                    },
                    _ => {
                        assert(out@.map_values(|s: String| s@) =~= string_items(iv.take(k + 1)));
                    },
                }
                k = k + 1;
            }
            assert(iv.take(iv.len() as int) =~= iv);
            Some(out)
        },
        _ => None,
    }
}

/// The text of a reply that is a non-empty string; `None` for anything else.
pub open spec fn reply_text_spec(reply: Option<Result<SExprV, ()>>) -> Option<Seq<char>> {
    match reply {
        Some(Ok(SExprV::Str(s))) => if s.len() > 0 {
            Some(s)
        } else {
            None
        },
        _ => None,
    }
}

/// The text of a documentation or signature reply (see [`reply_text_spec`]).
pub fn reply_text(reply: Option<Result<SExpr, ReplError>>) -> (r: Option<String>)
    ensures
        reply_text_spec(reply_view(reply)) matches Some(t) ==> r matches Some(s) && s@ == t,
        reply_text_spec(reply_view(reply)) is None ==> r is None,
{
    match reply {
        Some(Ok(SExpr::Str(s))) => {
            if !s.as_str().is_empty() {
                Some(s)
            } else {
                None
            }
        },
        _ => None,
    }
}

/// The hover text: the symbol and its documentation when there is any, else
/// its signature, else nothing.
pub open spec fn hover_markdown_spec(sym: Seq<char>, doc: Option<Seq<char>>, sig: Option<Seq<char>>) -> Option<Seq<char>> {
    match (doc, sig) {
        (Some(d), _) => Some("`"@ + sym + "` — "@ + d),
        (None, Some(s)) => Some("`"@ + s + "`"@),
        (None, None) => None,
    }
}

/// Hover markdown from the documentation and signature replies' texts (see
/// [`hover_markdown_spec`]).
pub fn hover_markdown(sym: &str, doc: Option<String>, sig: Option<String>) -> (r: Option<String>)
    ensures
        hover_markdown_spec(
            sym@,
            match doc {
                Some(d) => Some(d@),
                None => None,
            },
            match sig {
                Some(s) => Some(s@),
                None => None,
            },
        ) matches Some(t) ==> r matches Some(m) && m@ == t,
        hover_markdown_spec(
            sym@,
            match doc {
                Some(d) => Some(d@),
                None => None,
            },
            match sig {
                Some(s) => Some(s@),
                None => None,
            },
        ) is None ==> r is None,
{
    match (doc, sig) {
        (Some(d), _) => {
            let mut m = String::from_str("`");
            m.append(sym);
            m.append("` — ");
            m.append(d.as_str());
            Some(m)
        },
        (None, Some(s)) => {
            let mut m = String::from_str("`");
            m.append(s.as_str());
            m.append("`");
            Some(m)
        },
        (None, None) => None,
    }
}

/// The prefix to complete at a position: the symbol prefix typed up to it,
/// when there is a non-empty one.
pub open spec fn completion_prefix_spec(b: Seq<u8>, pos: Position) -> Option<Seq<char>> {
    match symbol_prefix_at_spec(b, pos) {
        Some((p, _)) => if p.len() > 0 {
            Some(p)
        } else {
            None
        },
        None => None,
    }
}

/// The prefix that a completion request asks about (see
/// [`completion_prefix_spec`]); with `None` the handler answers nothing.
pub fn completion_prefix(text: &str, pos: &Position) -> (r: Option<String>)
    requires
        lines_fit(text.spec_bytes()),
    ensures
        completion_prefix_spec(text.spec_bytes(), *pos) matches Some(p) ==> r matches Some(s)
            && s@ == p,
        completion_prefix_spec(text.spec_bytes(), *pos) is None ==> r is None,
{
    match symbol_prefix_at(text, pos) {
        Some((prefix, _)) => {
            if prefix.as_str().is_empty() {
                None
            } else {
                Some(prefix)
            }
        },
        None => None,
    }
}

/// The symbol whose signature is asked for at a position: the symbol under
/// the cursor, else the name of the call the cursor is in (signature help is
/// triggered on `(`, so the cursor is often not on the name).
pub open spec fn signature_symbol_spec(b: Seq<u8>, pos: Position) -> Option<Seq<char>> {
    match symbol_at_spec(b, pos) {
        Some((s, _)) => Some(s),
        None => called_symbol_spec(b, pos),
    }
}

/// The symbol that signature help asks about (see [`signature_symbol_spec`]).
pub fn signature_symbol(text: &str, pos: &Position) -> (r: Option<String>)
    requires
        lines_fit(text.spec_bytes()),
        !(call_scan(text.spec_bytes(), offset_of(text.spec_bytes(), *pos), 0) is Overflow),
    ensures
        signature_symbol_spec(text.spec_bytes(), *pos) matches Some(p) ==> r matches Some(s)
            && s@ == p,
        signature_symbol_spec(text.spec_bytes(), *pos) is None ==> r is None,
{
    match symbol_at(text, pos) {
        Some((s, _)) => Some(s),
        None => called_symbol_before(text, pos),
    }
}

/// The value bound to `key` when `v` is an association list.
pub open spec fn alist_get(v: SExprV, key: Seq<char>) -> Option<SExprV> {
    match v {
        SExprV::List(entries) => alist_scan(entries, 0, key),
        _ => None,
    }
}

/// A definition location reported by Geiser: the text of its 1-based line
/// number, and the source file when the reply names a non-empty one.
pub struct GeiserLocation {
    pub line: String,
    pub file: Option<String>,
}

/// A Geiser location with its texts as character sequences.
pub struct GeiserLocationV {
    pub line: Seq<char>,
    pub file: Option<Seq<char>>,
}

impl View for GeiserLocation {
    type V = GeiserLocationV;

    open spec fn view(&self) -> GeiserLocationV {
        GeiserLocationV {
            line: self.line@,
            file: match self.file {
                Some(f) => Some(f@),
                None => None,
            },
        }
    }
}

/// The location in a definition reply: `#f` means none; otherwise the `line`
/// entry must be a number, and the `file` entry counts when it is a non-empty
/// string (else the location is in the current document).
pub open spec fn geiser_location_spec(reply: Option<Result<SExprV, ()>>) -> Option<GeiserLocationV> {
    match reply {
        Some(Ok(loc)) => if loc == SExprV::Bool(false) {
            None
        } else {
            match alist_get(loc, "line"@) {
                Some(SExprV::Number(t)) => Some(
                    GeiserLocationV {
                        line: t,
                        file: match alist_get(loc, "file"@) {
                            Some(SExprV::Str(f)) => if f.len() > 0 {
                                Some(f)
                            } else {
                                None
                            },
                            _ => None,
                        },
                    },
                ),
                _ => None,
            }
        },
        _ => None,
    }
}

/// The location in a definition reply (see [`geiser_location_spec`]).
pub fn geiser_location(reply: Option<Result<SExpr, ReplError>>) -> (r: Option<GeiserLocation>)
    ensures
        geiser_location_spec(reply_view(reply)) matches Some(g) ==> r matches Some(l) && l@ == g,
        geiser_location_spec(reply_view(reply)) is None ==> r is None,
{
    let loc = match reply {
        Some(Ok(loc)) => loc,
        _ => return None,
    };
    if loc.is_false() {
        return None;
    }
    let line = match loc.alist_ref("line") {
        Some(SExpr::Number(t)) => t.clone(),
        _ => return None,
    };
    let file = match loc.alist_ref("file") {
        Some(v) => match v.as_str() {
            Some(path) => {
                if path.is_empty() {
                    None
                } else {
                    Some(String::from_str(path))
                }
            },
            None => None,
        },
        None => None,
    };
    Some(GeiserLocation { line, file })
}

/// The 0-based LSP line of Geiser's 1-based line (line 0 stays 0).
pub fn geiser_start_line(line: u32) -> (r: u32)
    ensures
        r == if line == 0 {
            0
        } else {
            line - 1
        },
{
    if line == 0 {
        0
    } else {
        line - 1
    }
}

/// The compiler warnings of a syntax-check reply: its `warnings` string, or
/// nothing.
pub open spec fn reply_warnings(v: SExprV) -> Seq<char> {
    match alist_get(v, "warnings"@) {
        Some(SExprV::Str(w)) => w,
        _ => seq![],
    }
}

/// The compile error of a syntax-check reply: its `error` string, if any.
pub open spec fn reply_error(v: SExprV) -> Option<Seq<char>> {
    match alist_get(v, "error"@) {
        Some(SExprV::Str(e)) => Some(e),
        _ => None,
    }
}

/// The diagnostics of a document from the reply to its syntax check; a failed
/// request or a REPL that is not running gives none.
pub open spec fn reply_diagnostics(b: Seq<u8>, reply: Option<Result<SExprV, ()>>) -> Seq<crate::diagnostics::DiagnosticV> {
    match reply {
        Some(Ok(v)) => raw_diags(reply_warnings(v), reply_error(v)).map_values(
            |r: RawDiagV| place_diag(b, r),
        ),
        _ => seq![],
    }
}

/// The diagnostics to publish for a document (see [`reply_diagnostics`]).
pub fn diagnostics_from_reply(text: &str, reply: Option<Result<SExpr, ReplError>>) -> (out: Vec<Diagnostic>)
    requires
        lines_fit(text.spec_bytes()),
    ensures
        out@.map_values(|d: Diagnostic| d@) == reply_diagnostics(text.spec_bytes(), reply_view(reply)),
{
    match reply {
        Some(Ok(sexpr)) => {
            let warnings = match sexpr.alist_ref("warnings") {
                Some(v) => match v.as_str() {
                    Some(w) => w,
                    None => "",
                },
                None => "",
            };
            let error = match sexpr.alist_ref("error") {
                Some(v) => v.as_str(),
                None => None,
            };
            proof {
                reveal_strlit("");
            }
            build_diagnostics(text, warnings, error)
        },
        _ => Vec::new(),
    }
}

/// Which workspace root to use: the first workspace folder, else the root
/// URI, else the root path (each as far as it names a path).
pub fn choose_root<P>(folder: Option<P>, root_uri: Option<P>, root_path: Option<P>) -> (r: Option<P>)
    ensures
        r == match folder {
            Some(f) => Some(f),
            None => match root_uri {
                Some(u) => Some(u),
                None => root_path,
            },
        },
{
    match folder {
        Some(f) => Some(f),
        None => match root_uri {
            Some(u) => Some(u),
            None => root_path,
        },
    }
}

/// The answer to a go-to-definition request, from its three lookups in order
/// of precedence: the definition in the document itself, else one found in
/// another file of the workspace, else the location the REPL reports. A
/// lookup is only made when the ones before it found nothing; one that was
/// not made counts as having found nothing.
pub fn pick_definition<L>(in_document: Option<L>, in_workspace: Option<L>, from_repl: Option<L>) -> (r: Option<L>)
    ensures
        r == match in_document {
            Some(d) => Some(d),
            None => match in_workspace {
                Some(w) => Some(w),
                None => from_repl,
            },
        },
{
    match in_document {
        Some(d) => Some(d),
        None => match in_workspace {
            Some(w) => Some(w),
            None => from_repl,
        },
    }
}

/// What `str::to_lowercase` makes of a text (the lowercase mapping of each
/// character, by Unicode's tables).
pub uninterp spec fn lowercased(s: Seq<char>) -> Seq<char>;

/// Trusted: `str::to_lowercase`, whose result is the lowercase form of the
/// text, named by [`lowercased`]; which characters it maps is left to std.
#[verifier::external_body]
fn to_lowercase(s: &str) -> (r: String)
    ensures
        r@ == lowercased(s@),
{
    s.to_lowercase()
}

/// `needle` occurs in `hay` as a run of consecutive characters.
pub open spec fn contains_seq(hay: Seq<char>, needle: Seq<char>) -> bool {
    exists|i: int| 0 <= i <= hay.len() - needle.len() && #[trigger] hay.subrange(i, i + needle.len()) == needle
}

/// Whether `needle` occurs in `hay` (what `str::contains` answers).
fn contains_chars(hay: &[char], needle: &[char]) -> (r: bool)
    ensures
        r == contains_seq(hay@, needle@),
{
    if needle.len() > hay.len() {
        return false;
    }
    let n = hay.len();
    let last = n - needle.len();
    let mut i: usize = 0;
    loop
        invariant
            n == hay@.len(),
            needle@.len() <= hay@.len(),
            last == hay@.len() - needle@.len(),
            i <= last,
            forall|k: int| 0 <= k < i ==> #[trigger] hay@.subrange(k, k + needle@.len()) != needle@,
        decreases last - i,
    {
        let mut j: usize = 0;
        let mut same = true;
        while j < needle.len()
            invariant
                n == hay@.len(),
                needle@.len() <= hay@.len(),
                i <= last,
                last == hay@.len() - needle@.len(),
                j <= needle@.len(),
                same == forall|m: int| 0 <= m < j ==> hay@[i + m] == needle@[m],
            decreases needle@.len() - j,
        {
            if hay[i + j] != needle[j] {
                same = false;
            }
            j = j + 1;
        }
        if same {
            assert(hay@.subrange(i as int, i + needle@.len()) =~= needle@);
            return true;
        }
        proof {
            let m = choose|m: int| 0 <= m < needle@.len() && hay@[i + m] != needle@[m];
            assert(hay@.subrange(i as int, i + needle@.len())[m] != needle@[m]);
        }
        if i == last {
            return false;
        }
        i = i + 1;
    }
}

/// A workspace-symbol query matches a definition when it is empty or occurs in
/// the lowercased name (the query itself already lowercased).
pub open spec fn query_matches_spec(lower_query: Seq<char>, lower_name: Seq<char>) -> bool {
    lower_query.len() == 0 || contains_seq(lower_name, lower_query)
}

/// Whether a lowercased query matches a lowercased definition name (see
/// [`query_matches_spec`]).
pub fn query_matches(lower_query: &str, lower_name: &str) -> (r: bool)
    ensures
        r == query_matches_spec(lower_query@, lower_name@),
{
    if lower_query.is_empty() {
        return true;
    }
    let q = chars_of(lower_query);
    let n = chars_of(lower_name);
    contains_chars(&n, &q)
}

/// The definitions among `defs` whose names match the query, in order.
pub open spec fn matching_defines(defs: Seq<DefineView>, query: Seq<char>) -> Seq<DefineView>
    decreases defs.len(),
{
    if defs.len() == 0 {
        seq![]
    } else {
        let rest = matching_defines(defs.drop_last(), query);
        if query_matches_spec(lowercased(query), lowercased(defs.last().name)) {
            rest.push(defs.last())
        } else {
            rest
        }
    }
}

/// The workspace symbols of one file: its top-level definitions whose names
/// match the query, compared without regard to case.
pub fn workspace_symbols(content: &str, query: &str) -> (out: Vec<DefineInfo>)
    requires
        lines_fit(content.spec_bytes()),
        scan_from(content.spec_bytes(), 0, 0) is Some,
    ensures
        out@.map_values(|d: DefineInfo| d@) == matching_defines(
            scan_from(content.spec_bytes(), 0, 0)->0,
            query@,
        ),
{
    let lower_query = to_lowercase(query);
    let defs = scan_defines(content);
    let ghost dv = defs@.map_values(|d: DefineInfo| d@);
    let mut out: Vec<DefineInfo> = Vec::new();
    let mut k: usize = 0;
    while k < defs.len()
        invariant
            dv == defs@.map_values(|d: DefineInfo| d@),
            lower_query@ == lowercased(query@),
            k <= defs@.len(),
            out@.map_values(|d: DefineInfo| d@) == matching_defines(dv.take(k as int), query@),
        decreases defs@.len() - k,
    {
        assert(dv.take(k + 1).drop_last() =~= dv.take(k as int));
        let d = &defs[k];
        let lower_name = to_lowercase(d.name.as_str());
        if query_matches(lower_query.as_str(), lower_name.as_str()) {
            out.push(DefineInfo {
                name: d.name.clone(),
                kind: d.kind,
                range: d.range,
                selection_range: d.selection_range,
            });
        }
        assert(out@.map_values(|d: DefineInfo| d@) =~= matching_defines(dv.take(k + 1), query@));
        k = k + 1;
    }
    assert(dv.take(dv.len() as int) =~= dv);
    out
}

/// At most this many Scheme files are collected from a workspace.
pub const MAX_FILES: usize = 2000;

/// A directory that the workspace walk does not enter: a hidden one, or one of
/// the usual version-control and build output directories.
pub open spec fn skipped_dir_name(name: Seq<char>) -> bool {
    (name.len() > 0 && name[0] == '.') || name == "target"@ || name == "node_modules"@ || name
        == "_build"@ || name == "dist"@ || name == "build"@
}

/// A Scheme source file extension: `scm`, `ss` or `sld`.
pub open spec fn scheme_extension(ext: Seq<char>) -> bool {
    ext == "scm"@ || ext == "ss"@ || ext == "sld"@
}

/// Whether a directory name is one that the walk skips (see [`skipped_dir_name`]).
pub fn is_skipped_dir_name(name: &str) -> (r: bool)
    ensures
        r == skipped_dir_name(name@),
{
    let cs = chars_of(name);
    if cs.len() > 0 && cs[0] == '.' {
        return true;
    }
    let r = crate::diagnostics::chars_equal(&cs, &chars_of("target"))
        || crate::diagnostics::chars_equal(&cs, &chars_of("node_modules"))
        || crate::diagnostics::chars_equal(&cs, &chars_of("_build"))
        || crate::diagnostics::chars_equal(&cs, &chars_of("dist"))
        || crate::diagnostics::chars_equal(&cs, &chars_of("build"));
    r
}

/// Whether an extension marks a Scheme source file (see [`scheme_extension`]).
pub fn is_scheme_extension(ext: &str) -> (r: bool)
    ensures
        r == scheme_extension(ext@),
{
    let cs = chars_of(ext);
    crate::diagnostics::chars_equal(&cs, &chars_of("scm"))
        || crate::diagnostics::chars_equal(&cs, &chars_of("ss"))
        || crate::diagnostics::chars_equal(&cs, &chars_of("sld"))
}

/// One entry of a directory listing, as the walk sees it: whether it is a
/// directory, its file name and its extension (each when it is valid UTF-8).
pub open spec fn entry_effect<P>(
    files: Seq<P>,
    stack: Seq<P>,
    path: P,
    is_dir: bool,
    name: Option<Seq<char>>,
    ext: Option<Seq<char>>,
) -> (Seq<P>, Seq<P>) {
    if is_dir {
        if name matches Some(n) && skipped_dir_name(n) {
            (files, stack)
        } else {
            (files, stack.push(path))
        }
    } else if files.len() < MAX_FILES && (ext matches Some(e) && scheme_extension(e)) {
        (files.push(path), stack)
    } else {
        (files, stack)
    }
}

/// The state of a depth-first walk over a workspace for its Scheme files: the
/// files collected so far and the directories still to list. The caller lists
/// each directory that `next_dir` hands out and feeds its entries back.
pub struct WorkspaceWalk<P> {
    files: Vec<P>,
    stack: Vec<P>,
}

impl<P> WorkspaceWalk<P> {
    /// The files collected so far.
    pub closed spec fn files(&self) -> Seq<P> {
        self.files@
    }

    /// The directories still to list; the last one is listed next.
    pub closed spec fn pending(&self) -> Seq<P> {
        self.stack@
    }

    /// A walk that starts at `root`.
    pub fn new(root: P) -> (w: Self)
        ensures
            w.files() == Seq::<P>::empty(),
            w.pending() == seq![root],
    {
        let mut stack: Vec<P> = Vec::new();
        stack.push(root);
        WorkspaceWalk { files: Vec::new(), stack }
    }

    /// The next directory to list, taken off the stack; `None` when the walk
    /// is done.
    pub fn next_dir(&mut self) -> (d: Option<P>)
        ensures
            final(self).files() == old(self).files(),
            old(self).pending().len() == 0 ==> d is None && final(self).pending() == old(
                self,
            ).pending(),
            old(self).pending().len() > 0 ==> d == Some(old(self).pending().last())
                && final(self).pending() == old(self).pending().drop_last(),
    {
        self.stack.pop()
    }

    /// Take one entry of the directory being listed: a directory is queued
    /// unless it is skipped; a Scheme file is collected while fewer than
    /// `MAX_FILES` are.
    pub fn add_entry(&mut self, path: P, is_dir: bool, name: Option<&str>, ext: Option<&str>)
        ensures
            (final(self).files(), final(self).pending()) == entry_effect(
                old(self).files(),
                old(self).pending(),
                path,
                is_dir,
                match name {
                    Some(n) => Some(n@),
                    None => None,
                },
                match ext {
                    Some(e) => Some(e@),
                    None => None,
                },
            ),
    {
        if is_dir {
            if let Some(n) = name {
                if is_skipped_dir_name(n) {
                    return;
                }
            }
            self.stack.push(path);
        } else if self.files.len() < MAX_FILES {
            if let Some(e) = ext {
                if is_scheme_extension(e) {
                    self.files.push(path);
                }
            }
        }
    }

    /// The collected files, in the order they were found.
    pub fn into_files(self) -> (v: Vec<P>)
        ensures
            v@ == self.files(),
    {
        self.files
    }
}

/// The walk never collects more than `MAX_FILES` files.
pub proof fn law_walk_capped<P>(
    files: Seq<P>,
    stack: Seq<P>,
    path: P,
    is_dir: bool,
    name: Option<Seq<char>>,
    ext: Option<Seq<char>>,
)
    requires
        files.len() <= MAX_FILES,
    ensures
        entry_effect(files, stack, path, is_dir, name, ext).0.len() <= MAX_FILES,
{
}

/// The walk collects only Scheme files and never enters a skipped directory:
/// whatever an entry adds is that entry, added where its kind says.
pub proof fn law_walk_filters<P>(
    files: Seq<P>,
    stack: Seq<P>,
    path: P,
    is_dir: bool,
    name: Option<Seq<char>>,
    ext: Option<Seq<char>>,
)
    ensures
        entry_effect(files, stack, path, is_dir, name, ext).0.len() > files.len() ==> !is_dir
            && (ext matches Some(e) && scheme_extension(e)),
        entry_effect(files, stack, path, is_dir, name, ext).1.len() > stack.len() ==> is_dir
            && !(name matches Some(n) && skipped_dir_name(n)),
{
}

} // verus!
