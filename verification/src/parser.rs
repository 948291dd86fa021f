//! Minimal S-expression parser.
//!
//! Used to parse the Guile REPL's `write` output (completions, documentation,
//! locations) into a tree.
//!
//! Format handled: symbols, string literals (with escapes), numbers, `#t`/`#f`,
//! proper lists `()`, nested lists, dotted pairs / improper lists `(a . b)` and
//! alists `(("file" . "/x") ("line" . 5))`. A number is kept as the text of its
//! literal: an atom is a number exactly when it is a decimal literal that Rust's
//! `f64` parser reads; words such as `nan` or `inf` are symbols.
use vstd::prelude::*;
use vstd::string::{StringExecFns, StringSliceAdditionalSpecFns};
use vstd::utf8::*;
use crate::encoding::{str_from_utf8, string_push, utf8_string};
use crate::position::{NEWLINE, next_newline, lemma_next_newline};
use crate::text::{
    is_ascii_whitespace, is_ascii_ws, skip_comment, BACKSLASH, LPAREN, QUOTE, RPAREN,
    SEMICOLON,
};

verus! {

broadcast use {encode_utf8_valid_utf8, encode_utf8_decode_utf8};

pub const HASH: u8 = 35;

pub const DOT: u8 = 46;

pub const PLUS: u8 = 43;

pub const MINUS: u8 = 45;

/// A parsed S-expression.
#[derive(Debug, PartialEq)]
pub enum SExpr {
    /// A proper list: `(a b c)`.
    List(Vec<SExpr>),
    /// A symbol or identifier: `display`, `+`, `greet`.
    Symbol(String),
    /// A string literal: `"hello"`.
    Str(String),
    /// A number, as the text of its literal: `42`, `-3.14`.
    Number(String),
    /// `#t` or `#f`.
    Bool(bool),
    /// An improper list with a dotted tail: `(a b . c)` = head `[a, b]`, tail `c`.
    Improper(Vec<SExpr>, Box<SExpr>),
}

/// An S-expression with its strings as character sequences.
pub enum SExprV {
    List(Seq<SExprV>),
    Symbol(Seq<char>),
    Str(Seq<char>),
    Number(Seq<char>),
    Bool(bool),
    Improper(Seq<SExprV>, Box<SExprV>),
}

pub open spec fn sexpr_view(e: SExpr) -> SExprV
    decreases e,
{
    match e {
        SExpr::List(v) => SExprV::List(sexprs_view(v@)),
        SExpr::Symbol(s) => SExprV::Symbol(s@),
        SExpr::Str(s) => SExprV::Str(s@),
        SExpr::Number(s) => SExprV::Number(s@),
        SExpr::Bool(b) => SExprV::Bool(b),
        SExpr::Improper(v, t) => SExprV::Improper(sexprs_view(v@), Box::new(sexpr_view(*t))),
    }
}

pub open spec fn sexprs_view(s: Seq<SExpr>) -> Seq<SExprV>
    decreases s,
{
    Seq::new(
        s.len(),
        |i: int|
            if 0 <= i < s.len() {
                sexpr_view(s[i])
            } else {
                SExprV::Bool(false)
            },
    )
}

impl View for SExpr {
    type V = SExprV;

    open spec fn view(&self) -> SExprV {
        sexpr_view(*self)
    }
}

/// A copy of an S-expression.
fn sexpr_clone(e: &SExpr) -> (r: SExpr)
    ensures
        r@ == e@,
    decreases e,
{
    match e {
        SExpr::List(v) => SExpr::List(sexprs_clone(v)),
        SExpr::Symbol(s) => SExpr::Symbol(s.clone()),
        SExpr::Str(s) => SExpr::Str(s.clone()),
        SExpr::Number(s) => SExpr::Number(s.clone()),
        SExpr::Bool(b) => SExpr::Bool(*b),
        SExpr::Improper(v, t) => {
            let head = sexprs_clone(v);
            let tail = sexpr_clone(t);
            SExpr::Improper(head, Box::new(tail))
        },
    }
}

/// A copy of a list of S-expressions.
fn sexprs_clone(v: &Vec<SExpr>) -> (r: Vec<SExpr>)
    ensures
        sexprs_view(r@) == sexprs_view(v@),
    decreases v,
{
    let mut out: Vec<SExpr> = Vec::new();
    let mut k: usize = 0;
    while k < v.len()
        invariant
            k <= v@.len(),
            out@.len() == k,
            forall|i: int| 0 <= i < k ==> #[trigger] out@[i]@ == v@[i]@,
        decreases v@.len() - k,
    {
        assert(decreases_to!(v => v@[k as int]));
        let c = sexpr_clone(&v[k]);
        out.push(c);
        k = k + 1;
    }
    assert forall|i: int| 0 <= i < v@.len() implies #[trigger] sexprs_view(out@)[i]
        == sexprs_view(v@)[i] by {
        assert(out@[i]@ == v@[i]@);
    }
    assert(sexprs_view(out@) =~= sexprs_view(v@));
    out
}

impl Clone for SExpr {
    fn clone(&self) -> (r: Self)
        ensures
            r@ == self@,
    {
        sexpr_clone(self)
    }
}

/// The key of an association-list entry: a symbol or a string spelling `key`.
pub open spec fn key_matches(k: SExprV, key: Seq<char>) -> bool {
    match k {
        SExprV::Symbol(s) => s == key,
        SExprV::Str(s) => s == key,
        _ => false,
    }
}

/// The value bound to `key` among `entries[i..]`: an entry is a dotted pair
/// `(k . v)` (more generally an improper list whose first element is the key)
/// or a two-element list `(k v)`; every other entry (an improper list with no
/// elements among them) is passed over.
pub open spec fn alist_scan(entries: Seq<SExprV>, i: int, key: Seq<char>) -> Option<SExprV>
    decreases entries.len() - i,
{
    if i < 0 || i >= entries.len() {
        None
    } else {
        match entries[i] {
            SExprV::Improper(head, tail) => if head.len() > 0 && key_matches(head[0], key) {
                Some(*tail)
            } else {
                alist_scan(entries, i + 1, key)
            },
            SExprV::List(v) => if v.len() == 2 && key_matches(v[0], key) {
                Some(v[1])
            } else {
                alist_scan(entries, i + 1, key)
            },
            _ => alist_scan(entries, i + 1, key),
        }
    }
}

impl SExpr {
    /// Convenience: true if this is a `Bool(false)`.
    pub fn is_false(&self) -> (r: bool)
        ensures
            r == (self@ == SExprV::Bool(false)),
    {
        matches!(self, SExpr::Bool(false))
    }

    /// If this is a `Str`, return its contents.
    pub fn as_str(&self) -> (r: Option<&str>)
        ensures
            r is Some <==> self@ is Str,
            r matches Some(s) ==> self@ == SExprV::Str(s@),
    {
        match self {
            SExpr::Str(s) => Some(s.as_str()),
            _ => None,
        }
    }

    /// If this is a proper `List`, return its elements.
    pub fn as_list(&self) -> (r: Option<&[SExpr]>)
        ensures
            r is Some <==> self@ is List,
            r matches Some(v) ==> self@ == SExprV::List(sexprs_view(v@)),
    {
        match self {
            SExpr::List(v) => Some(v.as_slice()),
            _ => None,
        }
    }

    /// Treat this as an association list (a list of pairs) and return the
    /// value bound to `key`. Keys may be symbols or strings, case-sensitive.
    pub fn alist_ref(&self, key: &str) -> (r: Option<&SExpr>)
        ensures
            r is Some <==> (self@ matches SExprV::List(entries) && alist_scan(entries, 0, key@)
                is Some),
            r matches Some(v) ==> (self@ matches SExprV::List(entries) && alist_scan(
                entries,
                0,
                key@,
            ) == Some(v@)),
    {
        let entries = self.as_list()?;
        let ghost ev = sexprs_view(entries@);
        let mut i: usize = 0;
        while i < entries.len()
            invariant
                ev == sexprs_view(entries@),
                self@ == SExprV::List(ev),
                i <= entries@.len(),
                alist_scan(ev, 0, key@) == alist_scan(ev, i as int, key@),
            decreases entries@.len() - i,
        {
            let entry = &entries[i];
            assert(ev[i as int] == entry@);
            match entry {
                SExpr::Improper(head, tail) => {
                    assert(sexprs_view(head@).len() == head@.len());
                    if head.len() > 0 {
                        assert(sexprs_view(head@)[0] == head@[0]@);
                        if key_is(&head[0], key) {
                            return Some(tail);
                        }
                    }
                },
                SExpr::List(v) => {
                    // A 2-element proper list (key value) also acts as a pair.
                    assert(sexprs_view(v@).len() == v@.len());
                    if v.len() == 2 {
                        assert(sexprs_view(v@)[0] == v@[0]@);
                        assert(sexprs_view(v@)[1] == v@[1]@);
                        if key_is(&v[0], key) {
                            return Some(&v[1]);
                        }
                    }
                },
                _ => {},
            }
            i = i + 1;
        }
        None
    }
}

/// Whether `k` is a symbol or a string spelling `key`.
fn key_is(k: &SExpr, key: &str) -> (r: bool)
    ensures
        r == key_matches(k@, key@),
{
    match k {
        SExpr::Symbol(s) => str_eq(s.as_str(), key),
        SExpr::Str(s) => str_eq(s.as_str(), key),
        _ => false,
    }
}

/// Whether two strings are equal.
fn str_eq(a: &str, b: &str) -> (r: bool)
    ensures
        r == (a@ == b@),
{
    let r = same_bytes(a.as_bytes(), b.as_bytes());
    proof {
        assert(decode_utf8(encode_utf8(a@)) == a@);
        assert(decode_utf8(encode_utf8(b@)) == b@);
    }
    r
}

/// Errors raised while parsing.
#[derive(Debug, Clone, PartialEq)]
pub enum ParseError {
    Unexpected(String),
    UnterminatedString,
    UnterminatedList,
    Eof,
}

/// A parse error with its message as characters.
pub enum ParseErrorV {
    Unexpected(Seq<char>),
    UnterminatedString,
    UnterminatedList,
    Eof,
}

impl View for ParseError {
    type V = ParseErrorV;

    open spec fn view(&self) -> ParseErrorV {
        match self {
            ParseError::Unexpected(s) => ParseErrorV::Unexpected(s@),
            ParseError::UnterminatedString => ParseErrorV::UnterminatedString,
            ParseError::UnterminatedList => ParseErrorV::UnterminatedList,
            ParseError::Eof => ParseErrorV::Eof,
        }
    }
}

/* The numbers of the reply's syntax: the decimal literals that Rust's `f64`
   parser (`<f64 as FromStr>::from_str`) reads,
     Float  ::= Sign? Number
     Number ::= ( Digit+ | Digit+ '.' Digit* | Digit* '.' Digit+ ) Exp?
     Exp    ::= 'e' Sign? Digit+
   with the exponent letter matched without regard to ASCII case. The words
   `inf`, `infinity` and `nan`, which that parser also takes, are not Scheme
   numbers: they read as symbols. */

pub open spec fn ascii_lower(c: u8) -> u8 {
    if 65 <= c <= 90 {
        (c + 32) as u8
    } else {
        c
    }
}

pub open spec fn is_digit(c: u8) -> bool {
    48 <= c <= 57
}

pub open spec fn is_sign(c: u8) -> bool {
    c == PLUS || c == MINUS
}

pub open spec fn all_digits(s: Seq<u8>) -> bool {
    forall|i: int| 0 <= i < s.len() ==> is_digit(s[i])
}

/// Index of the first byte at or after `k` that satisfies `f`, or the length.
pub open spec fn find_from(s: Seq<u8>, k: int, f: spec_fn(u8) -> bool) -> int
    decreases s.len() - k,
{
    if k < 0 || k >= s.len() {
        s.len() as int
    } else if f(s[k]) {
        k
    } else {
        find_from(s, k + 1, f)
    }
}

pub open spec fn is_dot(c: u8) -> bool {
    c == DOT
}

pub open spec fn is_exp_letter(c: u8) -> bool {
    ascii_lower(c) == 101
}

/// `Digit+ | Digit+ '.' Digit* | Digit* '.' Digit+`.
pub open spec fn is_mantissa(s: Seq<u8>) -> bool {
    let d = find_from(s, 0, |c: u8| is_dot(c));
    if d == s.len() {
        s.len() > 0 && all_digits(s)
    } else {
        s.len() >= 2 && all_digits(s.subrange(0, d)) && all_digits(s.subrange(d + 1, s.len() as int))
    }
}

/// `'e' Sign? Digit+`.
pub open spec fn is_exponent(s: Seq<u8>) -> bool {
    &&& s.len() >= 2
    &&& is_exp_letter(s[0])
    &&& {
        let r = if is_sign(s[1]) {
            s.subrange(2, s.len() as int)
        } else {
            s.subrange(1, s.len() as int)
        };
        r.len() > 0 && all_digits(r)
    }
}

pub open spec fn is_number(s: Seq<u8>) -> bool {
    let m = find_from(s, 0, |c: u8| is_exp_letter(c));
    is_mantissa(s.subrange(0, m)) && (m == s.len() || is_exponent(s.subrange(m, s.len() as int)))
}

/// `s` is a number literal: an optional sign and a decimal number.
pub open spec fn is_float_literal(s: Seq<u8>) -> bool {
    let u = if s.len() > 0 && is_sign(s[0]) {
        s.subrange(1, s.len() as int)
    } else {
        s
    };
    is_number(u)
}

fn find_dot(s: &[u8], k: usize) -> (r: usize)
    requires
        k <= s@.len(),
    ensures
        r == find_from(s@, k as int, |c: u8| is_dot(c)),
{
    let mut k = k;
    let ghost k0 = k as int;
    while k < s.len() && s[k] != DOT
        invariant
            k <= s@.len(),
            find_from(s@, k0, |c: u8| is_dot(c)) == find_from(s@, k as int, |c: u8| is_dot(c)),
        decreases s@.len() - k,
    {
        k = k + 1;
    }
    k
}

fn lower(c: u8) -> (r: u8)
    ensures
        r == ascii_lower(c),
{
    if 65 <= c && c <= 90 {
        c + 32
    } else {
        c
    }
}

fn find_exp(s: &[u8]) -> (r: usize)
    ensures
        r == find_from(s@, 0, |c: u8| is_exp_letter(c)),
{
    let mut k: usize = 0;
    while k < s.len() && lower(s[k]) != 101
        invariant
            k <= s@.len(),
            find_from(s@, 0, |c: u8| is_exp_letter(c)) == find_from(
                s@,
                k as int,
                |c: u8| is_exp_letter(c),
            ),
        decreases s@.len() - k,
    {
        k = k + 1;
    }
    k
}

fn digits_only(s: &[u8]) -> (r: bool)
    ensures
        r == all_digits(s@),
{
    let mut k: usize = 0;
    while k < s.len()
        invariant
            k <= s@.len(),
            forall|i: int| 0 <= i < k ==> is_digit(s@[i]),
        decreases s@.len() - k,
    {
        if !(48 <= s[k] && s[k] <= 57) {
            return false;
        }
        k = k + 1;
    }
    true
}

fn mantissa(s: &[u8]) -> (r: bool)
    ensures
        r == is_mantissa(s@),
{
    let d = find_dot(s, 0);
    proof {
        lemma_find_from(s@, 0, |c: u8| is_dot(c));
    }
    if d == s.len() {
        s.len() > 0 && digits_only(s)
    } else {
        s.len() >= 2 && digits_only(&s[0..d]) && digits_only(&s[d + 1..s.len()])
    }
}

fn exponent(s: &[u8]) -> (r: bool)
    ensures
        r == is_exponent(s@),
{
    if s.len() < 2 || lower(s[0]) != 101 {
        return false;
    }
    let rest = if s[1] == PLUS || s[1] == MINUS {
        &s[2..s.len()]
    } else {
        &s[1..s.len()]
    };
    rest.len() > 0 && digits_only(rest)
}

/// Whether the atom `text` is a number literal (see [`is_float_literal`]).
pub fn is_float_text(text: &[u8]) -> (r: bool)
    ensures
        r == is_float_literal(text@),
{
    let u = if text.len() > 0 && (text[0] == PLUS || text[0] == MINUS) {
        &text[1..text.len()]
    } else {
        &text[0..text.len()]
    };
    assert(text@.subrange(0, text@.len() as int) =~= text@);
    let m = find_exp(u);
    proof {
        lemma_find_from(u@, 0, |c: u8| is_exp_letter(c));
    }
    mantissa(&u[0..m]) && (m == u.len() || exponent(&u[m..u.len()]))
}

pub proof fn lemma_find_from(s: Seq<u8>, k: int, f: spec_fn(u8) -> bool)
    requires
        0 <= k <= s.len(),
    ensures
        k <= find_from(s, k, f) <= s.len(),
    decreases s.len() - k,
{
    if k < s.len() && !f(s[k]) {
        lemma_find_from(s, k + 1, f);
    }
}

/* The reader, as functions on the input's bytes. */

/// A byte that ends an atom: whitespace or one of `( ) " ;`.
pub open spec fn is_atom_stop(c: u8) -> bool {
    is_ascii_ws(c) || c == LPAREN || c == RPAREN || c == QUOTE || c == SEMICOLON
}

/// End of the atom that starts at `p`.
pub open spec fn atom_end(b: Seq<u8>, p: int) -> int {
    find_from(b, p, |c: u8| is_atom_stop(c))
}

/// First index at or after `p` that is neither whitespace nor inside a `;`
/// comment (a comment runs through its newline).
pub open spec fn trivia_end(b: Seq<u8>, p: int) -> int
    decreases b.len() - p,
{
    if p < 0 || p >= b.len() {
        p
    } else if is_ascii_ws(b[p]) {
        trivia_end(b, p + 1)
    } else if b[p] == SEMICOLON {
        proof {
            lemma_next_newline(b, p);
        }
        let nl = next_newline(b, p);
        trivia_end(
            b,
            if nl < b.len() {
                nl + 1
            } else {
                b.len() as int
            },
        )
    } else {
        p
    }
}

/// A `.` at `p` marks a dotted tail when a delimiter or the end follows it.
pub open spec fn dotted_marker(b: Seq<u8>, p: int) -> bool {
    &&& 0 <= p < b.len()
    &&& b[p] == DOT
    &&& (p + 1 >= b.len() || is_ascii_ws(b[p + 1]) || b[p + 1] == RPAREN || b[p + 1] == LPAREN
        || b[p + 1] == QUOTE || b[p + 1] == SEMICOLON)
}

/// Byte length of the UTF-8 sequence that a leading byte starts (1 to 4).
pub open spec fn utf8_width(c: u8) -> int {
    if c < 0x80 {
        1
    } else if 0xc0 <= c <= 0xdf {
        2
    } else if 0xe0 <= c <= 0xef {
        3
    } else {
        4
    }
}

/// The character that a backslash escape stands for: `\n`, `\t` and `\r` are
/// control characters; any other byte stands for the character of its value.
pub open spec fn escape_char(e: u8) -> char {
    if e == 110 {
        '\n'
    } else if e == 116 {
        '\t'
    } else if e == 114 {
        '\r'
    } else {
        e as char
    }
}

/// The outcome of reading from a position: a value and the position after it,
/// a parse error, or a fault on which the reader panics (a character that runs
/// past the input or is not valid UTF-8).
pub enum Step {
    Done(SExprV, int),
    Fail(ParseErrorV),
    Panic,
}

/// The body of a string literal from `p`, with `acc` read so far.
pub open spec fn string_body(b: Seq<u8>, p: int, acc: Seq<char>) -> Step
    decreases b.len() - p,
{
    if p < 0 || p >= b.len() {
        Step::Fail(ParseErrorV::UnterminatedString)
    } else if b[p] == QUOTE {
        Step::Done(SExprV::Str(acc), p + 1)
    } else if b[p] == BACKSLASH {
        if p + 1 >= b.len() {
            Step::Fail(ParseErrorV::UnterminatedString)
        } else {
            string_body(b, p + 2, acc.push(escape_char(b[p + 1])))
        }
    } else {
        let n = utf8_width(b[p]);
        if p + n > b.len() || !valid_utf8(b.subrange(p, p + n)) {
            Step::Panic
        } else {
            string_body(b, p + n, acc + decode_utf8(b.subrange(p, p + n)))
        }
    }
}

/// An atom at `p`: a number when it is a number literal, else a symbol.
pub open spec fn atom_at(b: Seq<u8>, p: int) -> Step {
    let e = atom_end(b, p);
    let t = b.subrange(p, e);
    if e == p {
        Step::Fail(ParseErrorV::Unexpected("empty atom"@))
    } else if !valid_utf8(t) {
        Step::Panic
    } else if is_float_literal(t) {
        Step::Done(SExprV::Number(decode_utf8(t)), e)
    } else {
        Step::Done(SExprV::Symbol(decode_utf8(t)), e)
    }
}

/// A `#` token at `p`: `#t`/`#true` and `#f`/`#false`.
pub open spec fn hash_at(b: Seq<u8>, p: int) -> Step {
    let e = atom_end(b, p + 1);
    let t = b.subrange(p + 1, e);
    if !valid_utf8(t) {
        Step::Panic
    } else if t == seq![116u8] || t == seq![116u8, 114, 117, 101] {
        Step::Done(SExprV::Bool(true), e)
    } else if t == seq![102u8] || t == seq![102u8, 97, 108, 115, 101] {
        Step::Done(SExprV::Bool(false), e)
    } else {
        Step::Fail(ParseErrorV::Unexpected(seq!['#'] + decode_utf8(t)))
    }
}

/// One expression, after skipping whitespace and comments from `p`.
pub open spec fn expr_at(b: Seq<u8>, p: int) -> Step
    decreases b.len() - p, 0int,
{
    proof {
        lemma_trivia_end(b, p);
    }
    let q = trivia_end(b, p);
    if q < 0 || q >= b.len() {
        Step::Fail(ParseErrorV::Eof)
    } else if b[q] == LPAREN {
        list_items(b, q + 1, seq![])
    } else if b[q] == QUOTE {
        string_body(b, q + 1, seq![])
    } else if b[q] == HASH {
        hash_at(b, q)
    } else {
        atom_at(b, q)
    }
}

/// The rest of a list from `q`, with the elements `acc` read so far: up to its
/// `)`, or a dotted tail and then the `)`.
pub open spec fn list_items(b: Seq<u8>, q: int, acc: Seq<SExprV>) -> Step
    decreases b.len() - q, 1int,
{
    proof {
        lemma_trivia_end(b, q);
    }
    let q1 = trivia_end(b, q);
    if q < 0 || q1 < 0 || q1 >= b.len() {
        Step::Fail(ParseErrorV::UnterminatedList)
    } else if b[q1] == RPAREN {
        Step::Done(SExprV::List(acc), q1 + 1)
    } else if dotted_marker(b, q1) {
        match expr_at(b, q1 + 1) {
            Step::Done(t, r) => {
                let r1 = trivia_end(b, r);
                if 0 <= r1 < b.len() && b[r1] == RPAREN {
                    Step::Done(SExprV::Improper(acc, Box::new(t)), r1 + 1)
                } else {
                    Step::Fail(ParseErrorV::Unexpected("expected ')' after dotted tail"@))
                }
            },
            Step::Fail(e) => Step::Fail(e),
            Step::Panic => Step::Panic,
        }
    } else {
        match expr_at(b, q1) {
            Step::Done(e, r) => if r <= q1 || r > b.len() {
                Step::Fail(ParseErrorV::Eof)
            } else {
                list_items(b, r, acc.push(e))
            },
            Step::Fail(e) => Step::Fail(e),
            Step::Panic => Step::Panic,
        }
    }
}

/// What reading a whole input gives: the first expression after leading
/// whitespace and comments (anything after it is ignored).
pub open spec fn parse_outcome(b: Seq<u8>) -> Step {
    expr_at(b, trivia_end(b, 0))
}

pub proof fn lemma_trivia_end(b: Seq<u8>, p: int)
    ensures
        0 <= p <= b.len() ==> p <= trivia_end(b, p) <= b.len(),
        0 <= p <= b.len() && trivia_end(b, p) < b.len() ==> !is_ascii_ws(
            b[trivia_end(b, p)],
        ) && b[trivia_end(b, p)] != SEMICOLON,
        (p < 0 || p > b.len()) ==> trivia_end(b, p) == p,
    decreases b.len() - p,
{
    if 0 <= p < b.len() {
        if is_ascii_ws(b[p]) {
            lemma_trivia_end(b, p + 1);
        } else if b[p] == SEMICOLON {
            lemma_next_newline(b, p);
            let nl = next_newline(b, p);
            lemma_trivia_end(
                b,
                if nl < b.len() {
                    nl + 1
                } else {
                    b.len() as int
                },
            );
        }
    }
}

pub proof fn lemma_trivia_idempotent(b: Seq<u8>, p: int)
    requires
        0 <= p <= b.len(),
    ensures
        trivia_end(b, trivia_end(b, p)) == trivia_end(b, p),
{
    lemma_trivia_end(b, p);
    let t = trivia_end(b, p);
    if t < b.len() {
        assert(trivia_end(b, t) == t);
    }
}

pub proof fn lemma_string_body_advances(b: Seq<u8>, p: int, acc: Seq<char>)
    requires
        0 <= p <= b.len(),
    ensures
        string_body(b, p, acc) matches Step::Done(_, r) ==> p < r <= b.len(),
    decreases b.len() - p,
{
    if p < b.len() && b[p] != QUOTE {
        if b[p] == BACKSLASH {
            if p + 1 < b.len() {
                lemma_string_body_advances(b, p + 2, acc.push(escape_char(b[p + 1])));
            }
        } else {
            let n = utf8_width(b[p]);
            if p + n <= b.len() && valid_utf8(b.subrange(p, p + n)) {
                lemma_string_body_advances(b, p + n, acc + decode_utf8(b.subrange(p, p + n)));
            }
        }
    }
}

pub proof fn lemma_expr_advances(b: Seq<u8>, p: int)
    requires
        0 <= p <= b.len(),
    ensures
        expr_at(b, p) matches Step::Done(_, r) ==> trivia_end(b, p) < r <= b.len(),
    decreases b.len() - p, 0int,
{
    lemma_trivia_end(b, p);
    let q = trivia_end(b, p);
    if q < b.len() {
        if b[q] == LPAREN {
            lemma_items_advances(b, q + 1, seq![]);
        } else if b[q] == QUOTE {
            lemma_string_body_advances(b, q + 1, seq![]);
        } else if b[q] == HASH {
            lemma_find_from(b, q + 1, |c: u8| is_atom_stop(c));
        } else {
            lemma_find_from(b, q, |c: u8| is_atom_stop(c));
        }
    }
}

pub proof fn lemma_items_advances(b: Seq<u8>, q: int, acc: Seq<SExprV>)
    requires
        0 <= q <= b.len(),
    ensures
        list_items(b, q, acc) matches Step::Done(_, r) ==> q < r <= b.len(),
    decreases b.len() - q, 1int,
{
    lemma_trivia_end(b, q);
    let q1 = trivia_end(b, q);
    if q1 < b.len() && b[q1] != RPAREN {
        if dotted_marker(b, q1) {
            lemma_expr_advances(b, q1 + 1);
            if let Step::Done(t, r) = expr_at(b, q1 + 1) {
                lemma_trivia_end(b, q1 + 1);
                lemma_trivia_end(b, r);
            }
        } else {
            lemma_expr_advances(b, q1);
            if let Step::Done(e, r) = expr_at(b, q1) {
                if q1 < r <= b.len() {
                    lemma_items_advances(b, r, acc.push(e));
                }
            }
        }
    }
}

/// Why the reader stopped: a parse error, or a fault on which the reader
/// panics (see `Step::Panic`).
enum Fault {
    Error(ParseError),
    Panic,
}

/// The result of a reading method agrees with a `Step`, leaving the reader at `pos`.
spec fn agrees(res: Result<SExpr, Fault>, step: Step, pos: int) -> bool {
    match step {
        Step::Done(v, r) => res matches Ok(e) && e@ == v && pos == r,
        Step::Fail(err) => res matches Err(Fault::Error(e)) && e@ == err,
        Step::Panic => res matches Err(Fault::Panic),
    }
}

/// Parse a single S-expression from the input (trailing whitespace tolerated).
pub fn parse(input: &str) -> (res: Result<SExpr, ParseError>)
    requires
        !(parse_outcome(input.spec_bytes()) is Panic),
    ensures
        parse_outcome(input.spec_bytes()) matches Step::Done(v, _) ==> res matches Ok(e) && e@
            == v,
        parse_outcome(input.spec_bytes()) matches Step::Fail(err) ==> res matches Err(e) && e@
            == err,
{
    match read_expression(input) {
        Ok(e) => Ok(e),
        Err(Fault::Error(e)) => Err(e),
        Err(Fault::Panic) => {
            assert(false);
            Err(ParseError::Eof)
        },
    }
}

/// `parse` for any input: `None` on the inputs where `parse` panics (a string
/// literal whose escape or character runs past the input or is not UTF-8).
pub fn parse_checked(input: &str) -> (res: Option<Result<SExpr, ParseError>>)
    ensures
        res is None <==> parse_outcome(input.spec_bytes()) is Panic,
        parse_outcome(input.spec_bytes()) matches Step::Done(v, _) ==> res matches Some(Ok(e))
            && e@ == v,
        parse_outcome(input.spec_bytes()) matches Step::Fail(err) ==> res matches Some(Err(e))
            && e@ == err,
{
    match read_expression(input) {
        Ok(e) => Some(Ok(e)),
        Err(Fault::Error(e)) => Some(Err(e)),
        Err(Fault::Panic) => None,
    }
}

fn read_expression(input: &str) -> (res: Result<SExpr, Fault>)
    ensures
        parse_outcome(input.spec_bytes()) matches Step::Done(v, _) ==> res matches Ok(e) && e@
            == v,
        parse_outcome(input.spec_bytes()) matches Step::Fail(err) ==> res matches Err(
            Fault::Error(e),
        ) && e@ == err,
        parse_outcome(input.spec_bytes()) is Panic ==> res matches Err(Fault::Panic),
{
    let mut p = Parser::new(input);
    proof {
        lemma_trivia_end(input.spec_bytes(), 0);
    }
    p.skip_ws();
    let expr = p.parse_expr()?;
    Ok(expr)
}

struct Parser<'a> {
    bytes: &'a [u8],
    pos: usize,
}

impl<'a> Parser<'a> {
    fn new(s: &'a str) -> (p: Parser<'a>)
        ensures
            p.bytes@ == s.spec_bytes(),
            p.pos == 0,
    {
        Parser { bytes: s.as_bytes(), pos: 0 }
    }

    fn peek(&self) -> (r: Option<u8>)
        ensures
            r == if self.pos < self.bytes@.len() {
                Some(self.bytes@[self.pos as int])
            } else {
                None::<u8>
            },
    {
        if self.pos < self.bytes.len() {
            Some(self.bytes[self.pos])
        } else {
            None
        }
    }

    fn skip_ws(&mut self)
        requires
            old(self).pos <= old(self).bytes@.len(),
        ensures
            final(self).bytes == old(self).bytes,
            final(self).pos == trivia_end(old(self).bytes@, old(self).pos as int),
    {
        let ghost b = self.bytes@;
        let ghost p0 = self.pos as int;
        let n = self.bytes.len();
        loop
            invariant
                b == self.bytes@,
                self.bytes == old(self).bytes,
                n == b.len(),
                self.pos <= b.len(),
                trivia_end(b, p0) == trivia_end(b, self.pos as int),
            ensures
                b == self.bytes@,
                self.bytes == old(self).bytes,
                self.pos == trivia_end(b, p0),
            decreases b.len() - self.pos,
        {
            match self.peek() {
                Some(c) => {
                    if is_ascii_whitespace(c) {
                        self.pos = self.pos + 1;
                    } else if c == SEMICOLON {
                        // line comment to end of line
                        proof {
                            lemma_next_newline(b, self.pos as int);
                        }
                        let nl = skip_comment(self.bytes, self.pos);
                        self.pos = if nl < self.bytes.len() {
                            nl + 1
                        } else {
                            self.bytes.len()
                        };
                    } else {
                        break;
                    }
                },
                None => break,
            }
        }
    }

    fn parse_expr(&mut self) -> (res: Result<SExpr, Fault>)
        requires
            old(self).pos <= old(self).bytes@.len(),
        ensures
            final(self).bytes == old(self).bytes,
            final(self).pos <= final(self).bytes@.len(),
            agrees(res, expr_at(old(self).bytes@, old(self).pos as int), final(self).pos as int),
        decreases old(self).bytes@.len() - old(self).pos, 1int,
    {
        let ghost b = self.bytes@;
        let ghost p0 = self.pos as int;
        proof {
            lemma_trivia_end(b, p0);
        }
        self.skip_ws();
        match self.peek() {
            None => Err(Fault::Error(ParseError::Eof)),
            Some(c) => {
                if c == LPAREN {
                    self.parse_list()
                } else if c == QUOTE {
                    self.parse_string()
                } else if c == HASH {
                    self.parse_hash()
                } else {
                    self.parse_atom()
                }
            },
        }
    }

    /// Read an atom (number or symbol): everything up to the next delimiter,
    /// then classify it.
    fn parse_atom(&mut self) -> (res: Result<SExpr, Fault>)
        requires
            old(self).pos <= old(self).bytes@.len(),
        ensures
            final(self).bytes == old(self).bytes,
            final(self).pos <= final(self).bytes@.len(),
            agrees(res, atom_at(old(self).bytes@, old(self).pos as int), final(self).pos as int),
    {
        let ghost b = self.bytes@;
        let start = self.pos;
        let end = self.atom_end_from(start);
        if end == start {
            return Err(Fault::Error(ParseError::Unexpected(String::from_str("empty atom"))));
        }
        self.pos = end;
        let slice = &self.bytes[start..end];
        let text = match utf8_string(slice) {
            Some(t) => t,
            None => return Err(Fault::Panic),
        };
        // Classify as a number when the text is a decimal number literal.
        if is_float_text(slice) {
            return Ok(SExpr::Number(text));
        }
        Ok(SExpr::Symbol(text))
    }

    /// End of the atom that starts at `start`.
    fn atom_end_from(&self, start: usize) -> (end: usize)
        requires
            start <= self.bytes@.len(),
        ensures
            end == atom_end(self.bytes@, start as int),
            start <= end <= self.bytes@.len(),
    {
        let mut i = start;
        while i < self.bytes.len() && !is_stop_byte(self.bytes[i])
            invariant
                start <= i <= self.bytes@.len(),
                atom_end(self.bytes@, start as int) == find_from(
                    self.bytes@,
                    i as int,
                    |c: u8| is_atom_stop(c),
                ),
            decreases self.bytes@.len() - i,
        {
            i = i + 1;
        }
        i
    }

    /// Parse a `"..."` string literal with escapes.
    fn parse_string(&mut self) -> (res: Result<SExpr, Fault>)
        requires
            old(self).pos < old(self).bytes@.len(),
        ensures
            final(self).bytes == old(self).bytes,
            final(self).pos <= final(self).bytes@.len(),
            agrees(
                res,
                string_body(old(self).bytes@, old(self).pos + 1, seq![]),
                final(self).pos as int,
            ),
    {
        let ghost b = self.bytes@;
        let ghost p0 = self.pos + 1;
        let n = self.bytes.len();
        // consume opening quote
        self.pos = self.pos + 1;
        let mut out = String::new();
        loop
            invariant
                b == self.bytes@,
                self.bytes == old(self).bytes,
                n == b.len(),
                p0 == old(self).pos + 1,
                self.pos <= b.len(),
                string_body(b, p0, seq![]) == string_body(b, self.pos as int, out@),
            decreases b.len() - self.pos,
        {
            match self.peek() {
                None => return Err(Fault::Error(ParseError::UnterminatedString)),
                Some(c) => {
                    if c == QUOTE {
                        self.pos = self.pos + 1;
                        return Ok(SExpr::Str(out));
                    } else if c == BACKSLASH {
                        self.pos = self.pos + 1;
                        match self.peek() {
                            Some(e) => {
                                let ch = if e == 110 {
                                    '\n'
                                } else if e == 116 {
                                    '\t'
                                } else if e == 114 {
                                    '\r'
                                } else if e == BACKSLASH {
                                    '\\'
                                } else if e == QUOTE {
                                    '"'
                                } else {
                                    e as char
                                };
                                string_push(&mut out, ch);
                            },
                            None => return Err(Fault::Error(ParseError::UnterminatedString)),
                        }
                        self.pos = self.pos + 1;
                    } else {
                        // copy one UTF-8 char
                        let ch_start = self.pos;
                        let len = utf8_len(c);
                        if len > self.bytes.len() - ch_start {
                            return Err(Fault::Panic);
                        }
                        self.pos = ch_start + len;
                        match str_from_utf8(&self.bytes[ch_start..self.pos]) {
                            Some(piece) => {
                                proof {
                                    assert(decode_utf8(encode_utf8(piece@)) == piece@);
                                }
                                out.append(piece);
                            },
                            None => return Err(Fault::Panic),
                        }
                    }
                },
            }
        }
    }

    /// Parse `#t` / `#f` (and `#true` / `#false`).
    fn parse_hash(&mut self) -> (res: Result<SExpr, Fault>)
        requires
            old(self).pos < old(self).bytes@.len(),
        ensures
            final(self).bytes == old(self).bytes,
            final(self).pos <= final(self).bytes@.len(),
            agrees(res, hash_at(old(self).bytes@, old(self).pos as int), final(self).pos as int),
    {
        let ghost b = self.bytes@;
        let n = self.bytes.len();
        self.pos = self.pos + 1;  // consume '#'
        let start = self.pos;
        let end = self.atom_end_from(start);
        self.pos = end;
        let slice = &self.bytes[start..end];
        let text = match str_from_utf8(slice) {
            Some(t) => t,
            None => return Err(Fault::Panic),
        };
        let t_true: Vec<u8> = vec![116u8];
        let true_word: Vec<u8> = vec![116u8, 114, 117, 101];
        let f_false: Vec<u8> = vec![102u8];
        let false_word: Vec<u8> = vec![102u8, 97, 108, 115, 101];
        assert(t_true@ =~= seq![116u8]);
        assert(true_word@ =~= seq![116u8, 114, 117, 101]);
        assert(f_false@ =~= seq![102u8]);
        assert(false_word@ =~= seq![102u8, 97, 108, 115, 101]);
        if same_bytes(slice, t_true.as_slice()) || same_bytes(slice, true_word.as_slice()) {
            Ok(SExpr::Bool(true))
        } else if same_bytes(slice, f_false.as_slice()) || same_bytes(
            slice,
            false_word.as_slice(),
        ) {
            Ok(SExpr::Bool(false))
        } else {
            let mut message = String::new();
            string_push(&mut message, '#');
            message.append(text);
            proof {
                assert(decode_utf8(encode_utf8(text@)) == text@);
            }
            Err(Fault::Error(ParseError::Unexpected(message)))
        }
    }

    /// Parse a list `(a b c)` or dotted/improper list `(a b . c)`.
    #[verifier::rlimit(50)]
    #[verifier::spinoff_prover]
    fn parse_list(&mut self) -> (res: Result<SExpr, Fault>)
        requires
            old(self).pos < old(self).bytes@.len(),
        ensures
            final(self).bytes == old(self).bytes,
            final(self).pos <= final(self).bytes@.len(),
            agrees(
                res,
                list_items(old(self).bytes@, old(self).pos + 1, seq![]),
                final(self).pos as int,
            ),
        decreases old(self).bytes@.len() - old(self).pos, 0int,
    {
        let ghost b = self.bytes@;
        let ghost q0 = self.pos + 1;
        let n = self.bytes.len();
        self.pos = self.pos + 1;  // consume '('
        let mut elems: Vec<SExpr> = Vec::new();
        assert(sexprs_view(elems@) =~= seq![]);
        loop
            invariant
                b == self.bytes@,
                self.bytes == old(self).bytes,
                n == b.len(),
                q0 == old(self).pos + 1,
                q0 <= self.pos <= b.len(),
                list_items(b, q0, seq![]) == list_items(b, self.pos as int, sexprs_view(elems@)),
            decreases b.len() - self.pos,
        {
            let ghost q = self.pos as int;
            proof {
                lemma_trivia_end(b, q);
            }
            self.skip_ws();
            match self.peek() {
                None => return Err(Fault::Error(ParseError::UnterminatedList)),
                Some(c) => {
                    if c == RPAREN {
                        self.pos = self.pos + 1;
                        return Ok(SExpr::List(elems));
                    } else if c == DOT && is_dotted_marker(self.bytes, self.pos) {
                        let ghost q1 = self.pos as int;
                        self.pos = self.pos + 1;  // consume '.'
                        self.skip_ws();
                        proof {
                            lemma_trivia_end(b, q1 + 1);
                            lemma_trivia_idempotent(b, q1 + 1);
                        }
                        let tail = self.parse_expr()?;
                        let ghost r = self.pos as int;
                        proof {
                            lemma_trivia_end(b, r);
                        }
                        self.skip_ws();
                        if self.peek() != Some(RPAREN) {
                            return Err(
                                Fault::Error(
                                    ParseError::Unexpected(
                                        String::from_str("expected ')' after dotted tail"),
                                    ),
                                ),
                            );
                        }
                        self.pos = self.pos + 1;  // consume ')'
                        return Ok(SExpr::Improper(elems, Box::new(tail)));
                    } else {
                        let ghost q1 = self.pos as int;
                        let e = self.parse_expr()?;
                        proof {
                            lemma_expr_advances(b, q1);
                            lemma_trivia_end(b, q1);
                        }
                        let ghost before = sexprs_view(elems@);
                        elems.push(e);
                        proof {
                            assert(sexprs_view(elems@) =~= before.push(e@));
                        }
                    }
                },
            }
        }
    }
}

/// Whether `c` ends an atom (`is_atom_stop`).
fn is_stop_byte(c: u8) -> (r: bool)
    ensures
        r == is_atom_stop(c),
{
    is_ascii_whitespace(c) || c == LPAREN || c == RPAREN || c == QUOTE || c == SEMICOLON
}

/// Whether two byte slices hold the same bytes.
fn same_bytes(a: &[u8], b: &[u8]) -> (r: bool)
    ensures
        r == (a@ == b@),
{
    if a.len() != b.len() {
        return false;
    }
    let mut k: usize = 0;
    while k < a.len()
        invariant
            a@.len() == b@.len(),
            k <= a@.len(),
            forall|m: int| 0 <= m < k ==> a@[m] == b@[m],
        decreases a@.len() - k,
    {
        if a[k] != b[k] {
            return false;
        }
        k = k + 1;
    }
    assert(a@ =~= b@);
    true
}

/// True if the `.` at `pos` is a dotted-pair marker (followed by a delimiter).
fn is_dotted_marker(bytes: &[u8], pos: usize) -> (r: bool)
    ensures
        r == dotted_marker(bytes@, pos as int),
{
    if pos >= bytes.len() || bytes[pos] != DOT {
        return false;
    }
    if pos + 1 >= bytes.len() {
        return true;
    }
    let c = bytes[pos + 1];
    is_ascii_whitespace(c) || c == RPAREN || c == LPAREN || c == QUOTE || c == SEMICOLON
}

/// Leading-byte → UTF-8 sequence length (1..4), assuming valid UTF-8 input.
fn utf8_len(first: u8) -> (n: usize)
    ensures
        n == utf8_width(first),
{
    if first < 0x80 {
        1
    } else if first >> 5 == 0b110 {
        assert(first >> 5 == 0b110 <==> 0xc0 <= first <= 0xdf) by (bit_vector);
        2
    } else if first >> 4 == 0b1110 {
        assert(first >> 5 != 0b110 ==> (first >> 4 == 0b1110 <==> 0xe0 <= first <= 0xef))
            by (bit_vector);
        3
    } else {
        assert(first >= 0x80 && first >> 5 != 0b110 && first >> 4 != 0b1110 ==> !(0xc0 <= first
            <= 0xdf) && !(0xe0 <= first <= 0xef)) by (bit_vector);
        4
    }
}

} // verus!
