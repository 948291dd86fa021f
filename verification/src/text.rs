//! Source-text analysis: the symbol under the cursor, the call around it,
//! top-level definitions, and references to a symbol.
//!
//! Every function works on the UTF-8 bytes of the text. A symbol is a maximal
//! run of bytes that are neither ASCII whitespace nor one of the delimiters
//! `( ) [ ] { } " ; ' ` ,`; string literals and `;` line comments are skipped
//! where the scanners say so.
use vstd::prelude::*;
use vstd::string::StringSliceAdditionalSpecFns;
use vstd::utf8::*;
use crate::encoding::{lemma_after_ascii, lemma_valid_subrange, utf8_string};
use crate::position::{
    last_line_start, lemma_newlines_before_monotonic, lemma_offset_of_bounds, lemma_next_newline,
    line_start, lines_fit, newlines_before, next_newline, offset_of, offset_to_position,
    position_of, position_to_offset, Position, Range, NEWLINE,
};

verus! {

broadcast use encode_utf8_valid_utf8;

pub const SPACE: u8 = 32;

pub const TAB: u8 = 9;

pub const FORM_FEED: u8 = 12;

pub const CARRIAGE_RETURN: u8 = 13;

pub const LPAREN: u8 = 40;

pub const RPAREN: u8 = 41;

pub const LBRACKET: u8 = 91;

pub const RBRACKET: u8 = 93;

pub const LBRACE: u8 = 123;

pub const RBRACE: u8 = 125;

pub const QUOTE: u8 = 34;

pub const SEMICOLON: u8 = 59;

pub const APOSTROPHE: u8 = 39;

pub const BACKTICK: u8 = 96;

pub const COMMA: u8 = 44;

pub const BACKSLASH: u8 = 92;

/// ASCII whitespace as Rust's `u8::is_ascii_whitespace` defines it: space, tab,
/// line feed, form feed and carriage return.
pub open spec fn is_ascii_ws(c: u8) -> bool {
    c == SPACE || c == TAB || c == NEWLINE || c == FORM_FEED || c == CARRIAGE_RETURN
}

/// A byte belongs to a Scheme symbol unless it is whitespace or a delimiter.
pub open spec fn is_symbol_byte(c: u8) -> bool {
    &&& !is_ascii_ws(c)
    &&& c != LPAREN && c != RPAREN && c != LBRACKET && c != RBRACKET
    &&& c != LBRACE && c != RBRACE && c != QUOTE && c != SEMICOLON
    &&& c != APOSTROPHE && c != BACKTICK && c != COMMA
}

/// Start of the run of symbol bytes that ends at `o`.
pub open spec fn symbol_start_of(b: Seq<u8>, o: int) -> int
    decreases o,
{
    if 0 < o <= b.len() && is_symbol_byte(b[o - 1]) {
        symbol_start_of(b, o - 1)
    } else {
        o
    }
}

/// End of the run of symbol bytes that starts at `o`.
pub open spec fn symbol_end_of(b: Seq<u8>, o: int) -> int
    decreases b.len() - o,
{
    if 0 <= o < b.len() && is_symbol_byte(b[o]) {
        symbol_end_of(b, o + 1)
    } else {
        o
    }
}

/// First index at or after `o` that is not ASCII whitespace.
pub open spec fn skip_ws_from(b: Seq<u8>, o: int) -> int
    decreases b.len() - o,
{
    if 0 <= o < b.len() && is_ascii_ws(b[o]) {
        skip_ws_from(b, o + 1)
    } else {
        o
    }
}

/// Index just past the string literal whose body starts at `i` (just past its
/// opening quote): past the closing quote, a backslash escaping the byte after
/// it; the end of the text if the literal is unterminated.
pub open spec fn string_end(b: Seq<u8>, i: int) -> int
    decreases b.len() - i,
{
    if i < 0 || i >= b.len() {
        b.len() as int
    } else if b[i] == BACKSLASH {
        if b.len() - i >= 2 {
            string_end(b, i + 2)
        } else {
            b.len() as int
        }
    } else if b[i] == QUOTE {
        i + 1
    } else {
        string_end(b, i + 1)
    }
}

pub proof fn lemma_symbol_start(b: Seq<u8>, o: int)
    requires
        0 <= o <= b.len(),
    ensures
        0 <= symbol_start_of(b, o) <= o,
        forall|k: int| symbol_start_of(b, o) <= k < o ==> is_symbol_byte(b[k]),
        symbol_start_of(b, o) == 0 || !is_symbol_byte(b[symbol_start_of(b, o) - 1]),
    decreases o,
{
    if 0 < o && is_symbol_byte(b[o - 1]) {
        lemma_symbol_start(b, o - 1);
    }
}

pub proof fn lemma_symbol_end(b: Seq<u8>, o: int)
    requires
        0 <= o <= b.len(),
    ensures
        o <= symbol_end_of(b, o) <= b.len(),
        forall|k: int| o <= k < symbol_end_of(b, o) ==> is_symbol_byte(b[k]),
        symbol_end_of(b, o) == b.len() || !is_symbol_byte(b[symbol_end_of(b, o)]),
    decreases b.len() - o,
{
    if o < b.len() && is_symbol_byte(b[o]) {
        lemma_symbol_end(b, o + 1);
    }
}

pub proof fn lemma_skip_ws(b: Seq<u8>, o: int)
    requires
        0 <= o <= b.len(),
    ensures
        o <= skip_ws_from(b, o) <= b.len(),
        forall|k: int| o <= k < skip_ws_from(b, o) ==> is_ascii_ws(b[k]),
        skip_ws_from(b, o) == b.len() || !is_ascii_ws(b[skip_ws_from(b, o)]),
    decreases b.len() - o,
{
    if o < b.len() && is_ascii_ws(b[o]) {
        lemma_skip_ws(b, o + 1);
    }
}

pub proof fn lemma_string_end(b: Seq<u8>, i: int)
    requires
        0 <= i <= b.len(),
    ensures
        i <= string_end(b, i) <= b.len(),
    decreases b.len() - i,
{
    if i < b.len() {
        if b[i] == BACKSLASH {
            if b.len() - i >= 2 {
                lemma_string_end(b, i + 2);
            }
        } else if b[i] != QUOTE {
            lemma_string_end(b, i + 1);
        }
    }
}

/// In valid UTF-8, an index that follows an ASCII byte or holds one (or is an
/// end of the text) is the start of a character.
pub proof fn lemma_char_start(b: Seq<u8>, i: int)
    requires
        valid_utf8(b),
        0 <= i <= b.len(),
        i == 0 || i == b.len() || b[i - 1] < 0x80 || b[i] < 0x80,
    ensures
        i == b.len() || !is_continuation_byte(b[i]),
{
    if 0 < i < b.len() && b[i - 1] < 0x80 {
        lemma_after_ascii(b, i);
    }
    if i == 0 && b.len() > 0 {
        is_char_boundary_start_end_of_seq(b);
        is_char_boundary_iff_not_is_continuation_byte(b, 0);
    }
}

/// The symbol bytes `[s, e)` decode to a string: both ends fall on characters.
pub proof fn lemma_symbol_range_valid(b: Seq<u8>, s: int, e: int)
    requires
        valid_utf8(b),
        0 <= s <= e <= b.len(),
        s == 0 || s == b.len() || b[s - 1] < 0x80 || b[s] < 0x80,
        e == b.len() || b[e] < 0x80,
    ensures
        valid_utf8(b.subrange(s, e)),
{
    lemma_char_start(b, s);
    lemma_char_start(b, e);
    lemma_valid_subrange(b, s, e);
}

pub proof fn lemma_lines_fit(b: Seq<u8>, o: int)
    requires
        lines_fit(b),
        0 <= o,
    ensures
        newlines_before(b, if o < b.len() { o } else { b.len() as int }) <= u32::MAX,
{
    let c = if o < b.len() {
        o
    } else {
        b.len() as int
    };
    lemma_newlines_before_monotonic(b, c, b.len() as int);
}

/// Whether `b` is a symbol byte (`is_symbol_byte`).
fn is_symbol_char(b: u8) -> (r: bool)
    ensures
        r == is_symbol_byte(b),
{
    if is_ascii_whitespace(b) {
        return false;
    }
    !(b == LPAREN || b == RPAREN || b == LBRACKET || b == RBRACKET || b == LBRACE || b == RBRACE
        || b == QUOTE || b == SEMICOLON || b == APOSTROPHE || b == BACKTICK || b == COMMA)
}

/// Whether `c` is ASCII whitespace (`is_ascii_ws`).
pub fn is_ascii_whitespace(c: u8) -> (r: bool)
    ensures
        r == is_ascii_ws(c),
{
    c == SPACE || c == TAB || c == NEWLINE || c == FORM_FEED || c == CARRIAGE_RETURN
}

/// The byte offset of the start of the symbol containing `offset` (scan left).
fn symbol_start(bytes: &[u8], offset: usize) -> (start: usize)
    ensures
        start == symbol_start_of(
            bytes@,
            if offset < bytes@.len() {
                offset as int
            } else {
                bytes@.len() as int
            },
        ),
{
    let mut start = if offset < bytes.len() {
        offset
    } else {
        bytes.len()
    };
    let ghost o = start as int;
    while start > 0 && is_symbol_char(bytes[start - 1])
        invariant
            start <= bytes@.len(),
            symbol_start_of(bytes@, o) == symbol_start_of(bytes@, start as int),
        decreases start,
    {
        start = start - 1;
    }
    start
}

/// The byte offset just past the symbol containing `offset` (scan right).
fn symbol_end(bytes: &[u8], offset: usize) -> (end: usize)
    ensures
        end == symbol_end_of(
            bytes@,
            if offset < bytes@.len() {
                offset as int
            } else {
                bytes@.len() as int
            },
        ),
{
    let mut end = if offset < bytes.len() {
        offset
    } else {
        bytes.len()
    };
    let ghost o = end as int;
    while end < bytes.len() && is_symbol_char(bytes[end])
        invariant
            end <= bytes@.len(),
            symbol_end_of(bytes@, o) == symbol_end_of(bytes@, end as int),
        decreases bytes@.len() - end,
    {
        end = end + 1;
    }
    end
}

/// The symbol under a position and the range it spans: `None` when the byte at
/// the position's offset is past the text or not a symbol byte.
pub open spec fn symbol_at_spec(b: Seq<u8>, pos: Position) -> Option<(Seq<char>, Range)> {
    let off = offset_of(b, pos);
    if off >= b.len() || !is_symbol_byte(b[off]) {
        None
    } else {
        let s = symbol_start_of(b, off);
        let e = symbol_end_of(b, off);
        Some(
            (
                decode_utf8(b.subrange(s, e)),
                Range { start: position_of(b, s), end: position_of(b, e) },
            ),
        )
    }
}

/// Return the full symbol (and its range) that contains `pos`, or None if the
/// cursor is not on a symbol character.
pub fn symbol_at(text: &str, pos: &Position) -> (res: Option<(String, Range)>)
    requires
        lines_fit(text.spec_bytes()),
    ensures
        res is Some <==> symbol_at_spec(text.spec_bytes(), *pos) is Some,
        res matches Some((s, r)) ==> symbol_at_spec(text.spec_bytes(), *pos) == Some((s@, r)),
{
    let bytes = text.as_bytes();
    let ghost b = bytes@;
    let offset = position_to_offset(text, pos);
    if offset >= bytes.len() || !is_symbol_char(bytes[offset]) {
        return None;
    }
    let start = symbol_start(bytes, offset);
    let end = symbol_end(bytes, offset);
    proof {
        lemma_symbol_start(b, offset as int);
        lemma_symbol_end(b, offset as int);
    }
    if start >= end {
        return None;
    }
    proof {
        lemma_symbol_range_valid(b, start as int, end as int);
        lemma_lines_fit(b, start as int);
        lemma_lines_fit(b, end as int);
    }
    let sym = utf8_string(&bytes[start..end])?;
    let range = Range { start: offset_to_position(text, start), end: offset_to_position(text, end) };
    Some((sym, range))
}

/// The prefix of the symbol typed up to a position and the range from its start
/// to the position: `None` when no symbol byte precedes the position's offset on
/// its symbol, or when those bytes do not form whole characters.
pub open spec fn symbol_prefix_at_spec(b: Seq<u8>, pos: Position) -> Option<(Seq<char>, Range)> {
    let off = offset_of(b, pos);
    let s = symbol_start_of(b, off);
    if s >= off || !valid_utf8(b.subrange(s, off)) {
        None
    } else {
        Some((decode_utf8(b.subrange(s, off)), Range { start: position_of(b, s), end: pos }))
    }
}

/// Return the symbol prefix being typed up to (but not past) `pos`, plus the
/// range from the symbol's start to `pos`. Used for completion.
pub fn symbol_prefix_at(text: &str, pos: &Position) -> (res: Option<(String, Range)>)
    requires
        lines_fit(text.spec_bytes()),
    ensures
        res is Some <==> symbol_prefix_at_spec(text.spec_bytes(), *pos) is Some,
        res matches Some((s, r)) ==> symbol_prefix_at_spec(text.spec_bytes(), *pos) == Some(
            (s@, r),
        ),
{
    let bytes = text.as_bytes();
    let ghost b = bytes@;
    let offset = position_to_offset(text, pos);
    let start = symbol_start(bytes, offset);
    proof {
        lemma_offset_of_bounds(b, *pos);
        lemma_symbol_start(b, offset as int);
    }
    if start >= offset {
        return None;
    }
    let prefix = utf8_string(&bytes[start..offset])?;
    proof {
        lemma_lines_fit(b, start as int);
    }
    let range = Range {
        start: offset_to_position(text, start),
        end: Position { line: pos.line, character: pos.character },
    };
    Some((prefix, range))
}

/// Outcome of scanning back for the `(` that opens the call around an offset.
pub enum CallScan {
    /// The index of the unmatched `(`.
    Found(int),
    NotFound,
    /// The count of closing parentheses passed over exceeds `i32::MAX`.
    Overflow,
}

/// Scan back from `i` (exclusive), counting `)` as opening a nested depth and
/// `(` as closing one, until a `(` at depth zero.
pub open spec fn call_scan(b: Seq<u8>, i: int, depth: int) -> CallScan
    decreases i,
{
    if i <= 0 || i > b.len() {
        CallScan::NotFound
    } else {
        let c = b[i - 1];
        if is_ascii_ws(c) {
            call_scan(b, i - 1, depth)
        } else if c == RPAREN {
            if depth + 1 > i32::MAX {
                CallScan::Overflow
            } else {
                call_scan(b, i - 1, depth + 1)
            }
        } else if c == LPAREN {
            if depth == 0 {
                CallScan::Found(i - 1)
            } else {
                call_scan(b, i - 1, depth - 1)
            }
        } else {
            call_scan(b, i - 1, depth)
        }
    }
}

/// The symbol just after the unmatched `(` before a position (after any
/// whitespace), if there is a nonempty one.
pub open spec fn called_symbol_spec(b: Seq<u8>, pos: Position) -> Option<Seq<char>> {
    match call_scan(b, offset_of(b, pos), 0) {
        CallScan::Found(k) => {
            let s = skip_ws_from(b, k + 1);
            let e = symbol_end_of(b, s);
            if e > s {
                Some(decode_utf8(b.subrange(s, e)))
            } else {
                None
            }
        },
        _ => None,
    }
}

/// For signature help: find the function being called around `pos` by scanning
/// back to the nearest unmatched `(` and taking the symbol just after it.
/// Returns the called symbol name. e.g. in `(foo a b|`, returns "foo".
pub fn called_symbol_before(text: &str, pos: &Position) -> (res: Option<String>)
    requires
        !(call_scan(text.spec_bytes(), offset_of(text.spec_bytes(), *pos), 0) is Overflow),
    ensures
        res is Some <==> called_symbol_spec(text.spec_bytes(), *pos) is Some,
        res matches Some(s) ==> called_symbol_spec(text.spec_bytes(), *pos) == Some(s@),
{
    let bytes = text.as_bytes();
    let ghost b = bytes@;
    let mut i = position_to_offset(text, pos);
    let ghost off = i as int;
    proof {
        lemma_offset_of_bounds(b, *pos);
    }
    // Walk back skipping whitespace, tracking paren depth; find the `(` that
    // opens the current call (depth 0 relative to start).
    let mut depth: i32 = 0;
    if i > bytes.len() {
        i = bytes.len();
    }
    while i > 0
        invariant
            b == bytes@,
            b == text.spec_bytes(),
            i <= b.len(),
            0 <= depth,
            off == offset_of(b, *pos),
            call_scan(b, off, 0) == call_scan(b, i as int, depth as int),
            !(call_scan(b, off, 0) is Overflow),
        decreases i,
    {
        i = i - 1;
        let c = bytes[i];
        if is_ascii_whitespace(c) {
            continue;
        }
        if c == RPAREN {
            depth = depth + 1;
            continue;
        }
        if c == LPAREN {
            if depth == 0 {
                // This `(` opens the current call. The called symbol is right after it.
                let mut j = i + 1;
                while j < bytes.len() && is_ascii_whitespace(bytes[j])
                    invariant
                        b == bytes@,
                        i < j <= b.len(),
                        skip_ws_from(b, i + 1) == skip_ws_from(b, j as int),
                    decreases b.len() - j,
                {
                    j = j + 1;
                }
                let start = j;
                while j < bytes.len() && is_symbol_char(bytes[j])
                    invariant
                        b == bytes@,
                        start <= j <= b.len(),
                        symbol_end_of(b, start as int) == symbol_end_of(b, j as int),
                    decreases b.len() - j,
                {
                    j = j + 1;
                }
                if j > start {
                    proof {
                        lemma_skip_ws(b, i + 1);
                        lemma_symbol_end(b, start as int);
                        assert(b[start - 1] < 0x80);
                        lemma_symbol_range_valid(b, start as int, j as int);
                    }
                    return utf8_string(&bytes[start..j]);
                }
                return None;
            }
            depth = depth - 1;
            continue;
        }
        // any other char inside the arg list keeps scanning (depth unchanged)
        if depth > 0 {
            continue;
        }
        // at depth 0 inside the call, keep scanning back over args

    }
    None
}

/// Outcome of scanning forward for the `)` that closes a `(`.
pub enum ParenScan {
    /// The index of the matching `)`.
    Found(int),
    Unbalanced,
    /// The nesting depth leaves the range of an `i32`.
    Overflow,
}

/// Scan forward from `i` with nesting `depth`, skipping string literals and
/// line comments, until a `)` brings the depth to zero.
pub open spec fn paren_scan(b: Seq<u8>, i: int, depth: int) -> ParenScan
    decreases b.len() - i,
{
    if i < 0 || i >= b.len() {
        ParenScan::Unbalanced
    } else {
        let c = b[i];
        if c == QUOTE {
            proof {
                lemma_string_end(b, i + 1);
            }
            paren_scan(b, string_end(b, i + 1), depth)
        } else if c == SEMICOLON {
            proof {
                lemma_next_newline(b, i);
            }
            paren_scan(b, next_newline(b, i), depth)
        } else if c == LPAREN {
            if depth + 1 > i32::MAX {
                ParenScan::Overflow
            } else {
                paren_scan(b, i + 1, depth + 1)
            }
        } else if c == RPAREN {
            if depth - 1 < i32::MIN {
                ParenScan::Overflow
            } else if depth - 1 == 0 {
                ParenScan::Found(i)
            } else {
                paren_scan(b, i + 1, depth - 1)
            }
        } else {
            paren_scan(b, i + 1, depth)
        }
    }
}

/// Skip a string literal whose body starts at `i`.
fn skip_string(bytes: &[u8], from: usize) -> (r: usize)
    requires
        from <= bytes@.len(),
    ensures
        r == string_end(bytes@, from as int),
{
    let n = bytes.len();
    let mut i = from;
    while i < n
        invariant
            n == bytes@.len(),
            i <= n,
            string_end(bytes@, from as int) == string_end(bytes@, i as int),
        decreases n - i,
    {
        if bytes[i] == BACKSLASH {
            i = if n - i >= 2 {
                i + 2
            } else {
                n
            };
            continue;
        }
        if bytes[i] == QUOTE {
            return i + 1;
        }
        i = i + 1;
    }
    n
}

/// Skip a line comment: the index of the next `\n` at or after `i`, or the end.
pub(crate) fn skip_comment(bytes: &[u8], from: usize) -> (r: usize)
    requires
        from <= bytes@.len(),
    ensures
        r == next_newline(bytes@, from as int),
{
    let mut i = from;
    let ghost i0 = i as int;
    while i < bytes.len() && bytes[i] != NEWLINE
        invariant
            i <= bytes@.len(),
            next_newline(bytes@, i0) == next_newline(bytes@, i as int),
        decreases bytes@.len() - i,
    {
        i = i + 1;
    }
    i
}

/// Given `bytes` and the index of an opening `(`, return the index of its
/// matching `)`, skipping string literals and line comments. None if unbalanced.
fn matching_paren(bytes: &[u8], open: usize) -> (res: Option<usize>)
    requires
        open < bytes@.len(),
        !(paren_scan(bytes@, open as int, 0) is Overflow),
    ensures
        res matches Some(c) ==> c < bytes@.len() && paren_scan(bytes@, open as int, 0)
            == ParenScan::Found(c as int),
        res is None ==> paren_scan(bytes@, open as int, 0) is Unbalanced,
{
    let ghost b = bytes@;
    let mut depth: i32 = 0;
    let mut i = open;
    while i < bytes.len()
        invariant
            b == bytes@,
            i <= b.len(),
            paren_scan(b, open as int, 0) == paren_scan(b, i as int, depth as int),
            !(paren_scan(b, open as int, 0) is Overflow),
        decreases b.len() - i,
    {
        let c = bytes[i];
        if c == QUOTE {
            proof {
                lemma_string_end(b, i + 1);
            }
            i = skip_string(bytes, i + 1);
            continue;
        }
        if c == SEMICOLON {
            proof {
                lemma_next_newline(b, i as int);
            }
            i = skip_comment(bytes, i);
            continue;
        }
        if c == LPAREN {
            depth = depth + 1;
        } else if c == RPAREN {
            depth = depth - 1;
            if depth == 0 {
                return Some(i);
            }
        }
        i = i + 1;
    }
    None
}

/// Whether `bytes` is a nonempty run of symbol bytes starting at `from`
/// (`skip_ws_from`'s counterpart for symbols).
fn skip_ws(bytes: &[u8], from: usize) -> (r: usize)
    requires
        from <= bytes@.len(),
    ensures
        r == skip_ws_from(bytes@, from as int),
{
    let mut i = from;
    while i < bytes.len() && is_ascii_whitespace(bytes[i])
        invariant
            i <= bytes@.len(),
            skip_ws_from(bytes@, from as int) == skip_ws_from(bytes@, i as int),
        decreases bytes@.len() - i,
    {
        i = i + 1;
    }
    i
}

/// Read a token starting at `i`; return (token, end_offset_past_token).
fn read_token(bytes: &[u8], i: usize) -> (res: Option<(String, usize)>)
    requires
        valid_utf8(bytes@),
        i <= bytes@.len(),
        i == 0 || i == bytes@.len() || bytes@[i - 1] < 0x80 || !is_symbol_byte(bytes@[i as int]),
    ensures
        res is Some <==> symbol_end_of(bytes@, i as int) > i,
        res matches Some((tok, end)) ==> end == symbol_end_of(bytes@, i as int) && tok@
            == decode_utf8(bytes@.subrange(i as int, end as int)) && valid_utf8(
            bytes@.subrange(i as int, end as int),
        ),
{
    let start = i;
    let mut end = i;
    while end < bytes.len() && is_symbol_char(bytes[end])
        invariant
            start <= end <= bytes@.len(),
            symbol_end_of(bytes@, start as int) == symbol_end_of(bytes@, end as int),
        decreases bytes@.len() - end,
    {
        end = end + 1;
    }
    if end == start {
        return None;
    }
    proof {
        lemma_symbol_end(bytes@, start as int);
        lemma_symbol_range_valid(bytes@, start as int, end as int);
    }
    let tok = utf8_string(&bytes[start..end])?;
    Some((tok, end))
}

/// Whether the first non-whitespace byte at or after `head_end` is `(`.
fn head_end_leads_to_paren(bytes: &[u8], head_end: usize) -> (r: bool)
    requires
        head_end <= bytes@.len(),
    ensures
        r == (skip_ws_from(bytes@, head_end as int) < bytes@.len() && bytes@[skip_ws_from(
            bytes@,
            head_end as int,
        )] == LPAREN),
{
    let j = skip_ws(bytes, head_end);
    proof {
        lemma_skip_ws(bytes@, head_end as int);
    }
    j < bytes.len() && bytes[j] == LPAREN
}

/// The definition-form keywords whose body starts with the defined name:
/// `define`, `define*`, `define-public`, `define-record-type`, `define-syntax`,
/// `define-macro`, `define-method`, `define-generic`, `define-class` and
/// `define-accessors`, as bytes.
pub open spec fn define_heads() -> Seq<Seq<u8>> {
    seq![
        seq![100u8, 101, 102, 105, 110, 101],
        seq![100u8, 101, 102, 105, 110, 101, 42],
        seq![100u8, 101, 102, 105, 110, 101, 45, 112, 117, 98, 108, 105, 99],
        seq![100u8, 101, 102, 105, 110, 101, 45, 114, 101, 99, 111, 114, 100, 45, 116, 121, 112, 101],
        seq![100u8, 101, 102, 105, 110, 101, 45, 115, 121, 110, 116, 97, 120],
        seq![100u8, 101, 102, 105, 110, 101, 45, 109, 97, 99, 114, 111],
        seq![100u8, 101, 102, 105, 110, 101, 45, 109, 101, 116, 104, 111, 100],
        seq![100u8, 101, 102, 105, 110, 101, 45, 103, 101, 110, 101, 114, 105, 99],
        seq![100u8, 101, 102, 105, 110, 101, 45, 99, 108, 97, 115, 115],
        seq![100u8, 101, 102, 105, 110, 101, 45, 97, 99, 99, 101, 115, 115, 111, 114, 115],
    ]
}

/// The bytes of the definition keywords of `define_heads`, in the same order.
fn define_head_words() -> (words: Vec<Vec<u8>>)
    ensures
        words@.len() == define_heads().len(),
        forall|k: int| 0 <= k < words@.len() ==> words@[k]@ == define_heads()[k],
{
    let words = vec![
        vec![100u8, 101, 102, 105, 110, 101],
        vec![100u8, 101, 102, 105, 110, 101, 42],
        vec![100u8, 101, 102, 105, 110, 101, 45, 112, 117, 98, 108, 105, 99],
        vec![100u8, 101, 102, 105, 110, 101, 45, 114, 101, 99, 111, 114, 100, 45, 116, 121, 112, 101],
        vec![100u8, 101, 102, 105, 110, 101, 45, 115, 121, 110, 116, 97, 120],
        vec![100u8, 101, 102, 105, 110, 101, 45, 109, 97, 99, 114, 111],
        vec![100u8, 101, 102, 105, 110, 101, 45, 109, 101, 116, 104, 111, 100],
        vec![100u8, 101, 102, 105, 110, 101, 45, 103, 101, 110, 101, 114, 105, 99],
        vec![100u8, 101, 102, 105, 110, 101, 45, 99, 108, 97, 115, 115],
        vec![100u8, 101, 102, 105, 110, 101, 45, 97, 99, 99, 101, 115, 115, 111, 114, 115],
    ];
    assert(words@[0]@ == define_heads()[0]);
    words
}

/// Whether two byte slices hold the same bytes.
fn bytes_equal(a: &[u8], b: &[u8]) -> (r: bool)
    ensures
        r == (a@ == b@),
{
    if a.len() != b.len() {
        return false;
    }
    let mut k: usize = 0;
    while k < a.len()
        invariant
            a@.len() == b@.len(),
            k <= a@.len(),
            forall|m: int| 0 <= m < k ==> a@[m] == b@[m],
        decreases a@.len() - k,
    {
        if a[k] != b[k] {
            return false;
        }
        k = k + 1;
    }
    assert(a@ =~= b@);
    true
}

/// Whether a token is one of the definition keywords.
fn is_define_head(tok: &[u8]) -> (r: bool)
    ensures
        r == define_heads().contains(tok@),
{
    let words = define_head_words();
    let mut k: usize = 0;
    while k < words.len()
        invariant
            words@.len() == define_heads().len(),
            forall|m: int| 0 <= m < words@.len() ==> words@[m]@ == define_heads()[m],
            k <= words@.len(),
            forall|m: int| 0 <= m < k ==> define_heads()[m] != tok@,
        decreases words@.len() - k,
    {
        if bytes_equal(tok, words[k].as_slice()) {
            assert(define_heads()[k as int] == tok@);
            return true;
        }
        k = k + 1;
    }
    false
}

/// The kind of a definition: a function (`(define (name ...) ...)`) or a value.
#[allow(non_camel_case_types)]
#[derive(Clone, Copy, Debug, PartialEq, Eq, Structural)]
pub enum SymbolKind {
    FUNCTION,
    VARIABLE,
}

/// One top-level definition found while scanning.
#[derive(Clone, Debug, PartialEq)]
pub struct DefineInfo {
    pub name: String,
    pub kind: SymbolKind,
    /// Range covering the whole defining form (from `(` to matching `)`).
    pub range: Range,
    /// Tighter range around just the defined name.
    pub selection_range: Range,
}

/// A definition with its name as characters.
pub struct DefineView {
    pub name: Seq<char>,
    pub kind: SymbolKind,
    pub range: Range,
    pub selection_range: Range,
}

impl View for DefineInfo {
    type V = DefineView;

    open spec fn view(&self) -> DefineView {
        DefineView {
            name: self.name@,
            kind: self.kind,
            range: self.range,
            selection_range: self.selection_range,
        }
    }
}

/// Where the defined name of a form whose head ends at `he` starts: after the
/// whitespace that follows the head, and past a `(` and more whitespace when
/// the form defines a function.
pub open spec fn def_name_start(b: Seq<u8>, he: int) -> int {
    let j = skip_ws_from(b, he);
    if j < b.len() && b[j] == LPAREN {
        skip_ws_from(b, j + 1)
    } else {
        j
    }
}

/// The `(` at `i` opens a definition form: its head is a definition keyword and
/// a nonempty name follows.
pub open spec fn is_define_form(b: Seq<u8>, i: int) -> bool {
    let hs = i + 1;
    let he = symbol_end_of(b, hs);
    let ns = def_name_start(b, he);
    &&& he > hs
    &&& define_heads().contains(b.subrange(hs, he))
    &&& symbol_end_of(b, ns) > ns
}

/// Outcome of reading the form that opens at a `(`.
pub enum DefineAt {
    Nothing,
    Found(DefineView),
    /// Matching the form's parentheses overflows the nesting depth.
    Overflow,
}

/// The definition that the `(` at `i` opens, if it opens one: its name, whether
/// it is a function, the range of the whole form (to the matching `)`, or to
/// the end of the name when the form is unbalanced) and the range of the name.
pub open spec fn define_at(b: Seq<u8>, i: int) -> DefineAt {
    if !is_define_form(b, i) {
        DefineAt::Nothing
    } else {
        let he = symbol_end_of(b, i + 1);
        let j = skip_ws_from(b, he);
        let callable = j < b.len() && b[j] == LPAREN;
        let ns = def_name_start(b, he);
        let ne = symbol_end_of(b, ns);
        match paren_scan(b, i, 0) {
            ParenScan::Overflow => DefineAt::Overflow,
            r => {
                let form_end = match r {
                    ParenScan::Found(c) => c + 1,
                    _ => ne,
                };
                DefineAt::Found(
                    DefineView {
                        name: decode_utf8(b.subrange(ns, ne)),
                        kind: if callable {
                            SymbolKind::FUNCTION
                        } else {
                            SymbolKind::VARIABLE
                        },
                        range: Range { start: position_of(b, i), end: position_of(b, form_end) },
                        selection_range: Range {
                            start: position_of(b, ns),
                            end: position_of(b, ne),
                        },
                    },
                )
            },
        }
    }
}

/// The definitions found scanning from `i` at parenthesis depth `depth`: a `(`
/// that raises the depth to one may open a definition; strings and comments are
/// skipped; `None` when the depth leaves the range of an `i32`.
pub open spec fn scan_from(b: Seq<u8>, i: int, depth: int) -> Option<Seq<DefineView>>
    decreases b.len() - i,
{
    if i < 0 || i >= b.len() {
        Some(seq![])
    } else {
        let c = b[i];
        if c == QUOTE {
            proof {
                lemma_string_end(b, i + 1);
            }
            scan_from(b, string_end(b, i + 1), depth)
        } else if c == SEMICOLON {
            proof {
                lemma_next_newline(b, i);
            }
            scan_from(b, next_newline(b, i), depth)
        } else if c == LPAREN {
            if depth + 1 > i32::MAX {
                None
            } else {
                let here = if depth + 1 == 1 {
                    define_at(b, i)
                } else {
                    DefineAt::Nothing
                };
                match here {
                    DefineAt::Overflow => None,
                    DefineAt::Nothing => scan_from(b, i + 1, depth + 1),
                    DefineAt::Found(v) => match scan_from(b, i + 1, depth + 1) {
                        Some(rest) => Some(seq![v] + rest),
                        None => None,
                    },
                }
            }
        } else if c == RPAREN && depth > 0 {
            scan_from(b, i + 1, depth - 1)
        } else {
            scan_from(b, i + 1, depth)
        }
    }
}

/// The definition that the `(` at `i` opens, if any.
fn define_at_paren(text: &str, bytes: &[u8], i: usize) -> (res: Option<DefineInfo>)
    requires
        bytes@ == text.spec_bytes(),
        lines_fit(bytes@),
        i < bytes@.len(),
        bytes@[i as int] == LPAREN,
        !(define_at(bytes@, i as int) is Overflow),
    ensures
        define_at(bytes@, i as int) is Nothing ==> res is None,
        define_at(bytes@, i as int) matches DefineAt::Found(v) ==> (res matches Some(d) && d@
            == v),
{
    let ghost b = bytes@;
    let n = bytes.len();
    proof {
        lemma_symbol_end(b, i + 1);
    }
    if let Some((head, head_end)) = read_token(bytes, i + 1) {
        proof {
            decode_utf8_encode_utf8(b.subrange(i + 1, head_end as int));
        }
        if is_define_head(head.as_str().as_bytes()) {
            let mut j = skip_ws(bytes, head_end);
            let is_callable = head_end_leads_to_paren(bytes, head_end);
            proof {
                lemma_skip_ws(b, head_end as int);
            }
            if is_callable {
                proof {
                    lemma_skip_ws(b, j + 1);
                }
                j = skip_ws(bytes, j + 1);
            }
            if let Some((name, name_end)) = read_token(bytes, j) {
                proof {
                    lemma_symbol_end(b, j as int);
                    decode_utf8_encode_utf8(b.subrange(j as int, name_end as int));
                    assert(is_define_form(b, i as int));
                }
                let name_start = name_end - name.as_str().len();
                let kind = if is_callable {
                    SymbolKind::FUNCTION
                } else {
                    SymbolKind::VARIABLE
                };
                // Full form = from this '(' to its matching ')'.
                let form_end = match matching_paren(bytes, i) {
                    Some(close) => close + 1,
                    None => name_end,
                };
                proof {
                    lemma_symbol_end(b, j as int);
                    lemma_lines_fit(b, i as int);
                    lemma_lines_fit(b, form_end as int);
                    lemma_lines_fit(b, name_start as int);
                    lemma_lines_fit(b, name_end as int);
                }
                return Some(
                    DefineInfo {
                        name,
                        kind,
                        range: Range {
                            start: offset_to_position(text, i),
                            end: offset_to_position(text, form_end),
                        },
                        selection_range: Range {
                            start: offset_to_position(text, name_start),
                            end: offset_to_position(text, name_end),
                        },
                    },
                );
            }
        }
    }
    None
}

/// Scan `text` for top-level `(define…)` forms and return one entry each.
pub fn scan_defines(text: &str) -> (out: Vec<DefineInfo>)
    requires
        lines_fit(text.spec_bytes()),
        scan_from(text.spec_bytes(), 0, 0) is Some,
    ensures
        out@.map_values(|d: DefineInfo| d@) == scan_from(text.spec_bytes(), 0, 0)->0,
{
    let bytes = text.as_bytes();
    let ghost b = bytes@;
    let n = bytes.len();
    let mut out: Vec<DefineInfo> = Vec::new();
    let mut depth: i32 = 0;
    let mut i: usize = 0;
    while i < n
        invariant
            b == bytes@,
            b == text.spec_bytes(),
            n == b.len(),
            lines_fit(b),
            i <= n,
            scan_from(b, i as int, depth as int) is Some,
            scan_from(b, 0, 0) == Some(
                out@.map_values(|d: DefineInfo| d@) + scan_from(b, i as int, depth as int)->0,
            ),
        decreases n - i,
    {
        let c = bytes[i];
        if c == QUOTE {
            // skip string literal
            proof {
                lemma_string_end(b, i + 1);
            }
            i = skip_string(bytes, i + 1);
            continue;
        }
        if c == SEMICOLON {
            // line comment
            proof {
                lemma_next_newline(b, i as int);
            }
            i = skip_comment(bytes, i);
            continue;
        }
        if c == LPAREN {
            depth = depth + 1;
            if depth == 1 {
                let found = define_at_paren(text, bytes, i);
                if let Some(d) = found {
                    let ghost before = out@.map_values(|d: DefineInfo| d@);
                    out.push(d);
                    proof {
                        assert(out@.map_values(|d: DefineInfo| d@) =~= before.push(d@));
                        let rest = scan_from(b, i + 1, depth as int)->0;
                        assert(before + (seq![d@] + rest) =~= before.push(d@) + rest);
                    }
                }
            }
        } else if c == RPAREN && depth > 0 {
            depth = depth - 1;
        }
        i = i + 1;
    }
    proof {
        assert(out@.map_values(|d: DefineInfo| d@) + seq![] =~= out@.map_values(
            |d: DefineInfo| d@,
        ));
    }
    out
}

/// The byte spans `(start, end)` of the whole-symbol occurrences of `w` found
/// scanning from `i`, skipping string literals and line comments.
pub open spec fn ref_scan(b: Seq<u8>, i: int, w: Seq<u8>) -> Seq<(int, int)>
    decreases b.len() - i,
{
    if i < 0 || i >= b.len() {
        seq![]
    } else {
        let c = b[i];
        if c == QUOTE {
            proof {
                lemma_string_end(b, i + 1);
            }
            ref_scan(b, string_end(b, i + 1), w)
        } else if c == SEMICOLON {
            proof {
                lemma_next_newline(b, i);
            }
            ref_scan(b, next_newline(b, i), w)
        } else if is_symbol_byte(c) {
            let e = symbol_end_of(b, i);
            proof {
                lemma_symbol_end(b, i);
            }
            (if b.subrange(i, e) == w {
                seq![(i, e)]
            } else {
                seq![]
            }) + ref_scan(b, e, w)
        } else {
            ref_scan(b, i + 1, w)
        }
    }
}

/// The range of a byte span of `b`.
pub open spec fn span_range(b: Seq<u8>, span: (int, int)) -> Range {
    Range { start: position_of(b, span.0), end: position_of(b, span.1) }
}

/// Find every occurrence of `symbol` as a whole identifier token in `text`,
/// skipping string literals and line comments. Used for goto-references.
pub fn find_references_in_text(text: &str, symbol: &str) -> (refs: Vec<Range>)
    requires
        lines_fit(text.spec_bytes()),
    ensures
        refs@ == ref_scan(text.spec_bytes(), 0, symbol.spec_bytes()).map_values(
            |span: (int, int)| span_range(text.spec_bytes(), span),
        ),
{
    let bytes = text.as_bytes();
    let sym = symbol.as_bytes();
    let ghost b = bytes@;
    let ghost w = sym@;
    let n = bytes.len();
    let mut refs: Vec<Range> = Vec::new();
    let ghost mut spans: Seq<(int, int)> = seq![];
    let mut i: usize = 0;
    while i < n
        invariant
            b == bytes@,
            b == text.spec_bytes(),
            w == sym@,
            n == b.len(),
            lines_fit(b),
            i <= n,
            ref_scan(b, 0, w) == spans + ref_scan(b, i as int, w),
            refs@ == spans.map_values(|span: (int, int)| span_range(b, span)),
        decreases n - i,
    {
        let c = bytes[i];
        if c == QUOTE {
            // skip string literal
            proof {
                lemma_string_end(b, i + 1);
            }
            i = skip_string(bytes, i + 1);
        } else if c == SEMICOLON {
            proof {
                lemma_next_newline(b, i as int);
            }
            i = skip_comment(bytes, i);
        } else if is_symbol_char(c) {
            let start = i;
            while i < n && is_symbol_char(bytes[i])
                invariant
                    b == bytes@,
                    n == b.len(),
                    start <= i <= n,
                    symbol_end_of(b, start as int) == symbol_end_of(b, i as int),
                decreases n - i,
            {
                i = i + 1;
            }
            proof {
                lemma_symbol_end(b, start as int);
            }
            if bytes_equal(&bytes[start..i], sym) {
                proof {
                    lemma_lines_fit(b, start as int);
                    lemma_lines_fit(b, i as int);
                }
                let r = Range {
                    start: offset_to_position(text, start),
                    end: offset_to_position(text, i),
                };
                refs.push(r);
                proof {
                    let old_spans = spans;
                    spans = spans.push((start as int, i as int));
                    assert(spans.map_values(|span: (int, int)| span_range(b, span))
                        =~= old_spans.map_values(|span: (int, int)| span_range(b, span)).push(r));
                    assert(old_spans + (seq![(start as int, i as int)] + ref_scan(b, i as int, w))
                        =~= spans + ref_scan(b, i as int, w));
                }
            } else {
                proof {
                    assert(spans + (Seq::<(int, int)>::empty() + ref_scan(b, i as int, w))
                        =~= spans + ref_scan(b, i as int, w));
                }
            }
        } else {
            i = i + 1;
        }
    }
    proof {
        assert(spans + Seq::<(int, int)>::empty() =~= spans);
    }
    refs
}

/// The `(` at `i` opens a definition form whose name is `w`.
pub open spec fn defines_at(b: Seq<u8>, i: int, w: Seq<u8>) -> bool {
    let he = symbol_end_of(b, i + 1);
    let ns = def_name_start(b, he);
    &&& b[i] == LPAREN
    &&& is_define_form(b, i)
    &&& b.subrange(ns, symbol_end_of(b, ns)) == w
}

/// The range from the first `(` at or after `i` that opens a definition of `w`
/// to the end of the defined name.
pub open spec fn def_scan(b: Seq<u8>, i: int, w: Seq<u8>) -> Option<Range>
    decreases b.len() - i,
{
    if i < 0 || i >= b.len() {
        None
    } else if defines_at(b, i, w) {
        let ns = def_name_start(b, symbol_end_of(b, i + 1));
        Some(Range { start: position_of(b, i), end: position_of(b, symbol_end_of(b, ns)) })
    } else {
        def_scan(b, i + 1, w)
    }
}

/// Find the (Range of the) definition of `symbol` in `text`, by scanning
/// top-level-ish `(define…)` forms. Returns the range covering the whole
/// defining form's head `(define-name` opening, precise enough for goto.
pub fn find_definition_in_text(text: &str, symbol: &str) -> (res: Option<Range>)
    requires
        lines_fit(text.spec_bytes()),
    ensures
        res == def_scan(text.spec_bytes(), 0, symbol.spec_bytes()),
{
    let bytes = text.as_bytes();
    let ghost b = bytes@;
    let ghost w = symbol.spec_bytes();
    let n = bytes.len();
    let mut i: usize = 0;
    while i < n
        invariant
            b == bytes@,
            b == text.spec_bytes(),
            w == symbol.spec_bytes(),
            n == b.len(),
            lines_fit(b),
            i <= n,
            def_scan(b, 0, w) == def_scan(b, i as int, w),
        decreases n - i,
    {
        if bytes[i] == LPAREN {
            // Read the head token after '('.
            proof {
                lemma_symbol_end(b, i + 1);
            }
            if let Some((head, head_end)) = read_token(bytes, i + 1) {
                proof {
                    decode_utf8_encode_utf8(b.subrange(i + 1, head_end as int));
                }
                if is_define_head(head.as_str().as_bytes()) {
                    // The defined name is the next token, possibly after '('.
                    let mut j = skip_ws(bytes, head_end);
                    proof {
                        lemma_skip_ws(b, head_end as int);
                    }
                    if j < bytes.len() && bytes[j] == LPAREN {
                        proof {
                            lemma_skip_ws(b, j + 1);
                        }
                        j = skip_ws(bytes, j + 1);
                    }
                    if let Some((name, name_end)) = read_token(bytes, j) {
                        proof {
                            lemma_symbol_end(b, j as int);
                            decode_utf8_encode_utf8(b.subrange(j as int, name_end as int));
                        }
                        if bytes_equal(name.as_str().as_bytes(), symbol.as_bytes()) {
                            let name_len = name.as_str().len();
                            let name_start = name_end - name_len;
                            proof {
                                lemma_lines_fit(b, i as int);
                                lemma_lines_fit(b, (name_start + name_len) as int);
                            }
                            let range = Range {
                                start: offset_to_position(text, i),
                                end: offset_to_position(text, name_start + name_len),
                            };
                            return Some(range);
                        }
                    }
                }
            }
        }
        i = i + 1;
    }
    None
}

/// Matching parentheses from `i` cannot overflow while the depth stays within
/// an `i32` for every byte that is left.
proof fn lemma_paren_scan_fits(b: Seq<u8>, i: int, depth: int)
    requires
        0 <= i,
        i32::MIN + (b.len() - i) <= depth,
        depth + (b.len() - i) <= i32::MAX,
    ensures
        !(paren_scan(b, i, depth) is Overflow),
    decreases b.len() - i,
{
    if i < b.len() {
        let c = b[i];
        if c == QUOTE {
            lemma_string_end(b, i + 1);
            lemma_paren_scan_fits(b, string_end(b, i + 1), depth);
        } else if c == SEMICOLON {
            lemma_next_newline(b, i);
            lemma_next_newline(b, i + 1);
            lemma_paren_scan_fits(b, next_newline(b, i), depth);
        } else if c == LPAREN {
            lemma_paren_scan_fits(b, i + 1, depth + 1);
        } else if c == RPAREN {
            if depth - 1 != 0 {
                lemma_paren_scan_fits(b, i + 1, depth - 1);
            }
        } else {
            lemma_paren_scan_fits(b, i + 1, depth);
        }
    }
}

/// Scanning for definitions from `i` cannot overflow while the depth stays
/// within an `i32` for every byte that is left.
proof fn lemma_scan_from_fits(b: Seq<u8>, i: int, depth: int)
    requires
        0 <= i,
        0 <= depth,
        depth + (b.len() - i) <= i32::MAX,
    ensures
        scan_from(b, i, depth) is Some,
    decreases b.len() - i,
{
    if i < b.len() {
        let c = b[i];
        if c == QUOTE {
            lemma_string_end(b, i + 1);
            lemma_scan_from_fits(b, string_end(b, i + 1), depth);
        } else if c == SEMICOLON {
            lemma_next_newline(b, i);
            lemma_next_newline(b, i + 1);
            lemma_scan_from_fits(b, next_newline(b, i), depth);
        } else if c == LPAREN {
            if depth + 1 == 1 {
                lemma_paren_scan_fits(b, i, 0);
            }
            lemma_scan_from_fits(b, i + 1, depth + 1);
        } else if c == RPAREN && depth > 0 {
            lemma_scan_from_fits(b, i + 1, depth - 1);
        } else {
            lemma_scan_from_fits(b, i + 1, depth);
        }
    }
}

/// Scanning back for an open call from `i` cannot overflow while the depth
/// stays within an `i32` for every byte that is left.
proof fn lemma_call_scan_fits(b: Seq<u8>, i: int, depth: int)
    requires
        0 <= depth,
        depth + i <= i32::MAX,
    ensures
        !(call_scan(b, i, depth) is Overflow),
    decreases i,
{
    if 0 < i <= b.len() {
        let c = b[i - 1];
        if is_ascii_ws(c) {
            lemma_call_scan_fits(b, i - 1, depth);
        } else if c == RPAREN {
            lemma_call_scan_fits(b, i - 1, depth + 1);
        } else if c == LPAREN {
            if depth != 0 {
                lemma_call_scan_fits(b, i - 1, depth - 1);
            }
        } else {
            lemma_call_scan_fits(b, i - 1, depth);
        }
    }
}

/// A text of at most `i32::MAX` bytes meets what the scanners of this module
/// ask: its line numbers fit in a `u32` and no parenthesis depth overflows.
pub open spec fn within_limits(b: Seq<u8>) -> bool {
    &&& lines_fit(b)
    &&& scan_from(b, 0, 0) is Some
    &&& forall|p: Position| !(#[trigger] call_scan(b, offset_of(b, p), 0) is Overflow)
}

/// Whether `text` is at most `i32::MAX` bytes long; such a text is within the
/// limits of the scanners.
pub fn text_within_limits(text: &str) -> (r: bool)
    ensures
        r == (text.spec_bytes().len() <= i32::MAX),
        r ==> within_limits(text.spec_bytes()),
{
    let r = text.as_bytes().len() <= 2147483647usize;
    proof {
        let b = text.spec_bytes();
        if r {
            lemma_newlines_before_bounded(b, b.len() as int);
            lemma_scan_from_fits(b, 0, 0);
            assert forall|p: Position| !(#[trigger] call_scan(b, offset_of(b, p), 0) is Overflow) by {
                lemma_offset_of_bounds(b, p);
                lemma_call_scan_fits(b, offset_of(b, p), 0);
            }
        }
    }
    r
}

proof fn lemma_newlines_before_bounded(b: Seq<u8>, o: int)
    ensures
        newlines_before(b, o) <= if o < 0 { 0 } else { o },
    decreases o,
{
    if o > 0 && o <= b.len() {
        lemma_newlines_before_bounded(b, o - 1);
    }
}

/// A string literal that ends before the end of the text ends with its quote.
proof fn lemma_string_end_quote(b: Seq<u8>, i: int)
    requires
        0 <= i <= b.len(),
    ensures
        string_end(b, i) < b.len() ==> string_end(b, i) > 0 && b[string_end(b, i) - 1] == QUOTE,
    decreases b.len() - i,
{
    if i < b.len() {
        if b[i] == BACKSLASH {
            if b.len() - i >= 2 {
                lemma_string_end_quote(b, i + 2);
            }
        } else if b[i] != QUOTE {
            lemma_string_end_quote(b, i + 1);
        }
    }
}

/// The references found from `i` are whole tokens spelling `w`, when `i` is
/// not in the middle of a token.
proof fn lemma_ref_scan_tokens(b: Seq<u8>, i: int, w: Seq<u8>)
    requires
        0 <= i <= b.len(),
        i == 0 || i == b.len() || !is_symbol_byte(b[i - 1]) || !is_symbol_byte(b[i]),
    ensures
        forall|k: int|
            0 <= k < ref_scan(b, i, w).len() ==> {
                let (s, e) = #[trigger] ref_scan(b, i, w)[k];
                &&& 0 <= s < e <= b.len()
                &&& b.subrange(s, e) == w
                &&& s == 0 || !is_symbol_byte(b[s - 1])
                &&& e == b.len() || !is_symbol_byte(b[e])
            },
    decreases b.len() - i,
{
    if i < b.len() {
        let c = b[i];
        if c == QUOTE {
            lemma_string_end(b, i + 1);
            lemma_string_end_quote(b, i + 1);
            lemma_ref_scan_tokens(b, string_end(b, i + 1), w);
            assert(ref_scan(b, i, w) == ref_scan(b, string_end(b, i + 1), w));
        } else if c == SEMICOLON {
            lemma_next_newline(b, i);
            lemma_ref_scan_tokens(b, next_newline(b, i), w);
            assert(ref_scan(b, i, w) == ref_scan(b, next_newline(b, i), w));
        } else if is_symbol_byte(c) {
            let e = symbol_end_of(b, i);
            lemma_symbol_end(b, i);
            lemma_ref_scan_tokens(b, e, w);
            let here: Seq<(int, int)> = if b.subrange(i, e) == w {
                seq![(i, e)]
            } else {
                seq![]
            };
            let rest = ref_scan(b, e, w);
            assert(ref_scan(b, i, w) == here + rest);
            assert forall|k: int| 0 <= k < ref_scan(b, i, w).len() implies {
                let (s, e2) = #[trigger] ref_scan(b, i, w)[k];
                &&& 0 <= s < e2 <= b.len()
                &&& b.subrange(s, e2) == w
                &&& s == 0 || !is_symbol_byte(b[s - 1])
                &&& e2 == b.len() || !is_symbol_byte(b[e2])
            } by {
                if k >= here.len() {
                    assert(ref_scan(b, i, w)[k] == rest[k - here.len()]);
                } else {
                    assert(ref_scan(b, i, w)[k] == here[k]);
                    assert(here[k] == (i, e));
                    assert(e > i);
                }
            }
        } else {
            lemma_ref_scan_tokens(b, i + 1, w);
            assert(ref_scan(b, i, w) == ref_scan(b, i + 1, w));
        }
    }
}

/// References respect word boundaries: every reference found is a whole
/// token (bounded by non-symbol bytes or the ends of the text) that spells
/// the symbol exactly.
pub proof fn law_references_are_whole_tokens(b: Seq<u8>, w: Seq<u8>)
    ensures
        forall|k: int|
            0 <= k < ref_scan(b, 0, w).len() ==> {
                let (s, e) = #[trigger] ref_scan(b, 0, w)[k];
                &&& 0 <= s < e <= b.len()
                &&& b.subrange(s, e) == w
                &&& s == 0 || !is_symbol_byte(b[s - 1])
                &&& e == b.len() || !is_symbol_byte(b[e])
            },
{
    lemma_ref_scan_tokens(b, 0, w);
}

/// The symbol at a position contains the position: its bytes run from a
/// token boundary before the position's offset to one after it, and all of
/// them are symbol bytes.
pub proof fn law_symbol_at_contains_cursor(b: Seq<u8>, pos: Position)
    requires
        symbol_at_spec(b, pos) is Some,
    ensures
        ({
            let off = offset_of(b, pos);
            let s = symbol_start_of(b, off);
            let e = symbol_end_of(b, off);
            &&& 0 <= s <= off < e <= b.len()
            &&& forall|k: int| s <= k < e ==> is_symbol_byte(#[trigger] b[k])
            &&& s == 0 || !is_symbol_byte(b[s - 1])
            &&& e == b.len() || !is_symbol_byte(b[e])
            &&& symbol_at_spec(b, pos) == Some(
                (decode_utf8(b.subrange(s, e)), Range { start: position_of(b, s), end: position_of(b, e) }),
            )
        }),
{
    let off = offset_of(b, pos);
    lemma_offset_of_bounds(b, pos);
    lemma_symbol_start(b, off);
    lemma_symbol_end(b, off);
}

/// A definition found for a symbol is a `(define…` form that names exactly
/// that symbol: the range starts at the form's `(`.
pub proof fn law_definition_names_the_symbol(b: Seq<u8>, w: Seq<u8>)
    requires
        def_scan(b, 0, w) is Some,
    ensures
        exists|i: int|
            0 <= i < b.len() && #[trigger] defines_at(b, i, w) && def_scan(b, 0, w)->0.start
                == position_of(b, i),
{
    lemma_def_scan_found(b, 0, w);
}

proof fn lemma_def_scan_found(b: Seq<u8>, i: int, w: Seq<u8>)
    requires
        0 <= i,
        def_scan(b, i, w) is Some,
    ensures
        exists|j: int|
            i <= j < b.len() && #[trigger] defines_at(b, j, w) && def_scan(b, i, w)->0.start
                == position_of(b, j),
    decreases b.len() - i,
{
    if i < b.len() && !defines_at(b, i, w) {
        lemma_def_scan_found(b, i + 1, w);
    }
}

/// The references found from `i` lie at or after `i`, in increasing order
/// without overlap, and none is found for the empty symbol.
proof fn lemma_ref_scan_order(b: Seq<u8>, i: int, w: Seq<u8>)
    requires
        0 <= i <= b.len(),
    ensures
        forall|k: int| 0 <= k < ref_scan(b, i, w).len() ==> i <= (#[trigger] ref_scan(b, i, w)[k]).0,
        forall|k1: int, k2: int|
            0 <= k1 < k2 < ref_scan(b, i, w).len() ==> (#[trigger] ref_scan(b, i, w)[k1]).1 <= (
            #[trigger] ref_scan(b, i, w)[k2]).0,
        w.len() == 0 ==> ref_scan(b, i, w).len() == 0,
    decreases b.len() - i,
{
    if i < b.len() {
        let c = b[i];
        if c == QUOTE {
            lemma_string_end(b, i + 1);
            lemma_ref_scan_order(b, string_end(b, i + 1), w);
            assert(ref_scan(b, i, w) == ref_scan(b, string_end(b, i + 1), w));
        } else if c == SEMICOLON {
            lemma_next_newline(b, i);
            lemma_ref_scan_order(b, next_newline(b, i), w);
            assert(ref_scan(b, i, w) == ref_scan(b, next_newline(b, i), w));
        } else if is_symbol_byte(c) {
            let e = symbol_end_of(b, i);
            lemma_symbol_end(b, i);
            assert(e > i);
            lemma_ref_scan_order(b, e, w);
            let here: Seq<(int, int)> = if b.subrange(i, e) == w {
                seq![(i, e)]
            } else {
                seq![]
            };
            let rest = ref_scan(b, e, w);
            let all = ref_scan(b, i, w);
            assert(all == here + rest);
            if w.len() == 0 {
                assert(b.subrange(i, e).len() > 0);
                assert(here.len() == 0);
            }
            assert forall|k: int| 0 <= k < all.len() implies i <= (#[trigger] all[k]).0 by {
                if k >= here.len() {
                    assert(all[k] == rest[k - here.len()]);
                } else {
                    assert(all[k] == here[k]);
                }
            }
            assert forall|k1: int, k2: int| 0 <= k1 < k2 < all.len() implies (#[trigger] all[k1]).1
                <= (#[trigger] all[k2]).0 by {
                assert(all[k2] == rest[k2 - here.len()]);
                if k1 >= here.len() {
                    assert(all[k1] == rest[k1 - here.len()]);
                } else {
                    assert(all[k1] == here[k1]);
                }
            }
        } else {
            lemma_ref_scan_order(b, i + 1, w);
            assert(ref_scan(b, i, w) == ref_scan(b, i + 1, w));
        }
    }
}

/// References come in text order, one after another without overlap, and
/// there are none for the empty symbol.
pub proof fn law_references_in_order(b: Seq<u8>, w: Seq<u8>)
    ensures
        forall|k1: int, k2: int|
            0 <= k1 < k2 < ref_scan(b, 0, w).len() ==> (#[trigger] ref_scan(b, 0, w)[k1]).1 <= (
            #[trigger] ref_scan(b, 0, w)[k2]).0,
        w.len() == 0 ==> ref_scan(b, 0, w).len() == 0,
{
    lemma_ref_scan_order(b, 0, w);
}

/// A `)` found by matching parentheses from `k` lies at or after `k`.
proof fn lemma_paren_scan_ge(b: Seq<u8>, k: int, d: int)
    requires
        0 <= k,
    ensures
        paren_scan(b, k, d) matches ParenScan::Found(c) ==> k <= c < b.len(),
    decreases b.len() - k,
{
    if k < b.len() {
        let c = b[k];
        if c == QUOTE {
            lemma_string_end(b, k + 1);
            lemma_paren_scan_ge(b, string_end(b, k + 1), d);
        } else if c == SEMICOLON {
            lemma_next_newline(b, k);
            lemma_paren_scan_ge(b, next_newline(b, k), d);
        } else if c == LPAREN {
            lemma_paren_scan_ge(b, k + 1, d + 1);
        } else if c == RPAREN {
            lemma_paren_scan_ge(b, k + 1, d - 1);
        } else {
            lemma_paren_scan_ge(b, k + 1, d);
        }
    }
}

/// Matching parentheses at a positive depth across bytes that hold no `)`,
/// quote or `;` finds a `)` only after them.
proof fn lemma_paren_scan_past(b: Seq<u8>, k: int, d: int, m: int)
    requires
        0 <= k <= m <= b.len(),
        1 <= d,
        forall|t: int| k <= t < m ==> #[trigger] b[t] != RPAREN && b[t] != QUOTE && b[t] != SEMICOLON,
    ensures
        paren_scan(b, k, d) matches ParenScan::Found(c) ==> m <= c,
    decreases m - k,
{
    if k == m {
        lemma_paren_scan_ge(b, k, d);
    } else if b[k] == LPAREN {
        lemma_paren_scan_past(b, k + 1, d + 1, m);
    } else {
        lemma_paren_scan_past(b, k + 1, d, m);
    }
}

/// Where a definition stands: the `(` at `w.0` opens it, its name is the run
/// of symbol bytes `[w.1, w.2)` (a non-empty string in a valid UTF-8 text),
/// and its form ends at `w.3` (past the matching `)`, or at the end of the
/// name when the form is unbalanced).
pub open spec fn form_shape(b: Seq<u8>, w: (int, int, int, int), v: DefineView) -> bool {
    let (i, ns, ne, fe) = w;
    &&& 0 <= i < ns < ne <= fe <= b.len()
    &&& b[i] == LPAREN
    &&& forall|k: int| ns <= k < ne ==> is_symbol_byte(#[trigger] b[k])
    &&& v.name == decode_utf8(b.subrange(ns, ne))
    &&& valid_utf8(b) ==> v.name.len() > 0
    &&& v.selection_range == Range { start: position_of(b, ns), end: position_of(b, ne) }
    &&& v.range == Range { start: position_of(b, i), end: position_of(b, fe) }
}

proof fn lemma_define_at_shape(b: Seq<u8>, i: int) -> (w: (int, int, int, int))
    requires
        0 <= i < b.len(),
        b[i] == LPAREN,
        define_at(b, i) is Found,
    ensures
        w.0 == i,
        form_shape(b, w, define_at(b, i)->0),
{
    let hs = i + 1;
    let he = symbol_end_of(b, hs);
    let j = skip_ws_from(b, he);
    let ns = def_name_start(b, he);
    let ne = symbol_end_of(b, ns);
    lemma_symbol_end(b, hs);
    lemma_skip_ws(b, he);
    if j < b.len() && b[j] == LPAREN {
        lemma_skip_ws(b, j + 1);
    }
    lemma_symbol_end(b, ns);
    assert forall|t: int| hs <= t < ne implies #[trigger] b[t] != RPAREN && b[t] != QUOTE && b[t]
        != SEMICOLON by {
        if t < he {
            assert(is_symbol_byte(b[t]));
        } else if t < j {
            assert(is_ascii_ws(b[t]));
        } else if t == j && j < b.len() && b[j] == LPAREN {
        } else if t < ns {
            assert(is_ascii_ws(b[t]));
        } else {
            assert(is_symbol_byte(b[t]));
        }
    }
    lemma_paren_scan_past(b, hs, 1, ne);
    lemma_paren_scan_ge(b, hs, 1);
    if valid_utf8(b) {
        lemma_define_name_valid(b, i);
        let nb = b.subrange(ns, ne);
        assert(nb.len() > 0);
        assert(decode_utf8(nb).len() > 0);
    }
    assert(is_define_form(b, i));
    assert(paren_scan(b, i, 0) == paren_scan(b, i + 1, 1));
    let fe = match paren_scan(b, i, 0) {
        ParenScan::Found(c) => c + 1,
        _ => ne,
    };
    (i, ns, ne, fe)
}

/// Where the definitions found from `i` stand, in order.
proof fn lemma_scan_shapes(b: Seq<u8>, i: int, depth: int) -> (ws: Seq<(int, int, int, int)>)
    requires
        0 <= i,
        scan_from(b, i, depth) is Some,
    ensures
        ws.len() == scan_from(b, i, depth)->0.len(),
        forall|k: int|
            0 <= k < ws.len() ==> i <= (#[trigger] ws[k]).0 && form_shape(
                b,
                ws[k],
                scan_from(b, i, depth)->0[k],
            ),
        forall|k1: int, k2: int| 0 <= k1 < k2 < ws.len() ==> (#[trigger] ws[k1]).0 < (#[trigger] ws[k2]).0,
    decreases b.len() - i,
{
    if i >= b.len() {
        Seq::empty()
    } else {
        let c = b[i];
        if c == QUOTE {
            lemma_string_end(b, i + 1);
            lemma_scan_shapes(b, string_end(b, i + 1), depth)
        } else if c == SEMICOLON {
            lemma_next_newline(b, i);
            lemma_scan_shapes(b, next_newline(b, i), depth)
        } else if c == LPAREN {
            let rest = lemma_scan_shapes(b, i + 1, depth + 1);
            if depth + 1 == 1 && define_at(b, i) is Found {
                let w = lemma_define_at_shape(b, i);
                let ws = seq![w] + rest;
                let all = scan_from(b, i, depth)->0;
                let tail = scan_from(b, i + 1, depth + 1)->0;
                assert(all == seq![define_at(b, i)->0] + tail);
                assert forall|k: int| 0 <= k < ws.len() implies i <= (#[trigger] ws[k]).0
                    && form_shape(b, ws[k], all[k]) by {
                    if k > 0 {
                        assert(ws[k] == rest[k - 1]);
                        assert(all[k] == tail[k - 1]);
                    }
                }
                assert forall|k1: int, k2: int| 0 <= k1 < k2 < ws.len() implies (#[trigger] ws[k1]).0
                    < (#[trigger] ws[k2]).0 by {
                    assert(ws[k2] == rest[k2 - 1]);
                    if k1 > 0 {
                        assert(ws[k1] == rest[k1 - 1]);
                    }
                }
                ws
            } else {
                rest
            }
        } else if c == RPAREN && depth > 0 {
            lemma_scan_shapes(b, i + 1, depth - 1)
        } else {
            lemma_scan_shapes(b, i + 1, depth)
        }
    }
}

/// `ws` says where each of the definitions `defs` stands, in text order.
pub open spec fn definitions_placed(b: Seq<u8>, defs: Seq<DefineView>, ws: Seq<(int, int, int, int)>) -> bool {
    &&& ws.len() == defs.len()
    &&& forall|k: int| 0 <= k < ws.len() ==> form_shape(b, #[trigger] ws[k], defs[k])
    &&& forall|k1: int, k2: int| 0 <= k1 < k2 < ws.len() ==> (#[trigger] ws[k1]).0 < (#[trigger] ws[k2]).0
}

/// Every definition found by the scan opens at a `(`, has a non-empty name
/// spelled by the symbol bytes of its selection range, which lies inside the
/// form's range (after its `(`, and no later than its end); and the
/// definitions come in strictly increasing order of their opening `(`.
pub proof fn law_definitions_well_placed(b: Seq<u8>)
    requires
        scan_from(b, 0, 0) is Some,
    ensures
        exists|ws: Seq<(int, int, int, int)>| #[trigger] definitions_placed(b, scan_from(b, 0, 0)->0, ws),
{
    let ws = lemma_scan_shapes(b, 0, 0);
    assert(definitions_placed(b, scan_from(b, 0, 0)->0, ws));
}

/// In valid UTF-8, the name bytes of a definition form are valid UTF-8.
proof fn lemma_define_name_valid(b: Seq<u8>, i: int)
    requires
        valid_utf8(b),
        0 <= i < b.len(),
        is_define_form(b, i),
    ensures
        ({
            let ns = def_name_start(b, symbol_end_of(b, i + 1));
            valid_utf8(b.subrange(ns, symbol_end_of(b, ns)))
        }),
{
    let hs = i + 1;
    let he = symbol_end_of(b, hs);
    let j = skip_ws_from(b, he);
    let ns = def_name_start(b, he);
    let ne = symbol_end_of(b, ns);
    lemma_symbol_end(b, hs);
    lemma_skip_ws(b, he);
    if j < b.len() && b[j] == LPAREN {
        lemma_skip_ws(b, j + 1);
    }
    lemma_symbol_end(b, ns);
    // The name starts after whitespace or a `(`: the head's end is no symbol byte.
    assert(ns > he);
    assert(b[ns - 1] < 0x80);
    assert(ne == b.len() || b[ne] < 0x80);
    lemma_symbol_range_valid(b, ns, ne);
}

/// The parenthesis depth before offset `i` of a text without strings and
/// comments, as the definition scan counts it (a `)` never takes it below 0).
pub open spec fn depth_before(b: Seq<u8>, i: int) -> int
    decreases i,
{
    if i <= 0 || i > b.len() {
        0
    } else {
        let d = depth_before(b, i - 1);
        if b[i - 1] == LPAREN {
            d + 1
        } else if b[i - 1] == RPAREN && d > 0 {
            d - 1
        } else {
            d
        }
    }
}

/// The range from the `(` to the end of the name of the first definition in
/// `defs` named `name`.
pub open spec fn first_named(defs: Seq<DefineView>, name: Seq<char>) -> Option<Range>
    decreases defs.len(),
{
    if defs.len() == 0 {
        None
    } else if defs[0].name == name {
        Some(Range { start: defs[0].range.start, end: defs[0].selection_range.end })
    } else {
        first_named(defs.drop_first(), name)
    }
}

proof fn lemma_def_scan_agrees(b: Seq<u8>, i: int, sym: Seq<char>)
    requires
        valid_utf8(b),
        0 <= i <= b.len(),
        forall|k: int| 0 <= k < b.len() ==> #[trigger] b[k] != QUOTE && b[k] != SEMICOLON,
        forall|k: int|
            i <= k < b.len() && #[trigger] defines_at(b, k, encode_utf8(sym)) ==> depth_before(b, k)
                == 0,
        scan_from(b, i, depth_before(b, i)) is Some,
    ensures
        def_scan(b, i, encode_utf8(sym)) == first_named(scan_from(b, i, depth_before(b, i))->0, sym),
    decreases b.len() - i,
{
    let w = encode_utf8(sym);
    if i < b.len() {
        let d = depth_before(b, i);
        assert(depth_before(b, i + 1) == if b[i] == LPAREN {
            d + 1
        } else if b[i] == RPAREN && d > 0 {
            d - 1
        } else {
            d
        });
        let c = b[i];
        assert(c != QUOTE && c != SEMICOLON);
        if c == LPAREN {
            lemma_def_scan_agrees(b, i + 1, sym);
            let rest = scan_from(b, i + 1, d + 1)->0;
            if d == 0 && define_at(b, i) is Found {
                let v = define_at(b, i)->0;
                let all = scan_from(b, i, d)->0;
                assert(all == seq![v] + rest);
                assert(all[0] == v);
                assert(all.drop_first() =~= rest);
                lemma_define_name_valid(b, i);
                let ns = def_name_start(b, symbol_end_of(b, i + 1));
                let nb = b.subrange(ns, symbol_end_of(b, ns));
                assert(v.name == decode_utf8(nb));
                decode_utf8_encode_utf8(nb);
                encode_utf8_decode_utf8(sym);
                assert(defines_at(b, i, w) <==> v.name == sym);
            } else {
                assert(!defines_at(b, i, w));
            }
        } else {
            lemma_def_scan_agrees(b, i + 1, sym);
        }
    }
}

/// Searching for a definition agrees with the definition scan: in a text
/// without string literals and comments, where every definition form that
/// names the symbol stands at the top level, the definition search answers
/// the first scanned definition of that name, from its `(` to the end of its
/// name.
pub proof fn law_definition_search_agrees_with_scan(b: Seq<u8>, sym: Seq<char>)
    requires
        valid_utf8(b),
        forall|k: int| 0 <= k < b.len() ==> #[trigger] b[k] != QUOTE && b[k] != SEMICOLON,
        forall|k: int|
            0 <= k < b.len() && #[trigger] defines_at(b, k, encode_utf8(sym)) ==> depth_before(b, k)
                == 0,
        scan_from(b, 0, 0) is Some,
    ensures
        def_scan(b, 0, encode_utf8(sym)) == first_named(scan_from(b, 0, 0)->0, sym),
{
    assert(depth_before(b, 0) == 0);
    lemma_def_scan_agrees(b, 0, sym);
}

/// `[s, e)` is a whole token: a non-empty maximal run of symbol bytes.
pub open spec fn whole_token(b: Seq<u8>, s: int, e: int) -> bool {
    &&& 0 <= s < e <= b.len()
    &&& forall|k: int| s <= k < e ==> is_symbol_byte(#[trigger] b[k])
    &&& s == 0 || !is_symbol_byte(b[s - 1])
    &&& e == b.len() || !is_symbol_byte(b[e])
}

/// Where a byte stands in the source: in code, in a string literal, just
/// after a backslash in a string literal, or in a `;` line comment.
pub enum LexState {
    Code,
    Str,
    StrEscape,
    Comment,
}

/// The state after reading byte `c` in state `st`: a quote opens a string
/// literal and a `;` a comment; in a string a backslash escapes the next
/// byte and a quote closes it; a line feed ends a comment.
pub open spec fn lex_step(st: LexState, c: u8) -> LexState {
    match st {
        LexState::Code => if c == QUOTE {
            LexState::Str
        } else if c == SEMICOLON {
            LexState::Comment
        } else {
            LexState::Code
        },
        LexState::Str => if c == BACKSLASH {
            LexState::StrEscape
        } else if c == QUOTE {
            LexState::Code
        } else {
            LexState::Str
        },
        LexState::StrEscape => LexState::Str,
        LexState::Comment => if c == NEWLINE {
            LexState::Code
        } else {
            LexState::Comment
        },
    }
}

/// The state in which byte `k` is read (the state after the bytes before it).
pub open spec fn lex_state(b: Seq<u8>, k: int) -> LexState
    decreases k,
{
    if k <= 0 || k > b.len() {
        LexState::Code
    } else {
        lex_step(lex_state(b, k - 1), b[k - 1])
    }
}

/// Inside a string literal whose body goes on at `p`, every byte up to the
/// literal's end is read outside code, and code resumes after it.
proof fn lemma_string_states(b: Seq<u8>, p: int)
    requires
        0 < p <= b.len(),
        lex_state(b, p) == LexState::Str,
    ensures
        forall|q: int| p <= q < string_end(b, p) ==> #[trigger] lex_state(b, q) != LexState::Code,
        string_end(b, p) < b.len() ==> lex_state(b, string_end(b, p)) == LexState::Code,
    decreases b.len() - p,
{
    if p < b.len() {
        assert(lex_state(b, p + 1) == lex_step(lex_state(b, p), b[p]));
        if b[p] == BACKSLASH {
            if b.len() - p >= 2 {
                assert(lex_state(b, p + 2) == lex_step(lex_state(b, p + 1), b[p + 1]));
                lemma_string_states(b, p + 2);
            } else {
                assert forall|q: int| p <= q < string_end(b, p) implies #[trigger] lex_state(b, q)
                    != LexState::Code by {}
            }
        } else if b[p] != QUOTE {
            lemma_string_states(b, p + 1);
        }
    }
}

/// Inside a comment that goes on at `p`, every byte up to its line feed is
/// read in the comment.
proof fn lemma_comment_states(b: Seq<u8>, p: int)
    requires
        0 < p <= b.len(),
        lex_state(b, p) == LexState::Comment,
    ensures
        forall|q: int| p <= q <= next_newline(b, p) && q <= b.len() ==> #[trigger] lex_state(b, q)
            == LexState::Comment,
    decreases b.len() - p,
{
    if p < b.len() && b[p] != NEWLINE {
        assert(lex_state(b, p + 1) == lex_step(lex_state(b, p), b[p]));
        lemma_comment_states(b, p + 1);
    }
}

/// The bytes of a symbol run are read in code when its first one is.
proof fn lemma_symbol_states(b: Seq<u8>, i: int, e: int)
    requires
        0 <= i <= e <= b.len(),
        lex_state(b, i) == LexState::Code,
        forall|k: int| i <= k < e ==> is_symbol_byte(#[trigger] b[k]),
    ensures
        forall|q: int| i <= q <= e ==> #[trigger] lex_state(b, q) == LexState::Code,
    decreases e - i,
{
    if i < e {
        assert(is_symbol_byte(b[i]));
        assert(lex_state(b, i + 1) == lex_step(lex_state(b, i), b[i]));
        lemma_symbol_states(b, i + 1, e);
    }
}

proof fn lemma_ref_scan_finds_code_tokens(b: Seq<u8>, i: int, w: Seq<u8>, s: int, e: int)
    requires
        0 <= i <= s,
        lex_state(b, i) == LexState::Code || (lex_state(b, i) == LexState::Comment && i < b.len()
            && b[i] == NEWLINE),
        i == 0 || i == b.len() || !is_symbol_byte(b[i - 1]) || !is_symbol_byte(b[i]),
        whole_token(b, s, e),
        lex_state(b, s) == LexState::Code,
        b.subrange(s, e) == w,
    ensures
        ref_scan(b, i, w).contains((s, e)),
    decreases b.len() - i,
{
    let c = b[i];
    if lex_state(b, i) == LexState::Comment {
        assert(s != i);
        assert(lex_state(b, i + 1) == lex_step(lex_state(b, i), b[i]));
        lemma_ref_scan_finds_code_tokens(b, i + 1, w, s, e);
        assert(ref_scan(b, i, w) == ref_scan(b, i + 1, w));
    } else if c == QUOTE {
        assert(lex_state(b, i + 1) == lex_step(lex_state(b, i), b[i]));
        lemma_string_end(b, i + 1);
        lemma_string_end_quote(b, i + 1);
        lemma_string_states(b, i + 1);
        let se = string_end(b, i + 1);
        assert(s != i);
        if s < se {
            assert(lex_state(b, s) != LexState::Code);
        }
        lemma_ref_scan_finds_code_tokens(b, se, w, s, e);
        assert(ref_scan(b, i, w) == ref_scan(b, se, w));
    } else if c == SEMICOLON {
        assert(lex_state(b, i + 1) == lex_step(lex_state(b, i), b[i]));
        lemma_next_newline(b, i);
        lemma_next_newline(b, i + 1);
        let nl = next_newline(b, i);
        if i + 1 <= b.len() {
            lemma_comment_states(b, i + 1);
        }
        assert(s != i);
        if s <= nl {
            assert(lex_state(b, s) == LexState::Comment);
        }
        lemma_ref_scan_finds_code_tokens(b, nl, w, s, e);
        assert(ref_scan(b, i, w) == ref_scan(b, nl, w));
    } else if is_symbol_byte(c) {
        let e2 = symbol_end_of(b, i);
        lemma_symbol_end(b, i);
        lemma_symbol_states(b, i, e2);
        let here: Seq<(int, int)> = if b.subrange(i, e2) == w {
            seq![(i, e2)]
        } else {
            seq![]
        };
        let rest = ref_scan(b, e2, w);
        assert(ref_scan(b, i, w) == here + rest);
        if s == i {
            lemma_symbol_end(b, s);
            if e2 < e {
                assert(is_symbol_byte(b[e2]));
            }
            if e < e2 {
                assert(is_symbol_byte(b[e]));
            }
            assert((here + rest)[0] == (s, e));
        } else {
            if s < e2 {
                assert(is_symbol_byte(b[s - 1]));
            }
            lemma_ref_scan_finds_code_tokens(b, e2, w, s, e);
            let k = choose|k: int| 0 <= k < rest.len() && rest[k] == (s, e);
            assert((here + rest)[here.len() + k] == (s, e));
        }
    } else {
        assert(s != i);
        assert(lex_state(b, i + 1) == lex_step(lex_state(b, i), b[i]));
        lemma_ref_scan_finds_code_tokens(b, i + 1, w, s, e);
        assert(ref_scan(b, i, w) == ref_scan(b, i + 1, w));
    }
}

/// The references search misses nothing: every whole token that spells the
/// symbol and stands in code (outside string literals and `;` comments, as
/// `lex_state` reads the text from its start) is found.
pub proof fn law_references_find_every_code_token(b: Seq<u8>, w: Seq<u8>, s: int, e: int)
    requires
        whole_token(b, s, e),
        lex_state(b, s) == LexState::Code,
        b.subrange(s, e) == w,
    ensures
        ref_scan(b, 0, w).contains((s, e)),
{
    lemma_ref_scan_finds_code_tokens(b, 0, w, s, e);
}

/// The bytes of a symbol, as a byte set: every byte but the ASCII whitespace
/// (tab, line feed, form feed, carriage return, space) and the delimiters
/// `( ) [ ] { } " ; ' ` ,` belongs to a symbol (so `!`, `?`, `*`, `-`, `#`,
/// `:` and every non-ASCII byte do).
pub proof fn law_symbol_bytes(c: u8)
    ensures
        is_symbol_byte(c) <==> !(c == 9 || c == 10 || c == 12 || c == 13 || c == 32 || c == 40
            || c == 41 || c == 91 || c == 93 || c == 123 || c == 125 || c == 34 || c == 59 || c
            == 39 || c == 96 || c == 44),
{
}

/// The definition keywords are exactly these ten: `define`, `define*`,
/// `define-public`, `define-record-type`, `define-syntax`, `define-macro`,
/// `define-method`, `define-generic`, `define-class` and `define-accessors`.
pub proof fn law_definition_keywords(w: Seq<u8>)
    ensures
        define_heads().contains(w) <==> (w == "define"@.map_values(|c: char| c as u8) || w
            == "define*"@.map_values(|c: char| c as u8) || w == "define-public"@.map_values(
            |c: char| c as u8,
        ) || w == "define-record-type"@.map_values(|c: char| c as u8) || w
            == "define-syntax"@.map_values(|c: char| c as u8) || w == "define-macro"@.map_values(
            |c: char| c as u8,
        ) || w == "define-method"@.map_values(|c: char| c as u8) || w
            == "define-generic"@.map_values(|c: char| c as u8) || w == "define-class"@.map_values(
            |c: char| c as u8,
        ) || w == "define-accessors"@.map_values(|c: char| c as u8)),
{
    reveal_strlit("define");
    reveal_strlit("define*");
    reveal_strlit("define-public");
    reveal_strlit("define-record-type");
    reveal_strlit("define-syntax");
    reveal_strlit("define-macro");
    reveal_strlit("define-method");
    reveal_strlit("define-generic");
    reveal_strlit("define-class");
    reveal_strlit("define-accessors");
    let h = define_heads();
    assert(h[0] =~= "define"@.map_values(|c: char| c as u8));
    assert(h[1] =~= "define*"@.map_values(|c: char| c as u8));
    assert(h[2] =~= "define-public"@.map_values(|c: char| c as u8));
    assert(h[3] =~= "define-record-type"@.map_values(|c: char| c as u8));
    assert(h[4] =~= "define-syntax"@.map_values(|c: char| c as u8));
    assert(h[5] =~= "define-macro"@.map_values(|c: char| c as u8));
    assert(h[6] =~= "define-method"@.map_values(|c: char| c as u8));
    assert(h[7] =~= "define-generic"@.map_values(|c: char| c as u8));
    assert(h[8] =~= "define-class"@.map_values(|c: char| c as u8));
    assert(h[9] =~= "define-accessors"@.map_values(|c: char| c as u8));
    assert(h.len() == 10);
    if h.contains(w) {
        let k = choose|k: int| 0 <= k < h.len() && h[k] == w;
        assert(0 <= k < 10);
    }
}


/// The count of `(` minus the count of `)` among the bytes `[x, y)`.
pub open spec fn paren_net(b: Seq<u8>, x: int, y: int) -> int
    decreases y - x,
{
    if y <= x || y > b.len() {
        0
    } else {
        paren_net(b, x, y - 1) + if b[y - 1] == LPAREN {
            1int
        } else if b[y - 1] == RPAREN {
            -1int
        } else {
            0int
        }
    }
}

/// The `(` at `k` is still open at `off`: no prefix of the bytes after it, up
/// to `off`, closes it.
pub open spec fn open_at(b: Seq<u8>, k: int, off: int) -> bool {
    &&& 0 <= k < off
    &&& b[k] == LPAREN
    &&& forall|m: int| k < m <= off ==> #[trigger] paren_net(b, k, m) >= 1
}

proof fn lemma_call_scan_open(b: Seq<u8>, off: int, i: int, d: int)
    requires
        0 <= i <= off <= b.len(),
        d >= 0,
        forall|k: int| i <= k < off ==> !#[trigger] open_at(b, k, off),
        forall|k: int|
            0 <= k < i && b[k] == LPAREN ==> (#[trigger] open_at(b, k, off) <==> ((forall|m: int|
                k < m < i ==> #[trigger] paren_net(b, k, m) >= 1) && paren_net(b, k, i) >= 1 + d)),
        !(call_scan(b, i, d) is Overflow),
    ensures
        call_scan(b, i, d) matches CallScan::Found(k) ==> open_at(b, k, off) && forall|k2: int|
            k < k2 < off ==> !#[trigger] open_at(b, k2, off),
        call_scan(b, i, d) is NotFound ==> forall|k: int| 0 <= k < off ==> !#[trigger] open_at(b, k, off),
    decreases i,
{
    if i > 0 {
        let c = b[i - 1];
        assert forall|k: int| 0 <= k < i - 1 implies #[trigger] paren_net(b, k, i) == paren_net(b, k, i - 1)
            + (if c == LPAREN {
            1int
        } else if c == RPAREN {
            -1int
        } else {
            0int
        }) by {}
        if c == LPAREN && d == 0 {
            assert(paren_net(b, i - 1, i) == 1) by {
                assert(paren_net(b, i - 1, i - 1) == 0);
            }
            assert(open_at(b, i - 1, off));
        } else {
            let d2 = if c == RPAREN {
                d + 1
            } else if c == LPAREN {
                d - 1
            } else {
                d
            };
            if c == LPAREN {
                assert(paren_net(b, i - 1, i) == 1) by {
                    assert(paren_net(b, i - 1, i - 1) == 0);
                }
                assert(!open_at(b, i - 1, off));
            } else {
                assert(b[i - 1] != LPAREN);
                assert(!open_at(b, i - 1, off));
            }
            assert forall|k: int|
                0 <= k < i - 1 && b[k] == LPAREN implies (#[trigger] open_at(b, k, off) <==> ((forall|
                m: int|
                k < m < i - 1 ==> #[trigger] paren_net(b, k, m) >= 1) && paren_net(b, k, i - 1)
                >= 1 + d2)) by {
                assert(paren_net(b, k, i) == paren_net(b, k, i - 1) + (if c == LPAREN {
                    1int
                } else if c == RPAREN {
                    -1int
                } else {
                    0int
                }));
                if (forall|m: int| k < m < i - 1 ==> #[trigger] paren_net(b, k, m) >= 1) && paren_net(
                    b,
                    k,
                    i - 1,
                ) >= 1 + d2 {
                    assert forall|m: int| k < m < i implies #[trigger] paren_net(b, k, m) >= 1 by {
                        if m == i - 1 {
                        }
                    }
                }
            }
            if is_ascii_ws(c) {
                lemma_call_scan_open(b, off, i - 1, d);
            } else if c == RPAREN {
                lemma_call_scan_open(b, off, i - 1, d + 1);
            } else if c == LPAREN {
                lemma_call_scan_open(b, off, i - 1, d - 1);
            } else {
                lemma_call_scan_open(b, off, i - 1, d);
            }
        }
    }
}

/// The call around a position, in closed form: with `off` the position's
/// offset, when no `(` before `off` is still open there, there is no called
/// symbol; otherwise, for the nearest `(` still open at `off`, the called
/// symbol is the run of symbol bytes after it and any whitespace, when that
/// run is not empty.
pub proof fn law_called_symbol_closed_form(b: Seq<u8>, pos: Position)
    requires
        !(call_scan(b, offset_of(b, pos), 0) is Overflow),
    ensures
        (forall|k: int| 0 <= k < offset_of(b, pos) ==> !#[trigger] open_at(b, k, offset_of(b, pos)))
            ==> called_symbol_spec(b, pos) is None,
        forall|k: int|
            #![trigger open_at(b, k, offset_of(b, pos))]
            open_at(b, k, offset_of(b, pos)) && (forall|k2: int|
                k < k2 < offset_of(b, pos) ==> !#[trigger] open_at(b, k2, offset_of(b, pos)))
                ==> called_symbol_spec(b, pos) == ({
                let j = skip_ws_from(b, k + 1);
                let e = symbol_end_of(b, j);
                if e > j {
                    Some(decode_utf8(b.subrange(j, e)))
                } else {
                    None
                }
            }),
{
    let off = offset_of(b, pos);
    lemma_offset_of_bounds(b, pos);
    assert forall|k: int|
        0 <= k < off && b[k] == LPAREN implies (#[trigger] open_at(b, k, off) <==> ((forall|m: int|
            k < m < off ==> #[trigger] paren_net(b, k, m) >= 1) && paren_net(b, k, off) >= 1 + 0)) by {}
    lemma_call_scan_open(b, off, off, 0);
    match call_scan(b, off, 0) {
        CallScan::Found(k0) => {
            assert forall|k: int|
                #![trigger open_at(b, k, off)]
                open_at(b, k, off) && (forall|k2: int| k < k2 < off ==> !#[trigger] open_at(b, k2, off))
                    implies k == k0 by {
                if k < k0 {
                    assert(!open_at(b, k0, off));
                } else if k > k0 {
                }
            }
        },
        _ => {},
    }
}

/// Skipping whitespace passes over exactly the ASCII whitespace bytes (tab,
/// line feed, form feed, carriage return and space, line breaks included) and
/// stops at the first other byte or at the end.
pub proof fn law_skip_whitespace(b: Seq<u8>, o: int)
    requires
        0 <= o <= b.len(),
    ensures
        o <= skip_ws_from(b, o) <= b.len(),
        forall|k: int|
            o <= k < skip_ws_from(b, o) ==> (#[trigger] b[k] == 9 || b[k] == 10 || b[k] == 12 || b[k]
                == 13 || b[k] == 32),
        skip_ws_from(b, o) == b.len() || !(b[skip_ws_from(b, o)] == 9 || b[skip_ws_from(b, o)]
            == 10 || b[skip_ws_from(b, o)] == 12 || b[skip_ws_from(b, o)] == 13 || b[skip_ws_from(
            b,
            o,
        )] == 32),
{
    lemma_skip_ws(b, o);
}

/// A symbol run from `o` takes every byte up to the first ASCII whitespace
/// byte or delimiter `( ) [ ] { } " ; ' ` ,` (or the end of the text).
pub proof fn law_symbol_run(b: Seq<u8>, o: int)
    requires
        0 <= o <= b.len(),
    ensures
        o <= symbol_end_of(b, o) <= b.len(),
        forall|k: int|
            o <= k < symbol_end_of(b, o) ==> !(#[trigger] b[k] == 9 || b[k] == 10 || b[k] == 12
                || b[k] == 13 || b[k] == 32 || b[k] == 40 || b[k] == 41 || b[k] == 91 || b[k] == 93
                || b[k] == 123 || b[k] == 125 || b[k] == 34 || b[k] == 59 || b[k] == 39 || b[k]
                == 96 || b[k] == 44),
        symbol_end_of(b, o) == b.len() || ({
            let c = b[symbol_end_of(b, o)];
            c == 9 || c == 10 || c == 12 || c == 13 || c == 32 || c == 40 || c == 41 || c == 91
                || c == 93 || c == 123 || c == 125 || c == 34 || c == 59 || c == 39 || c == 96 || c
                == 44
        }),
{
    lemma_symbol_end(b, o);
    assert forall|k: int| o <= k < symbol_end_of(b, o) implies !(#[trigger] b[k] == 9 || b[k] == 10
        || b[k] == 12 || b[k] == 13 || b[k] == 32 || b[k] == 40 || b[k] == 41 || b[k] == 91 || b[k]
        == 93 || b[k] == 123 || b[k] == 125 || b[k] == 34 || b[k] == 59 || b[k] == 39 || b[k] == 96
        || b[k] == 44) by {
        law_symbol_bytes(b[k]);
    }
    if symbol_end_of(b, o) < b.len() {
        law_symbol_bytes(b[symbol_end_of(b, o)]);
    }
}

} // verus!
