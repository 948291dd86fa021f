//! Line/column <-> UTF-8 byte offset conversion.
//!
//! Positions use the UTF-8 encoding: a `character` is a byte offset from the
//! start of its line (not a UTF-16 code unit), so positions stay correct for
//! Guile source that holds non-ASCII comments and strings.
//!
//! The model of a text is its UTF-8 byte sequence (`text.spec_bytes()`); a line
//! ends at a `\n` byte, which belongs to the line it ends.
use vstd::prelude::*;
use vstd::string::StringSliceAdditionalSpecFns;

verus! {

/// The `\n` byte.
pub const NEWLINE: u8 = 10;

/// A zero-based line and a UTF-8 byte column within that line.
#[derive(Clone, Copy, Debug, PartialEq, Eq, Structural)]
pub struct Position {
    pub line: u32,
    pub character: u32,
}

/// A span of a text, from `start` (inclusive) to `end` (exclusive).
#[derive(Clone, Copy, Debug, PartialEq, Eq, Structural)]
pub struct Range {
    pub start: Position,
    pub end: Position,
}

impl Position {
    pub fn new(line: u32, character: u32) -> (p: Position)
        ensures
            p.line == line,
            p.character == character,
    {
        Position { line, character }
    }
}

/// Index of the first `\n` at or after `from`, or the length of `b` if there is none.
pub open spec fn next_newline(b: Seq<u8>, from: int) -> int
    decreases b.len() - from,
{
    if from < 0 || from >= b.len() {
        b.len() as int
    } else if b[from] == NEWLINE {
        from
    } else {
        next_newline(b, from + 1)
    }
}

/// Offset at which line `line` begins, or `None` when the text has fewer lines.
pub open spec fn line_start(b: Seq<u8>, line: nat) -> Option<int>
    decreases line,
{
    if line == 0 {
        Some(0)
    } else {
        match line_start(b, (line - 1) as nat) {
            Some(s) => {
                let k = next_newline(b, s);
                if k < b.len() {
                    Some(k + 1)
                } else {
                    None
                }
            },
            None => None,
        }
    }
}

/// Number of `\n` bytes among the first `o` bytes of `b`.
pub open spec fn newlines_before(b: Seq<u8>, o: int) -> nat
    decreases o,
{
    if o <= 0 || o > b.len() {
        0
    } else {
        newlines_before(b, o - 1) + if b[o - 1] == NEWLINE {
            1nat
        } else {
            0nat
        }
    }
}

/// Offset just past the last `\n` among the first `o` bytes of `b` (0 if none).
pub open spec fn last_line_start(b: Seq<u8>, o: int) -> int
    decreases o,
{
    if o <= 0 || o > b.len() {
        0
    } else if b[o - 1] == NEWLINE {
        o
    } else {
        last_line_start(b, o - 1)
    }
}

/// Every line number of the text fits in a `u32` (as LSP line numbers must).
pub open spec fn lines_fit(b: Seq<u8>) -> bool {
    newlines_before(b, b.len() as int) <= u32::MAX
}

/// The byte offset that an LSP position denotes: the start of its line plus its
/// column, the column clamped to the line's length; past the last line, the
/// end of the text.
pub open spec fn offset_of(b: Seq<u8>, pos: Position) -> int {
    match line_start(b, pos.line as nat) {
        None => b.len() as int,
        Some(s) => {
            let line_len = next_newline(b, s) - s;
            s + if (pos.character as int) < line_len {
                pos.character as int
            } else {
                line_len
            }
        },
    }
}

/// The position of a byte offset (clamped to the text's length): its line is the
/// number of newlines before it and its column the distance from the start of
/// that line, truncated to a `u32`.
pub open spec fn position_of(b: Seq<u8>, offset: int) -> Position {
    let o = if offset < b.len() {
        offset
    } else {
        b.len() as int
    };
    Position {
        line: newlines_before(b, o) as u32,
        character: (o - last_line_start(b, o)) as u32,
    }
}

pub proof fn lemma_next_newline(b: Seq<u8>, from: int)
    requires
        0 <= from <= b.len(),
    ensures
        from <= next_newline(b, from) <= b.len(),
        next_newline(b, from) < b.len() ==> b[next_newline(b, from)] == NEWLINE,
        forall|k: int| from <= k < next_newline(b, from) ==> b[k] != NEWLINE,
    decreases b.len() - from,
{
    if from < b.len() && b[from] != NEWLINE {
        lemma_next_newline(b, from + 1);
    }
}

pub proof fn lemma_line_start_bounds(b: Seq<u8>, line: nat)
    ensures
        line_start(b, line) matches Some(s) ==> 0 <= s <= b.len() && (s == 0 || b[s - 1]
            == NEWLINE),
    decreases line,
{
    if line > 0 {
        lemma_line_start_bounds(b, (line - 1) as nat);
        if let Some(s) = line_start(b, (line - 1) as nat) {
            lemma_next_newline(b, s);
        }
    }
}

/// Once a line is missing, every later line is missing too.
pub proof fn lemma_line_start_none(b: Seq<u8>, line: nat, later: nat)
    requires
        line <= later,
        line_start(b, line) is None,
    ensures
        line_start(b, later) is None,
    decreases later - line,
{
    if line < later {
        lemma_line_start_none(b, line, (later - 1) as nat);
    }
}

pub proof fn lemma_newlines_before_monotonic(b: Seq<u8>, i: int, j: int)
    requires
        0 <= i <= j <= b.len(),
    ensures
        newlines_before(b, i) <= newlines_before(b, j),
    decreases j - i,
{
    if i < j {
        lemma_newlines_before_monotonic(b, i, j - 1);
    }
}

/// Without a newline among the bytes `[i, j)`, the line count and line start do not change.
pub proof fn lemma_no_newline_span(b: Seq<u8>, i: int, j: int)
    requires
        0 <= i <= j <= b.len(),
        forall|k: int| i <= k < j ==> b[k] != NEWLINE,
    ensures
        newlines_before(b, j) == newlines_before(b, i),
        i == 0 || b[i - 1] == NEWLINE ==> last_line_start(b, j) == i,
        last_line_start(b, j) == last_line_start(b, i),
    decreases j - i,
{
    if i < j {
        lemma_no_newline_span(b, i, j - 1);
    }
}

/// The line that an offset lies on begins at the offset's last line start.
pub proof fn lemma_line_start_of_offset(b: Seq<u8>, o: int)
    requires
        0 <= o <= b.len(),
    ensures
        line_start(b, newlines_before(b, o)) == Some(last_line_start(b, o)),
        0 <= last_line_start(b, o) <= o,
        forall|k: int| last_line_start(b, o) <= k < o ==> b[k] != NEWLINE,
    decreases o,
{
    if o > 0 {
        lemma_line_start_of_offset(b, o - 1);
        let s = last_line_start(b, o - 1);
        if b[o - 1] == NEWLINE {
            lemma_next_newline(b, s);
            assert(next_newline(b, s) == o - 1);
            assert(newlines_before(b, o) == newlines_before(b, o - 1) + 1);
        }
    }
}

/// The newlines before a line's start number exactly that line.
pub proof fn lemma_newlines_before_line_start(b: Seq<u8>, line: nat)
    requires
        line_start(b, line) is Some,
    ensures
        newlines_before(b, line_start(b, line)->0) == line,
        last_line_start(b, line_start(b, line)->0) == line_start(b, line)->0,
    decreases line,
{
    lemma_line_start_bounds(b, line);
    if line > 0 {
        let prev = (line - 1) as nat;
        lemma_newlines_before_line_start(b, prev);
        let s = line_start(b, prev)->0;
        lemma_line_start_bounds(b, prev);
        lemma_next_newline(b, s);
        let k = next_newline(b, s);
        lemma_no_newline_span(b, s, k);
        assert(newlines_before(b, k + 1) == newlines_before(b, k) + 1);
    }
}

pub proof fn lemma_offset_of_bounds(b: Seq<u8>, p: Position)
    ensures
        0 <= offset_of(b, p) <= b.len(),
{
    lemma_line_start_bounds(b, p.line as nat);
    if let Some(s) = line_start(b, p.line as nat) {
        lemma_next_newline(b, s);
    }
}

/// Converting an offset to a position and back gives the offset again (when the
/// column fits in a `u32`).
pub proof fn law_offset_position_roundtrip(b: Seq<u8>, o: int)
    requires
        0 <= o <= b.len(),
        newlines_before(b, o) <= u32::MAX,
        o - last_line_start(b, o) <= u32::MAX,
    ensures
        offset_of(b, position_of(b, o)) == o,
{
    lemma_line_start_of_offset(b, o);
    let s = last_line_start(b, o);
    lemma_next_newline(b, s);
    assert(next_newline(b, s) >= o);
}

/// Converting a position that lies within its line to an offset and back gives
/// the position again (when the line count fits in a `u32`).
pub proof fn law_position_offset_roundtrip(b: Seq<u8>, p: Position)
    requires
        line_start(b, p.line as nat) is Some,
        p.character <= next_newline(b, line_start(b, p.line as nat)->0) - line_start(
            b,
            p.line as nat,
        )->0,
    ensures
        position_of(b, offset_of(b, p)) == p,
{
    let s = line_start(b, p.line as nat)->0;
    lemma_line_start_bounds(b, p.line as nat);
    lemma_next_newline(b, s);
    lemma_newlines_before_line_start(b, p.line as nat);
    let o = s + p.character;
    lemma_no_newline_span(b, s, o);
}

/// Convert an LSP position to a byte offset within `text`.
pub fn position_to_offset(text: &str, pos: &Position) -> (offset: usize)
    ensures
        offset == offset_of(text.spec_bytes(), *pos),
{
    let bytes = text.as_bytes();
    let ghost b = bytes@;
    let target_line = pos.line as usize;
    let n = bytes.len();

    // Locate the byte offset where the target line starts.
    let mut line_idx: usize = 0;
    let mut line_start_at: usize = 0;
    let mut i: usize = 0;
    while i < n
        invariant
            n == b.len(),
            b == bytes@,
            target_line == pos.line,
            line_idx <= target_line,
            line_start_at <= i <= n,
            line_start(b, line_idx as nat) == Some(line_start_at as int),
            forall|k: int| line_start_at <= k < i ==> b[k] != NEWLINE,
        ensures
            n == b.len(),
            line_idx <= target_line,
            line_start_at <= i <= n,
            line_start(b, line_idx as nat) == Some(line_start_at as int),
            forall|k: int| line_start_at <= k < i ==> b[k] != NEWLINE,
            line_idx == target_line || i == n,
        decreases n - i,
    {
        if line_idx == target_line {
            break;
        }
        if bytes[i] == NEWLINE {
            proof {
                lemma_next_newline(b, line_start_at as int);
                assert(next_newline(b, line_start_at as int) == i);
            }
            line_idx = line_idx + 1;
            line_start_at = i + 1;
        }
        i = i + 1;
    }
    proof {
        lemma_next_newline(b, line_start_at as int);
    }
    if line_idx < target_line {
        proof {
            assert(next_newline(b, line_start_at as int) == n);
            assert(line_start(b, (line_idx + 1) as nat) is None);
            lemma_line_start_none(b, (line_idx + 1) as nat, pos.line as nat);
        }
        return n;
    }
    // Clamp the in-line byte offset to the line's bounds.

    let mut line_end = line_start_at;
    while line_end < n && bytes[line_end] != NEWLINE
        invariant
            n == b.len(),
            b == bytes@,
            line_start_at <= line_end <= n,
            forall|k: int| line_start_at <= k < line_end ==> b[k] != NEWLINE,
        decreases n - line_end,
    {
        line_end = line_end + 1;
    }
    proof {
        lemma_next_newline(b, line_start_at as int);
        assert(next_newline(b, line_start_at as int) == line_end);
    }
    let line_len = line_end - line_start_at;
    let char_off = if (pos.character as usize) < line_len {
        pos.character as usize
    } else {
        line_len
    };
    line_start_at + char_off
}

/// Convert a byte offset within `text` back to an LSP position.
pub fn offset_to_position(text: &str, offset: usize) -> (p: Position)
    requires
        newlines_before(
            text.spec_bytes(),
            if offset < text.spec_bytes().len() {
                offset as int
            } else {
                text.spec_bytes().len() as int
            },
        ) <= u32::MAX,
    ensures
        p == position_of(text.spec_bytes(), offset as int),
{
    let bytes = text.as_bytes();
    let ghost b = bytes@;
    let offset = if offset < bytes.len() {
        offset
    } else {
        bytes.len()
    };
    let mut line: u32 = 0;
    let mut last_start: usize = 0;
    let mut i: usize = 0;
    while i < offset
        invariant
            b == bytes@,
            offset <= b.len(),
            i <= offset,
            newlines_before(b, offset as int) <= u32::MAX,
            line == newlines_before(b, i as int),
            last_start == last_line_start(b, i as int),
        decreases offset - i,
    {
        proof {
            lemma_newlines_before_monotonic(b, i + 1, offset as int);
        }
        if bytes[i] == NEWLINE {
            line = line + 1;
            last_start = i + 1;
        }
        i = i + 1;
    }
    proof {
        lemma_line_start_of_offset(b, offset as int);
    }
    let character = (offset - last_start) as u32;
    Position { line, character }
}

} // verus!
