//! Parse Guile compiler output into diagnostics.
//!
//! `compile-file` writes lines like
//!   `;;; /path/file.scm:2:2: warning: possibly unbound variable \`foo'`
//! to the current warning port. Each becomes a [`RawDiag`] (0-based line and
//! column) that the server attaches to the open document's range.
//!
//! The model of a message is its character sequence; whitespace, where it is
//! trimmed, is Unicode whitespace (the `White_Space` property), as `str::trim`
//! defines it.
use vstd::prelude::*;
use vstd::slice::slice_to_vec;
use vstd::string::{StringExecFns, StringSliceAdditionalSpecFns};
use crate::encoding::string_push;
use crate::parser::{atom_end, is_atom_stop, lemma_find_from};
use crate::position::{
    lines_fit, offset_of, offset_to_position, position_of, position_to_offset, lemma_offset_of_bounds,
    Position, Range,
};
use crate::text::lemma_lines_fit;

verus! {

/// The severity of a diagnostic.
#[allow(non_camel_case_types)]
#[derive(Clone, Copy, Debug, PartialEq, Eq, Structural)]
pub enum DiagnosticSeverity {
    ERROR,
    WARNING,
}

/// A single parsed diagnostic, before it is attached to a document Range.
#[derive(Debug, Clone, PartialEq)]
pub struct RawDiag {
    /// 0-based line.
    pub line: u32,
    /// 0-based column.
    pub col: u32,
    pub severity: DiagnosticSeverity,
    pub message: String,
}

/// A raw diagnostic with its message as characters.
pub struct RawDiagV {
    pub line: u32,
    pub col: u32,
    pub severity: DiagnosticSeverity,
    pub message: Seq<char>,
}

impl View for RawDiag {
    type V = RawDiagV;

    open spec fn view(&self) -> RawDiagV {
        RawDiagV {
            line: self.line,
            col: self.col,
            severity: self.severity,
            message: self.message@,
        }
    }
}

/// A diagnostic attached to a range of a document.
#[derive(Debug, Clone, PartialEq)]
pub struct Diagnostic {
    pub range: Range,
    pub severity: Option<DiagnosticSeverity>,
    pub source: Option<String>,
    pub message: String,
}

/// A diagnostic with its texts as character sequences.
pub struct DiagnosticV {
    pub range: Range,
    pub severity: Option<DiagnosticSeverity>,
    pub source: Option<Seq<char>>,
    pub message: Seq<char>,
}

impl View for Diagnostic {
    type V = DiagnosticV;

    open spec fn view(&self) -> DiagnosticV {
        DiagnosticV {
            range: self.range,
            severity: self.severity,
            source: match self.source {
                Some(s) => Some(s@),
                None => None,
            },
            message: self.message@,
        }
    }
}

/* Character-level helpers. */

/// Unicode `White_Space`, as `char::is_whitespace` defines it.
pub open spec fn is_unicode_ws(c: char) -> bool {
    let u = c as u32;
    ||| 9 <= u <= 13
    ||| u == 0x20 || u == 0x85 || u == 0xa0 || u == 0x1680
    ||| 0x2000 <= u <= 0x200a
    ||| u == 0x2028 || u == 0x2029 || u == 0x202f || u == 0x205f || u == 0x3000
}

/// First index at or after `i` whose character is not whitespace.
pub open spec fn lead_ws(s: Seq<char>, i: int) -> int
    decreases s.len() - i,
{
    if 0 <= i < s.len() && is_unicode_ws(s[i]) {
        lead_ws(s, i + 1)
    } else {
        i
    }
}

/// Start of the run of whitespace that ends at `j`.
pub open spec fn back_ws(s: Seq<char>, j: int) -> int
    decreases j,
{
    if 0 < j <= s.len() && is_unicode_ws(s[j - 1]) {
        back_ws(s, j - 1)
    } else {
        j
    }
}

/// `str::trim_start`.
pub open spec fn trim_start_chars(s: Seq<char>) -> Seq<char> {
    s.subrange(lead_ws(s, 0), s.len() as int)
}

/// `str::trim_end`.
pub open spec fn trim_end_chars(s: Seq<char>) -> Seq<char> {
    s.subrange(0, back_ws(s, s.len() as int))
}

/// `str::trim`.
pub open spec fn trim_chars(s: Seq<char>) -> Seq<char> {
    trim_end_chars(trim_start_chars(s))
}

/// First index at or after `i` holding `c`, or the length.
pub open spec fn index_of_from(s: Seq<char>, i: int, c: char) -> int
    decreases s.len() - i,
{
    if i < 0 || i >= s.len() {
        s.len() as int
    } else if s[i] == c {
        i
    } else {
        index_of_from(s, i + 1, c)
    }
}

/// Number of leading `;` characters.
pub open spec fn semicolons(s: Seq<char>, i: int) -> int
    decreases s.len() - i,
{
    if 0 <= i < s.len() && s[i] == ';' {
        semicolons(s, i + 1)
    } else {
        i
    }
}

pub open spec fn is_ascii_digit(c: char) -> bool {
    '0' <= c <= '9'
}

/// Number of ASCII digits starting at `from`.
pub open spec fn digit_count(s: Seq<char>, from: int) -> int
    decreases s.len() - from,
{
    if 0 <= from < s.len() && is_ascii_digit(s[from]) {
        1 + digit_count(s, from + 1)
    } else {
        0
    }
}

/// `s` starts with `<digits>:<digits>:` (the line and column fields).
pub open spec fn line_col_suffix(s: Seq<char>) -> bool {
    let n1 = digit_count(s, 0);
    let j = n1 + 1;
    let n2 = digit_count(s, j);
    &&& n1 > 0
    &&& n1 < s.len()
    &&& s[n1] == ':'
    &&& n2 > 0
    &&& j + n2 < s.len()
    &&& s[j + n2] == ':'
}

/// The first colon at or after `i` that is followed by `<digits>:<digits>:`.
pub open spec fn path_split(s: Seq<char>, i: int) -> Option<int>
    decreases s.len() - i,
{
    if i < 0 || i >= s.len() {
        None
    } else if s[i] == ':' && line_col_suffix(s.subrange(i + 1, s.len() as int)) {
        Some(i)
    } else {
        path_split(s, i + 1)
    }
}

proof fn lemma_path_split_first(s: Seq<char>, i: int)
    requires
        0 <= i <= s.len(),
    ensures
        path_split(s, i) is Some <==> exists|k: int|
            i <= k < s.len() && #[trigger] s[k] == ':' && line_col_suffix(s.subrange(k + 1, s.len() as int)),
        path_split(s, i) matches Some(k) ==> i <= k < s.len() && s[k] == ':' && line_col_suffix(
            s.subrange(k + 1, s.len() as int),
        ) && forall|j: int|
            i <= j < k ==> !(#[trigger] s[j] == ':' && line_col_suffix(s.subrange(j + 1, s.len() as int))),
    decreases s.len() - i,
{
    if i < s.len() {
        lemma_path_split_first(s, i + 1);
    }
}

/// The path ends at the first colon that a `<digits>:<digits>:` field
/// follows: the split exists exactly when such a colon does, and no earlier
/// colon is followed by such a field (so a drive letter's colon stays in the
/// path).
pub proof fn law_path_split_is_first_colon(s: Seq<char>)
    ensures
        path_split(s, 0) is Some <==> exists|k: int|
            0 <= k < s.len() && #[trigger] s[k] == ':' && line_col_suffix(s.subrange(k + 1, s.len() as int)),
        path_split(s, 0) matches Some(k) ==> 0 <= k < s.len() && s[k] == ':' && line_col_suffix(
            s.subrange(k + 1, s.len() as int),
        ) && forall|j: int|
            0 <= j < k ==> !(#[trigger] s[j] == ':' && line_col_suffix(s.subrange(j + 1, s.len() as int))),
{
    lemma_path_split_first(s, 0);
}

/// The value of a sequence of decimal digits.
pub open spec fn digits_value(d: Seq<char>) -> nat
    decreases d.len(),
{
    if d.len() == 0 {
        0
    } else {
        digits_value(d.drop_last()) * 10 + ((d.last() as u32) - 48) as nat
    }
}

pub open spec fn all_ascii_digits(d: Seq<char>) -> bool {
    forall|i: int| 0 <= i < d.len() ==> is_ascii_digit(d[i])
}

/// `<u32 as FromStr>::from_str`: an optional `+` and one or more decimal digits
/// whose value fits in a `u32`.
pub open spec fn parse_u32_spec(t: Seq<char>) -> Option<u32> {
    let d = if t.len() > 0 && t[0] == '+' {
        t.subrange(1, t.len() as int)
    } else {
        t
    };
    if d.len() == 0 || !all_ascii_digits(d) || digits_value(d) > u32::MAX {
        None
    } else {
        Some(digits_value(d) as u32)
    }
}

/// After the path of `path:line:col:rest`: the line and column numbers and the
/// text after the third colon.
pub open spec fn line_col_fields(s: Seq<char>) -> Option<(u32, u32, Seq<char>)> {
    match path_split(s, 0) {
        None => None,
        Some(i) => {
            let a = i + 1;
            let n1 = digit_count(s, a);
            let b = a + n1 + 1;
            let n2 = digit_count(s, b);
            match (
                parse_u32_spec(trim_chars(s.subrange(a, a + n1))),
                parse_u32_spec(trim_chars(s.subrange(b, b + n2))),
            ) {
                (Some(l), Some(c)) => Some((l, c, s.subrange(b + n2 + 1, s.len() as int))),
                _ => None,
            }
        },
    }
}

/// One-based to zero-based, saturating at zero.
pub open spec fn zero_based(n: u32) -> u32 {
    if n == 0 {
        0
    } else {
        (n - 1) as u32
    }
}

/// One compiler warning line: `;;;`-comment markers and whitespace, a path,
/// `:line:col:`, a severity (`warning` or `error`), a colon and a message.
pub open spec fn parse_line_spec(line: Seq<char>) -> Option<RawDiagV> {
    let s1 = trim_start_chars(line);
    let s = trim_start_chars(s1.subrange(semicolons(s1, 0), s1.len() as int));
    if s.len() == 0 {
        None
    } else {
        match line_col_fields(s) {
            None => None,
            Some((l, c, rest)) => {
                let k = index_of_from(rest, 0, ':');
                if k >= rest.len() {
                    None
                } else {
                    let sev = trim_chars(rest.subrange(0, k));
                    let message = trim_chars(rest.subrange(k + 1, rest.len() as int));
                    if sev == "warning"@ {
                        Some(
                            RawDiagV {
                                line: zero_based(l),
                                col: zero_based(c),
                                severity: DiagnosticSeverity::WARNING,
                                message,
                            },
                        )
                    } else if sev == "error"@ {
                        Some(
                            RawDiagV {
                                line: zero_based(l),
                                col: zero_based(c),
                                severity: DiagnosticSeverity::ERROR,
                                message,
                            },
                        )
                    } else {
                        None
                    }
                }
            },
        }
    }
}

/// A compile error message `path:line:col: message` (no severity keyword).
pub open spec fn parse_error_spec(raw: Seq<char>) -> Option<RawDiagV> {
    let s = trim_chars(raw);
    if s.len() == 0 {
        None
    } else {
        match line_col_fields(s) {
            None => None,
            Some((l, c, rest)) => Some(
                RawDiagV {
                    line: zero_based(l),
                    col: zero_based(c),
                    severity: DiagnosticSeverity::ERROR,
                    message: trim_chars(rest),
                },
            ),
        }
    }
}

/// `str::lines` from index `start`: split at `\n`, dropping a `\r` just before
/// it; a final line ending adds no empty line.
pub open spec fn lines_from(s: Seq<char>, start: int) -> Seq<Seq<char>>
    decreases s.len() - start,
{
    if start < 0 || start >= s.len() {
        seq![]
    } else {
        proof {
            lemma_index_of_from(s, start, '\n');
        }
        let e = index_of_from(s, start, '\n');
        let line = if e < s.len() && e > start && s[e - 1] == '\r' {
            s.subrange(start, e - 1)
        } else {
            s.subrange(start, e)
        };
        if e >= s.len() {
            seq![line]
        } else {
            seq![line] + lines_from(s, e + 1)
        }
    }
}

/// The diagnostics of the lines that parse, in order.
pub open spec fn diags_of_lines(ls: Seq<Seq<char>>) -> Seq<RawDiagV>
    decreases ls.len(),
{
    if ls.len() == 0 {
        seq![]
    } else {
        (match parse_line_spec(ls[0]) {
            Some(d) => seq![d],
            None => seq![],
        }) + diags_of_lines(ls.drop_first())
    }
}

pub proof fn lemma_index_of_from(s: Seq<char>, i: int, c: char)
    requires
        0 <= i <= s.len(),
    ensures
        i <= index_of_from(s, i, c) <= s.len(),
        index_of_from(s, i, c) < s.len() ==> s[index_of_from(s, i, c)] == c,
        forall|k: int| i <= k < index_of_from(s, i, c) ==> s[k] != c,
    decreases s.len() - i,
{
    if i < s.len() && s[i] != c {
        lemma_index_of_from(s, i + 1, c);
    }
}

pub proof fn lemma_digit_count(s: Seq<char>, from: int)
    requires
        0 <= from <= s.len(),
    ensures
        0 <= digit_count(s, from) <= s.len() - from,
        forall|k: int| from <= k < from + digit_count(s, from) ==> is_ascii_digit(s[k]),
        from + digit_count(s, from) == s.len() || !is_ascii_digit(s[from + digit_count(s, from)]),
    decreases s.len() - from,
{
    if from < s.len() && is_ascii_digit(s[from]) {
        lemma_digit_count(s, from + 1);
    }
}

pub proof fn lemma_lead_ws(s: Seq<char>, i: int)
    requires
        0 <= i <= s.len(),
    ensures
        i <= lead_ws(s, i) <= s.len(),
    decreases s.len() - i,
{
    if i < s.len() && is_unicode_ws(s[i]) {
        lemma_lead_ws(s, i + 1);
    }
}

pub proof fn lemma_back_ws(s: Seq<char>, j: int)
    requires
        0 <= j <= s.len(),
    ensures
        0 <= back_ws(s, j) <= j,
    decreases j,
{
    if j > 0 && is_unicode_ws(s[j - 1]) {
        lemma_back_ws(s, j - 1);
    }
}

pub proof fn lemma_semicolons(s: Seq<char>, i: int)
    requires
        0 <= i <= s.len(),
    ensures
        i <= semicolons(s, i) <= s.len(),
    decreases s.len() - i,
{
    if i < s.len() && s[i] == ';' {
        lemma_semicolons(s, i + 1);
    }
}

/// The characters of a string.
pub fn chars_of(s: &str) -> (v: Vec<char>)
    ensures
        v@ == s@,
{
    let mut v: Vec<char> = Vec::new();
    for c in it: s.chars()
        invariant
            v@ == it.seq().take(it.index() as int),
            it.seq() == s@,
    {
        v.push(c);
    }
    v
}

/// A string of the given characters.
pub(crate) fn string_of(s: &[char]) -> (r: String)
    ensures
        r@ == s@,
{
    let mut r = String::new();
    let mut k: usize = 0;
    while k < s.len()
        invariant
            k <= s@.len(),
            r@ == s@.take(k as int),
        decreases s@.len() - k,
    {
        string_push(&mut r, s[k]);
        assert(s@.take(k + 1) =~= s@.take(k as int).push(s@[k as int]));
        k = k + 1;
    }
    assert(s@.take(s@.len() as int) =~= s@);
    r
}

fn is_unicode_whitespace(c: char) -> (r: bool)
    ensures
        r == is_unicode_ws(c),
{
    let u = c as u32;
    (9 <= u && u <= 13) || u == 0x20 || u == 0x85 || u == 0xa0 || u == 0x1680 || (0x2000 <= u
        && u <= 0x200a) || u == 0x2028 || u == 0x2029 || u == 0x202f || u == 0x205f || u == 0x3000
}

/// `str::trim_start` on characters.
fn trim_start(s: &[char]) -> (r: Vec<char>)
    ensures
        r@ == trim_start_chars(s@),
{
    let mut i: usize = 0;
    while i < s.len() && is_unicode_whitespace(s[i])
        invariant
            i <= s@.len(),
            lead_ws(s@, 0) == lead_ws(s@, i as int),
        decreases s@.len() - i,
    {
        i = i + 1;
    }
    slice_to_vec(&s[i..s.len()])
}

/// `str::trim` on characters.
fn trim(s: &[char]) -> (r: Vec<char>)
    ensures
        r@ == trim_chars(s@),
{
    let t = trim_start(s);
    let mut j = t.len();
    while j > 0 && is_unicode_whitespace(t[j - 1])
        invariant
            j <= t@.len(),
            back_ws(t@, t@.len() as int) == back_ws(t@, j as int),
        decreases j,
    {
        j = j - 1;
    }
    slice_to_vec(&t.as_slice()[0..j])
}

/// Count leading ASCII digits of `b` at offset `from`.
fn take_digits(b: &[char], from: usize) -> (n: usize)
    requires
        from <= b@.len(),
    ensures
        n == digit_count(b@, from as int),
{
    let mut n: usize = 0;
    let len = b.len();
    proof {
        lemma_digit_count(b@, from as int);
    }
    while n < len - from && '0' <= b[from + n] && b[from + n] <= '9'
        invariant
            len == b@.len(),
            from + n <= b@.len(),
            digit_count(b@, from as int) == n + digit_count(b@, from + n),
        decreases b@.len() - from - n,
    {
        n = n + 1;
    }
    n
}

/// True if `s` starts with `<digits>:<digits>:` (the line and column fields).
fn is_line_col_suffix(s: &[char]) -> (r: bool)
    ensures
        r == line_col_suffix(s@),
{
    let n1 = take_digits(s, 0);
    proof {
        lemma_digit_count(s@, 0);
    }
    if n1 == 0 || n1 >= s.len() || s[n1] != ':' {
        return false;
    }
    let j = n1 + 1;
    let n2 = take_digits(s, j);
    proof {
        lemma_digit_count(s@, j as int);
    }
    n2 > 0 && j + n2 < s.len() && s[j + n2] == ':'
}

/// Split `s` at the colon that starts its `:line:col:` suffix (the first colon
/// whose following two `:`-separated fields are both numbers); the path before
/// it may itself hold colons, such as a drive letter `C:`.
fn split_path_prefix(s: &[char]) -> (r: Option<usize>)
    ensures
        r matches Some(i) ==> path_split(s@, 0) == Some(i as int) && i < s@.len(),
        r is None ==> path_split(s@, 0) is None,
{
    let mut i: usize = 0;
    while i < s.len()
        invariant
            i <= s@.len(),
            path_split(s@, 0) == path_split(s@, i as int),
        decreases s@.len() - i,
    {
        if s[i] == ':' && is_line_col_suffix(&s[i + 1..s.len()]) {
            return Some(i);
        }
        i = i + 1;
    }
    None
}

pub proof fn lemma_digits_value_prefix(d: Seq<char>, k: int)
    requires
        0 <= k <= d.len(),
    ensures
        digits_value(d.take(k)) <= digits_value(d),
    decreases d.len() - k,
{
    if k < d.len() {
        lemma_digits_value_prefix(d.drop_last(), k);
        assert(d.drop_last().take(k) =~= d.take(k));
    } else {
        assert(d.take(k) =~= d);
    }
}

/// `<u32 as FromStr>::from_str` on characters.
fn parse_u32(t: &[char]) -> (r: Option<u32>)
    ensures
        r == parse_u32_spec(t@),
{
    let d = if t.len() > 0 && t[0] == '+' {
        &t[1..t.len()]
    } else {
        &t[0..t.len()]
    };
    assert(t@.subrange(0, t@.len() as int) =~= t@);
    if d.len() == 0 {
        return None;
    }
    let mut v: u64 = 0;
    let mut k: usize = 0;
    while k < d.len()
        invariant
            d@ == (if t@.len() > 0 && t@[0] == '+' {
                t@.subrange(1, t@.len() as int)
            } else {
                t@
            }),
            d@.len() > 0,
            k <= d@.len(),
            forall|i: int| 0 <= i < k ==> is_ascii_digit(d@[i]),
            v == digits_value(d@.take(k as int)),
            v <= u32::MAX,
        decreases d@.len() - k,
    {
        let c = d[k];
        if !('0' <= c && c <= '9') {
            assert(!is_ascii_digit(d@[k as int]));
            return None;
        }
        assert(d@.take(k + 1).drop_last() =~= d@.take(k as int));
        v = v * 10 + ((c as u32) - 48) as u64;
        k = k + 1;
        if v > 0xffff_ffff {
            proof {
                lemma_digits_value_prefix(d@, k as int);
                assert(digits_value(d@) > u32::MAX);
            }
            return None;
        }
    }
    assert(d@.take(d@.len() as int) =~= d@);
    Some(v as u32)
}

/// The line and column numbers of `path:line:col:rest` and the index where
/// `rest` starts.
fn line_col(s: &[char]) -> (r: Option<(u32, u32, usize)>)
    ensures
        r matches Some((l, c, k)) ==> k <= s@.len() && line_col_fields(s@) == Some(
            (l, c, s@.subrange(k as int, s@.len() as int)),
        ),
        r is None ==> line_col_fields(s@) is None,
{
    let len = s.len();
    let i = split_path_prefix(s)?;
    let ghost t = s@.subrange(i + 1, s@.len() as int);
    proof {
        lemma_path_split(s@, 0);
    }
    let a = i + 1;
    let n1 = take_digits(s, a);
    proof {
        lemma_digit_count(s@, a as int);
        lemma_digit_count(t, 0);
        assert forall|k: int| 0 <= k <= t.len() implies digit_count(t, k) == digit_count(s@, a + k) by {
            lemma_digit_count_shift(s@, a as int, k);
        }
    }
    let b = a + n1 + 1;
    let n2 = take_digits(s, b);
    proof {
        lemma_digit_count(s@, b as int);
    }
    let line_num = parse_u32(trim(&s[a..a + n1]).as_slice())?;
    let col_num = parse_u32(trim(&s[b..b + n2]).as_slice())?;
    Some((line_num, col_num, b + n2 + 1))
}

pub proof fn lemma_path_split(s: Seq<char>, j: int)
    requires
        0 <= j,
    ensures
        path_split(s, j) matches Some(i) ==> j <= i < s.len() && s[i] == ':' && line_col_suffix(
            s.subrange(i + 1, s.len() as int),
        ),
    decreases s.len() - j,
{
    if j < s.len() && !(s[j] == ':' && line_col_suffix(s.subrange(j + 1, s.len() as int))) {
        lemma_path_split(s, j + 1);
    }
}

pub proof fn lemma_digit_count_shift(s: Seq<char>, a: int, k: int)
    requires
        0 <= a <= s.len(),
        0 <= k <= s.len() - a,
    ensures
        digit_count(s.subrange(a, s.len() as int), k) == digit_count(s, a + k),
    decreases s.len() - a - k,
{
    if a + k < s.len() {
        lemma_digit_count_shift(s, a, k + 1);
    }
}

/// Whether two character slices are equal.
pub(crate) fn chars_equal(a: &[char], b: &[char]) -> (r: bool)
    ensures
        r == (a@ == b@),
{
    if a.len() != b.len() {
        return false;
    }
    let mut k: usize = 0;
    while k < a.len()
        invariant
            a@.len() == b@.len(),
            k <= a@.len(),
            forall|m: int| 0 <= m < k ==> a@[m] == b@[m],
        decreases a@.len() - k,
    {
        if a[k] != b[k] {
            return false;
        }
        k = k + 1;
    }
    assert(a@ =~= b@);
    true
}

/// `n - 1`, saturating at zero.
fn saturating_dec(n: u32) -> (r: u32)
    ensures
        r == zero_based(n),
{
    if n == 0 {
        0
    } else {
        n - 1
    }
}

/// Parse one Guile compile *warning* line into a diagnostic.
///
/// Line shape: `<path>:<line>:<col>: <severity>: <message...>`
/// where `<path>` may itself contain colons — notably a Windows drive letter
/// (`C:/...`) whose `:` must not be counted as a field separator.
fn parse_line(line: &[char]) -> (r: Option<RawDiag>)
    ensures
        r matches Some(d) ==> parse_line_spec(line@) == Some(d@),
        r is None ==> parse_line_spec(line@) is None,
{
    // Strip leading ";;;" comment markers and surrounding whitespace.
    let s1 = trim_start(line);
    let mut k: usize = 0;
    while k < s1.len() && s1[k] == ';'
        invariant
            k <= s1@.len(),
            semicolons(s1@, 0) == semicolons(s1@, k as int),
        decreases s1@.len() - k,
    {
        k = k + 1;
    }
    let s = trim_start(&s1.as_slice()[k..s1.len()]);
    if s.len() == 0 {
        return None;
    }
    let (line_num, col_num, rest_start) = line_col(s.as_slice())?;
    let rest = &s.as_slice()[rest_start..s.len()];
    // rest = "<severity>: <message...>" — split severity from message.
    let mut c: usize = 0;
    while c < rest.len() && rest[c] != ':'
        invariant
            c <= rest@.len(),
            index_of_from(rest@, 0, ':') == index_of_from(rest@, c as int, ':'),
        decreases rest@.len() - c,
    {
        c = c + 1;
    }
    if c >= rest.len() {
        return None;
    }
    let severity_field = trim(&rest[0..c]);
    let message = trim(&rest[c + 1..rest.len()]);
    let warning = chars_of("warning");
    let error = chars_of("error");
    let severity = if chars_equal(severity_field.as_slice(), warning.as_slice()) {
        DiagnosticSeverity::WARNING
    } else if chars_equal(severity_field.as_slice(), error.as_slice()) {
        DiagnosticSeverity::ERROR
    } else {
        return None;
    };
    Some(
        RawDiag {
            // Guile is 1-based; LSP is 0-based.
            line: saturating_dec(line_num),
            col: saturating_dec(col_num),
            severity,
            message: string_of(message.as_slice()),
        },
    )
}

/// Parse a blob of Guile compiler output into zero or more diagnostics.
/// Lines that do not match the `path:line:col: severity: msg` shape are
/// ignored (e.g. the ";;; compiling" / ";;; compiled" noise).
pub fn parse_compile_output(raw: &str) -> (out: Vec<RawDiag>)
    ensures
        out@.map_values(|d: RawDiag| d@) == diags_of_lines(lines_from(raw@, 0)),
{
    let cs = chars_of(raw);
    let n = cs.len();
    let mut out: Vec<RawDiag> = Vec::new();
    let mut start: usize = 0;
    while start < n
        invariant
            cs@ == raw@,
            n == cs@.len(),
            start <= n,
            diags_of_lines(lines_from(raw@, 0)) == out@.map_values(|d: RawDiag| d@)
                + diags_of_lines(lines_from(raw@, start as int)),
        decreases n - start,
    {
        let mut e = start;
        while e < n && cs[e] != '\n'
            invariant
                start <= e <= n,
                n == cs@.len(),
                index_of_from(cs@, start as int, '\n') == index_of_from(cs@, e as int, '\n'),
            decreases n - e,
        {
            e = e + 1;
        }
        let end = if e < n && e > start && cs[e - 1] == '\r' {
            e - 1
        } else {
            e
        };
        let ghost ls = lines_from(raw@, start as int);
        let next = if e < n {
            e + 1
        } else {
            n
        };
        proof {
            assert(ls.drop_first() =~= lines_from(raw@, next as int));
        }
        let parsed = parse_line(&cs.as_slice()[start..end]);
        let ghost before = out@.map_values(|d: RawDiag| d@);
        if let Some(d) = parsed {
            out.push(d);
            proof {
                assert(out@.map_values(|d: RawDiag| d@) =~= before.push(d@));
                assert(before + (seq![d@] + diags_of_lines(ls.drop_first())) =~= before.push(d@)
                    + diags_of_lines(ls.drop_first()));
            }
        } else {
            proof {
                assert(before + (Seq::<RawDiagV>::empty() + diags_of_lines(ls.drop_first()))
                    =~= before + diags_of_lines(ls.drop_first()));
            }
        }
        start = next;
    }
    proof {
        let v = out@.map_values(|d: RawDiag| d@);
        assert(v + Seq::<RawDiagV>::empty() =~= v);
    }
    out
}

/// Parse a Guile compile *error* message (a single string of shape
/// `path:line:col: message`, with no severity keyword) into one ERROR diag.
pub fn parse_error_output(raw: &str) -> (r: Option<RawDiag>)
    ensures
        r matches Some(d) ==> parse_error_spec(raw@) == Some(d@),
        r is None ==> parse_error_spec(raw@) is None,
{
    let cs = chars_of(raw);
    let s = trim(cs.as_slice());
    if s.len() == 0 {
        return None;
    }
    let (line_num, col_num, rest_start) = line_col(s.as_slice())?;
    let message = trim(&s.as_slice()[rest_start..s.len()]);
    Some(
        RawDiag {
            line: saturating_dec(line_num),
            col: saturating_dec(col_num),
            severity: DiagnosticSeverity::ERROR,
            message: string_of(message.as_slice()),
        },
    )
}

/// The diagnostics that a warnings blob and an optional error message report,
/// in that order.
pub open spec fn raw_diags(warnings: Seq<char>, error: Option<Seq<char>>) -> Seq<RawDiagV> {
    diags_of_lines(lines_from(warnings, 0)) + match error {
        Some(e) => match parse_error_spec(e) {
            Some(d) => seq![d],
            None => seq![],
        },
        None => seq![],
    }
}

/// A raw diagnostic placed in a document: its range runs from its line and
/// column to the end of the identifier that starts there.
pub open spec fn place_diag(b: Seq<u8>, r: RawDiagV) -> DiagnosticV {
    let start = Position { line: r.line, character: r.col };
    DiagnosticV {
        range: Range { start, end: position_of(b, atom_end(b, offset_of(b, start))) },
        severity: Some(r.severity),
        source: Some("guile"@),
        message: r.message,
    }
}

/// Build diagnostics for a document from Guile's raw compiler warning
/// output plus an optional compile-error message. Each diagnostic's range
/// spans the identifier at the reported (0-based) line/column.
pub fn build_diagnostics(text: &str, warnings: &str, error: Option<&str>) -> (out: Vec<Diagnostic>)
    requires
        lines_fit(text.spec_bytes()),
    ensures
        out@.map_values(|d: Diagnostic| d@) == raw_diags(
            warnings@,
            match error {
                Some(e) => Some(e@),
                None => None,
            },
        ).map_values(|r: RawDiagV| place_diag(text.spec_bytes(), r)),
{
    let mut raws = parse_compile_output(warnings);
    let ghost warned = raws@.map_values(|d: RawDiag| d@);
    let extra = match error {
        Some(e) => parse_error_output(e),
        None => None,
    };
    if let Some(e) = extra {
        raws.push(e);
    }
    let ghost all = raws@.map_values(|d: RawDiag| d@);
    proof {
        let ev = match error {
            Some(e) => Some(e@),
            None => None,
        };
        assert(all =~= raw_diags(warnings@, ev));
    }
    let mut out: Vec<Diagnostic> = Vec::new();
    let mut k: usize = 0;
    while k < raws.len()
        invariant
            lines_fit(text.spec_bytes()),
            all == raws@.map_values(|d: RawDiag| d@),
            k <= raws@.len(),
            out@.map_values(|d: Diagnostic| d@) == all.take(k as int).map_values(
                |r: RawDiagV| place_diag(text.spec_bytes(), r),
            ),
        decreases raws@.len() - k,
    {
        let rd = &raws[k];
        let start = Position { line: rd.line, character: rd.col };
        let end_offset = identifier_end_offset(text, rd.line, rd.col);
        proof {
            lemma_lines_fit(text.spec_bytes(), end_offset as int);
        }
        let end = offset_to_position(text, end_offset);
        let d = Diagnostic {
            range: Range { start, end },
            severity: Some(rd.severity),
            source: Some(String::from_str("guile")),
            message: rd.message.clone(),
        };
        let ghost before = out@.map_values(|d: Diagnostic| d@);
        out.push(d);
        proof {
            assert(out@.map_values(|d: Diagnostic| d@) =~= before.push(d@));
            assert(all.take(k + 1) =~= all.take(k as int).push(all[k as int]));
            assert(all.take(k + 1).map_values(|r: RawDiagV| place_diag(text.spec_bytes(), r))
                =~= all.take(k as int).map_values(|r: RawDiagV| place_diag(text.spec_bytes(), r)).push(
                place_diag(text.spec_bytes(), all[k as int]),
            ));
        }
        k = k + 1;
    }
    proof {
        assert(all.take(all.len() as int) =~= all);
    }
    out
}

/// Byte offset just past the identifier that starts at `(line, col)` in `text`.
/// Identifier characters are anything that is not whitespace or a Scheme
/// delimiter `(` `)` `"` `;`.
fn identifier_end_offset(text: &str, line: u32, col: u32) -> (end: usize)
    ensures
        end == atom_end(text.spec_bytes(), offset_of(text.spec_bytes(), Position { line, character: col })),
{
    let start = position_to_offset(text, &Position { line, character: col });
    let bytes = text.as_bytes();
    proof {
        lemma_offset_of_bounds(bytes@, Position { line, character: col });
    }
    let mut end = start;
    while end < bytes.len() && !is_atom_stop_byte(bytes[end])
        invariant
            start <= end <= bytes@.len(),
            atom_end(bytes@, start as int) == crate::parser::find_from(bytes@, end as int, |c: u8| is_atom_stop(c)),
        decreases bytes@.len() - end,
    {
        end = end + 1;
    }
    end
}

fn is_atom_stop_byte(c: u8) -> (r: bool)
    ensures
        r == is_atom_stop(c),
{
    crate::text::is_ascii_whitespace(c) || c == crate::text::LPAREN || c == crate::text::RPAREN
        || c == crate::text::QUOTE || c == crate::text::SEMICOLON
}

proof fn lemma_index_of_shift(p: Seq<char>, t: Seq<char>, k: int, c: char)
    requires
        0 <= k <= t.len(),
    ensures
        index_of_from(p + t, p.len() + k, c) == p.len() + index_of_from(t, k, c),
    decreases t.len() - k,
{
    if k < t.len() {
        assert((p + t)[p.len() + k] == t[k]);
        if t[k] != c {
            lemma_index_of_shift(p, t, k + 1, c);
        }
    }
}

/// The lines from an offset of a text depend only on what follows it.
proof fn lemma_lines_shift(p: Seq<char>, t: Seq<char>, k: int)
    requires
        0 <= k <= t.len(),
    ensures
        lines_from(p + t, p.len() + k) == lines_from(t, k),
    decreases t.len() - k,
{
    let x = p + t;
    let n = p.len() as int;
    if k < t.len() {
        lemma_index_of_shift(p, t, k, '\n');
        lemma_index_of_from(t, k, '\n');
        let e = index_of_from(t, k, '\n');
        if e > k {
            assert(x[n + e - 1] == t[e - 1]);
        }
        if e > k {
            assert(x.subrange(n + k, n + e - 1) =~= t.subrange(k, e - 1));
        }
        assert(x.subrange(n + k, n + e) =~= t.subrange(k, e));
        if e < t.len() {
            lemma_lines_shift(p, t, e + 1);
        }
    }
}

proof fn lemma_diags_concat(p: Seq<Seq<char>>, q: Seq<Seq<char>>)
    ensures
        diags_of_lines(p + q) == diags_of_lines(p) + diags_of_lines(q),
    decreases p.len(),
{
    if p.len() == 0 {
        assert(p + q =~= q);
        assert(diags_of_lines(p) + diags_of_lines(q) =~= diags_of_lines(q));
    } else {
        assert((p + q)[0] == p[0]);
        assert((p + q).drop_first() =~= p.drop_first() + q);
        lemma_diags_concat(p.drop_first(), q);
        let h: Seq<RawDiagV> = match parse_line_spec(p[0]) {
            Some(d) => seq![d],
            None => seq![],
        };
        assert(h + (diags_of_lines(p.drop_first()) + diags_of_lines(q)) =~= h
            + diags_of_lines(p.drop_first()) + diags_of_lines(q));
    }
}

/// One line alone gives its own diagnostic, if any; an empty line gives none.
proof fn lemma_one_line(line: Seq<char>)
    ensures
        diags_of_lines(seq![line]) == match parse_line_spec(line) {
            Some(d) => seq![d],
            None => Seq::<RawDiagV>::empty(),
        },
        line.len() == 0 ==> diags_of_lines(seq![line]) == Seq::<RawDiagV>::empty(),
{
    assert(seq![line][0] == line);
    assert(seq![line].drop_first() =~= Seq::<Seq<char>>::empty());
    assert(diags_of_lines(Seq::<Seq<char>>::empty()) == Seq::<RawDiagV>::empty());
    assert(diags_of_lines(seq![line]) == (match parse_line_spec(seq![line][0]) {
        Some(d) => seq![d],
        None => Seq::<RawDiagV>::empty(),
    }) + diags_of_lines(seq![line].drop_first()));
    let h: Seq<RawDiagV> = match parse_line_spec(line) {
        Some(d) => seq![d],
        None => Seq::<RawDiagV>::empty(),
    };
    assert(h + Seq::<RawDiagV>::empty() =~= h);
    if line.len() == 0 {
        assert(lead_ws(line, 0) == 0);
        assert(trim_start_chars(line) =~= Seq::<char>::empty());
    }
}

/// Where the line of `a` from `start` holds a newline of `a` at `ea`.
proof fn lemma_joined_inner(a: Seq<char>, b: Seq<char>, start: int, ea: int)
    requires
        0 <= start <= ea < a.len(),
        index_of_from(a, start, '\n') == ea,
        index_of_from(a + seq!['\n'] + b, start, '\n') == ea,
        diags_of_lines(lines_from(a + seq!['\n'] + b, ea + 1)) == diags_of_lines(lines_from(a, ea + 1))
            + diags_of_lines(lines_from(b, 0)),
    ensures
        diags_of_lines(lines_from(a + seq!['\n'] + b, start)) == diags_of_lines(lines_from(a, start))
            + diags_of_lines(lines_from(b, 0)),
{
    let x = a + seq!['\n'] + b;
    assert(x.subrange(start, ea) =~= a.subrange(start, ea));
    if ea > start {
        assert(x[ea - 1] == a[ea - 1]);
        assert(x.subrange(start, ea - 1) =~= a.subrange(start, ea - 1));
    }
    lemma_index_of_from(a, start, '\n');
    let line = lines_from(a, start)[0];
    assert(lines_from(a, start) =~= seq![line] + lines_from(a, ea + 1));
    assert(lines_from(x, start) =~= seq![line] + lines_from(x, ea + 1));
    lemma_diags_concat(seq![line], lines_from(x, ea + 1));
    lemma_diags_concat(seq![line], lines_from(a, ea + 1));
    assert(diags_of_lines(seq![line]) + diags_of_lines(lines_from(a, ea + 1)) + diags_of_lines(
        lines_from(b, 0),
    ) =~= diags_of_lines(seq![line]) + (diags_of_lines(lines_from(a, ea + 1)) + diags_of_lines(
        lines_from(b, 0),
    )));
}

/// Where the line of `a` from `start` runs to the end of `a`.
proof fn lemma_joined_last(a: Seq<char>, b: Seq<char>, start: int)
    requires
        0 <= start <= a.len(),
        a.len() == 0 || a.last() != '\r',
        index_of_from(a + seq!['\n'] + b, start, '\n') == a.len(),
        index_of_from(a, start, '\n') == a.len(),
        lines_from(a + seq!['\n'] + b, a.len() as int + 1) == lines_from(b, 0),
    ensures
        diags_of_lines(lines_from(a + seq!['\n'] + b, start)) == diags_of_lines(lines_from(a, start))
            + diags_of_lines(lines_from(b, 0)),
{
    let x = a + seq!['\n'] + b;
    let n = a.len() as int;
    let tail = lines_from(x, n + 1);
    let line = x.subrange(start, n);
    if start < n {
        assert(x[n - 1] == a.last());
    }
    assert(lines_from(x, start) =~= seq![line] + tail);
    lemma_diags_concat(seq![line], tail);
    lemma_one_line(line);
    if start == n {
        assert(line =~= Seq::<char>::empty());
        assert(lines_from(a, start) =~= Seq::<Seq<char>>::empty());
        assert(diags_of_lines(lines_from(a, start)) + diags_of_lines(tail) =~= diags_of_lines(tail));
    } else {
        assert(line =~= a.subrange(start, n));
        assert(lines_from(a, start) == seq![a.subrange(start, n)]);
        assert(lines_from(a, start) =~= seq![line]);
    }
}

/// The diagnostics of `a`, a newline and `b`, from the line of `a` that starts
/// at `start` on.
proof fn lemma_joined_lines(a: Seq<char>, b: Seq<char>, start: int)
    requires
        0 <= start <= a.len(),
        a.len() == 0 || a.last() != '\r',
    ensures
        diags_of_lines(lines_from(a + seq!['\n'] + b, start)) == diags_of_lines(lines_from(a, start))
            + diags_of_lines(lines_from(b, 0)),
    decreases a.len() - start,
{
    let x = a + seq!['\n'] + b;
    let n = a.len() as int;
    assert(x =~= (a + seq!['\n']) + b);
    assert((a + seq!['\n']).len() == n + 1);
    lemma_lines_shift(a + seq!['\n'], b, 0);
    lemma_index_of_from(a, start, '\n');
    let ea = index_of_from(a, start, '\n');
    lemma_index_of_agree(a, b, start);
    if ea < n {
        lemma_joined_lines(a, b, ea + 1);
        lemma_joined_inner(a, b, start, ea);
    } else {
        lemma_joined_last(a, b, start);
    }
}

/// Up to the end of `a`, the newline search in `a`, a newline and `b` finds
/// what the search in `a` finds, and the added newline after that.
proof fn lemma_index_of_agree(a: Seq<char>, b: Seq<char>, start: int)
    requires
        0 <= start <= a.len(),
    ensures
        index_of_from(a + seq!['\n'] + b, start, '\n') == index_of_from(a, start, '\n'),
    decreases a.len() - start,
{
    let x = a + seq!['\n'] + b;
    if start < a.len() {
        assert(x[start] == a[start]);
        if a[start] != '\n' {
            lemma_index_of_agree(a, b, start + 1);
        }
    } else {
        assert(x[start] == '\n');
    }
}

/// Each line of compiler output is read on its own: the diagnostics of two
/// outputs joined at a newline are those of the first, then those of the
/// second (when the first does not end in a carriage return, which would
/// otherwise be taken as part of a `\r\n` line end).
pub proof fn law_joined_output_diagnostics(a: Seq<char>, b: Seq<char>)
    requires
        a.len() == 0 || a.last() != '\r',
    ensures
        diags_of_lines(lines_from(a + seq!['\n'] + b, 0)) == diags_of_lines(lines_from(a, 0))
            + diags_of_lines(lines_from(b, 0)),
{
    lemma_joined_lines(a, b, 0);
}

proof fn lemma_path_split_at(s: Seq<char>, i: int, n: int)
    requires
        0 <= i <= n < s.len(),
        forall|k: int| i <= k < n ==> s[k] != ':',
        s[n] == ':',
        line_col_suffix(s.subrange(n + 1, s.len() as int)),
    ensures
        path_split(s, i) == Some(n),
    decreases n - i,
{
    if i < n {
        lemma_path_split_at(s, i + 1, n);
    }
}

proof fn lemma_digit_run(s: Seq<char>, from: int, m: int)
    requires
        0 <= from,
        0 <= m,
        from + m <= s.len(),
        forall|k: int| from <= k < from + m ==> is_ascii_digit(s[k]),
        from + m == s.len() || !is_ascii_digit(s[from + m]),
    ensures
        digit_count(s, from) == m,
    decreases m,
{
    if m > 0 {
        lemma_digit_run(s, from + 1, m - 1);
    }
}

/// A non-empty decimal numeral that fits in a `u32` reads as its value.
proof fn lemma_numeral_value(d: Seq<char>)
    requires
        d.len() > 0,
        all_ascii_digits(d),
        digits_value(d) <= u32::MAX,
    ensures
        parse_u32_spec(trim_chars(d)) == Some(digits_value(d) as u32),
{
    assert(is_ascii_digit(d[0]));
    assert(is_ascii_digit(d[d.len() - 1]));
    assert(lead_ws(d, 0) == 0);
    assert(trim_start_chars(d) =~= d);
    assert(back_ws(d, d.len() as int) == d.len());
    assert(trim_end_chars(d) =~= d);
}

/// The line and column fields are read whole: after a path without colons,
/// `:L:C:` with decimal numerals `L` and `C` (of any length, fitting in a
/// `u32`) gives the values of `L` and `C` and the text after the third colon.
pub proof fn law_line_and_column_fields(p: Seq<char>, l: Seq<char>, c: Seq<char>, rest: Seq<char>)
    requires
        forall|k: int| 0 <= k < p.len() ==> p[k] != ':',
        l.len() > 0,
        c.len() > 0,
        all_ascii_digits(l),
        all_ascii_digits(c),
        digits_value(l) <= u32::MAX,
        digits_value(c) <= u32::MAX,
    ensures
        line_col_fields(p + seq![':'] + l + seq![':'] + c + seq![':'] + rest) == Some(
            (digits_value(l) as u32, digits_value(c) as u32, rest),
        ),
{
    let s = p + seq![':'] + l + seq![':'] + c + seq![':'] + rest;
    let n = p.len() as int;
    let a = n + 1;
    let bb = a + l.len() + 1;
    assert(s[n] == ':');
    assert forall|k: int| 0 <= k < l.len() implies s[a + k] == l[k] by {}
    assert forall|k: int| 0 <= k < c.len() implies s[bb + k] == c[k] by {}
    assert(s[a + l.len()] == ':');
    assert(s[bb + c.len()] == ':');
    let t = s.subrange(n + 1, s.len() as int);
    assert forall|k: int| 0 <= k < l.len() implies is_ascii_digit(t[k]) by {
        assert(t[k] == s[a + k]);
        assert(is_ascii_digit(l[k]));
    }
    assert(t[l.len() as int] == ':');
    lemma_digit_run(t, 0, l.len() as int);
    assert forall|k: int| l.len() + 1 <= k < l.len() + 1 + c.len() implies is_ascii_digit(t[k]) by {
        assert(t[k] == s[n + 1 + k]);
        assert(s[n + 1 + k] == c[k - l.len() - 1]);
        assert(is_ascii_digit(c[k - l.len() - 1]));
    }
    assert(t[l.len() + 1 + c.len() as int] == ':');
    lemma_digit_run(t, l.len() + 1 as int, c.len() as int);
    assert(line_col_suffix(t));
    assert forall|k: int| 0 <= k < n implies s[k] != ':' by {
        assert(s[k] == p[k]);
    }
    lemma_path_split_at(s, 0, n);
    assert forall|k: int| a <= k < a + l.len() implies is_ascii_digit(s[k]) by {
        assert(s[k] == l[k - a]);
        assert(is_ascii_digit(l[k - a]));
    }
    lemma_digit_run(s, a, l.len() as int);
    assert forall|k: int| bb <= k < bb + c.len() implies is_ascii_digit(s[k]) by {
        assert(s[k] == c[k - bb]);
        assert(is_ascii_digit(c[k - bb]));
    }
    lemma_digit_run(s, bb, c.len() as int);
    assert(s.subrange(a, a + l.len()) =~= l);
    assert(s.subrange(bb, bb + c.len()) =~= c);
    assert(s.subrange(bb + c.len() + 1, s.len() as int) =~= rest);
    lemma_numeral_value(l);
    lemma_numeral_value(c);
}

/// A warning line `P:L:C:S:M` (a path `P` without colons that starts with
/// neither whitespace nor `;`, decimal numerals `L` and `C`, a severity field
/// `S` that trims to `warning`, and a message `M`) is one warning diagnostic on
/// line `L - 1` and column `C - 1` (saturating at zero), whatever the lengths
/// of the numerals, with the trimmed message.
pub proof fn law_warning_line(p: Seq<char>, l: Seq<char>, c: Seq<char>, sev: Seq<char>, m: Seq<char>)
    requires
        p.len() > 0,
        !is_unicode_ws(p[0]),
        p[0] != ';',
        forall|k: int| 0 <= k < p.len() ==> p[k] != ':',
        l.len() > 0,
        c.len() > 0,
        all_ascii_digits(l),
        all_ascii_digits(c),
        digits_value(l) <= u32::MAX,
        digits_value(c) <= u32::MAX,
        forall|k: int| 0 <= k < sev.len() ==> sev[k] != ':',
        trim_chars(sev) == "warning"@,
    ensures
        parse_line_spec(p + seq![':'] + l + seq![':'] + c + seq![':'] + sev + seq![':'] + m)
            == Some(
            RawDiagV {
                line: (if digits_value(l) == 0 {
                    0
                } else {
                    digits_value(l) - 1
                }) as u32,
                col: (if digits_value(c) == 0 {
                    0
                } else {
                    digits_value(c) - 1
                }) as u32,
                severity: DiagnosticSeverity::WARNING,
                message: trim_chars(m),
            },
        ),
{
    let rest = sev + seq![':'] + m;
    let line = p + seq![':'] + l + seq![':'] + c + seq![':'] + sev + seq![':'] + m;
    assert(line =~= p + seq![':'] + l + seq![':'] + c + seq![':'] + rest);
    law_line_and_column_fields(p, l, c, rest);
    assert(line[0] == p[0]);
    assert(lead_ws(line, 0) == 0);
    assert(trim_start_chars(line) =~= line);
    assert(semicolons(line, 0) == 0);
    assert(line.subrange(0, line.len() as int) =~= line);
    lemma_index_of_from(rest, 0, ':');
    let k = index_of_from(rest, 0, ':');
    assert(rest[sev.len() as int] == ':');
    if k < sev.len() {
        assert(rest[k] == sev[k]);
    }
    assert(k == sev.len());
    assert(rest.subrange(0, k) =~= sev);
    assert(rest.subrange(k + 1, rest.len() as int) =~= m);
}

} // verus!
