//! UTF-8 helpers shared by the scanners: decoding a byte range back to a
//! `String`, and the facts that make such a range valid UTF-8.
use vstd::prelude::*;
use vstd::string::StringSliceAdditionalSpecFns;
use vstd::utf8::*;

verus! {

broadcast use {encode_utf8_valid_utf8, encode_utf8_decode_utf8};

/// Trusted: `std::str::from_utf8`. It succeeds exactly when the bytes are valid
/// UTF-8 (as vstd's `valid_utf8` defines it), and the string it returns consists
/// of exactly those bytes.
#[verifier::external_body]
pub(crate) fn str_from_utf8(bytes: &[u8]) -> (res: Option<&str>)
    ensures
        res is Some <==> valid_utf8(bytes@),
        res matches Some(s) ==> s.spec_bytes() == bytes@,
{
    std::str::from_utf8(bytes).ok()
}

/// Trusted: `String::push`, which appends one character to the string.
#[verifier::external_body]
pub(crate) fn string_push(s: &mut String, c: char)
    ensures
        final(s)@ == old(s)@.push(c),
{
    s.push(c);
}

/// Decode `bytes` into an owned `String`; `None` when they are not valid UTF-8.
pub fn utf8_string(bytes: &[u8]) -> (res: Option<String>)
    ensures
        res is Some <==> valid_utf8(bytes@),
        res matches Some(s) ==> s@ == decode_utf8(bytes@),
{
    match str_from_utf8(bytes) {
        Some(s) => {
            let owned = s.to_owned();
            proof {
                assert(decode_utf8(encode_utf8(s@)) == s@);
            }
            Some(owned)
        },
        None => None,
    }
}

/// A byte below 0x80 is a whole character, so in valid UTF-8 the byte after it
/// starts a new character.
pub proof fn lemma_after_ascii(b: Seq<u8>, i: int)
    requires
        valid_utf8(b),
        0 < i < b.len(),
        b[i - 1] < 0x80,
    ensures
        !is_continuation_byte(b[i]),
{
    is_char_boundary_iff_not_is_continuation_byte(b, i - 1);
    valid_utf8_split(b, i - 1);
    let c = b.subrange(i - 1, b.len() as int);
    assert(c[0] == b[i - 1]);
    assert(pop_first_scalar(c) =~= b.subrange(i, b.len() as int));
    let rest = b.subrange(i, b.len() as int);
    assert(valid_utf8(c));
    assert(length_of_first_scalar(c) == 1);
    assert(valid_utf8(rest));
    assert(valid_first_scalar(rest));
    assert(rest[0] == b[i]);
}

/// A range of valid UTF-8 whose ends fall on character starts (or the end of
/// the sequence) is valid UTF-8 itself.
pub proof fn lemma_valid_subrange(b: Seq<u8>, i: int, j: int)
    requires
        valid_utf8(b),
        0 <= i <= j <= b.len(),
        i == b.len() || !is_continuation_byte(b[i]),
        j == b.len() || !is_continuation_byte(b[j]),
    ensures
        valid_utf8(b.subrange(i, j)),
{
    if i == j {
        assert(b.subrange(i, j).len() == 0);
    } else {
        is_char_boundary_iff_not_is_continuation_byte(b, i);
        valid_utf8_split(b, i);
        let s1 = b.subrange(i, b.len() as int);
        if j == b.len() {
            assert(s1 =~= b.subrange(i, j));
        } else {
            assert(s1[j - i] == b[j]);
            is_char_boundary_iff_not_is_continuation_byte(s1, j - i);
            valid_utf8_split(s1, j - i);
            assert(s1.subrange(0, j - i) =~= b.subrange(i, j));
        }
    }
}

} // verus!
