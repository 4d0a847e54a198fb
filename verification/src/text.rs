//! Conversions between raw bytes and text.

use vstd::prelude::*;
use vstd::utf8::{decode_utf8, encode_utf8, valid_utf8};
use vstd::string::StrSliceExecFns;
use crate::bytes::bytes_eq;
use crate::scan::lemma_first_index;

verus! {

/// The text that lossy decoding makes of bytes that are not valid UTF-8:
/// the text in which each malformed sequence is replaced by U+FFFD.
pub uninterp spec fn replaced_text(bytes: Seq<u8>) -> Seq<char>;

/// The text that lossy UTF-8 decoding makes of `bytes`: the decoded
/// characters where the bytes are valid UTF-8, and the text with
/// replacement characters otherwise.
pub open spec fn lossy_text(bytes: Seq<u8>) -> Seq<char> {
    if valid_utf8(bytes) {
        decode_utf8(bytes)
    } else {
        replaced_text(bytes)
    }
}

/// Decodes `bytes` with `String::from_utf8_lossy`.
///
/// Trusted: valid UTF-8 gives exactly the characters it encodes; for other
/// bytes the result depends on the bytes alone, and is named
/// `replaced_text`.
#[verifier::external_body]
pub(crate) fn text_of(bytes: &[u8]) -> (text: String)
    ensures
        valid_utf8(bytes@) ==> text@ == decode_utf8(bytes@),
        !valid_utf8(bytes@) ==> text@ == replaced_text(bytes@),
{
    String::from_utf8_lossy(bytes).into_owned()
}

/// The characters that ASCII bytes write, one for each byte.
pub open spec fn ascii_text(bytes: Seq<u8>) -> Seq<char> {
    Seq::new(bytes.len(), |i: int| bytes[i] as char)
}

/// Bytes that are all ASCII decode to the characters they write: nothing
/// is replaced or merged.
pub proof fn lemma_ascii_text(bytes: Seq<u8>)
    requires
        forall|i: int| 0 <= i < bytes.len() ==> bytes[i] < 128,
    ensures
        lossy_text(bytes) == ascii_text(bytes),
{
    let chars = ascii_text(bytes);
    assert(vstd::utf8::is_ascii_chars(chars));
    vstd::utf8::is_ascii_chars_encode_utf8(chars);
    assert(encode_utf8(chars) =~= bytes);
    vstd::utf8::encode_utf8_valid_utf8(chars);
    vstd::utf8::encode_utf8_decode_utf8(chars);
}

/// The lower-case form of `text`, as Unicode defines it.
pub uninterp spec fn lowercased(text: Seq<char>) -> Seq<char>;

/// Lower-cases `text` with `str::to_lowercase`.
///
/// Trusted: the result depends on the text alone, and is named
/// `lowercased`.
#[verifier::external_body]
pub(crate) fn to_lowercase(text: &str) -> (lower: String)
    ensures
        lower@ == lowercased(text@),
{
    text.to_lowercase()
}

/// Whether `needle` stands somewhere in `bytes`.
pub open spec fn occurs(needle: Seq<u8>, bytes: Seq<u8>) -> bool {
    exists|at: int| stands_at(needle, bytes, at)
}

/// Whether `needle` stands in `bytes` at `at`.
pub open spec fn stands_at(needle: Seq<u8>, bytes: Seq<u8>, at: int) -> bool {
    0 <= at && at + needle.len() <= bytes.len() && bytes.subrange(at, at + needle.len()) == needle
}

/// Whether the bytes of `needle` stand somewhere in the bytes of `text`.
pub fn text_contains(text: &str, needle: &str) -> (found: bool)
    ensures
        found == occurs(encode_utf8(needle@), encode_utf8(text@)),
{
    let bytes: &[u8] = text.as_bytes();
    let wanted: &[u8] = needle.as_bytes();
    if wanted.len() > bytes.len() {
        assert forall|at: int| !stands_at(wanted@, bytes@, at) by {}
        return false;
    }
    let last: usize = bytes.len() - wanted.len();
    let mut at: usize = 0;
    loop
        invariant
            bytes@ == encode_utf8(text@),
            wanted@ == encode_utf8(needle@),
            last + wanted.len() == bytes.len(),
            at <= last,
            forall|before: int| 0 <= before < at ==> !stands_at(wanted@, bytes@, before),
        decreases last - at,
    {
        if bytes_eq(&bytes[at..at + wanted.len()], wanted) {
            assert(stands_at(wanted@, bytes@, at as int));
            return true;
        }
        if at == last {
            assert forall|any: int| !stands_at(wanted@, bytes@, any) by {}
            return false;
        }
        at += 1;
    }
}

/// Whether two pieces of text hold the same characters.
pub fn text_eq(a: &str, b: &str) -> (same: bool)
    ensures
        same == (a@ == b@),
{
    proof {
        vstd::utf8::encode_utf8_decode_utf8(a@);
        vstd::utf8::encode_utf8_decode_utf8(b@);
    }
    bytes_eq(a.as_bytes(), b.as_bytes())
}

/// Scans `text` for the first occurrence of `needle`; the index counts
/// characters.
pub fn char_position(text: &str, needle: char) -> (found: Option<usize>)
    ensures
        match found {
            Some(i) => i < text@.len() && text@.index_of_first(needle) == Some(i as int),
            None => text@.index_of_first(needle) is None,
        },
{
    let len: usize = text.unicode_len();
    let mut i: usize = 0;
    for c in it: text.chars()
        invariant
            len == text@.len(),
            i == it.index(),
            it.seq() == text@,
            forall|j: int| 0 <= j < i ==> text@[j] != needle,
    {
        if c == needle {
            proof {
                lemma_first_index(text@, needle, Some(i as int));
            }
            return Some(i);
        }
        i = i + 1;
    }
    proof {
        lemma_first_index(text@, needle, None);
    }
    None
}

/// The pieces of `text` between the occurrences of `sep`: one more piece
/// than there are separators, some of them possibly empty.
pub open spec fn split(text: Seq<char>, sep: char) -> Seq<Seq<char>>
    decreases text.len(),
{
    match text.index_of_first(sep) {
        Some(at) => if 0 <= at < text.len() {
            seq![text.take(at)] + split(text.skip(at + 1), sep)
        } else {
            seq![text]
        },
        None => seq![text],
    }
}

/// The character sequences that a list of text pieces holds.
pub open spec fn texts(pieces: Seq<&str>) -> Seq<Seq<char>> {
    Seq::new(pieces.len(), |i: int| pieces[i]@)
}

/// Where the first separator after `start` stands at `at`, the split of the
/// text from `start` is the piece up to `at` followed by the split of what
/// comes after it.
pub proof fn lemma_split_step(text: Seq<char>, sep: char, start: int, at: int)
    requires
        0 <= start <= at < text.len(),
        text[at] == sep,
        forall|j: int| start <= j < at ==> text[j] != sep,
    ensures
        split(text.skip(start), sep) == seq![text.subrange(start, at)] + split(
            text.skip(at + 1),
            sep,
        ),
{
    let rest = text.skip(start);
    lemma_first_index(rest, sep, Some(at - start));
    assert(rest.take(at - start) =~= text.subrange(start, at));
    assert(rest.skip(at - start + 1) =~= text.skip(at + 1));
}

/// Where no separator stands after `start`, the split of the text from
/// `start` is that text as one piece.
pub proof fn lemma_split_last(text: Seq<char>, sep: char, start: int)
    requires
        0 <= start <= text.len(),
        forall|j: int| start <= j < text.len() ==> text[j] != sep,
    ensures
        split(text.skip(start), sep) == seq![text.subrange(start, text.len() as int)],
{
    let rest = text.skip(start);
    lemma_first_index(rest, sep, None);
    assert(rest =~= text.subrange(start, text.len() as int));
}

/// Splits `text` at every `sep`.
pub fn split_text<'a>(text: &'a str, sep: char) -> (pieces: Vec<&'a str>)
    ensures
        texts(pieces@) == split(text@, sep),
{
    let len: usize = text.unicode_len();
    let mut pieces: Vec<&'a str> = Vec::new();
    let mut start: usize = 0;
    let mut i: usize = 0;
    assert(text@.skip(0) =~= text@);
    assert(texts(pieces@) + split(text@.skip(0), sep) =~= split(text@, sep));
    for c in it: text.chars()
        invariant
            len == text@.len(),
            i == it.index(),
            it.seq() == text@,
            start <= i <= len,
            forall|j: int| start <= j < i ==> text@[j] != sep,
            texts(pieces@) + split(text@.skip(start as int), sep) == split(text@, sep),
    {
        if c == sep {
            let piece: &'a str = text.substring_char(start, i);
            proof {
                lemma_split_step(text@, sep, start as int, i as int);
                assert(texts(pieces@.push(piece)) =~= texts(pieces@) + seq![piece@]);
                assert(texts(pieces@.push(piece)) + split(text@.skip(i + 1), sep) =~= texts(
                    pieces@,
                ) + split(text@.skip(start as int), sep));
            }
            pieces.push(piece);
            start = i + 1;
        }
        i = i + 1;
    }
    let piece: &'a str = text.substring_char(start, len);
    proof {
        lemma_split_last(text@, sep, start as int);
        assert(texts(pieces@.push(piece)) =~= texts(pieces@) + seq![piece@]);
    }
    pieces.push(piece);
    pieces
}

} // verus!
