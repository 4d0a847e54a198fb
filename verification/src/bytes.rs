//! Byte-level helpers shared by the request parser.

use vstd::prelude::*;
use crate::scan::lemma_first_index;

verus! {

/// The byte that ends a token on the request line.
pub const SPACE: u8 = 32;

/// The byte that ends a line.
pub const CR: u8 = 13;

/// The byte that separates a header name from its value.
pub const COLON: u8 = 58;

/// Scans `bytes` for the first occurrence of `needle`.
pub fn position(bytes: &[u8], needle: u8) -> (found: Option<usize>)
    ensures
        match found {
            Some(i) => i < bytes.len() && bytes@.index_of_first(needle) == Some(i as int),
            None => bytes@.index_of_first(needle) is None,
        },
{
    let mut i: usize = 0;
    while i < bytes.len()
        invariant
            i <= bytes.len(),
            forall|j: int| 0 <= j < i ==> bytes@[j] != needle,
        decreases bytes.len() - i,
    {
        if bytes[i] == needle {
            proof {
                lemma_first_index(bytes@, needle, Some(i as int));
            }
            return Some(i);
        }
        i += 1;
    }
    proof {
        lemma_first_index(bytes@, needle, None);
    }
    None
}

/// Whether two byte strings hold the same bytes.
pub fn bytes_eq(a: &[u8], b: &[u8]) -> (same: bool)
    ensures
        same == (a@ == b@),
{
    if a.len() != b.len() {
        return false;
    }
    let mut i: usize = 0;
    while i < a.len()
        invariant
            a.len() == b.len(),
            i <= a.len(),
            forall|j: int| 0 <= j < i ==> a@[j] == b@[j],
        decreases a.len() - i,
    {
        if a[i] != b[i] {
            return false;
        }
        i += 1;
    }
    assert(a@ =~= b@);
    true
}

/// ASCII lower-casing of one byte: `A`..`Z` move to `a`..`z`, every other
/// byte stays.
pub open spec fn lower_byte(b: u8) -> u8 {
    if 65 <= b <= 90 {
        (b + 32) as u8
    } else {
        b
    }
}

/// ASCII lower-casing of a byte string.
pub open spec fn lower(bytes: Seq<u8>) -> Seq<u8> {
    Seq::new(bytes.len(), |i: int| lower_byte(bytes[i]))
}

/// Lower-cases one byte.
pub fn to_lower_byte(b: u8) -> (l: u8)
    ensures
        l == lower_byte(b),
{
    if 65 <= b && b <= 90 {
        b + 32
    } else {
        b
    }
}

/// Whether two byte strings are equal once ASCII letters are lower-cased.
pub fn eq_ignore_case(a: &[u8], b: &[u8]) -> (same: bool)
    ensures
        same == (lower(a@) == lower(b@)),
{
    if a.len() != b.len() {
        assert(lower(a@).len() != lower(b@).len());
        return false;
    }
    let mut i: usize = 0;
    while i < a.len()
        invariant
            a.len() == b.len(),
            i <= a.len(),
            forall|j: int| 0 <= j < i ==> lower_byte(a@[j]) == lower_byte(b@[j]),
        decreases a.len() - i,
    {
        if to_lower_byte(a[i]) != to_lower_byte(b[i]) {
            assert(lower(a@)[i as int] != lower(b@)[i as int]);
            return false;
        }
        i += 1;
    }
    assert(lower(a@) =~= lower(b@));
    true
}

/// The bytes that count as blank around a header value: space, tab, line
/// feed, form feed and carriage return.
pub open spec fn is_blank(b: u8) -> bool {
    b == 32 || b == 9 || b == 10 || b == 12 || b == 13
}

/// `bytes` without its leading blanks.
pub open spec fn trim_start(bytes: Seq<u8>) -> Seq<u8>
    decreases bytes.len(),
{
    if bytes.len() > 0 && is_blank(bytes[0]) {
        trim_start(bytes.drop_first())
    } else {
        bytes
    }
}

/// `bytes` without its trailing blanks.
pub open spec fn trim_end(bytes: Seq<u8>) -> Seq<u8>
    decreases bytes.len(),
{
    if bytes.len() > 0 && is_blank(bytes.last()) {
        trim_end(bytes.drop_last())
    } else {
        bytes
    }
}

/// `bytes` without leading and trailing blanks.
pub open spec fn trim(bytes: Seq<u8>) -> Seq<u8> {
    trim_end(trim_start(bytes))
}

/// Dropping `n` leading blanks does not change what `trim_start` gives.
pub proof fn lemma_trim_start_skip(bytes: Seq<u8>, n: int)
    requires
        0 <= n <= bytes.len(),
        forall|j: int| 0 <= j < n ==> is_blank(bytes[j]),
    ensures
        trim_start(bytes) == trim_start(bytes.skip(n)),
    decreases n,
{
    if n > 0 {
        assert(bytes.drop_first().skip(n - 1) =~= bytes.skip(n));
        lemma_trim_start_skip(bytes.drop_first(), n - 1);
    } else {
        assert(bytes.skip(0) =~= bytes);
    }
}

/// Dropping trailing blanks down to length `n` does not change what
/// `trim_end` gives.
pub proof fn lemma_trim_end_take(bytes: Seq<u8>, n: int)
    requires
        0 <= n <= bytes.len(),
        forall|j: int| n <= j < bytes.len() ==> is_blank(bytes[j]),
    ensures
        trim_end(bytes) == trim_end(bytes.take(n)),
    decreases bytes.len() - n,
{
    if n < bytes.len() {
        assert(bytes.drop_last().take(n) =~= bytes.take(n));
        lemma_trim_end_take(bytes.drop_last(), n);
    } else {
        assert(bytes.take(n) =~= bytes);
    }
}

/// Cuts the blanks off both ends of `bytes`.
pub fn trimmed(bytes: &[u8]) -> (inner: &[u8])
    ensures
        inner@ == trim(bytes@),
{
    let mut start: usize = 0;
    while start < bytes.len() && is_blank_byte(bytes[start])
        invariant
            start <= bytes.len(),
            forall|j: int| 0 <= j < start ==> is_blank(bytes@[j]),
        decreases bytes.len() - start,
    {
        start += 1;
    }
    let mut end: usize = bytes.len();
    while end > start && is_blank_byte(bytes[end - 1])
        invariant
            start <= end <= bytes.len(),
            forall|j: int| end <= j < bytes.len() ==> is_blank(bytes@[j]),
        decreases end,
    {
        end -= 1;
    }
    proof {
        let rest = bytes@.skip(start as int);
        lemma_trim_start_skip(bytes@, start as int);
        assert(trim_start(bytes@) == rest);
        lemma_trim_end_take(rest, end - start);
        assert(rest.take(end - start) =~= bytes@.subrange(start as int, end as int));
    }
    &bytes[start..end]
}

/// Whether `b` is one of the blank bytes.
pub fn is_blank_byte(b: u8) -> (blank: bool)
    ensures
        blank == is_blank(b),
{
    b == 32 || b == 9 || b == 10 || b == 12 || b == 13
}

/// Whether every byte of `bytes` is a decimal digit.
pub open spec fn all_digits(bytes: Seq<u8>) -> bool {
    forall|i: int| 0 <= i < bytes.len() ==> 48 <= #[trigger] bytes[i] <= 57
}

/// The number that a string of decimal digits writes.
pub open spec fn digits_value(digits: Seq<u8>) -> nat
    decreases digits.len(),
{
    if digits.len() == 0 {
        0
    } else {
        (digits_value(digits.drop_last()) * 10 + (digits.last() - 48)) as nat
    }
}

/// The number that `bytes` writes in decimal: one or more digits, with an
/// optional `+` in front and nothing else.
pub open spec fn decimal(bytes: Seq<u8>) -> Option<nat> {
    let digits = if bytes.len() > 0 && bytes[0] == 43 {
        bytes.drop_first()
    } else {
        bytes
    };
    if digits.len() > 0 && all_digits(digits) {
        Some(digits_value(digits))
    } else {
        None
    }
}

/// A string of digits writes at least what any of its prefixes writes.
pub proof fn lemma_digits_value_grows(digits: Seq<u8>, n: int)
    requires
        0 <= n <= digits.len(),
        all_digits(digits),
    ensures
        digits_value(digits.take(n)) <= digits_value(digits),
    decreases digits.len() - n,
{
    if n < digits.len() {
        assert(digits.drop_last().take(n) =~= digits.take(n));
        lemma_digits_value_grows(digits.drop_last(), n);
    } else {
        assert(digits.take(n) =~= digits);
    }
}

/// Reads a decimal number that fits a `usize`.
pub fn parse_decimal(bytes: &[u8]) -> (number: Option<usize>)
    ensures
        match number {
            Some(n) => decimal(bytes@) == Some(n as nat),
            None => decimal(bytes@) matches Some(n) ==> n > usize::MAX,
        },
{
    let start: usize = if bytes.len() > 0 && bytes[0] == 43 {
        1
    } else {
        0
    };
    if start == bytes.len() {
        return None;
    }
    let ghost digits = bytes@.skip(start as int);
    assert(digits =~= if start == 1 {
        bytes@.drop_first()
    } else {
        bytes@
    });
    let mut value: usize = 0;
    let mut i: usize = start;
    while i < bytes.len()
        invariant
            start <= i <= bytes.len(),
            digits == bytes@.skip(start as int),
            digits.len() > 0,
            decimal(bytes@) == if all_digits(digits) {
                Some(digits_value(digits))
            } else {
                None
            },
            all_digits(digits.take(i - start)),
            value == digits_value(digits.take(i - start)),
        decreases bytes.len() - i,
    {
        let b: u8 = bytes[i];
        assert(digits[i - start] == b);
        if b < 48 || b > 57 {
            return None;
        }
        let ghost longer = digits.take(i - start + 1);
        assert(longer.drop_last() =~= digits.take(i - start));
        assert(longer.last() == b);
        assert(all_digits(longer));
        proof {
            if all_digits(digits) {
                lemma_digits_value_grows(digits, i - start + 1);
            }
        }
        let tens: usize = match value.checked_mul(10) {
            Some(tens) => tens,
            None => {
                return None;
            },
        };
        value = match tens.checked_add((b - 48) as usize) {
            Some(sum) => sum,
            None => {
                return None;
            },
        };
        i += 1;
    }
    assert(digits.take(i - start) =~= digits);
    Some(value)
}

} // verus!
