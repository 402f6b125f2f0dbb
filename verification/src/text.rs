//! Byte-level views of text: cutting a `str` at ASCII delimiters, finding a
//! byte, and reading unsigned decimal numbers.
//!
//! A `str` is seen through its UTF-8 bytes (`spec_bytes`). Every ASCII byte
//! of valid UTF-8 stands for a character of its own, so the positions just
//! before and just after it are character boundaries and the text can be
//! cut there.

use vstd::prelude::*;
use vstd::string::StringSliceAdditionalSpecFns;
use vstd::utf8::*;

verus! {

broadcast use encode_utf8_valid_utf8, encode_utf8_decode_utf8;

/// An ASCII byte.
pub open spec fn is_ascii_byte(b: u8) -> bool {
    b < 0x80
}

/// The index of the first `c` in `s`, or `s.len()` when `s` holds none.
pub open spec fn first_index_of(s: Seq<u8>, c: u8) -> nat
    decreases s.len(),
{
    if s.len() == 0 {
        0
    } else if s[0] == c {
        0
    } else {
        1 + first_index_of(s.drop_first(), c)
    }
}

/// `first_index_of` is the first index of `c`, or the length.
pub proof fn lemma_first_index_of(s: Seq<u8>, c: u8)
    ensures
        first_index_of(s, c) <= s.len(),
        forall|i: int| 0 <= i < first_index_of(s, c) ==> #[trigger] s[i] != c,
        first_index_of(s, c) < s.len() ==> s[first_index_of(s, c) as int] == c,
    decreases s.len(),
{
    if s.len() > 0 && s[0] != c {
        lemma_first_index_of(s.drop_first(), c);
        assert forall|i: int| 0 <= i < first_index_of(s, c) implies #[trigger] s[i] != c by {
            if i > 0 {
                assert(s[i] == s.drop_first()[i - 1]);
            }
        }
    }
}

/// `first_index_of` is the only index with no `c` before it and `c` (or
/// the end) at it.
pub proof fn lemma_first_index_of_unique(s: Seq<u8>, c: u8, k: int)
    requires
        0 <= k <= s.len(),
        forall|i: int| 0 <= i < k ==> #[trigger] s[i] != c,
        k < s.len() ==> s[k] == c,
    ensures
        first_index_of(s, c) == k,
{
    lemma_first_index_of(s, c);
    let f = first_index_of(s, c) as int;
    if f < k {
        assert(s[f] != c);
    }
}

/// In valid UTF-8 a continuation byte never follows an ASCII byte.
proof fn lemma_continuation_follows_non_ascii(bytes: Seq<u8>, j: int)
    requires
        valid_utf8(bytes),
        0 < j < bytes.len(),
        is_continuation_byte(bytes[j]),
    ensures
        !is_ascii_byte(bytes[j - 1]),
    decreases bytes.len(),
{
    let l = length_of_first_scalar(bytes);
    let rest = pop_first_scalar(bytes);
    if j < l {
    } else if j == l {
        assert(rest[0] == bytes[j]);
    } else {
        assert(rest[j - l] == bytes[j]);
        lemma_continuation_follows_non_ascii(rest, j - l);
        assert(rest[j - l - 1] == bytes[j - 1]);
    }
}

/// The positions just before and just after an ASCII byte of valid UTF-8
/// are character boundaries.
pub proof fn lemma_ascii_boundaries(bytes: Seq<u8>, i: int)
    requires
        valid_utf8(bytes),
        0 <= i < bytes.len(),
        is_ascii_byte(bytes[i]),
    ensures
        is_char_boundary(bytes, i),
        is_char_boundary(bytes, i + 1),
{
    is_char_boundary_iff_not_is_continuation_byte(bytes, i);
    if i + 1 == bytes.len() {
        is_char_boundary_start_end_of_seq(bytes);
    } else {
        is_char_boundary_iff_not_is_continuation_byte(bytes, i + 1);
        if is_continuation_byte(bytes[i + 1]) {
            lemma_continuation_follows_non_ascii(bytes, i + 1);
        }
    }
}

/// Cuts `s` around the ASCII byte at `i`: the text before it and the text
/// after it.
pub fn cut_at_ascii<'a>(s: &'a str, i: usize) -> (parts: (&'a str, &'a str))
    requires
        i < s.spec_bytes().len(),
        is_ascii_byte(s.spec_bytes()[i as int]),
    ensures
        parts.0.spec_bytes() == s.spec_bytes().take(i as int),
        parts.1.spec_bytes() == s.spec_bytes().skip(i + 1),
{
    proof {
        lemma_ascii_boundaries(s.spec_bytes(), i as int);
    }
    let _n = s.as_bytes().len();
    let (before, _) = s.split_at(i);
    let (_, after) = s.split_at(i + 1);
    assert(before.spec_bytes() =~= s.spec_bytes().take(i as int));
    assert(after.spec_bytes() =~= s.spec_bytes().skip(i + 1));
    (before, after)
}

/// The index of the first byte `c` of `s`, or its byte length.
pub fn find_byte(s: &str, c: u8) -> (k: usize)
    ensures
        k == first_index_of(s.spec_bytes(), c),
{
    let bytes = s.as_bytes();
    let n = bytes.len();
    let mut k: usize = 0;
    while k < n && bytes[k] != c
        invariant
            k <= n,
            n == bytes@.len(),
            bytes@ == s.spec_bytes(),
            forall|i: int| 0 <= i < k ==> #[trigger] bytes@[i] != c,
        decreases n - k,
    {
        k = k + 1;
    }
    proof {
        lemma_first_index_of_unique(bytes@, c, k as int);
    }
    k
}

/// An ASCII decimal digit.
pub open spec fn is_digit(b: u8) -> bool {
    0x30 <= b <= 0x39
}

/// The value of a string of decimal digits.
pub open spec fn digits_value(s: Seq<u8>) -> nat
    decreases s.len(),
{
    if s.len() == 0 {
        0
    } else {
        digits_value(s.drop_last()) * 10 + (s.last() - 0x30) as nat
    }
}

/// The digits of an unsigned number text: all of it, or what follows a
/// leading `+`.
pub open spec fn unsigned_digits(s: Seq<u8>) -> Seq<u8> {
    if s.len() > 0 && s[0] == 0x2b {
        s.drop_first()
    } else {
        s
    }
}

/// Every byte of `d` is a decimal digit.
pub open spec fn all_digits(d: Seq<u8>) -> bool {
    forall|i: int| 0 <= i < d.len() ==> #[trigger] is_digit(d[i])
}

/// The number that `s` spells the way `str::parse` reads an unsigned
/// integer: an optional `+`, then one or more decimal digits (leading
/// zeros allowed, nothing else). `None` when `s` spells no number.
pub open spec fn unsigned_value(s: Seq<u8>) -> Option<nat> {
    let d = unsigned_digits(s);
    if d.len() > 0 && all_digits(d) {
        Some(digits_value(d))
    } else {
        None
    }
}

/// What `str::parse` gives for an unsigned integer type whose largest value
/// is `max`: the number, or `None` when the text spells none or it is too
/// large.
pub open spec fn parsed_unsigned(s: Seq<u8>, max: nat) -> Option<nat> {
    match unsigned_value(s) {
        Some(v) => if v <= max {
            Some(v)
        } else {
            None
        },
        None => None,
    }
}

/// The value of a prefix grows with the prefix.
proof fn lemma_digits_value_grows(s: Seq<u8>, i: int, j: int)
    requires
        0 <= i <= j <= s.len(),
        forall|k: int| 0 <= k < s.len() ==> #[trigger] is_digit(s[k]),
    ensures
        digits_value(s.take(i)) <= digits_value(s.take(j)),
    decreases j - i,
{
    if i < j {
        lemma_digits_value_grows(s, i, j - 1);
        assert(s.take(j).drop_last() =~= s.take(j - 1));
    }
}

/// Reads `s` the way `str::parse` reads an unsigned integer type whose
/// largest value is `max`.
pub fn parse_unsigned(s: &str, max: u64) -> (v: Option<u64>)
    requires
        max <= u32::MAX,
    ensures
        match parsed_unsigned(s.spec_bytes(), max as nat) {
            Some(n) => v == Some(n as u64),
            None => v is None,
        },
{
    let bytes = s.as_bytes();
    let n = bytes.len();
    let ghost b = bytes@;
    let start: usize = if n > 0 && bytes[0] == 0x2b {
        1
    } else {
        0
    };
    let ghost d = if n > 0 && bytes[0] == 0x2b {
        b.drop_first()
    } else {
        b
    };
    assert(d =~= b.skip(start as int));
    if start == n {
        return None;
    }
    let mut acc: u64 = 0;
    let mut too_large = false;
    let mut i: usize = start;
    while i < n
        invariant
            start <= i <= n,
            n == b.len(),
            bytes@ == b,
            d == b.skip(start as int),
            b == s.spec_bytes(),
            d == unsigned_digits(b),
            max <= u32::MAX,
            forall|k: int| start <= k < i ==> #[trigger] is_digit(b[k]),
            !too_large ==> acc == digits_value(d.take(i - start)) && acc <= max,
            too_large ==> digits_value(d.take(i - start)) > max,
        decreases n - i,
    {
        let c = bytes[i];
        if c < 0x30 || c > 0x39 {
            assert(!is_digit(d[i - start]));
            assert(!all_digits(d));
            return None;
        }
        let ghost j = i - start;
        assert(d.take(j + 1).drop_last() =~= d.take(j));
        assert(d[j] == c);
        if !too_large {
            let next = acc * 10 + (c - 0x30) as u64;
            if next > max {
                too_large = true;
            } else {
                acc = next;
            }
        }
        i = i + 1;
    }
    assert(d.take(n - start) =~= d);
    assert forall|k: int| 0 <= k < d.len() implies #[trigger] is_digit(d[k]) by {
        assert(d[k] == b[k + start]);
    }
    if too_large {
        None
    } else {
        Some(acc)
    }
}

} // verus!
