//! Reading the parts of an NMEA sentence line: its talker and mnemonic, and
//! its comma-separated data fields.
//!
//! The talker and mnemonic are taken by character position. The fields are
//! cut at ASCII delimiters, which is seen through the line's UTF-8 bytes.

use vstd::prelude::*;
use vstd::string::StringSliceAdditionalSpecFns;
use vstd::string::StrSliceExecFns;
use vstd::utf8::*;
use crate::text::{cut_at_ascii, find_byte, first_index_of, lemma_first_index_of};

verus! {

broadcast use encode_utf8_valid_utf8, encode_utf8_decode_utf8;

/// `$` or `!`, the characters that open an NMEA sentence.
pub open spec fn is_start_mark(c: u8) -> bool {
    c == 0x24 || c == 0x21
}

/// A line that opens with `$` or `!` and holds at least six characters: a
/// start mark, a two-letter talker and a three-letter mnemonic.
pub open spec fn is_tagged(s: Seq<char>) -> bool {
    s.len() >= 6 && (s[0] == '$' || s[0] == '!')
}

/// Labels a line with its talker (characters 1 to 3, such as `GP`) and its
/// mnemonic (characters 3 to 6, such as `RMC`), or with `??` and `UNK` when
/// the line does not open with `$` or `!` or has fewer than six characters.
/// The checksum is not looked at.
pub fn split_talker_sentence(s: &str) -> (parts: (String, String))
    ensures
        is_tagged(s@) ==> parts.0@ == s@.subrange(1, 3) && parts.1@ == s@.subrange(3, 6),
        !is_tagged(s@) ==> parts.0@ == "??"@ && parts.1@ == "UNK"@,
{
    let n = s.unicode_len();
    if n >= 6 {
        let first = s.get_char(0);
        if first == '$' || first == '!' {
            let talker = s.substring_char(1, 3);
            let sentence = s.substring_char(3, 6);
            return (talker.to_owned(), sentence.to_owned());
        }
    }
    ("??".to_owned(), "UNK".to_owned())
}

/// The line up to its first `*` (where the checksum starts), or all of it.
pub open spec fn before_checksum(s: Seq<u8>) -> Seq<u8> {
    s.take(first_index_of(s, 0x2a) as int)
}

/// `s` without the `$` and `!` characters that it opens with.
pub open spec fn trim_start_marks(s: Seq<u8>) -> Seq<u8>
    decreases s.len(),
{
    if s.len() > 0 && is_start_mark(s[0]) {
        trim_start_marks(s.drop_first())
    } else {
        s
    }
}

/// The pieces of `s` between commas, in order: one more piece than `s`
/// has commas, empty pieces included.
pub open spec fn split_fields(s: Seq<u8>) -> Seq<Seq<u8>>
    decreases s.len(),
{
    let k = first_index_of(s, 0x2c) as int;
    if k >= s.len() {
        seq![s]
    } else {
        seq![s.take(k)] + split_fields(s.skip(k + 1))
    }
}

/// The part of a line that holds the address and the data: before the
/// checksum, without the opening marks.
pub open spec fn sentence_body(line: Seq<u8>) -> Seq<u8> {
    trim_start_marks(before_checksum(line))
}

/// The data fields of a sentence line: the pieces between commas of what
/// follows the first comma of its body. `None` when the body has no comma.
pub open spec fn sentence_fields(line: Seq<u8>) -> Option<Seq<Seq<u8>>> {
    let body = sentence_body(line);
    let k = first_index_of(body, 0x2c) as int;
    if k < body.len() {
        Some(split_fields(body.skip(k + 1)))
    } else {
        None
    }
}

/// The bytes of each text of `v`.
pub open spec fn str_bytes(v: Seq<&str>) -> Seq<Seq<u8>> {
    v.map_values(|f: &str| f.spec_bytes())
}

/// Dropping the opening marks is skipping the run of marks at the start.
proof fn lemma_trim_start_marks(s: Seq<u8>, i: int)
    requires
        0 <= i <= s.len(),
        forall|j: int| 0 <= j < i ==> is_start_mark(#[trigger] s[j]),
        i < s.len() ==> !is_start_mark(s[i]),
    ensures
        trim_start_marks(s) == s.skip(i),
    decreases i,
{
    if i == 0 {
        assert(s.skip(0) =~= s);
    } else {
        let t = s.drop_first();
        assert forall|j: int| 0 <= j < i - 1 implies is_start_mark(#[trigger] t[j]) by {
            assert(t[j] == s[j + 1]);
        }
        if i - 1 < t.len() {
            assert(t[i - 1] == s[i]);
        }
        lemma_trim_start_marks(t, i - 1);
        assert(t.skip(i - 1) =~= s.skip(i));
    }
}

/// Cuts a sentence line into its data fields: what follows the first comma,
/// up to the checksum, split at every comma. `None` when the line has no
/// comma before its checksum.
pub fn fields_after_first_comma<'a>(line: &'a str) -> (fields: Option<Vec<&'a str>>)
    ensures
        match sentence_fields(line.spec_bytes()) {
            Some(fs) => fields is Some && str_bytes(fields->0@) == fs,
            None => fields is None,
        },
{
    let ghost b = line.spec_bytes();
    let n = line.as_bytes().len();
    let star = find_byte(line, 0x2a);
    proof {
        lemma_first_index_of(b, 0x2a);
    }
    let body = if star < n {
        cut_at_ascii(line, star).0
    } else {
        assert(b.take(n as int) =~= b);
        line
    };
    let ghost bb = body.spec_bytes();
    assert(bb == before_checksum(b));
    let body_bytes = body.as_bytes();
    let m = body_bytes.len();
    let mut i: usize = 0;
    while i < m && (body_bytes[i] == 0x24 || body_bytes[i] == 0x21)
        invariant
            i <= m,
            m == bb.len(),
            body_bytes@ == bb,
            forall|j: int| 0 <= j < i ==> is_start_mark(#[trigger] bb[j]),
        decreases m - i,
    {
        i = i + 1;
    }
    proof {
        lemma_trim_start_marks(bb, i as int);
    }
    let trimmed = if i > 0 {
        cut_at_ascii(body, i - 1).1
    } else {
        assert(bb.skip(0) =~= bb);
        body
    };
    let ghost tb = trimmed.spec_bytes();
    assert(tb == sentence_body(b));
    let comma = find_byte(trimmed, 0x2c);
    proof {
        lemma_first_index_of(tb, 0x2c);
    }
    if comma >= trimmed.as_bytes().len() {
        return None;
    }
    let rest = cut_at_ascii(trimmed, comma).1;
    let ghost r = rest.spec_bytes();
    let mut fields: Vec<&'a str> = Vec::new();
    let mut cur = rest;
    assert(str_bytes(fields@) + split_fields(r) =~= split_fields(r));
    loop
        invariant_except_break
            split_fields(r) == str_bytes(fields@) + split_fields(cur.spec_bytes()),
        ensures
            split_fields(r) == str_bytes(fields@),
        decreases cur.spec_bytes().len(),
    {
        let ghost cb = cur.spec_bytes();
        let ghost prev = str_bytes(fields@);
        let j = find_byte(cur, 0x2c);
        proof {
            lemma_first_index_of(cb, 0x2c);
        }
        if j >= cur.as_bytes().len() {
            fields.push(cur);
            assert(str_bytes(fields@) =~= prev + seq![cb]);
            break;
        }
        let (piece, after) = cut_at_ascii(cur, j);
        fields.push(piece);
        assert(str_bytes(fields@) =~= prev + seq![cb.take(j as int)]);
        cur = after;
    }
    Some(fields)
}

/// The pieces joined again with commas between them.
pub open spec fn join_fields(fs: Seq<Seq<u8>>) -> Seq<u8>
    decreases fs.len(),
{
    if fs.len() == 0 {
        seq![]
    } else if fs.len() == 1 {
        fs[0]
    } else {
        fs[0] + seq![0x2cu8] + join_fields(fs.drop_first())
    }
}

/// Splitting at commas loses nothing: there is at least one piece, no
/// piece holds a comma, and joining the pieces with commas gives back the
/// text.
pub proof fn lemma_split_fields_rejoin(s: Seq<u8>)
    ensures
        split_fields(s).len() >= 1,
        forall|i: int, j: int|
            0 <= i < split_fields(s).len() && 0 <= j < split_fields(s)[i].len() ==> #[trigger] split_fields(
                s,
            )[i][j] != 0x2c,
        join_fields(split_fields(s)) == s,
    decreases s.len(),
{
    lemma_first_index_of(s, 0x2c);
    let k = first_index_of(s, 0x2c) as int;
    if k < s.len() {
        let rest = s.skip(k + 1);
        lemma_split_fields_rejoin(rest);
        let fs = split_fields(s);
        assert(fs.drop_first() =~= split_fields(rest));
        assert forall|i: int, j: int|
            0 <= i < fs.len() && 0 <= j < fs[i].len() implies #[trigger] fs[i][j] != 0x2c by {
            if i == 0 {
                assert(fs[0][j] == s[j]);
            } else {
                assert(fs[i] == split_fields(rest)[i - 1]);
            }
        }
        assert(s.take(k) + seq![0x2cu8] + rest =~= s);
    } else {
        assert(s.take(s.len() as int) =~= s);
    }
}

/// A line is tagged exactly when it opens with `$` or `!` and has at least
/// six characters.
pub proof fn lemma_tagged_lines(s: Seq<char>)
    ensures
        s.len() >= 6 && s[0] == '$' ==> is_tagged(s),
        s.len() >= 6 && s[0] == '!' ==> is_tagged(s),
        s.len() < 6 ==> !is_tagged(s),
        s.len() > 0 && s[0] != '$' && s[0] != '!' ==> !is_tagged(s),
{
}

/// No field of a sentence holds a comma or a `*`, and a line has fields
/// exactly when what precedes its checksum holds a comma.
pub proof fn lemma_fields_hold_no_delimiters(line: Seq<u8>)
    ensures
        sentence_fields(line) matches Some(fs) ==> forall|i: int, j: int|
            0 <= i < fs.len() && 0 <= j < fs[i].len() ==> #[trigger] fs[i][j] != 0x2c && fs[i][j]
                != 0x2a,
        sentence_fields(line) is None ==> forall|i: int|
            0 <= i < sentence_body(line).len() ==> #[trigger] sentence_body(line)[i] != 0x2c,
{
    let c = before_checksum(line);
    lemma_first_index_of(line, 0x2a);
    assert forall|i: int| 0 <= i < c.len() implies #[trigger] c[i] != 0x2a by {
        assert(c[i] == line[i]);
    }
    let body = sentence_body(line);
    lemma_trim_start_marks_suffix(c);
    lemma_first_index_of(body, 0x2c);
    let k = first_index_of(body, 0x2c) as int;
    if k < body.len() {
        let r = body.skip(k + 1);
        lemma_split_fields_rejoin(r);
        lemma_split_fields_pieces(r);
        let fs = split_fields(r);
        assert forall|i: int, j: int| 0 <= i < fs.len() && 0 <= j < fs[i].len() implies #[trigger] fs[i][j]
            != 0x2c && fs[i][j] != 0x2a by {
            let m = choose|m: int| 0 <= m < r.len() && r[m] == fs[i][j];
            assert(r[m] == body[m + k + 1]);
        }
    }
}

/// Dropping the opening marks leaves a suffix of the text.
proof fn lemma_trim_start_marks_suffix(s: Seq<u8>)
    ensures
        exists|d: int| 0 <= d <= s.len() && trim_start_marks(s) == s.skip(d),
    decreases s.len(),
{
    if s.len() > 0 && is_start_mark(s[0]) {
        lemma_trim_start_marks_suffix(s.drop_first());
        let d = choose|d: int| 0 <= d <= s.drop_first().len() && trim_start_marks(s.drop_first())
            == s.drop_first().skip(d);
        assert(s.drop_first().skip(d) =~= s.skip(d + 1));
    } else {
        assert(s.skip(0) =~= s);
    }
}

/// Every byte of a piece comes from the text that was split.
proof fn lemma_split_fields_pieces(s: Seq<u8>)
    ensures
        forall|i: int, j: int|
            0 <= i < split_fields(s).len() && 0 <= j < split_fields(s)[i].len() ==> exists|m: int|
                0 <= m < s.len() && s[m] == #[trigger] split_fields(s)[i][j],
    decreases s.len(),
{
    lemma_first_index_of(s, 0x2c);
    let k = first_index_of(s, 0x2c) as int;
    let fs = split_fields(s);
    if k < s.len() {
        let rest = s.skip(k + 1);
        lemma_split_fields_pieces(rest);
        assert forall|i: int, j: int| 0 <= i < fs.len() && 0 <= j < fs[i].len() implies exists|m: int|
            0 <= m < s.len() && s[m] == #[trigger] fs[i][j] by {
            if i == 0 {
                assert(fs[0][j] == s[j]);
            } else {
                assert(fs[i] == split_fields(rest)[i - 1]);
                let m = choose|m: int| 0 <= m < rest.len() && rest[m] == split_fields(rest)[i - 1][j];
                assert(rest[m] == s[m + k + 1]);
            }
        }
    } else {
        assert forall|i: int, j: int| 0 <= i < fs.len() && 0 <= j < fs[i].len() implies exists|m: int|
            0 <= m < s.len() && s[m] == #[trigger] fs[i][j] by {
            assert(fs[i] == s);
            assert(s[j] == fs[i][j]);
        }
    }
}

} // verus!
