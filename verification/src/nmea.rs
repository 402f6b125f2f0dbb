//! Splitting a received buffer into NMEA sentence lines.
//!
//! The bytes are decoded leniently as UTF-8 (NMEA is ASCII; stray bytes
//! become replacement characters), then cut at every line terminator:
//! `\r\n`, a lone `\r` and a lone `\n` each end one line. The lines are
//! returned without their terminators. Checksums and sentence formats are
//! not looked at here.

use vstd::prelude::*;
use vstd::utf8::*;

verus! {

/// The text that `String::from_utf8_lossy` makes of `bytes`.
pub uninterp spec fn lossy_text(bytes: Seq<u8>) -> Seq<char>;

/// Calls `String::from_utf8_lossy` on `buf` and returns the characters of
/// the text it makes. Claimed: the result is `lossy_text(buf@)`, a function
/// of the bytes alone, and where the bytes are valid UTF-8 it is their
/// decoding (std documents that valid input is returned as it is). How
/// invalid sequences are replaced is not stated.
#[verifier::external_body]
fn decode_lossy(buf: &[u8]) -> (chars: Vec<char>)
    ensures
        chars@ == lossy_text(buf@),
        valid_utf8(buf@) ==> chars@ == decode_utf8(buf@),
{
    String::from_utf8_lossy(buf).chars().collect()
}

/// `String::push` appends one character.
pub assume_specification[ String::push ](string: &mut String, ch: char)
    ensures
        final(string)@ == old(string)@.push(ch),
;

/// A character that ends a line (alone or as part of `\r\n`).
pub open spec fn is_line_break(c: char) -> bool {
    c == '\r' || c == '\n'
}

/// Index of the first line-break character of `s`, or `s.len()` when there is none.
pub open spec fn first_break(s: Seq<char>) -> nat
    decreases s.len(),
{
    if s.len() == 0 {
        0
    } else if is_line_break(s[0]) {
        0
    } else {
        1 + first_break(s.drop_first())
    }
}

/// Number of characters of the terminator that starts at `k`: two for
/// `\r\n`, one for a lone `\r` or `\n`.
pub open spec fn break_width(s: Seq<char>, k: int) -> int {
    if s[k] == '\r' && k + 1 < s.len() && s[k + 1] == '\n' {
        2
    } else {
        1
    }
}

/// The lines of `s`: the text before the first terminator, then the lines
/// of what follows that terminator. A text that ends with a terminator has
/// no empty last line, and the empty text has no line.
pub open spec fn text_lines(s: Seq<char>) -> Seq<Seq<char>>
    decreases s.len(),
{
    if s.len() == 0 {
        seq![]
    } else {
        let k = first_break(s) as int;
        if k >= s.len() {
            seq![s]
        } else {
            seq![s.take(k)] + text_lines(s.skip(k + break_width(s, k)))
        }
    }
}

/// The views of a vector of strings.
pub open spec fn string_views(v: Seq<String>) -> Seq<Seq<char>> {
    v.map_values(|l: String| l@)
}

/// `first_break` is the index of the first break, or the length.
pub proof fn lemma_first_break(s: Seq<char>)
    ensures
        first_break(s) <= s.len(),
        forall|i: int| 0 <= i < first_break(s) ==> !is_line_break(#[trigger] s[i]),
        first_break(s) < s.len() ==> is_line_break(s[first_break(s) as int]),
    decreases s.len(),
{
    if s.len() > 0 && !is_line_break(s[0]) {
        lemma_first_break(s.drop_first());
        assert forall|i: int| 0 <= i < first_break(s) implies !is_line_break(#[trigger] s[i]) by {
            if i > 0 {
                assert(s[i] == s.drop_first()[i - 1]);
            }
        }
    }
}

/// The line terminators the splitter accepts: `\r\n`, `\r` and `\n`.
pub open spec fn is_terminator(t: Seq<char>) -> bool {
    t == seq!['\r', '\n'] || t == seq!['\r'] || t == seq!['\n']
}

/// `first_break` is the only index that has no break before it and a
/// break (or the end) at it.
proof fn lemma_first_break_unique(s: Seq<char>, k: int)
    requires
        0 <= k <= s.len(),
        forall|i: int| 0 <= i < k ==> !is_line_break(#[trigger] s[i]),
        k < s.len() ==> is_line_break(s[k]),
    ensures
        first_break(s) == k,
{
    lemma_first_break(s);
    let fb = first_break(s) as int;
    if fb < k {
        assert(!is_line_break(s[fb]));
    }
    if k < fb {
        assert(!is_line_break(s[k]));
    }
}

/// No line that the splitter returns holds a line-break character.
pub proof fn lemma_lines_have_no_breaks(s: Seq<char>)
    ensures
        forall|i: int, j: int|
            0 <= i < text_lines(s).len() && 0 <= j < text_lines(s)[i].len() ==> !is_line_break(
                #[trigger] text_lines(s)[i][j],
            ),
    decreases s.len(),
{
    if s.len() > 0 {
        lemma_first_break(s);
        let k = first_break(s) as int;
        if k < s.len() {
            let rest = s.skip(k + break_width(s, k));
            lemma_lines_have_no_breaks(rest);
            assert forall|i: int, j: int|
                0 <= i < text_lines(s).len() && 0 <= j < text_lines(s)[i].len() implies !is_line_break(
                #[trigger] text_lines(s)[i][j],
            ) by {
                if i == 0 {
                    assert(text_lines(s)[0] == s.take(k));
                    assert(text_lines(s)[0][j] == s[j]);
                } else {
                    assert(text_lines(s)[i] == text_lines(rest)[i - 1]);
                }
            }
        } else {
            assert forall|i: int, j: int|
                0 <= i < text_lines(s).len() && 0 <= j < text_lines(s)[i].len() implies !is_line_break(
                #[trigger] text_lines(s)[i][j],
            ) by {
                assert(text_lines(s)[i] == s);
            }
        }
    }
}

/// A non-empty text without a line break is one line.
pub proof fn lemma_unterminated_text_is_one_line(a: Seq<char>)
    requires
        a.len() > 0,
        forall|i: int| 0 <= i < a.len() ==> !is_line_break(#[trigger] a[i]),
    ensures
        text_lines(a) == seq![a],
{
    lemma_first_break_unique(a, a.len() as int);
}

/// Each terminator ends exactly one line: a line `a` followed by `\r\n`,
/// `\r` or `\n` and then by the text `b` gives `a` and then the lines of
/// `b`. (A lone `\r` followed by `\n` is the terminator `\r\n` instead.)
pub proof fn lemma_terminator_ends_one_line(a: Seq<char>, t: Seq<char>, b: Seq<char>)
    requires
        forall|i: int| 0 <= i < a.len() ==> !is_line_break(#[trigger] a[i]),
        is_terminator(t),
        t == seq!['\r'] && b.len() > 0 ==> b[0] != '\n',
    ensures
        text_lines(a + t + b) == seq![a] + text_lines(b),
{
    let s = a + t + b;
    let k = a.len() as int;
    assert(s[k] == t[0]);
    assert forall|i: int| 0 <= i < k implies !is_line_break(#[trigger] s[i]) by {
        assert(s[i] == a[i]);
    }
    lemma_first_break_unique(s, k);
    if t.len() == 2 {
        assert(s[k + 1] == t[1]);
    } else if b.len() > 0 {
        assert(s[k + 1] == b[0]);
    }
    assert(break_width(s, k) == t.len());
    assert(s.take(k) =~= a);
    assert(s.skip(k + t.len()) =~= b);
}

/// The text with every terminator (`\r\n`, a lone `\r`, a lone `\n`)
/// written as a single `\n`.
pub open spec fn normalize_breaks(s: Seq<char>) -> Seq<char>
    decreases s.len(),
{
    if s.len() == 0 {
        seq![]
    } else if s.len() >= 2 && s[0] == '\r' && s[1] == '\n' {
        seq!['\n'] + normalize_breaks(s.skip(2))
    } else if is_line_break(s[0]) {
        seq!['\n'] + normalize_breaks(s.drop_first())
    } else {
        seq![s[0]] + normalize_breaks(s.drop_first())
    }
}

/// The lines joined again with `\n` between them.
pub open spec fn join_lines(ls: Seq<Seq<char>>) -> Seq<char>
    decreases ls.len(),
{
    if ls.len() == 0 {
        seq![]
    } else if ls.len() == 1 {
        ls[0]
    } else {
        ls[0] + seq!['\n'] + join_lines(ls.drop_first())
    }
}

/// The text ends with a line-break character.
pub open spec fn ends_with_break(s: Seq<char>) -> bool {
    s.len() > 0 && is_line_break(s.last())
}

/// A text without line breaks is left as it is by the normalization, and
/// a text that opens with one normalizes piece by piece.
proof fn lemma_normalize_prefix(a: Seq<char>, x: Seq<char>)
    requires
        forall|i: int| 0 <= i < a.len() ==> !is_line_break(#[trigger] a[i]),
    ensures
        normalize_breaks(a + x) == a + normalize_breaks(x),
    decreases a.len(),
{
    if a.len() > 0 {
        assert(!is_line_break(a[0]));
        let t = a.drop_first();
        assert forall|i: int| 0 <= i < t.len() implies !is_line_break(#[trigger] t[i]) by {
            assert(t[i] == a[i + 1]);
        }
        lemma_normalize_prefix(t, x);
        assert((a + x).drop_first() =~= t + x);
        assert((a + x)[0] == a[0]);
        assert(a + normalize_breaks(x) =~= seq![a[0]] + (t + normalize_breaks(x)));
    } else {
        assert(a + x =~= x);
        assert(a + normalize_breaks(x) =~= normalize_breaks(x));
    }
}

/// The terminator at the first break normalizes to one `\n`.
proof fn lemma_normalize_terminator(s: Seq<char>, k: int)
    requires
        0 <= k < s.len(),
        is_line_break(s[k]),
    ensures
        normalize_breaks(s.subrange(k, k + break_width(s, k)) + s.skip(k + break_width(s, k)))
            == seq!['\n'] + normalize_breaks(s.skip(k + break_width(s, k))),
{
    let w = break_width(s, k);
    let b = s.skip(k + w);
    let tb = s.subrange(k, k + w) + b;
    if w == 2 {
        assert(tb[0] == '\r' && tb[1] == '\n');
        assert(tb.skip(2) =~= b);
    } else {
        assert(tb[0] == s[k]);
        if tb.len() >= 2 {
            assert(tb[1] == s[k + 1]);
        }
        assert(tb.drop_first() =~= b);
    }
}

/// Splitting into lines and joining them with `\n` gives the normalized
/// text, but for the terminator that ends it, if any: the lines lose
/// nothing but the form of their terminators.
#[verifier::spinoff_prover]
pub proof fn lemma_lines_rejoin(s: Seq<char>)
    ensures
        normalize_breaks(s) == join_lines(text_lines(s)) + (if ends_with_break(s) {
            seq!['\n']
        } else {
            seq![]
        }),
    decreases s.len(),
{
    if s.len() == 0 {
        assert(normalize_breaks(s) =~= seq![]);
    } else {
        lemma_first_break(s);
        let k = first_break(s) as int;
        let a = s.take(k);
        assert forall|i: int| 0 <= i < a.len() implies !is_line_break(#[trigger] a[i]) by {
            assert(a[i] == s[i]);
        }
        if k >= s.len() {
            assert(a =~= s);
            lemma_normalize_prefix(a, seq![]);
            assert(a + seq![] =~= a);
            assert(!is_line_break(s[s.len() - 1]));
            assert(normalize_breaks(seq![]) =~= seq![]);
        } else {
            let w = break_width(s, k);
            let t = s.subrange(k, k + w);
            let b = s.skip(k + w);
            let tb = t + b;
            assert(s =~= a + tb);
            assert(normalize_breaks(s) == a + (seq!['\n'] + normalize_breaks(b))) by {
                lemma_normalize_prefix(a, tb);
                lemma_normalize_terminator(s, k);
            }
            lemma_lines_rejoin(b);
            assert(text_lines(s) == seq![a] + text_lines(b));
            if b.len() == 0 {
                assert(text_lines(b) =~= seq![]);
                assert(seq![a] + text_lines(b) =~= seq![a]);
                assert(s.last() == s[k + w - 1]);
                assert(normalize_breaks(b) =~= seq![]);
                assert(a + (seq!['\n'] + seq![]) =~= a + seq!['\n']);
            } else {
                let lb = text_lines(b);
                assert(lb.len() > 0);
                let ls = seq![a] + lb;
                assert(ls.drop_first() =~= lb);
                assert(ls[0] == a);
                assert(s.last() == b.last());
                let e: Seq<char> = if ends_with_break(b) {
                    seq!['\n']
                } else {
                    seq![]
                };
                assert(a + (seq!['\n'] + (join_lines(lb) + e)) =~= a + seq!['\n'] + join_lines(lb) + e);
            }
        }
    }
}

/// Splitting is compositional: a text `a` that does not end with a line
/// break, followed by a terminator and a text `b`, splits into the lines of
/// `a` and then the lines of `b`. (A lone `\r` followed by `\n` is the
/// terminator `\r\n` instead.)
pub proof fn lemma_lines_concat(a: Seq<char>, t: Seq<char>, b: Seq<char>)
    requires
        a.len() > 0,
        !is_line_break(a.last()),
        is_terminator(t),
        t == seq!['\r'] && b.len() > 0 ==> b[0] != '\n',
    ensures
        text_lines(a + t + b) == text_lines(a) + text_lines(b),
    decreases a.len(),
{
    lemma_first_break(a);
    let k = first_break(a) as int;
    if k >= a.len() {
        lemma_terminator_ends_one_line(a, t, b);
        lemma_unterminated_text_is_one_line(a);
    } else {
        let s = a + t + b;
        assert forall|i: int| 0 <= i < k implies !is_line_break(#[trigger] s[i]) by {
            assert(s[i] == a[i]);
        }
        assert(s[k] == a[k]);
        lemma_first_break_unique(s, k);
        if k + 1 < a.len() {
            assert(s[k + 1] == a[k + 1]);
        }
        let w = break_width(a, k);
        assert(break_width(s, k) == w);
        assert(k + w < a.len()) by {
            if k + w >= a.len() {
                assert(a.last() == a[k + w - 1]);
            }
        }
        let rest = a.skip(k + w);
        assert(rest.last() == a.last());
        lemma_lines_concat(rest, t, b);
        assert(s.skip(k + w) =~= rest + t + b);
        assert(s.take(k) =~= a.take(k));
        assert(seq![a.take(k)] + (text_lines(rest) + text_lines(b)) =~= (seq![a.take(k)]
            + text_lines(rest)) + text_lines(b));
    }
}

/// Splits a received buffer into its lines, without terminators.
///
/// The buffer is decoded leniently as UTF-8; `\r\n`, `\r` and `\n` each end
/// one line.
pub fn split_crlf_lines(buf: &[u8]) -> (lines: Vec<String>)
    ensures
        string_views(lines@) == text_lines(lossy_text(buf@)),
        valid_utf8(buf@) ==> string_views(lines@) == text_lines(decode_utf8(buf@)),
{
    let chars = decode_lossy(buf);
    let n = chars.len();
    let mut lines: Vec<String> = Vec::new();
    let mut pos: usize = 0;
    assert(chars@.skip(0) =~= chars@);
    while pos < n
        invariant
            n == chars@.len(),
            pos <= n,
            text_lines(chars@) == string_views(lines@) + text_lines(chars@.skip(pos as int)),
        decreases n - pos,
    {
        let ghost t = chars@.skip(pos as int);
        let mut cur = String::new();
        let mut j: usize = pos;
        while j < n && !(chars[j] == '\r' || chars[j] == '\n')
            invariant
                pos <= j <= n,
                n == chars@.len(),
                t == chars@.skip(pos as int),
                cur@ == chars@.subrange(pos as int, j as int),
                forall|i: int| pos <= i < j ==> !is_line_break(#[trigger] chars@[i]),
            decreases n - j,
        {
            cur.push(chars[j]);
            j = j + 1;
            assert(cur@ =~= chars@.subrange(pos as int, j as int));
        }
        let ghost k = j - pos;
        proof {
            lemma_first_break(t);
            let fb = first_break(t) as int;
            if fb < k {
                assert(t[fb] == chars@[pos + fb]);
            }
            if k < fb {
                assert(t[k] == chars@[j as int]);
            }
            assert(fb == k);
            assert(t.take(k) =~= cur@);
        }
        let ghost prev = string_views(lines@);
        lines.push(cur);
        assert(string_views(lines@) =~= prev + seq![t.take(k)]);
        if j == n {
            assert(t =~= cur@);
            pos = n;
            assert(chars@.skip(n as int) =~= Seq::<char>::empty());
            assert(text_lines(t) == seq![t]);
        } else {
            let w: usize = if chars[j] == '\r' && j + 1 < n && chars[j + 1] == '\n' {
                2
            } else {
                1
            };
            assert(w == break_width(t, k));
            pos = j + w;
            assert(t.skip(k + w) =~= chars@.skip(pos as int));
        }
    }
    assert(chars@.skip(n as int) =~= Seq::<char>::empty());
    assert(string_views(lines@) + seq![] =~= string_views(lines@));
    lines
}

/// The lines that are not empty, in order.
pub open spec fn nonempty_lines(ls: Seq<Seq<char>>) -> Seq<Seq<char>>
    decreases ls.len(),
{
    if ls.len() == 0 {
        seq![]
    } else {
        let rest = nonempty_lines(ls.drop_last());
        if ls.last().len() > 0 {
            rest.push(ls.last())
        } else {
            rest
        }
    }
}

/// The lines of a received buffer that are shown and published: its
/// lines without the empty ones.
pub fn captured_lines(buf: &[u8]) -> (lines: Vec<String>)
    ensures
        string_views(lines@) == nonempty_lines(text_lines(lossy_text(buf@))),
{
    let all = split_crlf_lines(buf);
    let ghost ls = string_views(all@);
    let mut lines: Vec<String> = Vec::new();
    let mut i: usize = 0;
    while i < all.len()
        invariant
            i <= all.len(),
            ls == string_views(all@),
            ls == text_lines(lossy_text(buf@)),
            string_views(lines@) == nonempty_lines(ls.take(i as int)),
        decreases all.len() - i,
    {
        let ghost prev = string_views(lines@);
        assert(ls.take(i + 1).drop_last() =~= ls.take(i as int));
        assert(ls.take(i + 1).last() == all@[i as int]@);
        if !all[i].as_str().is_empty() {
            lines.push(all[i].clone());
            assert(string_views(lines@) =~= prev.push(all@[i as int]@));
        } else {
            assert(string_views(lines@) =~= prev);
        }
        i = i + 1;
    }
    assert(ls.take(all.len() as int) =~= ls);
    lines
}

/// Dropping the empty lines keeps every other line, in order, whatever it
/// holds: it is the filter that keeps exactly the non-empty lines.
pub proof fn lemma_nonempty_lines_filter(ls: Seq<Seq<char>>)
    ensures
        nonempty_lines(ls) == ls.filter(|l: Seq<char>| l.len() > 0),
    decreases ls.len(),
{
    reveal(Seq::filter);
    if ls.len() > 0 {
        lemma_nonempty_lines_filter(ls.drop_last());
    }
}

/// Lines none of which is empty are all kept, in order.
pub proof fn lemma_nonempty_lines_keep_all(ls: Seq<Seq<char>>)
    requires
        forall|i: int| 0 <= i < ls.len() ==> #[trigger] ls[i].len() > 0,
    ensures
        nonempty_lines(ls) == ls,
    decreases ls.len(),
{
    if ls.len() > 0 {
        let d = ls.drop_last();
        assert forall|i: int| 0 <= i < d.len() implies #[trigger] d[i].len() > 0 by {
            assert(d[i] == ls[i]);
        }
        lemma_nonempty_lines_keep_all(d);
        assert(ls.last().len() > 0);
        assert(d.push(ls.last()) =~= ls);
    }
}

} // verus!
