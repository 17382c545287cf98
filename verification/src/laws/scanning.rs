//! Laws of the tokens of a manifest.
use crate::ascii;
use crate::text;
use crate::toml_scan;
use crate::toml_scan::{Lex, ParsedStr, TomlStr};
use vstd::prelude::*;
use vstd::utf8::*;

verus! {

/// Whether a byte separates tokens: white space or a comma.
pub open spec fn separator(b: u8) -> bool {
    let c = b as char;
    c == ' ' || c == '\t' || c == '\r' || c == '\n' || c == ','
}

/// Outside strings and comments, a quote opens a string and `#` a comment. A comment lasts up to the
/// end of its line. A string lasts up to its own quote; in double quotes, a backslash hides the byte
/// behind it, whatever it is.
pub proof fn law_strings_and_comments(b: u8, delim: u8, hidden: u8)
    requires
        delim as char == '"' || delim as char == '\'',
    ensures
        b as char == '"' || b as char == '\'' ==> toml_scan::lex_step(Lex::Code, b) == (Lex::Quoted {
            delim: b,
            escaped: false,
        }),
        b as char == '#' ==> toml_scan::lex_step(Lex::Code, b) == Lex::Comment,
        b as char != '"' && b as char != '\'' && b as char != '#' ==> toml_scan::lex_step(
            Lex::Code,
            b,
        ) == Lex::Code,
        toml_scan::lex_step(Lex::Comment, b) == if b as char == '\n' {
            Lex::Code
        } else {
            Lex::Comment
        },
        ({
            let inside = Lex::Quoted { delim, escaped: false };
            &&& toml_scan::lex_step(inside, delim) == Lex::Code
            &&& b != delim && (b as char != '\\' || delim as char == '\'') ==> toml_scan::lex_step(
                inside,
                b,
            ) == inside
            &&& b as char == '\\' && delim as char == '"' ==> toml_scan::lex_step(
                toml_scan::lex_step(inside, b),
                hidden,
            ) == inside && !(toml_scan::lex_step(inside, b) is Code) && !(toml_scan::lex_step(
                inside,
                b,
            ) is Comment)
        }),
{
}

/// The comment of a line starts at a `#` that is neither in a string nor in front of another such `#`,
/// and what is left without it is all that stands before it.
pub proof fn law_line_without_its_comment(b: Seq<u8>)
    ensures
        ({
            let left = toml_scan::uncommented(b);
            &&& left.len() <= b.len()
            &&& left == b.subrange(0, left.len() as int)
            &&& forall|k: int|
                0 <= k < left.len() ==> !(#[trigger] toml_scan::lex_at(b, 0, k) is Code
                    && b[k] as char == '#')
            &&& left.len() < b.len() ==> toml_scan::lex_at(b, 0, left.len() as int) is Code
                && b[left.len() as int] as char == '#'
        }),
{
    toml_scan::lemma_comment_from(b, 0, Lex::Code);
    toml_scan::law_comment_start(b);
    assert(toml_scan::uncommented(b) =~= b.subrange(0, toml_scan::comment_start(b)));
}

/// Whether byte `k` is in a comment: a `#` stands before it, and not before `from`, with no line feed
/// in between.
pub open spec fn commented(t: Seq<u8>, from: int, k: int) -> bool {
    exists|j: int| #[trigger] opens_comment(t, from, j, k)
}

/// Whether the `#` at `j`, which is not before `from`, opens a comment that reaches up to `k`.
pub open spec fn opens_comment(t: Seq<u8>, from: int, j: int, k: int) -> bool {
    &&& from <= j < k
    &&& t[j] as char == '#'
    &&& forall|m: int| j <= m < k ==> #[trigger] t[m] as char != '\n'
}

/// Skipping stops at the first byte that neither separates tokens nor belongs to a comment.
pub proof fn law_trivia_is_skipped(t: Seq<u8>, i: int, end: int)
    requires
        0 <= i <= end <= t.len(),
    ensures
        ({
            let e = toml_scan::trivia_end(t, i, end, false);
            &&& i <= e <= end
            &&& forall|k: int|
                i <= k < e ==> separator(#[trigger] t[k]) || t[k] as char == '#' || commented(
                    t,
                    i,
                    k,
                )
            &&& e < end ==> !separator(t[e]) && t[e] as char != '#' && !commented(t, i, e)
        }),
{
    lemma_trivia(t, i, i, end);
}

proof fn lemma_comment_goes_on(t: Seq<u8>, from: int, k: int)
    requires
        0 <= from <= k < t.len(),
    ensures
        commented(t, from, k + 1) <==> (commented(t, from, k) || t[k] as char == '#')
            && t[k] as char != '\n',
{
    if commented(t, from, k + 1) {
        let j = choose|j: int| #[trigger] opens_comment(t, from, j, k + 1);
        if j < k {
            assert(opens_comment(t, from, j, k));
        }
        assert(t[k] as char != '\n');
    }
    if commented(t, from, k) && t[k] as char != '\n' {
        let j = choose|j: int| #[trigger] opens_comment(t, from, j, k);
        assert(opens_comment(t, from, j, k + 1));
    }
    if t[k] as char == '#' {
        assert(opens_comment(t, from, k, k + 1));
    }
}

proof fn lemma_trivia(t: Seq<u8>, from: int, i: int, end: int)
    requires
        0 <= from <= i <= end <= t.len(),
    ensures
        ({
            let e = toml_scan::trivia_end(t, i, end, commented(t, from, i));
            &&& i <= e <= end
            &&& forall|k: int|
                i <= k < e ==> separator(#[trigger] t[k]) || t[k] as char == '#' || commented(
                    t,
                    from,
                    k,
                )
            &&& e < end ==> !separator(t[e]) && t[e] as char != '#' && !commented(t, from, e)
        }),
    decreases end - i,
{
    if i < end {
        lemma_comment_goes_on(t, from, i);
        if commented(t, from, i) || separator(t[i]) || t[i] as char == '#' {
            lemma_trivia(t, from, i + 1, end);
        }
    }
}

/// A bare key is the longest run of bytes of crate names from its start on; there is none where that
/// run is empty.
pub proof fn law_bare_key(t: Seq<u8>, i: int, end: int)
    requires
        0 <= i <= end <= t.len(),
    ensures
        match toml_scan::bare_key(t, i, end) {
            Some((key, n)) => {
                &&& i < n <= end
                &&& ascii::crate_bytes(t.subrange(i, n))
                &&& n < end ==> !ascii::crate_byte(t[n])
                &&& key.len() == n - i
                &&& forall|k: int| 0 <= k < key.len() ==> #[trigger] key[k] == t[i + k] as char
            },
            None => i == end || !ascii::crate_byte(t[i]),
        },
{
    toml_scan::lemma_key_end(t, i, end);
    toml_scan::lemma_key_end_stops(t, i, end);
    let n = toml_scan::key_end(t, i, end);
    let part = t.subrange(i, n);
    assert forall|k: int| 0 <= k < part.len() implies #[trigger] part[k] < 0x80 && ascii::crate_byte(
        part[k],
    ) by {
        assert(ascii::crate_byte(t[i + k]));
    }
    text::lemma_ascii_decode(part);
}

/// A string starts at a quote and at nothing else.
pub proof fn law_string_starts_at_a_quote(t: Seq<u8>, i: int, end: int)
    requires
        0 <= i,
        end <= t.len(),
    ensures
        toml_scan::toml_str(t, i, end) is Some <==> i < end && (t[i] as char == '"' || t[i] as char
            == '\''),
        toml_scan::toml_str(t, i, end) matches Some(s) ==> s.start == i + 1,
{
}

/// A string without a backslash, and each string in single quotes, ends at the next quote of its own
/// kind, or at `end` where there is none, and stands for what is between. What follows it is right
/// behind the quote.
pub proof fn law_string_without_escapes(t: Seq<u8>, i: int, close: int, end: int)
    requires
        0 <= i < close <= end <= t.len(),
        t[i] as char == '"' || t[i] as char == '\'',
        forall|k: int| i < k < close ==> #[trigger] t[k] != t[i],
        t[i] as char == '"' ==> forall|k: int| i < k < close ==> #[trigger] t[k] as char != '\\',
        close < end ==> t[close] == t[i],
    ensures
        toml_scan::toml_str(t, i, end) matches Some(s) && {
            &&& s.start == i + 1
            &&& s.end == close
            &&& s.next == if close < end {
                close + 1
            } else {
                end
            }
            &&& s.value.len() == close - i - 1
            &&& forall|k: int| 0 <= k < s.value.len() ==> #[trigger] s.value[k] == t[i + 1 + k] as char
        },
{
    lemma_string_without_escapes(t, i + 1, close, end, t[i]);
}

proof fn lemma_string_without_escapes(t: Seq<u8>, i: int, close: int, end: int, delim: u8)
    requires
        0 <= i <= close <= end <= t.len(),
        delim as char == '"' || delim as char == '\'',
        forall|k: int| i <= k < close ==> #[trigger] t[k] != delim,
        delim as char == '"' ==> forall|k: int| i <= k < close ==> #[trigger] t[k] as char != '\\',
        close < end ==> t[close] == delim,
    ensures
        ({
            let s = toml_scan::str_from(t, i, end, delim, false);
            &&& s.1 == close
            &&& s.2 == if close < end {
                close + 1
            } else {
                end
            }
            &&& s.0.len() == close - i
            &&& forall|k: int| 0 <= k < s.0.len() ==> #[trigger] s.0[k] == t[i + k] as char
        }),
    decreases close - i,
{
    if i < close {
        lemma_string_without_escapes(t, i + 1, close, end, delim);
        let rest = toml_scan::str_from(t, i + 1, end, delim, false);
        let s = toml_scan::str_from(t, i, end, delim, false);
        assert forall|k: int| 0 <= k < s.0.len() implies #[trigger] s.0[k] == t[i + k] as char by {
            if k > 0 {
                assert(s.0[k] == rest.0[k - 1]);
            }
        }
    }
}

/// In double quotes, a backslash is dropped from the text, and the two bytes behind it are taken as
/// they are; in front of `end` there may be fewer.
pub proof fn law_escapes_in_strings(t: Seq<u8>, i: int, end: int)
    requires
        0 <= i < end <= t.len(),
        t[i] as char == '\\',
    ensures
        ({
            let quote = 0x22u8;
            let s = toml_scan::str_from(t, i, end, quote, false);
            &&& i + 1 == end ==> s == (Seq::<char>::empty(), end, end)
            &&& i + 2 == end ==> s == (seq![t[i + 1] as char], end, end)
            &&& i + 2 < end ==> {
                let rest = toml_scan::str_from(t, i + 3, end, quote, false);
                s == (seq![t[i + 1] as char, t[i + 2] as char] + rest.0, rest.1, rest.2)
            }
        }),
{
    reveal_with_fuel(toml_scan::str_from, 3);
    let s = toml_scan::str_from(t, i, end, 0x22u8, false);
    if i + 2 == end {
        assert(s.0 =~= seq![t[i + 1] as char]);
    } else if i + 2 < end {
        let rest = toml_scan::str_from(t, i + 3, end, 0x22u8, false);
        assert(s.0 =~= seq![t[i + 1] as char, t[i + 2] as char] + rest.0);
    }
}

/// Within a string, each byte that is no backslash and not the closing quote is one character of the
/// text, in front of the text that follows it.
pub proof fn law_characters_of_strings(t: Seq<u8>, i: int, end: int, delim: u8)
    requires
        0 <= i < end <= t.len(),
        delim as char == '"' || delim as char == '\'',
        t[i] != delim,
        delim as char == '"' ==> t[i] as char != '\\',
    ensures
        ({
            let s = toml_scan::str_from(t, i, end, delim, false);
            let rest = toml_scan::str_from(t, i + 1, end, delim, false);
            s == (seq![t[i] as char] + rest.0, rest.1, rest.2)
        }),
{
}

/// A string ends at its closing quote, and what follows it is right behind; where none comes, it ends
/// at `end`.
pub proof fn law_closing_quote(t: Seq<u8>, i: int, end: int, delim: u8)
    requires
        0 <= i <= end <= t.len(),
        delim as char == '"' || delim as char == '\'',
    ensures
        i < end && t[i] == delim ==> toml_scan::str_from(t, i, end, delim, false) == (
            Seq::<char>::empty(),
            i,
            i + 1,
        ),
        i == end ==> toml_scan::str_from(t, i, end, delim, false) == (Seq::<char>::empty(), end, end),
{
}

/// What a string is as a whole is what it is from behind its first quote on.
pub proof fn law_string_from_its_quote(t: Seq<u8>, i: int, end: int)
    requires
        0 <= i < end <= t.len(),
        t[i] as char == '"' || t[i] as char == '\'',
    ensures
        ({
            let s = toml_scan::str_from(t, i + 1, end, t[i], false);
            toml_scan::toml_str(t, i, end) == Some(
                (TomlStr { value: s.0, start: i + 1, end: s.1, next: s.2 }),
            )
        }),
{
}

/// Behind the value at `i` comes what is behind its closing quote, bracket or brace; behind a plain
/// value comes its comma or closing brace, or the end of the line where a comment follows it.
pub proof fn law_end_of_a_value(t: Seq<u8>, i: int, end: int)
    requires
        0 <= i,
        end <= t.len(),
    ensures
        i >= end ==> toml_scan::value_end(t, i, end) == end,
        i < end ==> ({
            let e = toml_scan::value_end(t, i, end);
            let c = t[i] as char;
            &&& i <= e <= end
            &&& toml_scan::toml_str(t, i, end) matches Some(s) ==> e == s.next
            &&& c == '[' ==> match toml_scan::matching(t, i, t[i], 0x5du8, end) {
                Some(m) => e == m + 1,
                None => e == end,
            }
            &&& c == '{' ==> match toml_scan::matching(t, i, t[i], 0x7du8, end) {
                Some(m) => e == m + 1,
                None => e == end,
            }
            &&& c != '"' && c != '\'' && c != '[' && c != '{' ==> plain_value(t, i, e, end)
        }),
{
    if i < end {
        toml_scan::lemma_value_end(t, i, end);
    }
    let c = t[i] as char;
    if i < end && c != '"' && c != '\'' && c != '[' && c != '{' {
        lemma_plain_value(t, i, end);
    }
}

/// Whether a plain value that starts at `i` is followed by what is at `e`: by the first comma or
/// closing brace, or, where a `#` comes before those, by the first line feed behind it; by `end` where
/// there is none.
pub open spec fn plain_value(t: Seq<u8>, i: int, e: int, end: int) -> bool {
    exists|stop: int| #[trigger] plain_stop(t, i, stop, end) && {
        if stop < end && t[stop] as char == '#' {
            &&& stop < e <= end
            &&& forall|k: int| stop <= k < e ==> #[trigger] t[k] as char != '\n'
            &&& e < end ==> t[e] as char == '\n'
        } else {
            e == stop
        }
    }
}

/// Whether the first comma, closing brace or `#` at or after `i` is at `stop`.
pub open spec fn plain_stop(t: Seq<u8>, i: int, stop: int, end: int) -> bool {
    &&& i <= stop <= end
    &&& forall|k: int|
        i <= k < stop ==> {
            let c = #[trigger] t[k] as char;
            c != ',' && c != '}' && c != '#'
        }
    &&& stop < end ==> {
        let c = t[stop] as char;
        c == ',' || c == '}' || c == '#'
    }
}

proof fn lemma_plain_value(t: Seq<u8>, i: int, end: int)
    requires
        0 <= i <= end <= t.len(),
    ensures
        plain_value(t, i, toml_scan::plain_end(t, i, end), end),
    decreases end - i,
{
    let e = toml_scan::plain_end(t, i, end);
    if i == end {
        assert(plain_stop(t, i, end, end));
    } else {
        let c = t[i] as char;
        if c == ',' || c == '}' {
            assert(plain_stop(t, i, i, end));
        } else if c == '#' {
            lemma_line_feed(t, i, end);
            assert(plain_stop(t, i, i, end));
        } else {
            lemma_plain_value(t, i + 1, end);
            let stop = choose|stop: int| #[trigger] plain_stop(t, i + 1, stop, end) && {
                if stop < end && t[stop] as char == '#' {
                    &&& stop < e <= end
                    &&& forall|k: int| stop <= k < e ==> #[trigger] t[k] as char != '\n'
                    &&& e < end ==> t[e] as char == '\n'
                } else {
                    e == stop
                }
            };
            assert(plain_stop(t, i, stop, end));
        }
    }
}

proof fn lemma_line_feed(t: Seq<u8>, i: int, end: int)
    requires
        0 <= i <= end <= t.len(),
    ensures
        ({
            let e = toml_scan::lf_or_end(t, i, end);
            &&& i <= e <= end
            &&& i < end && t[i] as char != '\n' ==> i < e
            &&& forall|k: int| i <= k < e ==> #[trigger] t[k] as char != '\n'
            &&& e < end ==> t[e] as char == '\n'
        }),
    decreases end - i,
{
    if i < end && t[i] != 0x0a {
        lemma_line_feed(t, i + 1, end);
    }
}

/// What was read of a string is what the string says.
pub proof fn law_string_that_was_read(s: ParsedStr)
    ensures
        s@.value == s.value@,
        s@.start == s.content_start,
        s@.end == s.content_end,
        s@.next == s.next_offset,
{
}

} // verus!
