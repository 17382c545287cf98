//! The tokens of a manifest: strings, comments, bare keys, brackets and values.
use crate::ascii;
use crate::ascii::{
    is_crate_char, is_str_delim, BACKSLASH, CLOSE_BRACE, CLOSE_BRACKET, COMMA, CR, DOUBLE_QUOTE, HASH,
    LF, OPEN_BRACE, OPEN_BRACKET, SPACE, TAB,
};
use crate::text;
use vstd::prelude::*;
use vstd::string::*;
use vstd::utf8::*;

verus! {

/// What a byte of a manifest is part of.
pub enum Lex {
    /// Neither a string nor a comment.
    Code,
    /// A string, with the quote that ends it, and whether a backslash stands right before.
    Quoted { delim: u8, escaped: bool },
    /// A comment, which the next line feed ends.
    Comment,
}

/// What the byte behind `b` is part of, where `b` is part of `s`.
pub open spec fn lex_step(s: Lex, b: u8) -> Lex {
    match s {
        Lex::Code => if ascii::str_delim(b) {
            Lex::Quoted { delim: b, escaped: false }
        } else if b == HASH {
            Lex::Comment
        } else {
            Lex::Code
        },
        Lex::Quoted { delim, escaped } => if delim == DOUBLE_QUOTE && b == BACKSLASH && !escaped {
            Lex::Quoted { delim, escaped: true }
        } else if b == delim && !escaped {
            Lex::Code
        } else {
            Lex::Quoted { delim, escaped: false }
        },
        Lex::Comment => if b == LF {
            Lex::Code
        } else {
            Lex::Comment
        },
    }
}

/// What byte `i` of `b` is part of, where byte `from` is outside strings and comments.
pub open spec fn lex_at(b: Seq<u8>, from: int, i: int) -> Lex
    decreases i - from,
{
    if i <= from {
        Lex::Code
    } else {
        lex_step(lex_at(b, from, i - 1), b[i - 1])
    }
}

/// The first `#` outside strings at or after `i`, where byte `i` is part of `s`; the length of
/// `b` where there is none.
pub open spec fn comment_from(b: Seq<u8>, i: int, s: Lex) -> int
    decreases b.len() - i,
{
    if i >= b.len() {
        b.len() as int
    } else if s is Code && b[i] == HASH {
        i
    } else {
        comment_from(b, i + 1, lex_step(s, b[i]))
    }
}

/// Where the comment of line `b` starts; the length of `b` where it has none.
pub open spec fn comment_start(b: Seq<u8>) -> int {
    comment_from(b, 0, Lex::Code)
}

/// Line `b` without its comment.
pub open spec fn uncommented(b: Seq<u8>) -> Seq<u8> {
    b.subrange(0, comment_start(b))
}

/// `comment_from` stays within bounds and points at a `#`.
pub proof fn lemma_comment_from(b: Seq<u8>, i: int, s: Lex)
    requires
        0 <= i <= b.len(),
    ensures
        i <= comment_from(b, i, s) <= b.len(),
        comment_from(b, i, s) < b.len() ==> b[comment_from(b, i, s)] == HASH,
    decreases b.len() - i,
{
    if i < b.len() && !(s is Code && b[i] == HASH) {
        lemma_comment_from(b, i + 1, lex_step(s, b[i]));
    }
}

/// A line without its comment is UTF-8 where the line is.
pub proof fn lemma_uncommented(b: Seq<u8>)
    requires
        valid_utf8(b),
    ensures
        0 <= comment_start(b) <= b.len(),
        is_char_boundary(b, comment_start(b)),
        valid_utf8(uncommented(b)),
{
    lemma_comment_from(b, 0, Lex::Code);
    is_char_boundary_start_end_of_seq(b);
    if comment_start(b) < b.len() {
        text::lemma_ascii_boundary(b, comment_start(b));
    }
    text::lemma_between_boundaries(b, 0, comment_start(b));
}

/// `line` up to its first `#` outside strings.
pub fn strip_comment(line: &str) -> (r: &str)
    ensures
        r.spec_bytes() == uncommented(line.spec_bytes()),
{
    let bytes = line.as_bytes();
    let mut in_str: bool = false;
    let mut delim: u8 = DOUBLE_QUOTE;
    let mut escaped: bool = false;
    let mut i: usize = 0;
    let ghost mut s: Lex = Lex::Code;
    proof {
        text::lemma_str_bytes(line);
        lemma_uncommented(bytes@);
        is_char_boundary_start_end_of_seq(bytes@);
    }
    while i < bytes.len()
        invariant
            i <= bytes@.len(),
            bytes@ == line.spec_bytes(),
            comment_from(bytes@, i as int, s) == comment_start(bytes@),
            s == if in_str {
                Lex::Quoted { delim, escaped }
            } else {
                Lex::Code
            },
            is_char_boundary(bytes@, comment_start(bytes@)),
            is_char_boundary(bytes@, 0),
        decreases bytes@.len() - i,
    {
        let b: u8 = bytes[i];
        proof {
            s = lex_step(s, b);
        }
        if in_str {
            if delim == DOUBLE_QUOTE && b == BACKSLASH && !escaped {
                escaped = true;
            } else {
                if b == delim && !escaped {
                    in_str = false;
                }
                escaped = false;
            }
        } else if is_str_delim(b) {
            in_str = true;
            delim = b;
            escaped = false;
        } else if b == HASH {
            return text::slice_str(line, 0, i);
        }
        i += 1;
    }
    assert(uncommented(bytes@) =~= bytes@);
    line
}

/// The first byte at or after `i`, and before `end`, that is neither space, tab, line ending, comma
/// nor part of a comment; `i` itself where it is not before `end`.
pub open spec fn trivia_end(t: Seq<u8>, i: int, end: int, in_comment: bool) -> int
    decreases end - i,
{
    if i >= end {
        i
    } else if in_comment {
        trivia_end(t, i + 1, end, t[i] != LF)
    } else if t[i] == SPACE || t[i] == TAB || t[i] == CR || t[i] == LF || t[i] == COMMA {
        trivia_end(t, i + 1, end, false)
    } else if t[i] == HASH {
        trivia_end(t, i + 1, end, true)
    } else {
        i
    }
}

/// `trivia_end` does not go back, and goes no further than `end`.
pub proof fn lemma_trivia_end(t: Seq<u8>, i: int, end: int, in_comment: bool)
    ensures
        i <= trivia_end(t, i, end, in_comment),
        i <= end ==> trivia_end(t, i, end, in_comment) <= end,
    decreases end - i,
{
    if i < end {
        if in_comment {
            lemma_trivia_end(t, i + 1, end, t[i] != LF);
        } else {
            lemma_trivia_end(t, i + 1, end, false);
            lemma_trivia_end(t, i + 1, end, true);
        }
    }
}

/// Skips white space, commas and comments.
pub fn skip_trivia(text: &[u8], cursor: usize, end: usize) -> (r: usize)
    requires
        end <= text@.len(),
    ensures
        r == trivia_end(text@, cursor as int, end as int, false),
{
    let mut i: usize = cursor;
    while i < end
        invariant
            end <= text@.len(),
            cursor <= i,
            trivia_end(text@, i as int, end as int, false) == trivia_end(
                text@,
                cursor as int,
                end as int,
                false,
            ),
        decreases end - i,
    {
        let b: u8 = text[i];
        if b == SPACE || b == TAB || b == CR || b == LF || b == COMMA {
            i += 1;
        } else if b == HASH {
            let ghost at = i;
            i += 1;
            while i < end && text[i] != LF
                invariant
                    i <= end <= text@.len(),
                    cursor <= at < i,
                    trivia_end(text@, i as int, end as int, true) == trivia_end(
                        text@,
                        cursor as int,
                        end as int,
                        false,
                    ),
                decreases end - i,
            {
                i += 1;
            }
        } else {
            return i;
        }
    }
    i
}

/// The first byte at or after `i` that is not part of a crate name, or `end`.
pub open spec fn key_end(t: Seq<u8>, i: int, end: int) -> int
    decreases end - i,
{
    if i < end && ascii::crate_byte(t[i]) {
        key_end(t, i + 1, end)
    } else {
        i
    }
}

/// The key at `i` and where it ends, where a key stands there.
pub open spec fn bare_key(t: Seq<u8>, i: int, end: int) -> Option<(Seq<char>, int)> {
    let e = key_end(t, i, end);
    if e == i {
        None
    } else {
        Some((decode_utf8(t.subrange(i, e)), e))
    }
}

/// A key ends within bounds and is made of ASCII bytes.
pub proof fn lemma_key_end(t: Seq<u8>, i: int, end: int)
    requires
        0 <= i,
        end <= t.len(),
    ensures
        i <= key_end(t, i, end),
        key_end(t, i, end) == i || key_end(t, i, end) <= end,
        forall|k: int| i <= k < key_end(t, i, end) ==> ascii::crate_byte(#[trigger] t[k]),
    decreases end - i,
{
    if i < end && ascii::crate_byte(t[i]) {
        lemma_key_end(t, i + 1, end);
    }
}

/// A key ends before a byte that no key holds, or at `end`.
pub proof fn lemma_key_end_stops(t: Seq<u8>, i: int, end: int)
    ensures
        key_end(t, i, end) < end ==> !ascii::crate_byte(t[key_end(t, i, end)]),
    decreases end - i,
{
    if i < end && ascii::crate_byte(t[i]) {
        lemma_key_end_stops(t, i + 1, end);
    }
}

/// Reads the bare key at `offset`.
pub fn parse_bare_key(text: &[u8], offset: usize, end: usize) -> (r: Option<(&str, usize)>)
    requires
        end <= text@.len(),
    ensures
        match (r, bare_key(text@, offset as int, end as int)) {
            (Some((k, n)), Some((km, nm))) => k@ == km && n == nm,
            (None, None) => true,
            _ => false,
        },
{
    let mut cursor: usize = offset;
    while cursor < end && is_crate_char(text[cursor])
        invariant
            end <= text@.len(),
            offset <= cursor,
            cursor == offset || cursor <= end,
            key_end(text@, cursor as int, end as int) == key_end(text@, offset as int, end as int),
        decreases end - cursor,
    {
        cursor += 1;
    }
    if cursor == offset {
        return None;
    }
    let key = vstd::slice::slice_subrange(text, offset, cursor);
    proof {
        lemma_key_end(text@, offset as int, end as int);
        assert forall|i: int| 0 <= i < key@.len() implies #[trigger] key@[i] < 0x80 by {
            assert(ascii::crate_byte(text@[offset + i]));
        }
        text::lemma_ascii_decode(key@);
    }
    match core::str::from_utf8(key) {
        Ok(k) => {
            proof {
                text::lemma_str_bytes(k);
            }
            Some((k, cursor))
        },
        Err(_) => None,
    }
}

/// A string of a manifest.
pub struct TomlStr {
    /// The text between the quotes, with the backslash of each escape dropped.
    pub value: Seq<char>,
    /// Where the text between the quotes starts.
    pub start: int,
    /// Where the text between the quotes ends.
    pub end: int,
    /// What follows the string.
    pub next: int,
}

/// The rest of a string from `i` on: its text, where it ends, and what follows it. Each byte is one
/// character of the text. A backslash in a string with double quotes stands for the byte behind it;
/// the byte that follows such a pair belongs to the text whatever it is.
pub open spec fn str_from(t: Seq<u8>, i: int, end: int, delim: u8, escaped: bool) -> (
    Seq<char>,
    int,
    int,
)
    decreases end - i,
{
    if i >= end {
        (Seq::empty(), end, end)
    } else if delim == DOUBLE_QUOTE && t[i] == BACKSLASH && !escaped {
        if i + 1 < end {
            let rest = str_from(t, i + 2, end, delim, true);
            (seq![t[i + 1] as char] + rest.0, rest.1, rest.2)
        } else {
            (Seq::empty(), end, end)
        }
    } else if t[i] == delim && !escaped {
        (Seq::empty(), i, i + 1)
    } else {
        let rest = str_from(t, i + 1, end, delim, false);
        (seq![t[i] as char] + rest.0, rest.1, rest.2)
    }
}

/// The string at `i`, where a string starts there. One that is not closed goes up to `end`.
pub open spec fn toml_str(t: Seq<u8>, i: int, end: int) -> Option<TomlStr> {
    if i >= end || !ascii::str_delim(t[i]) {
        None
    } else {
        let s = str_from(t, i + 1, end, t[i], false);
        Some(TomlStr { value: s.0, start: i + 1, end: s.1, next: s.2 })
    }
}

/// A string ends within bounds, and right before what follows it or at `end`.
pub proof fn lemma_str_from(t: Seq<u8>, i: int, end: int, delim: u8, escaped: bool)
    requires
        i <= end,
    ensures
        ({
            let s = str_from(t, i, end, delim, escaped);
            &&& i <= s.1 <= s.2 <= end
            &&& s.1 == end || (s.2 == s.1 + 1 && t[s.1] == delim)
        }),
    decreases end - i,
{
    if i < end {
        if delim == DOUBLE_QUOTE && t[i] == BACKSLASH && !escaped {
            if i + 1 < end {
                lemma_str_from(t, i + 2, end, delim, true);
            }
        } else if !(t[i] == delim && !escaped) {
            lemma_str_from(t, i + 1, end, delim, false);
        }
    }
}

/// A string that was read.
pub struct ParsedStr {
    /// The text between the quotes, with the backslash of each escape dropped.
    pub value: String,
    /// Where the text between the quotes starts.
    pub content_start: usize,
    /// Where the text between the quotes ends.
    pub content_end: usize,
    /// What follows the string.
    pub next_offset: usize,
}

impl View for ParsedStr {
    type V = TomlStr;

    open spec fn view(&self) -> TomlStr {
        TomlStr {
            value: self.value@,
            start: self.content_start as int,
            end: self.content_end as int,
            next: self.next_offset as int,
        }
    }
}

/// Reads the string at `offset`.
pub fn parse_toml_str(text: &[u8], offset: usize, end: usize) -> (r: Option<ParsedStr>)
    requires
        end <= text@.len(),
    ensures
        match r {
            Some(s) => toml_str(text@, offset as int, end as int) == Some(s@),
            None => toml_str(text@, offset as int, end as int) is None,
        },
{
    if offset >= end || !is_str_delim(text[offset]) {
        return None;
    }
    let delim: u8 = text[offset];
    let content_start: usize = offset + 1;
    let mut cursor: usize = content_start;
    let mut escaped: bool = false;
    let mut value = String::new();
    let ghost whole = str_from(text@, content_start as int, end as int, delim, false);
    assert(Seq::<char>::empty() + whole.0 =~= whole.0);
    while cursor < end
        invariant
            end <= text@.len(),
            offset < content_start <= cursor <= end,
            content_start == offset + 1,
            delim == text@[offset as int],
            ascii::str_delim(delim),
            whole == str_from(text@, content_start as int, end as int, delim, false),
            ({
                let rest = str_from(text@, cursor as int, end as int, delim, escaped);
                &&& whole.0 == value@ + rest.0
                &&& whole.1 == rest.1
                &&& whole.2 == rest.2
            }),
        decreases end - cursor,
    {
        let b: u8 = text[cursor];
        let ghost before = value@;
        let ghost rest = str_from(text@, cursor as int, end as int, delim, escaped);
        if delim == DOUBLE_QUOTE && b == BACKSLASH && !escaped {
            escaped = true;
            cursor += 1;
            if cursor < end {
                value.push(text[cursor] as char);
                cursor += 1;
                assert(before + rest.0 =~= value@ + str_from(
                    text@,
                    cursor as int,
                    end as int,
                    delim,
                    true,
                ).0);
            }
        } else if b == delim && !escaped {
            assert(before + rest.0 =~= value@);
            return Some(
                ParsedStr { value, content_start, content_end: cursor, next_offset: cursor + 1 },
            );
        } else {
            value.push(b as char);
            escaped = false;
            cursor += 1;
            assert(before + rest.0 =~= value@ + str_from(
                text@,
                cursor as int,
                end as int,
                delim,
                false,
            ).0);
        }
    }
    assert(whole.0 =~= value@);
    Some(ParsedStr { value, content_start, content_end: end, next_offset: end })
}

/// The byte at or after `i`, and before `end`, that closes the last but `depth` of the open
/// brackets, where byte `i` is part of `s`. Brackets in strings and comments do not count.
pub open spec fn matching_from(
    t: Seq<u8>,
    i: int,
    end: int,
    open: u8,
    close: u8,
    depth: nat,
    s: Lex,
) -> Option<int>
    decreases end - i,
{
    if i >= end {
        None
    } else if !(s is Code) || ascii::str_delim(t[i]) || t[i] == HASH {
        matching_from(t, i + 1, end, open, close, depth, lex_step(s, t[i]))
    } else if t[i] == open {
        matching_from(t, i + 1, end, open, close, depth + 1, s)
    } else if t[i] == close {
        if depth == 0 {
            None
        } else if depth == 1 {
            Some(i)
        } else {
            matching_from(t, i + 1, end, open, close, (depth - 1) as nat, s)
        }
    } else {
        matching_from(t, i + 1, end, open, close, depth, s)
    }
}

/// The byte before `end` that closes the bracket at `open_at`.
pub open spec fn matching(t: Seq<u8>, open_at: int, open: u8, close: u8, end: int) -> Option<int> {
    matching_from(t, open_at, end, open, close, 0, Lex::Code)
}

/// A closing bracket is found behind the place where the search starts, and before its end.
pub proof fn lemma_matching_from(
    t: Seq<u8>,
    i: int,
    end: int,
    open: u8,
    close: u8,
    depth: nat,
    s: Lex,
)
    ensures
        matching_from(t, i, end, open, close, depth, s) matches Some(m) ==> {
            &&& i <= m < end
            &&& t[m] == close
            &&& depth == 0 ==> i < m
        },
    decreases end - i,
{
    if i < end {
        if !(s is Code) || ascii::str_delim(t[i]) || t[i] == HASH {
            lemma_matching_from(t, i + 1, end, open, close, depth, lex_step(s, t[i]));
        } else if t[i] == open {
            lemma_matching_from(t, i + 1, end, open, close, depth + 1, s);
        } else if t[i] == close {
            if depth > 1 {
                lemma_matching_from(t, i + 1, end, open, close, (depth - 1) as nat, s);
            }
        } else {
            lemma_matching_from(t, i + 1, end, open, close, depth, s);
        }
    }
}

/// Finds the bracket that closes the one at `open_at`.
pub fn find_matching(text: &[u8], open_at: usize, open: u8, close: u8, end: usize) -> (r: Option<
    usize,
>)
    requires
        end <= text@.len(),
    ensures
        match r {
            Some(m) => matching(text@, open_at as int, open, close, end as int) == Some(m as int),
            None => matching(text@, open_at as int, open, close, end as int) is None,
        },
{
    let mut depth: usize = 0;
    let mut cursor: usize = open_at;
    let mut in_str: bool = false;
    let mut delim: u8 = DOUBLE_QUOTE;
    let mut escaped: bool = false;
    let mut in_comment: bool = false;
    let ghost mut s: Lex = Lex::Code;
    while cursor < end
        invariant
            end <= text@.len(),
            open_at <= cursor,
            depth <= cursor - open_at,
            !(in_str && in_comment),
            s == if in_comment {
                Lex::Comment
            } else if in_str {
                Lex::Quoted { delim, escaped }
            } else {
                Lex::Code
            },
            matching_from(text@, cursor as int, end as int, open, close, depth as nat, s)
                == matching(text@, open_at as int, open, close, end as int),
        decreases end - cursor,
    {
        let b: u8 = text[cursor];
        proof {
            s = lex_step(s, b);
        }
        if in_comment {
            if b == LF {
                in_comment = false;
            }
        } else if in_str {
            if delim == DOUBLE_QUOTE && b == BACKSLASH && !escaped {
                escaped = true;
            } else {
                if b == delim && !escaped {
                    in_str = false;
                }
                escaped = false;
            }
        } else if is_str_delim(b) {
            in_str = true;
            delim = b;
            escaped = false;
        } else if b == HASH {
            in_comment = true;
        } else if b == open {
            depth += 1;
        } else if b == close {
            if depth == 0 {
                return None;
            }
            depth -= 1;
            if depth == 0 {
                return Some(cursor);
            }
        }
        cursor += 1;
    }
    None
}

/// The first line feed at or after `i`, or `end`.
pub open spec fn lf_or_end(t: Seq<u8>, i: int, end: int) -> int
    decreases end - i,
{
    if i < end && t[i] != LF {
        lf_or_end(t, i + 1, end)
    } else {
        i
    }
}

/// `lf_or_end` does not go back, and goes no further than `end`.
pub proof fn lemma_lf_or_end(t: Seq<u8>, i: int, end: int)
    ensures
        i <= lf_or_end(t, i, end),
        i <= end ==> lf_or_end(t, i, end) <= end,
    decreases end - i,
{
    if i < end && t[i] != LF {
        lemma_lf_or_end(t, i + 1, end);
    }
}

/// Where a value that is neither a string, an array nor a table ends: before the comma or the brace
/// behind it, or at the end of the line where a comment follows.
pub open spec fn plain_end(t: Seq<u8>, i: int, end: int) -> int
    decreases end - i,
{
    if i >= end {
        end
    } else if t[i] == COMMA || t[i] == CLOSE_BRACE {
        i
    } else if t[i] == HASH {
        lf_or_end(t, i, end)
    } else {
        plain_end(t, i + 1, end)
    }
}

/// What follows the value at `i`; `end` where the value is not closed.
pub open spec fn value_end(t: Seq<u8>, i: int, end: int) -> int {
    if i >= end {
        end
    } else if ascii::str_delim(t[i]) {
        match toml_str(t, i, end) {
            Some(s) => s.next,
            None => end,
        }
    } else if t[i] == OPEN_BRACKET {
        match matching(t, i, OPEN_BRACKET, CLOSE_BRACKET, end) {
            Some(m) => m + 1,
            None => end,
        }
    } else if t[i] == OPEN_BRACE {
        match matching(t, i, OPEN_BRACE, CLOSE_BRACE, end) {
            Some(m) => m + 1,
            None => end,
        }
    } else {
        plain_end(t, i, end)
    }
}

/// `plain_end` does not go back, and goes no further than `end`.
pub proof fn lemma_plain_end(t: Seq<u8>, i: int, end: int)
    requires
        i <= end,
    ensures
        i <= plain_end(t, i, end) <= end,
    decreases end - i,
{
    if i < end {
        lemma_lf_or_end(t, i, end);
        lemma_plain_end(t, i + 1, end);
    }
}

/// A value does not end before it starts, nor behind `end`.
pub proof fn lemma_value_end(t: Seq<u8>, i: int, end: int)
    requires
        i <= end,
    ensures
        i <= value_end(t, i, end) <= end,
{
    if i < end {
        if ascii::str_delim(t[i]) {
            lemma_str_from(t, i + 1, end, t[i], false);
        } else if t[i] == OPEN_BRACKET {
            lemma_matching_from(t, i, end, OPEN_BRACKET, CLOSE_BRACKET, 0, Lex::Code);
        } else if t[i] == OPEN_BRACE {
            lemma_matching_from(t, i, end, OPEN_BRACE, CLOSE_BRACE, 0, Lex::Code);
        } else {
            lemma_plain_end(t, i, end);
        }
    }
}

/// Skips the value at `offset`.
pub fn skip_toml_value(text: &[u8], offset: usize, end: usize) -> (r: usize)
    requires
        end <= text@.len(),
    ensures
        r == value_end(text@, offset as int, end as int),
{
    if offset >= end {
        return end;
    }
    proof {
        lemma_value_end(text@, offset as int, end as int);
    }
    let b: u8 = text[offset];
    if is_str_delim(b) {
        return match parse_toml_str(text, offset, end) {
            Some(s) => s.next_offset,
            None => end,
        };
    }
    if b == OPEN_BRACKET {
        return match find_matching(text, offset, OPEN_BRACKET, CLOSE_BRACKET, end) {
            Some(i) => i + 1,
            None => end,
        };
    }
    if b == OPEN_BRACE {
        return match find_matching(text, offset, OPEN_BRACE, CLOSE_BRACE, end) {
            Some(i) => i + 1,
            None => end,
        };
    }
    let mut cursor: usize = offset;
    while cursor < end
        invariant
            offset <= cursor <= end <= text@.len(),
            plain_end(text@, cursor as int, end as int) == plain_end(
                text@,
                offset as int,
                end as int,
            ),
            plain_end(text@, offset as int, end as int) == value_end(
                text@,
                offset as int,
                end as int,
            ),
        decreases end - cursor,
    {
        let cur: u8 = text[cursor];
        if cur == COMMA || cur == CLOSE_BRACE {
            return cursor;
        }
        if cur == HASH {
            let ghost at = cursor;
            while cursor < end && text[cursor] != LF
                invariant
                    at <= cursor <= end <= text@.len(),
                    lf_or_end(text@, cursor as int, end as int) == lf_or_end(
                        text@,
                        at as int,
                        end as int,
                    ),
                decreases end - cursor,
            {
                cursor += 1;
            }
            return cursor;
        }
        cursor += 1;
    }
    end
}

/// From byte `i` on, the comment starts at the first `#` outside strings.
proof fn lemma_comment_scan(b: Seq<u8>, i: int)
    requires
        0 <= i <= b.len(),
    ensures
        ({
            let start = comment_from(b, i, lex_at(b, 0, i));
            &&& forall|k: int|
                i <= k < start ==> !(#[trigger] lex_at(b, 0, k) is Code && b[k] == HASH)
            &&& start < b.len() ==> lex_at(b, 0, start) is Code && b[start] == HASH
        }),
    decreases b.len() - i,
{
    if i < b.len() && !(lex_at(b, 0, i) is Code && b[i] == HASH) {
        lemma_comment_scan(b, i + 1);
    }
}

/// A comment starts at the first `#` of a line that is outside its strings, and nowhere else.
pub proof fn law_comment_start(b: Seq<u8>)
    ensures
        forall|k: int|
            0 <= k < comment_start(b) ==> !(#[trigger] lex_at(b, 0, k) is Code && b[k] == HASH),
        comment_start(b) < b.len() ==> lex_at(b, 0, comment_start(b)) is Code && b[comment_start(b)]
            == HASH,
{
    lemma_comment_scan(b, 0);
}

/// What comes before the comment has no comment.
proof fn lemma_comment_of_prefix(b: Seq<u8>, i: int, s: Lex)
    requires
        0 <= i <= b.len(),
    ensures
        ({
            let start = comment_from(b, i, s);
            comment_from(b.subrange(0, start), i, s) == start
        }),
    decreases b.len() - i,
{
    lemma_comment_from(b, i, s);
    if i < b.len() && !(s is Code && b[i] == HASH) {
        lemma_comment_from(b, i + 1, lex_step(s, b[i]));
        lemma_comment_of_prefix(b, i + 1, lex_step(s, b[i]));
    }
}

/// A line without its comment keeps all that is left when its comment is dropped again.
pub proof fn law_uncommented_twice(b: Seq<u8>)
    ensures
        uncommented(uncommented(b)) == uncommented(b),
{
    lemma_comment_from(b, 0, Lex::Code);
    lemma_comment_of_prefix(b, 0, Lex::Code);
    assert(uncommented(uncommented(b)) =~= uncommented(b));
}

/// A string in single quotes, and one in double quotes without a backslash, stands for what is between
/// its quotes, one character for each byte.
pub proof fn law_plain_string(t: Seq<u8>, i: int, end: int)
    requires
        0 <= i < end <= t.len(),
        toml_str(t, i, end) is Some,
        t[i] == DOUBLE_QUOTE ==> forall|k: int|
            i < k < (toml_str(t, i, end)->0).end ==> #[trigger] t[k] != BACKSLASH,
    ensures
        ({
            let s = toml_str(t, i, end)->0;
            s.value == t.subrange(s.start, s.end).map_values(|b: u8| b as char)
        }),
{
    let s = toml_str(t, i, end)->0;
    lemma_str_from(t, i + 1, end, t[i], false);
    lemma_plain_string(t, i + 1, end, t[i]);
}

proof fn lemma_plain_string(t: Seq<u8>, i: int, end: int, delim: u8)
    requires
        0 <= i <= end <= t.len(),
        delim == DOUBLE_QUOTE ==> forall|k: int|
            i <= k < str_from(t, i, end, delim, false).1 ==> #[trigger] t[k] != BACKSLASH,
    ensures
        ({
            let s = str_from(t, i, end, delim, false);
            s.0 == t.subrange(i, s.1).map_values(|b: u8| b as char)
        }),
    decreases end - i,
{
    let s = str_from(t, i, end, delim, false);
    lemma_str_from(t, i, end, delim, false);
    if i < end && t[i] != delim {
        if delim == DOUBLE_QUOTE && t[i] == BACKSLASH && i + 1 < end {
            lemma_str_from(t, i + 2, end, delim, true);
        }
        lemma_plain_string(t, i + 1, end, delim);
        assert(s.0 =~= t.subrange(i, s.1).map_values(|b: u8| b as char));
    } else {
        assert(s.0 =~= t.subrange(i, s.1).map_values(|b: u8| b as char));
    }
}

/// How many more brackets are opened than closed from byte `from` up to byte `i`, where byte `from`
/// is outside strings and comments. Those in strings and comments do not count.
pub open spec fn nesting(t: Seq<u8>, from: int, i: int, open: u8, close: u8) -> int
    decreases i - from,
{
    if i <= from {
        0
    } else {
        let before = nesting(t, from, i - 1, open, close);
        if !(lex_at(t, from, i - 1) is Code) {
            before
        } else if t[i - 1] == open {
            before + 1
        } else if t[i - 1] == close {
            before - 1
        } else {
            before
        }
    }
}

proof fn lemma_matching_nesting(t: Seq<u8>, from: int, i: int, end: int, open: u8, close: u8)
    requires
        open != close,
        !ascii::str_delim(open) && open != HASH,
        !ascii::str_delim(close) && close != HASH,
        from <= i,
        nesting(t, from, i, open, close) > 0,
    ensures
        match matching_from(
            t,
            i,
            end,
            open,
            close,
            nesting(t, from, i, open, close) as nat,
            lex_at(t, from, i),
        ) {
            Some(m) => {
                &&& lex_at(t, from, m) is Code
                &&& nesting(t, from, m + 1, open, close) == 0
                &&& forall|k: int| i <= k <= m ==> #[trigger] nesting(t, from, k, open, close) > 0
            },
            None => forall|k: int| i <= k <= end ==> #[trigger] nesting(t, from, k, open, close) > 0,
        },
    decreases end - i,
{
    if i < end {
        assert(lex_at(t, from, i + 1) == lex_step(lex_at(t, from, i), t[i]));
        if nesting(t, from, i + 1, open, close) > 0 {
            lemma_matching_nesting(t, from, i + 1, end, open, close);
        }
    }
}

/// The bracket that closes another is the first one behind it that brings the count of open brackets
/// back to zero; where there is none, the count stays above zero up to the end.
pub proof fn law_matching_closes(t: Seq<u8>, open_at: int, open: u8, close: u8, end: int)
    requires
        open != close,
        !ascii::str_delim(open) && open != HASH,
        !ascii::str_delim(close) && close != HASH,
        0 <= open_at < end <= t.len(),
        t[open_at] == open,
    ensures
        match matching(t, open_at, open, close, end) {
            Some(m) => {
                &&& open_at < m < end
                &&& t[m] == close
                &&& lex_at(t, open_at, m) is Code
                &&& nesting(t, open_at, m + 1, open, close) == 0
                &&& forall|k: int|
                    open_at < k <= m ==> #[trigger] nesting(t, open_at, k, open, close) > 0
            },
            None => forall|k: int|
                open_at < k <= end ==> #[trigger] nesting(t, open_at, k, open, close) > 0,
        },
{
    lemma_matching_from(t, open_at, end, open, close, 0, Lex::Code);
    assert(nesting(t, open_at, open_at, open, close) == 0);
    assert(lex_at(t, open_at, open_at) is Code);
    assert(nesting(t, open_at, open_at + 1, open, close) == 1);
    assert(lex_at(t, open_at, open_at + 1) is Code);
    lemma_matching_nesting(t, open_at, open_at + 1, end, open, close);
}

} // verus!
