//! Laws of what a cursor in a manifest is about to complete.
use crate::ascii;
use crate::laws::tables;
use crate::position;
use crate::text;
use crate::toml_context;
use crate::toml_context::{
    CompletionContext, CompletionModel, CrateNameContext, FeatureCompletionContext, VersionContext,
};
use crate::toml_scan;
use crate::toml_table;
use vstd::prelude::*;
use vstd::string::*;
use vstd::utf8::*;

verus! {

/// A header is a name in single brackets, and the name of its table is what is between them, without
/// the white space around it and in lower case.
pub proof fn law_headers(s: Seq<char>)
    ensures
        toml_context::is_header(encode_utf8(s)) <==> s.len() >= 2 && s[0] == '[' && s[1] != '['
            && s.last() == ']',
        toml_context::any_header(encode_utf8(s)) <==> s.len() >= 1 && s[0] == '[' && s.last() == ']',
        toml_context::is_header(encode_utf8(s)) ==> toml_context::header_name(encode_utf8(s))
            == text::lowercase(text::trimmed(s.subrange(1, s.len() - 1))),
{
    let b = encode_utf8(s);
    let one = seq!['['];
    let two = seq!['[', '['];
    let end = seq![']'];
    text::lemma_encode_prefix(one, s);
    text::lemma_encode_prefix(two, s);
    text::lemma_encode_suffix(end, s);
    is_ascii_chars_encode_utf8(one);
    is_ascii_chars_encode_utf8(two);
    is_ascii_chars_encode_utf8(end);
    assert(encode_utf8(one) =~= seq![0x5bu8]);
    assert(encode_utf8(two) =~= seq![0x5bu8, 0x5bu8]);
    assert(encode_utf8(end) =~= seq![0x5du8]);
    lemma_starts_with(one, s);
    lemma_starts_with(two, s);
    lemma_starts_with(seq![0x5bu8], b);
    lemma_starts_with(seq![0x5bu8, 0x5bu8], b);
    lemma_ends_with(end, s);
    lemma_ends_with(seq![0x5du8], b);
    if s.len() > 0 {
        encode_utf8_first_scalar(s);
        assert(b.len() > 0);
    }
    if s.len() >= 1 && s[0] == '[' {
        assert(s =~= one + s.subrange(1, s.len() as int));
        text::lemma_encode_add(one, s.subrange(1, s.len() as int));
        if s.len() >= 2 {
            encode_utf8_first_scalar(s.subrange(1, s.len() as int));
        }
    }
    if s.len() >= 2 && s[0] == '[' && s.last() == ']' {
        let mid = s.subrange(1, s.len() - 1);
        assert(s =~= one + mid + end);
        text::lemma_encode_add(one + mid, end);
        text::lemma_encode_add(one, mid);
        assert(b.subrange(1, b.len() - 1) =~= encode_utf8(mid));
        encode_utf8_decode_utf8(mid);
    }
}

proof fn lemma_starts_with<A>(p: Seq<A>, s: Seq<A>)
    ensures
        p.is_prefix_of(s) <==> p.len() <= s.len() && forall|i: int|
            0 <= i < p.len() ==> p[i] == #[trigger] s[i],
{
    if p.is_prefix_of(s) {
        assert forall|i: int| 0 <= i < p.len() implies p[i] == #[trigger] s[i] by {
            assert(s.subrange(0, p.len() as int)[i] == s[i]);
        }
    }
    if p.len() <= s.len() && forall|i: int| 0 <= i < p.len() ==> p[i] == #[trigger] s[i] {
        assert(s.subrange(0, p.len() as int) =~= p);
    }
}

proof fn lemma_ends_with<A>(p: Seq<A>, s: Seq<A>)
    requires
        p.len() == 1,
    ensures
        p.is_suffix_of(s) <==> s.len() >= 1 && s.last() == p[0],
{
    if s.len() >= 1 {
        assert(s.subrange(s.len() - 1, s.len() as int)[0] == s.last());
        if s.last() == p[0] {
            assert(s.subrange(s.len() - 1, s.len() as int) =~= p);
        }
    }
}

/// What counts of a line for headers is its text without the comment and the white space around it.
pub proof fn law_bare_line(line: Seq<u8>)
    ensures
        toml_context::bare_line(line) == encode_utf8(
            text::trimmed(decode_utf8(toml_scan::uncommented(line))),
        ),
{
}

/// Whether line `i` of `b` is a header.
pub open spec fn header_line(b: Seq<u8>, i: int) -> bool {
    toml_context::is_header(toml_context::bare_line(position::line_bytes(b, i)))
}

/// A line belongs to the table of the last header in it or above it, and to none where there is no
/// such header. A line behind the last line counts as the last line.
pub proof fn law_nearest_header_decides(b: Seq<u8>, line: int, k: int)
    requires
        0 <= line,
    ensures
        ({
            let last = position::line_count(b) - 1;
            let l = if line <= last {
                line
            } else {
                last
            };
            &&& (forall|i: int| 0 <= i <= l ==> !#[trigger] header_line(b, i))
                ==> !toml_context::in_dependencies(b, line)
            &&& 0 <= k <= l && header_line(b, k) && (forall|i: int|
                k < i <= l ==> !#[trigger] header_line(b, i)) ==> toml_context::in_dependencies(
                b,
                line,
            ) == toml_context::lists_dependencies(
                toml_context::header_name(
                    toml_context::bare_line(position::line_bytes(b, k)),
                ),
            )
        }),
{
    let last = position::line_count(b) - 1;
    let l = if line <= last {
        line
    } else {
        last
    };
    lemma_section(b, l, k);
}

proof fn lemma_section(b: Seq<u8>, l: int, k: int)
    ensures
        (forall|i: int| 0 <= i <= l ==> !#[trigger] header_line(b, i)) ==> toml_context::section_at(
            b,
            l,
        ) is None,
        0 <= k <= l && header_line(b, k) && (forall|i: int|
            k < i <= l ==> !#[trigger] header_line(b, i)) ==> toml_context::section_at(b, l) == Some(
            toml_context::header_name(toml_context::bare_line(position::line_bytes(b, k))),
        ),
    decreases l + 1,
{
    if l >= 0 {
        assert(header_line(b, l) == toml_context::is_header(
            toml_context::bare_line(position::line_bytes(b, l)),
        ));
        if !header_line(b, l) {
            lemma_section(b, l - 1, k);
        }
    }
}

/// Whether a table of that name is the list `list`, at the top or within another table.
pub open spec fn is_list(name: Seq<char>, list: Seq<char>) -> bool {
    name == list || (seq!['.'] + list).is_suffix_of(name)
}

/// Dependencies, those for development and those for building are listed in tables of these names, at
/// the top or within another table, and in no others.
pub proof fn law_tables_of_dependencies(name: Seq<char>)
    ensures
        toml_context::lists_dependencies(name) <==> is_list(name, "dependencies"@) || is_list(
            name,
            "dev-dependencies"@,
        ) || is_list(name, "build-dependencies"@),
{
    reveal_strlit("dependencies");
    reveal_strlit("dev-dependencies");
    reveal_strlit("build-dependencies");
    reveal_strlit("workspace.dependencies");
    reveal_strlit(".dependencies");
    reveal_strlit(".dev-dependencies");
    reveal_strlit(".build-dependencies");
    assert(".dependencies"@ =~= seq!['.'] + "dependencies"@);
    assert(".dev-dependencies"@ =~= seq!['.'] + "dev-dependencies"@);
    assert(".build-dependencies"@ =~= seq!['.'] + "build-dependencies"@);
    let w = "workspace.dependencies"@;
    assert(w.subrange(w.len() - ".dependencies"@.len(), w.len() as int) =~= ".dependencies"@);
}

/// A crate name is typed where no `=` stands before the cursor in its line.
pub proof fn law_left_of_an_assignment(b: Seq<u8>, cursor: int)
    requires
        0 <= cursor,
    ensures
        toml_context::typing_crate_name(b, cursor) <==> !exists|k: int|
            0 <= k < cursor && k < b.len() && #[trigger] b[k] as char == '=',
{
}

/// A name stands before the cursor where the part of the line before it, without the white space
/// around it, holds nothing but bytes of crate names.
pub proof fn law_name_before_the_cursor(b: Seq<u8>, cursor: int)
    requires
        0 <= cursor,
    ensures
        cursor <= b.len() ==> toml_context::name_before(b, cursor) == ascii::crate_bytes(
            encode_utf8(text::trimmed(decode_utf8(b.subrange(0, cursor)))),
        ),
        cursor > b.len() ==> toml_context::name_before(b, cursor) == ascii::crate_bytes(
            encode_utf8(text::trimmed(decode_utf8(b))),
        ),
{
    if cursor > b.len() {
        assert(b.subrange(0, b.len() as int) =~= b);
    }
}

/// The crate name around the cursor is the longest run of bytes of crate names around it, and its
/// prefix is the part of the run before the cursor. (The numbers of a position have 32 bits, which the
/// length of the line must fit.)
pub proof fn law_crate_name_around_the_cursor(b: Seq<u8>, cursor: int)
    requires
        0 <= cursor <= b.len() <= u32::MAX,
    ensures
        ({
            let c = toml_context::crate_name_at(b, cursor);
            let (start, end) = (c.start_character as int, c.end_character as int);
            &&& start <= cursor <= end <= b.len()
            &&& ascii::crate_bytes(b.subrange(start, end))
            &&& start > 0 ==> !ascii::crate_byte(b[start - 1])
            &&& end < b.len() ==> !ascii::crate_byte(b[end])
            &&& c.prefix.len() == cursor - start
            &&& forall|k: int| 0 <= k < c.prefix.len() ==> #[trigger] c.prefix[k] == b[start + k] as char
        }),
{
    toml_context::law_crate_name_extent(b, cursor);
    let start = toml_context::name_start(b, cursor);
    let end = toml_scan::key_end(b, cursor, b.len() as int);
    let part = b.subrange(start, cursor);
    assert forall|i: int| 0 <= i < part.len() implies #[trigger] part[i] < 0x80 by {
        assert(ascii::crate_byte(b.subrange(start, end)[i]));
    }
    text::lemma_ascii_decode(part);
}

/// A cursor behind the end of the line counts as one at its end.
pub proof fn law_cursor_behind_the_line(b: Seq<u8>, cursor: int)
    requires
        cursor >= b.len(),
    ensures
        toml_context::crate_name_at(b, cursor) == toml_context::crate_name_at(b, b.len() as int),
        toml_context::typing_crate_name(b, cursor) == toml_context::typing_crate_name(
            b,
            b.len() as int,
        ),
{
    assert(toml_context::lower(cursor, b.len() as int) == toml_context::lower(
        b.len() as int,
        b.len() as int,
    ));
}

/// The keys of a dependency's own table that take a string and are no crate names.
pub open spec fn own_keys() -> Seq<Seq<char>> {
    seq!["version"@, "path"@, "git"@, "branch"@, "tag"@, "rev"@, "edition"@]
}

/// Whether `code` has the form `name = "version"`, with its first `=` at `eq` and its version from
/// `start` up to `end`. The name is that of a crate, the version is in quotes of either kind, and may
/// be open.
pub open spec fn assigns_version(code: Seq<u8>, eq: int, start: int, end: int) -> bool {
    let key = text::trimmed_bytes(code.subrange(0, eq));
    &&& 0 <= eq < code.len()
    &&& code[eq] as char == '='
    &&& forall|k: int| 0 <= k < eq ==> #[trigger] code[k] as char != '='
    &&& key.len() > 0
    &&& ascii::crate_bytes(key)
    &&& !own_keys().contains(decode_utf8(key))
    &&& eq + 1 < start <= end <= code.len()
    &&& code[start - 1] as char == '"' || code[start - 1] as char == '\''
    &&& forall|k: int| eq < k < start - 1 ==> #[trigger] code[k] as char == ' '
    &&& forall|k: int| start <= k < end ==> #[trigger] code[k] != code[start - 1]
    &&& end < code.len() ==> code[end] == code[start - 1]
}

/// A version is typed in a line of the form `name = "version"`, where the cursor is between the quotes,
/// and in no other line.
pub proof fn law_bounds_of_a_version(code: Seq<u8>, cursor: int, eq: int, start: int, end: int)
    ensures
        toml_context::version_bounds(code, cursor) == Some((start, end)) ==> start <= cursor <= end
            && assigns_version(code, ascii::first_at(code, 0x3du8, 0), start, end),
        assigns_version(code, eq, start, end) && start <= cursor <= end
            ==> toml_context::version_bounds(code, cursor) == Some((start, end)),
{
    lemma_own_keys();
    let first = ascii::first_at(code, 0x3du8, 0);
    ascii::lemma_first_at(code, 0x3du8, 0);
    if toml_context::version_bounds(code, cursor) == Some((start, end)) {
        lemma_spaces(code, first + 1);
        ascii::lemma_first_at(code, code[start - 1], start);
    }
    if assigns_version(code, eq, start, end) && start <= cursor <= end {
        if first < eq {
            assert(code[first] as char == '=');
        }
        assert(first == eq);
        lemma_spaces(code, eq + 1);
        let quote = toml_context::spaces_end(code, eq + 1);
        if quote < start - 1 {
            assert(code[quote] as char == ' ');
        } else if quote > start - 1 {
            assert(code[start - 1] == 0x20u8);
        }
        assert(quote == start - 1);
        ascii::lemma_first_at(code, code[quote], quote + 1);
        let stop = ascii::first_at(code, code[quote], quote + 1);
        if stop < end {
            assert(code[stop] == code[start - 1]);
        }
        assert(stop == end);
    }
}

proof fn lemma_own_keys()
    ensures
        forall|key: Seq<char>| #[trigger] own_keys().contains(key) <==> toml_context::meta_key(key),
{
    let keys = own_keys();
    assert forall|key: Seq<char>| #[trigger] keys.contains(key) <==> toml_context::meta_key(key) by {
        assert(keys[0] == "version"@);
        assert(keys[1] == "path"@);
        assert(keys[2] == "git"@);
        assert(keys[3] == "branch"@);
        assert(keys[4] == "tag"@);
        assert(keys[5] == "rev"@);
        assert(keys[6] == "edition"@);
        if keys.contains(key) {
            let k = choose|k: int| 0 <= k < keys.len() && keys[k] == key;
            assert(k == 0 || k == 1 || k == 2 || k == 3 || k == 4 || k == 5 || k == 6);
        }
    }
}

proof fn lemma_spaces(b: Seq<u8>, i: int)
    requires
        0 <= i <= b.len(),
    ensures
        ({
            let e = toml_context::spaces_end(b, i);
            &&& i <= e <= b.len()
            &&& forall|k: int| i <= k < e ==> #[trigger] b[k] == 0x20u8
            &&& e < b.len() ==> b[e] != 0x20u8
        }),
    decreases b.len() - i,
{
    if i < b.len() && b[i] == 0x20u8 {
        lemma_spaces(b, i + 1);
    }
}

/// The version that is typed in a line belongs to the crate on the left of the `=`. Its prefix is what
/// stands from the quote up to the cursor, and its range is the text between the quotes. A cursor
/// behind the code of the line counts as one at its end. (Columns have 32 bits, which the length of the
/// line must fit.)
pub proof fn law_version_in_a_line(b: Seq<u8>, line: int, character: int)
    requires
        0 <= line,
        0 <= character,
        toml_scan::uncommented(position::line_bytes(b, line)).len() <= u32::MAX,
        valid_utf8(b),
    ensures
        ({
            let code = toml_scan::uncommented(position::line_bytes(b, line));
            let cursor = if character <= code.len() {
                character
            } else {
                code.len() as int
            };
            let ls = position::starts_of(b);
            &&& line >= position::line_count(b) ==> toml_context::version_at(b, line, character)
                is None
            &&& line < position::line_count(b) ==> match (
                toml_context::version_bounds(code, cursor),
                toml_context::version_at(b, line, character),
            ) {
                (Some((start, end)), Some(v)) => {
                    &&& v.crate_name == text::trimmed(
                        decode_utf8(code.subrange(0, ascii::first_at(code, 0x3du8, 0))),
                    )
                    &&& v.version_prefix == decode_utf8(code.subrange(start, cursor))
                    &&& v.range.start == position::position_at(ls, ls[line] + start)
                    &&& v.range.end == position::position_at(ls, ls[line] + end)
                },
                (None, None) => true,
                _ => false,
            }
        }),
{
    let code = toml_scan::uncommented(position::line_bytes(b, line));
    let cursor = toml_context::lower(character, code.len() as int);
    if line < position::line_count(b) {
        position::lemma_line_bounds(b, line);
        toml_scan::lemma_uncommented(position::line_bytes(b, line));
        toml_context::lemma_version_bounds(code, cursor);
        encode_utf8_decode_utf8(
            text::trimmed(decode_utf8(code.subrange(0, ascii::first_at(code, 0x3du8, 0)))),
        );
    }
}

/// Whether line `line` of `b` has the form `name = {`, with its first `=` at `eq` and its first brace
/// behind that at `column`.
pub open spec fn opens_table(b: Seq<u8>, line: int, eq: int, column: int) -> bool {
    let code = toml_scan::uncommented(position::full_line_bytes(b, line));
    let key = text::trimmed_bytes(code.subrange(0, eq));
    &&& 0 <= eq < column < code.len()
    &&& code[eq] as char == '='
    &&& forall|k: int| 0 <= k < eq ==> #[trigger] code[k] as char != '='
    &&& key.len() > 0
    &&& ascii::crate_bytes(key)
    &&& code[column] as char == '{'
    &&& forall|k: int| eq < k < column ==> #[trigger] code[k] as char != '{'
}

/// A line opens an inline table where it has a crate name, an `=` and behind that a brace that is
/// closed somewhere. The table belongs to that name.
pub proof fn law_line_that_opens_a_table(
    b: Seq<u8>,
    line: int,
    eq: int,
    column: int,
    name: Seq<char>,
    open: int,
    close: int,
)
    ensures
        ({
            let code = toml_scan::uncommented(position::full_line_bytes(b, line));
            let start = position::starts_of(b)[line];
            let first = ascii::first_at(code, 0x3du8, 0);
            &&& toml_context::dependency_in_line(b, line) == Some((name, open, close)) ==> {
                &&& opens_table(b, line, first, open - start)
                &&& name == text::trimmed(decode_utf8(code.subrange(0, first)))
                &&& toml_scan::matching(b, open, 0x7bu8, 0x7du8, b.len() as int) == Some(close)
            }
            &&& opens_table(b, line, eq, column) && toml_scan::matching(
                b,
                start + column,
                0x7bu8,
                0x7du8,
                b.len() as int,
            ) == Some(close) ==> toml_context::dependency_in_line(b, line) == Some(
                (text::trimmed(decode_utf8(code.subrange(0, eq))), start + column, close),
            )
        }),
{
    let code = toml_scan::uncommented(position::full_line_bytes(b, line));
    let first = ascii::first_at(code, 0x3du8, 0);
    ascii::lemma_first_at(code, 0x3du8, 0);
    if first < code.len() {
        ascii::lemma_first_at(code, 0x7bu8, first + 1);
    }
    encode_utf8_decode_utf8(text::trimmed(decode_utf8(code.subrange(0, first))));
    if opens_table(b, line, eq, column) {
        if first < eq {
            assert(code[first] as char == '=');
        }
        assert(first == eq);
        let brace = ascii::first_at(code, 0x7bu8, first + 1);
        if brace < column {
            assert(code[brace] as char == '{');
        }
        assert(brace == column);
    }
}

/// Whether line `l` opens an inline table that the offset `at` is in.
pub open spec fn table_around(b: Seq<u8>, l: int, at: int) -> bool {
    toml_context::dependency_in_line(b, l) matches Some((name, open, close)) && open < at <= close
}

/// Whether line `l` is a header of any sort.
pub open spec fn any_header_line(b: Seq<u8>, l: int) -> bool {
    toml_context::any_header(toml_context::bare_line(position::full_line_bytes(b, l)))
}

/// The inline table around the cursor is the one that the nearest line at or above the cursor opens
/// around it, with no header in between, the line of the cursor aside; and where there is none, no
/// table is found.
pub proof fn law_table_around_the_cursor(b: Seq<u8>, line: int, character: int, l: int)
    requires
        0 <= line,
    ensures
        ({
            let at = position::offset_at(position::starts_of(b), line, character);
            let found = toml_context::dependency_at(b, line, character);
            &&& 0 <= l <= line && table_around(b, l, at) && (forall|i: int|
                l < i <= line ==> !#[trigger] table_around(b, i, at)) && (forall|i: int|
                l <= i < line ==> !#[trigger] any_header_line(b, i)) ==> found
                == toml_context::dependency_in_line(b, l)
            &&& 0 <= l < line && any_header_line(b, l) && (forall|i: int|
                l < i <= line ==> !#[trigger] table_around(b, i, at)) ==> found is None
            &&& (forall|i: int| 0 <= i <= line ==> !#[trigger] table_around(b, i, at)) ==> found
                is None
        }),
{
    lemma_table_around(
        b,
        line,
        line,
        position::offset_at(position::starts_of(b), line, character),
        l,
    );
}

proof fn lemma_table_around(b: Seq<u8>, line: int, from: int, at: int, l: int)
    requires
        from <= line,
    ensures
        ({
            let found = toml_context::dependency_from(b, line, from, at);
            &&& 0 <= l <= from && table_around(b, l, at) && (forall|i: int|
                l < i <= from ==> !#[trigger] table_around(b, i, at)) && (forall|i: int|
                l <= i <= from && i < line ==> !#[trigger] any_header_line(b, i)) ==> found
                == toml_context::dependency_in_line(b, l)
            &&& 0 <= l <= from && l < line && any_header_line(b, l) && (forall|i: int|
                l < i <= from ==> !#[trigger] table_around(b, i, at)) ==> found is None
            &&& (forall|i: int| 0 <= i <= from ==> !#[trigger] table_around(b, i, at)) ==> found
                is None
        }),
    decreases from + 1,
{
    if from >= 0 {
        assert(any_header_line(b, from) == toml_context::any_header(
            toml_context::bare_line(position::full_line_bytes(b, from)),
        ));
        assert(table_around(b, from, at) == (toml_context::dependency_in_line(b, from) matches Some(
            (name, open, close),
        ) && open < at <= close));
        if !(from < line && any_header_line(b, from)) && !table_around(b, from, at) {
            lemma_table_around(b, line, from - 1, at, l);
        }
    }
}

/// Whether entry `k` is the last that gives `key` a string, which is `s`.
pub open spec fn last_given(
    t: Seq<u8>,
    close: int,
    entries: Seq<toml_table::Entry>,
    key: Seq<char>,
    k: int,
    s: toml_scan::TomlStr,
) -> bool {
    &&& 0 <= k < entries.len()
    &&& entries[k].key == key
    &&& toml_scan::toml_str(t, entries[k].at, close) == Some(s)
    &&& forall|j: int|
        k < j < entries.len() && (#[trigger] entries[j]).key == key ==> toml_scan::toml_str(
            t,
            entries[j].at,
            close,
        ) is None
}

/// Whether no entry gives `key` a string.
pub open spec fn never_given(
    t: Seq<u8>,
    close: int,
    entries: Seq<toml_table::Entry>,
    key: Seq<char>,
) -> bool {
    forall|j: int|
        0 <= j < entries.len() && (#[trigger] entries[j]).key == key ==> toml_scan::toml_str(
            t,
            entries[j].at,
            close,
        ) is None
}

proof fn lemma_last_given(
    t: Seq<u8>,
    close: int,
    entries: Seq<toml_table::Entry>,
    key: Seq<char>,
    k: int,
    s: toml_scan::TomlStr,
)
    ensures
        last_given(t, close, entries, key, k, s) ==> toml_table::last_string(t, close, entries, key)
            == Some(s),
        never_given(t, close, entries, key) <==> toml_table::last_string(t, close, entries, key)
            is None,
{
    tables::law_last_string_counts(t, close, entries, key);
    match toml_table::last_string(t, close, entries, key) {
        Some(r) => {
            let m = choose|m: int|
                0 <= m < entries.len() && (#[trigger] entries[m]).key == key && toml_scan::toml_str(
                    t,
                    entries[m].at,
                    close,
                ) == Some(r) && forall|j: int|
                    m < j < entries.len() && (#[trigger] entries[j]).key == key
                        ==> toml_scan::toml_str(t, entries[j].at, close) is None;
            if last_given(t, close, entries, key, k, s) {
                if k < m {
                    assert(entries[m].key == key);
                } else if m < k {
                    assert(entries[k].key == key);
                }
            }
            assert(!never_given(t, close, entries, key)) by {
                assert(entries[m].key == key);
            }
        },
        None => {},
    }
}

/// A feature or a version in an inline table belongs to the crate that the entry `package = "..."` of
/// the table names, the last one where there are several; and only where there is no such entry, to
/// the crate that is named on the left of the table.
pub proof fn law_crate_behind_a_table(
    b: Seq<u8>,
    line: int,
    character: int,
    k: int,
    s: toml_scan::TomlStr,
)
    ensures
        toml_context::dependency_at(b, line, character) matches Some((name, open, close)) ==> {
            let entries = toml_table::entries_from(b, open + 1, close);
            &&& last_given(b, close, entries, "package"@, k, s) ==> {
                &&& toml_context::feature_at(b, line, character) matches Some(f) ==> f.crate_name
                    == s.value
                &&& toml_context::inline_version_at(b, line, character) matches Some(v)
                    ==> v.crate_name == s.value
            }
            &&& never_given(b, close, entries, "package"@) ==> {
                &&& toml_context::feature_at(b, line, character) matches Some(f) ==> f.crate_name
                    == name
                &&& toml_context::inline_version_at(b, line, character) matches Some(v)
                    ==> v.crate_name == name
            }
        },
        toml_context::dependency_at(b, line, character) is None ==> toml_context::feature_at(
            b,
            line,
            character,
        ) is None && toml_context::inline_version_at(b, line, character) is None,
{
    match toml_context::dependency_at(b, line, character) {
        Some((name, open, close)) => {
            let entries = toml_table::entries_from(b, open + 1, close);
            lemma_last_given(b, close, entries, "package"@, k, s);
        },
        None => {},
    }
}

/// A feature is typed in an inline table of a table of dependencies where the cursor is in its array of
/// features and it has a version that is not blank. The version that it asks for is that of the table,
/// and the features, the prefix and the range are those of the array.
pub proof fn law_feature_in_a_table(
    b: Seq<u8>,
    line: int,
    character: int,
    k: int,
    s: toml_scan::TomlStr,
)
    requires
        0 <= line,
    ensures
        line >= position::starts_of(b).len() || !toml_context::in_dependencies(b, line)
            ==> toml_context::feature_at(b, line, character) is None,
        line < position::starts_of(b).len() && toml_context::in_dependencies(b, line) ==> (
        toml_context::dependency_at(b, line, character) matches Some((name, open, close)) ==> {
            let entries = toml_table::entries_from(b, open + 1, close);
            let ls = position::starts_of(b);
            let at = position::offset_at(ls, line, character);
            let found = toml_context::feature_at(b, line, character);
            let slot = toml_table::last_features(b, close, entries, at);
            &&& slot is None ==> found is None
            &&& never_given(b, close, entries, "version"@) ==> found is None
            &&& last_given(b, close, entries, "version"@, k, s) && text::trimmed(s.value).len() == 0
                ==> found is None
            &&& last_given(b, close, entries, "version"@, k, s) && text::trimmed(s.value).len() > 0
                && slot is Some ==> found is Some && {
                let f = found->0;
                &&& f.version_requirement == s.value
                &&& f.feature_prefix == (slot->0).prefix
                &&& f.selected_features == (slot->0).selected
                &&& f.range.start == position::position_at(ls, (slot->0).start)
                &&& f.range.end == position::position_at(ls, (slot->0).end)
            }
        }),
{
    match toml_context::dependency_at(b, line, character) {
        Some((name, open, close)) => {
            let entries = toml_table::entries_from(b, open + 1, close);
            lemma_last_given(b, close, entries, "version"@, k, s);
        },
        None => {},
    }
}

/// A version is typed in an inline table of a table of dependencies where the cursor is in the string
/// of `version`. Its prefix is the text of the string up to the cursor, and its range is the string.
pub proof fn law_version_in_a_table(b: Seq<u8>, line: int, character: int)
    requires
        0 <= line,
    ensures
        line >= position::starts_of(b).len() || !toml_context::in_dependencies(b, line)
            ==> toml_context::inline_version_at(b, line, character) is None,
        line < position::starts_of(b).len() && toml_context::in_dependencies(b, line) ==> (
        toml_context::dependency_at(b, line, character) matches Some((name, open, close)) ==> {
            let entries = toml_table::entries_from(b, open + 1, close);
            let ls = position::starts_of(b);
            let at = position::offset_at(ls, line, character);
            match (
                toml_table::last_string_at(b, close, entries, "version"@, at),
                toml_context::inline_version_at(b, line, character),
            ) {
                (Some(s), Some(v)) => {
                    &&& valid_utf8(b.subrange(s.start, at)) ==> v.version_prefix == decode_utf8(
                        b.subrange(s.start, at),
                    )
                    &&& !valid_utf8(b.subrange(s.start, at)) ==> v.version_prefix.len() == 0
                    &&& v.range.start == position::position_at(ls, s.start)
                    &&& v.range.end == position::position_at(ls, s.end)
                },
                (None, None) => true,
                _ => false,
            }
        }),
{
}

/// In a table of dependencies a feature comes first, then the name of a crate, then the version of an
/// inline table, and last that of a plain line. There is nothing where the cursor is in the middle of a
/// character, in no such table, or in no line of the document.
pub proof fn law_order_of_completions(b: Seq<u8>, line: int, character: int)
    requires
        0 <= line,
        0 <= character,
    ensures
        ({
            let found = toml_context::completion_at(b, line, character);
            let current = if line < position::line_count(b) {
                position::line_bytes(b, line)
            } else {
                Seq::empty()
            };
            let column = if character <= current.len() {
                character
            } else {
                current.len() as int
            };
            let exists_there = line < position::starts_of(b).len() && is_char_boundary(
                current,
                column,
            );
            let typing = toml_context::typing_crate_name(current, character)
                && toml_context::name_before(current, character);
            let feature = toml_context::feature_at(b, line, character);
            let inline = toml_context::inline_version_at(b, line, character);
            let plain = toml_context::version_at(b, line, character);
            &&& !exists_there || !toml_context::in_dependencies(b, line) ==> found is None
            &&& exists_there && toml_context::in_dependencies(b, line) ==> {
                &&& feature matches Some(f) ==> found == Some(CompletionModel::Feature(f))
                &&& feature is None && typing ==> found == Some(
                    CompletionModel::CrateName(toml_context::crate_name_at(current, character)),
                )
                &&& feature is None && !typing && inline is Some ==> found == Some(
                    CompletionModel::Version(inline->0),
                )
                &&& feature is None && !typing && inline is None && plain is Some ==> found == Some(
                    CompletionModel::Version(plain->0),
                )
                &&& feature is None && !typing && inline is None && plain is None ==> found is None
            }
        }),
{
}

/// What was found at a cursor holds the texts that are said of it.
pub proof fn law_context_that_was_found(
    name: CrateNameContext,
    feature: FeatureCompletionContext,
    version: VersionContext,
)
    ensures
        name@.prefix == name.prefix@,
        name@.start_character == name.start_character,
        name@.end_character == name.end_character,
        feature@.crate_name == feature.crate_name@,
        feature@.version_requirement == feature.version_requirement@,
        feature@.feature_prefix == feature.feature_prefix@,
        feature@.range == feature.range,
        feature@.selected_features == text::texts(feature.selected_features@),
        version@.crate_name == version.crate_name@,
        version@.version_prefix == version.version_prefix@,
        version@.range == version.range,
        CompletionContext::CrateName(name)@ == CompletionModel::CrateName(name@),
        CompletionContext::Feature(feature)@ == CompletionModel::Feature(feature@),
        CompletionContext::Version(version)@ == CompletionModel::Version(version@),
{
}

} // verus!
