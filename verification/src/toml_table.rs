//! Inline tables such as `{ version = "1", features = ["derive"] }`, read around a cursor.
use crate::ascii;
use crate::ascii::{is_str_delim, CLOSE_BRACKET, EQUALS, OPEN_BRACKET};
use crate::text;
use crate::toml_scan;
use crate::toml_scan::{
    find_matching, parse_bare_key, parse_toml_str, skip_toml_value, skip_trivia, TomlStr,
};
use vstd::prelude::*;
use vstd::string::*;
use vstd::utf8::*;

verus! {

/// Whether a cursor at `at` is between the quotes of `s`, or at one of them from inside.
pub open spec fn holds(s: TomlStr, at: int) -> bool {
    s.start <= at <= s.end
}

/// The text of `t` from `from` up to `at`; nothing where those bytes are not UTF-8.
pub open spec fn text_before(t: Seq<u8>, from: int, at: int) -> Seq<char> {
    if valid_utf8(t.subrange(from, at)) {
        decode_utf8(t.subrange(from, at))
    } else {
        Seq::empty()
    }
}

/// The text of `text` from `from` up to `at`; nothing where those bytes are not UTF-8.
pub fn read_before(text: &[u8], from: usize, at: usize) -> (r: String)
    requires
        from <= at <= text@.len(),
    ensures
        r@ == text_before(text@, from as int, at as int),
{
    match core::str::from_utf8(vstd::slice::slice_subrange(text, from, at)) {
        Ok(s) => {
            proof {
                text::lemma_str_bytes(s);
            }
            s.to_owned()
        },
        Err(_) => String::new(),
    }
}

/// The strings of an array, from `i` up to the bracket at `close`.
pub open spec fn array_strings(t: Seq<u8>, i: int, close: int) -> Seq<TomlStr>
    decreases close - i,
{
    let j = toml_scan::trivia_end(t, i, close, false);
    if i >= close || j >= close {
        Seq::empty()
    } else {
        proof {
            toml_scan::lemma_trivia_end(t, i, close, false);
            toml_scan::lemma_str_from(t, j + 1, close, t[j], false);
        }
        match toml_scan::toml_str(t, j, close) {
            Some(s) => seq![s] + array_strings(t, s.next, close),
            None => array_strings(t, j + 1, close),
        }
    }
}

/// The values of the strings that the cursor is not in, without those that are empty.
pub open spec fn other_values(strings: Seq<TomlStr>, at: int) -> Seq<Seq<char>>
    decreases strings.len(),
{
    if strings.len() == 0 {
        Seq::empty()
    } else {
        let before = other_values(strings.drop_last(), at);
        let s = strings.last();
        if !holds(s, at) && s.value.len() > 0 {
            before.push(s.value)
        } else {
            before
        }
    }
}

/// The string that the cursor is in.
pub open spec fn string_at(strings: Seq<TomlStr>, at: int) -> Option<TomlStr>
    decreases strings.len(),
{
    if strings.len() == 0 {
        None
    } else if holds(strings.last(), at) {
        Some(strings.last())
    } else {
        string_at(strings.drop_last(), at)
    }
}

/// An array of features with a cursor in one of its strings.
pub struct FeatureSlot {
    /// The features in the other strings.
    pub selected: Seq<Seq<char>>,
    /// What stands before the cursor in its string.
    pub prefix: Seq<char>,
    /// Where the text of the string starts.
    pub start: int,
    /// Where the text of the string ends.
    pub end: int,
    /// What follows the array.
    pub next: int,
}

/// The array at `i`, where it is closed before `end` and the cursor is in one of its strings.
pub open spec fn feature_slot(t: Seq<u8>, i: int, end: int, at: int) -> Option<FeatureSlot> {
    if i >= end || t[i] != OPEN_BRACKET {
        None
    } else {
        match toml_scan::matching(t, i, OPEN_BRACKET, CLOSE_BRACKET, end) {
            Some(close) => {
                let strings = array_strings(t, i + 1, close);
                match string_at(strings, at) {
                    Some(s) => Some(
                        FeatureSlot {
                            selected: other_values(strings, at),
                            prefix: text_before(t, s.start, at),
                            start: s.start,
                            end: s.end,
                            next: close + 1,
                        },
                    ),
                    None => None,
                }
            },
            None => None,
        }
    }
}

/// An array of features that was read, with the cursor in one of its strings.
pub struct FeatureArray {
    /// The features in the other strings.
    pub selected_features: Vec<String>,
    /// What stands before the cursor in its string.
    pub feature_prefix: String,
    /// Where the text of the string starts.
    pub content_start: usize,
    /// Where the text of the string ends.
    pub content_end: usize,
    /// What follows the array.
    pub next_offset: usize,
}

impl View for FeatureArray {
    type V = FeatureSlot;

    open spec fn view(&self) -> FeatureSlot {
        FeatureSlot {
            selected: text::texts(self.selected_features@),
            prefix: self.feature_prefix@,
            start: self.content_start as int,
            end: self.content_end as int,
            next: self.next_offset as int,
        }
    }
}

/// Reads the array of features at `offset`, around the cursor at `cursor_offset`.
pub fn parse_feature_array(text: &[u8], offset: usize, end: usize, cursor_offset: usize) -> (r:
    Option<FeatureArray>)
    requires
        end <= text@.len(),
    ensures
        match r {
            Some(f) => feature_slot(text@, offset as int, end as int, cursor_offset as int) == Some(
                f@,
            ),
            None => feature_slot(text@, offset as int, end as int, cursor_offset as int) is None,
        },
{
    if offset >= end || text[offset] != OPEN_BRACKET {
        return None;
    }
    proof {
        toml_scan::lemma_matching_from(
            text@,
            offset as int,
            end as int,
            OPEN_BRACKET,
            CLOSE_BRACKET,
            0,
            toml_scan::Lex::Code,
        );
    }
    let close: usize = match find_matching(text, offset, OPEN_BRACKET, CLOSE_BRACKET, end) {
        Some(c) => c,
        None => {
            return None;
        },
    };
    let mut selected: Vec<String> = Vec::new();
    let mut prefix: Option<String> = None;
    let mut cs: usize = 0;
    let mut ce: usize = 0;
    let mut cursor: usize = offset + 1;
    let ghost strings = array_strings(text@, offset + 1, close as int);
    let ghost mut done: Seq<TomlStr> = Seq::empty();
    assert(done + strings =~= strings);
    assert(text::texts(selected@) =~= other_values(done, cursor_offset as int));
    while cursor < close
        invariant
            close < end <= text@.len(),
            offset < cursor <= close,
            done + array_strings(text@, cursor as int, close as int) == strings,
            text::texts(selected@) == other_values(done, cursor_offset as int),
            match (prefix, string_at(done, cursor_offset as int)) {
                (Some(p), Some(s)) => {
                    &&& p@ == text_before(text@, s.start, cursor_offset as int)
                    &&& cs == s.start
                    &&& ce == s.end
                },
                (None, None) => true,
                _ => false,
            },
        decreases close - cursor,
    {
        let ghost start = cursor;
        proof {
            toml_scan::lemma_trivia_end(text@, cursor as int, close as int, false);
        }
        cursor = skip_trivia(text, cursor, close);
        if cursor >= close {
            assert(array_strings(text@, start as int, close as int) =~= array_strings(
                text@,
                cursor as int,
                close as int,
            ));
        } else {
            proof {
                toml_scan::lemma_str_from(
                    text@,
                    cursor + 1,
                    close as int,
                    text@[cursor as int],
                    false,
                );
            }
            match parse_toml_str(text, cursor, close) {
                None => {
                    cursor += 1;
                },
                Some(parsed) => {
                    let ghost before = done;
                    let ghost s = parsed@;
                    proof {
                        done = done.push(s);
                        assert(done.drop_last() =~= before);
                        assert(before + (seq![s] + array_strings(text@, s.next, close as int))
                            =~= done + array_strings(text@, s.next, close as int));
                    }
                    let next: usize = parsed.next_offset;
                    if cursor_offset >= parsed.content_start && cursor_offset
                        <= parsed.content_end {
                        prefix = Some(read_before(text, parsed.content_start, cursor_offset));
                        cs = parsed.content_start;
                        ce = parsed.content_end;
                    } else if !parsed.value.as_str().is_empty() {
                        let ghost old_selected = selected@;
                        selected.push(parsed.value);
                        assert(text::texts(selected@) =~= text::texts(old_selected).push(s.value));
                    }
                    cursor = next;
                },
            }
        }
    }
    assert(done =~= strings);
    match prefix {
        Some(p) => Some(
            FeatureArray {
                selected_features: selected,
                feature_prefix: p,
                content_start: cs,
                content_end: ce,
                next_offset: close + 1,
            },
        ),
        None => None,
    }
}

/// A `key = value` of an inline table.
pub struct Entry {
    /// The key.
    pub key: Seq<char>,
    /// Where the value starts.
    pub at: int,
}

/// The `key = value` entries of an inline table, from `i` up to the brace at `close`. What is not
/// of that form is passed over.
pub open spec fn entries_from(t: Seq<u8>, i: int, close: int) -> Seq<Entry>
    decreases close - i,
{
    let k = toml_scan::trivia_end(t, i, close, false);
    if i < 0 || close > t.len() || i >= close || k >= close {
        Seq::empty()
    } else {
        proof {
            lemma_entry_progress(t, i, close);
        }
        match toml_scan::bare_key(t, k, close) {
            None => entries_from(t, k + 1, close),
            Some((key, n)) => {
                let e = toml_scan::trivia_end(t, n, close, false);
                if e >= close || t[e] != EQUALS {
                    entries_from(t, toml_scan::value_end(t, e, close), close)
                } else {
                    let v = toml_scan::trivia_end(t, e + 1, close, false);
                    seq![Entry { key, at: v }] + entries_from(
                        t,
                        toml_scan::value_end(t, v, close),
                        close,
                    )
                }
            },
        }
    }
}

/// Reading one entry moves on, and not beyond `close`.
pub proof fn lemma_entry_progress(t: Seq<u8>, i: int, close: int)
    requires
        0 <= i < close <= t.len(),
    ensures
        ({
            let k = toml_scan::trivia_end(t, i, close, false);
            let n = toml_scan::key_end(t, k, close);
            let e = toml_scan::trivia_end(t, n, close, false);
            let v = toml_scan::trivia_end(t, e + 1, close, false);
            &&& i <= k <= n <= e <= close
            &&& e < toml_scan::trivia_end(t, e + 1, close, false)
            &&& e <= toml_scan::value_end(t, e, close) <= close
            &&& e < close ==> v <= toml_scan::value_end(t, v, close) <= close
            &&& e < close ==> v <= close
        }),
{
    let k = toml_scan::trivia_end(t, i, close, false);
    let n = toml_scan::key_end(t, k, close);
    let e = toml_scan::trivia_end(t, n, close, false);
    let v = toml_scan::trivia_end(t, e + 1, close, false);
    toml_scan::lemma_trivia_end(t, i, close, false);
    toml_scan::lemma_key_end(t, k, close);
    toml_scan::lemma_trivia_end(t, n, close, false);
    toml_scan::lemma_value_end(t, e, close);
    toml_scan::lemma_trivia_end(t, e + 1, close, false);
    if e < close {
        toml_scan::lemma_value_end(t, v, close);
    }
}

/// Whether `e` gives `key` a string.
pub open spec fn gives_string(t: Seq<u8>, close: int, e: Entry, key: Seq<char>) -> bool {
    e.key == key && e.at < close && ascii::str_delim(t[e.at])
}

/// The string that the last entry with a string for `key` gives.
pub open spec fn last_string(t: Seq<u8>, close: int, entries: Seq<Entry>, key: Seq<char>) -> Option<
    TomlStr,
>
    decreases entries.len(),
{
    if entries.len() == 0 {
        None
    } else if gives_string(t, close, entries.last(), key) {
        toml_scan::toml_str(t, entries.last().at, close)
    } else {
        last_string(t, close, entries.drop_last(), key)
    }
}

/// The string for `key` that the cursor is in.
pub open spec fn last_string_at(
    t: Seq<u8>,
    close: int,
    entries: Seq<Entry>,
    key: Seq<char>,
    at: int,
) -> Option<TomlStr>
    decreases entries.len(),
{
    if entries.len() == 0 {
        None
    } else {
        match toml_scan::toml_str(t, entries.last().at, close) {
            Some(s) if gives_string(t, close, entries.last(), key) && holds(s, at) => Some(s),
            _ => last_string_at(t, close, entries.drop_last(), key, at),
        }
    }
}

/// What the last entry with an array of features gives.
pub open spec fn last_features(t: Seq<u8>, close: int, entries: Seq<Entry>, at: int) -> Option<
    FeatureSlot,
>
    decreases entries.len(),
{
    if entries.len() == 0 {
        None
    } else {
        let e = entries.last();
        if e.key == "features"@ && e.at < close && t[e.at] == OPEN_BRACKET {
            feature_slot(t, e.at, close, at)
        } else {
            last_features(t, close, entries.drop_last(), at)
        }
    }
}

/// What an inline table says of a dependency.
pub struct TableModel {
    /// The value of `package`.
    pub package: Option<Seq<char>>,
    /// The value of `version`.
    pub version: Option<Seq<char>>,
    /// Where the cursor is in the value of `version`: what stands before it, and the bounds of the
    /// value.
    pub version_cursor: Option<(Seq<char>, int, int)>,
    /// The array of features, where the cursor is in one of its strings.
    pub features: Option<FeatureSlot>,
}

/// What `entries` say of a dependency.
pub open spec fn table_of(t: Seq<u8>, close: int, entries: Seq<Entry>, at: int) -> TableModel {
    TableModel {
        package: match last_string(t, close, entries, "package"@) {
            Some(s) => Some(s.value),
            None => None,
        },
        version: match last_string(t, close, entries, "version"@) {
            Some(s) => Some(s.value),
            None => None,
        },
        version_cursor: match last_string_at(t, close, entries, "version"@, at) {
            Some(s) => Some((text_before(t, s.start, at), s.start, s.end)),
            None => None,
        },
        features: last_features(t, close, entries, at),
    }
}

/// What the inline table between `open` and `close` says of a dependency.
pub open spec fn inline_table(t: Seq<u8>, open: int, close: int, at: int) -> TableModel {
    table_of(t, close, entries_from(t, open + 1, close), at)
}

/// An inline table that was read.
pub struct InlineTable {
    /// The value of `package`.
    pub package_name: Option<String>,
    /// The value of `version`.
    pub version: Option<String>,
    /// What stands before the cursor in the value of `version`, and the bounds of the value, where
    /// the cursor is in it.
    pub version_cursor: Option<(String, usize, usize)>,
    /// The array of features, where the cursor is in one of its strings.
    pub feature_array: Option<FeatureArray>,
}

impl View for InlineTable {
    type V = TableModel;

    open spec fn view(&self) -> TableModel {
        TableModel {
            package: match self.package_name {
                Some(s) => Some(s@),
                None => None,
            },
            version: match self.version {
                Some(s) => Some(s@),
                None => None,
            },
            version_cursor: match self.version_cursor {
                Some((p, s, e)) => Some((p@, s as int, e as int)),
                None => None,
            },
            features: match self.feature_array {
                Some(f) => Some(f@),
                None => None,
            },
        }
    }
}

/// The three keys that are read differ from one another.
pub proof fn lemma_keys_differ()
    ensures
        "package"@ != "version"@,
        "package"@ != "features"@,
        "version"@ != "features"@,
{
    reveal_strlit("package");
    reveal_strlit("version");
    reveal_strlit("features");
    assert("package"@[0] == 'p');
    assert("version"@[0] == 'v');
    assert("features"@[0] == 'f');
}

/// Reads the inline table between the braces at `open` and `close`, around the cursor at
/// `cursor_offset`.
pub fn parse_inline_table(text: &[u8], open: usize, close: usize, cursor_offset: usize) -> (r:
    InlineTable)
    requires
        open < close <= text@.len(),
    ensures
        r@ == inline_table(text@, open as int, close as int, cursor_offset as int),
{
    let mut result = InlineTable {
        package_name: None,
        version: None,
        version_cursor: None,
        feature_array: None,
    };
    let mut cursor: usize = open + 1;
    let ghost entries = entries_from(text@, open + 1, close as int);
    let ghost mut done: Seq<Entry> = Seq::empty();
    proof {
        assert(done + entries =~= entries);
        lemma_keys_differ();
    }
    while cursor < close
        invariant
            open < cursor <= close <= text@.len(),
            done + entries_from(text@, cursor as int, close as int) == entries,
            result@ == table_of(text@, close as int, done, cursor_offset as int),
            "package"@ != "version"@,
            "package"@ != "features"@,
            "version"@ != "features"@,
        decreases close - cursor,
    {
        let ghost start = cursor;
        proof {
            lemma_entry_progress(text@, cursor as int, close as int);
        }
        cursor = skip_trivia(text, cursor, close);
        if cursor >= close {
            assert(entries_from(text@, start as int, close as int) =~= entries_from(
                text@,
                cursor as int,
                close as int,
            ));
        } else {
            match parse_bare_key(text, cursor, close) {
                None => {
                    cursor += 1;
                },
                Some((key, next)) => {
                    cursor = skip_trivia(text, next, close);
                    if cursor >= close || text[cursor] != EQUALS {
                        cursor = skip_toml_value(text, cursor, close);
                    } else {
                        cursor = skip_trivia(text, cursor + 1, close);
                        let val_start: usize = cursor;
                        let ghost before = done;
                        let ghost e = Entry { key: key@, at: val_start as int };
                        let ghost tail = entries_from(
                            text@,
                            toml_scan::value_end(text@, val_start as int, close as int),
                            close as int,
                        );
                        proof {
                            done = done.push(e);
                            assert(done.drop_last() =~= before);
                            assert(before + (seq![e] + tail) =~= done + tail);
                        }
                        let is_package: bool = text::str_equal(key, "package");
                        let is_version: bool = text::str_equal(key, "version");
                        let mut string: Option<toml_scan::ParsedStr> = None;
                        if is_package || is_version {
                            string = parse_toml_str(text, val_start, close);
                        }
                        match string {
                            Some(s) => {
                                proof {
                                    toml_scan::lemma_str_from(
                                        text@,
                                        val_start + 1,
                                        close as int,
                                        text@[val_start as int],
                                        false,
                                    );
                                }
                                cursor = s.next_offset;
                                if is_package {
                                    result.package_name = Some(s.value);
                                } else {
                                    result.version = Some(s.value);
                                    if cursor_offset >= s.content_start && cursor_offset
                                        <= s.content_end {
                                        let prefix = read_before(
                                            text,
                                            s.content_start,
                                            cursor_offset,
                                        );
                                        result.version_cursor = Some(
                                            (prefix, s.content_start, s.content_end),
                                        );
                                    }
                                }
                            },
                            None => {
                                if text::str_equal(key, "features") && val_start < close
                                    && text[val_start] == OPEN_BRACKET {
                                    let array = parse_feature_array(
                                        text,
                                        val_start,
                                        close,
                                        cursor_offset,
                                    );
                                    cursor = match &array {
                                        Some(f) => f.next_offset,
                                        None => skip_toml_value(text, val_start, close),
                                    };
                                    result.feature_array = array;
                                } else {
                                    cursor = skip_toml_value(text, val_start, close);
                                }
                            },
                        }
                    }
                },
            }
        }
    }
    assert(done =~= entries);
    result
}

/// Whether the strings lie between `lo` and `hi`.
pub open spec fn strings_within(strings: Seq<TomlStr>, lo: int, hi: int) -> bool {
    forall|k: int|
        0 <= k < strings.len() ==> lo < (#[trigger] strings[k]).start <= strings[k].end <= hi
}

/// The strings of an array lie within it.
pub proof fn lemma_array_strings(t: Seq<u8>, i: int, close: int)
    ensures
        strings_within(array_strings(t, i, close), i, close),
    decreases close - i,
{
    let j = toml_scan::trivia_end(t, i, close, false);
    if i < close && j < close {
        toml_scan::lemma_trivia_end(t, i, close, false);
        toml_scan::lemma_str_from(t, j + 1, close, t[j], false);
        match toml_scan::toml_str(t, j, close) {
            Some(s) => {
                lemma_array_strings(t, s.next, close);
                let rest = array_strings(t, s.next, close);
                assert forall|k: int| 0 <= k < (seq![s] + rest).len() implies i < (
                #[trigger] (seq![s] + rest)[k]).start <= (seq![s] + rest)[k].end <= close by {
                    if k > 0 {
                        assert((seq![s] + rest)[k] == rest[k - 1]);
                    }
                }
            },
            None => {
                lemma_array_strings(t, j + 1, close);
            },
        }
    }
}

/// The string that the cursor is in is one of the strings.
pub proof fn lemma_string_at(strings: Seq<TomlStr>, at: int)
    ensures
        string_at(strings, at) matches Some(s) ==> strings.contains(s) && holds(s, at),
    decreases strings.len(),
{
    if strings.len() > 0 {
        if holds(strings.last(), at) {
            assert(strings.contains(strings[strings.len() - 1]));
        } else {
            lemma_string_at(strings.drop_last(), at);
            match string_at(strings.drop_last(), at) {
                Some(s) => {
                    let k = choose|k: int| 0 <= k < strings.len() - 1 && strings.drop_last()[k] == s;
                    assert(strings[k] == s);
                },
                None => {},
            }
        }
    }
}

/// The values of an inline table start within it.
pub proof fn lemma_entries_from(t: Seq<u8>, i: int, close: int)
    ensures
        forall|k: int|
            0 <= k < entries_from(t, i, close).len() ==> i < (#[trigger] entries_from(
                t,
                i,
                close,
            )[k]).at,
    decreases close - i,
{
    let j = toml_scan::trivia_end(t, i, close, false);
    if !(i < 0 || close > t.len() || i >= close || j >= close) {
        lemma_entry_progress(t, i, close);
        match toml_scan::bare_key(t, j, close) {
            None => {
                lemma_entries_from(t, j + 1, close);
                assert(entries_from(t, i, close) == entries_from(t, j + 1, close));
            },
            Some((key, n)) => {
                let e = toml_scan::trivia_end(t, n, close, false);
                if e >= close || t[e] != EQUALS {
                    lemma_entries_from(t, toml_scan::value_end(t, e, close), close);
                    assert(entries_from(t, i, close) == entries_from(
                        t,
                        toml_scan::value_end(t, e, close),
                        close,
                    ));
                } else {
                    let v = toml_scan::trivia_end(t, e + 1, close, false);
                    lemma_entries_from(t, toml_scan::value_end(t, v, close), close);
                    let rest = entries_from(t, toml_scan::value_end(t, v, close), close);
                    let all = seq![Entry { key, at: v }] + rest;
                    assert(entries_from(t, i, close) == all);
                    assert forall|k: int| 0 <= k < all.len() implies i < (#[trigger] all[k]).at by {
                        if k > 0 {
                            assert(all[k] == rest[k - 1]);
                        }
                    }
                }
            },
        }
    }
}

/// What the cursor is in, of the values of an inline table, lies within the table and around the
/// cursor.
pub proof fn lemma_entry_bounds(t: Seq<u8>, close: int, entries: Seq<Entry>, at: int, lo: int)
    requires
        forall|k: int| 0 <= k < entries.len() ==> lo < (#[trigger] entries[k]).at,
    ensures
        last_string_at(t, close, entries, "version"@, at) matches Some(s) ==> lo < s.start <= at
            <= s.end <= close,
        last_features(t, close, entries, at) matches Some(f) ==> lo < f.start <= at <= f.end
            <= close,
    decreases entries.len(),
{
    if entries.len() > 0 {
        let e = entries.last();
        assert(lo < entries[entries.len() - 1].at);
        lemma_entry_bounds(t, close, entries.drop_last(), at, lo);
        if e.at < close {
            toml_scan::lemma_str_from(t, e.at + 1, close, t[e.at], false);
            match toml_scan::matching(t, e.at, OPEN_BRACKET, CLOSE_BRACKET, close) {
                Some(m) => {
                    toml_scan::lemma_matching_from(
                        t,
                        e.at,
                        close,
                        OPEN_BRACKET,
                        CLOSE_BRACKET,
                        0,
                        toml_scan::Lex::Code,
                    );
                    let strings = array_strings(t, e.at + 1, m);
                    lemma_array_strings(t, e.at + 1, m);
                    lemma_string_at(strings, at);
                },
                None => {},
            }
        }
    }
}

/// What the cursor is in, of an inline table, lies within the table and around the cursor.
pub proof fn lemma_table_bounds(t: Seq<u8>, open: int, close: int, at: int)
    ensures
        ({
            let table = inline_table(t, open, close, at);
            &&& table.version_cursor matches Some((prefix, start, end)) ==> open < start <= at <= end
                <= close
            &&& table.features matches Some(f) ==> open < f.start <= at <= f.end <= close
        }),
{
    lemma_entries_from(t, open + 1, close);
    lemma_entry_bounds(t, close, entries_from(t, open + 1, close), at, open + 1);
}

} // verus!
