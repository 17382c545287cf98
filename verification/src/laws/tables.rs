//! Laws of arrays of features and of inline tables.
use crate::ascii;
use crate::laws::scanning;
use crate::text;
use crate::toml_scan;
use crate::toml_scan::TomlStr;
use crate::toml_table;
use crate::toml_table::{Entry, FeatureArray, InlineTable};
use vstd::prelude::*;
use vstd::utf8::*;

verus! {

/// The strings of an array are found by going through its bytes: a byte that is no quote is passed
/// over, a comment up to the end of its line, and a string as a whole.
pub proof fn law_strings_of_an_array(t: Seq<u8>, i: int, close: int)
    requires
        0 <= i,
        close <= t.len(),
    ensures
        i >= close ==> toml_table::array_strings(t, i, close) == Seq::<TomlStr>::empty(),
        i < close && t[i] as char != '"' && t[i] as char != '\'' && t[i] as char != '#'
            ==> toml_table::array_strings(t, i, close) == toml_table::array_strings(t, i + 1, close),
        i < close ==> (toml_scan::toml_str(t, i, close) matches Some(s)
            ==> toml_table::array_strings(t, i, close) == seq![s] + toml_table::array_strings(
            t,
            s.next,
            close,
        )),
{
}

/// A comment between the strings of an array holds none of them.
pub proof fn law_comment_in_an_array(t: Seq<u8>, i: int, e: int, close: int)
    requires
        0 <= i < e <= close <= t.len(),
        t[i] as char == '#',
        forall|k: int| i <= k < e ==> #[trigger] t[k] as char != '\n',
        e < close ==> t[e] as char == '\n',
    ensures
        toml_table::array_strings(t, i, close) == toml_table::array_strings(t, e, close),
{
    lemma_comment_is_trivia(t, i + 1, e, close);
    if e < close {
        assert(toml_scan::trivia_end(t, e, close, true) == toml_scan::trivia_end(
            t,
            e + 1,
            close,
            false,
        ));
    }
}

proof fn lemma_comment_is_trivia(t: Seq<u8>, i: int, e: int, close: int)
    requires
        0 <= i <= e <= close <= t.len(),
        forall|k: int| i <= k < e ==> #[trigger] t[k] as char != '\n',
    ensures
        toml_scan::trivia_end(t, i, close, true) == toml_scan::trivia_end(t, e, close, true),
    decreases e - i,
{
    if i < e {
        lemma_comment_is_trivia(t, i + 1, e, close);
    }
}

/// The selected features are the texts of all strings that the cursor is not in, in their order,
/// without the empty ones.
pub proof fn law_other_strings(strings: Seq<TomlStr>, at: int)
    ensures
        toml_table::other_values(strings, at) == strings.filter(
            |s: TomlStr| !(s.start <= at <= s.end) && s.value.len() > 0,
        ).map_values(|s: TomlStr| s.value),
        forall|v: Seq<char>| #[trigger]
            toml_table::other_values(strings, at).contains(v) <==> exists|k: int|
                0 <= k < strings.len() && (#[trigger] strings[k]).value == v && v.len() > 0 && !(
                strings[k].start <= at <= strings[k].end),
    decreases strings.len(),
{
    reveal(Seq::filter);
    let p = |s: TomlStr| !(s.start <= at <= s.end) && s.value.len() > 0;
    let f = |s: TomlStr| s.value;
    let all = toml_table::other_values(strings, at);
    if strings.len() > 0 {
        let init = strings.drop_last();
        let last = strings.last();
        law_other_strings(init, at);
        let before = toml_table::other_values(init, at);
        if p(last) {
            assert(strings.filter(p).map_values(f) =~= init.filter(p).map_values(f).push(last.value));
        }
        assert forall|v: Seq<char>| #[trigger] all.contains(v) <==> exists|k: int|
            0 <= k < strings.len() && (#[trigger] strings[k]).value == v && v.len() > 0 && !(
            strings[k].start <= at <= strings[k].end) by {
            if all.contains(v) {
                let m = choose|m: int| 0 <= m < all.len() && all[m] == v;
                if m < before.len() {
                    assert(before[m] == v);
                    assert(before.contains(v));
                    let k = choose|k: int|
                        0 <= k < init.len() && (#[trigger] init[k]).value == v && v.len() > 0 && !(
                        init[k].start <= at <= init[k].end);
                    assert(strings[k] == init[k]);
                } else {
                    assert(strings[strings.len() - 1] == last);
                }
            }
            if exists|k: int|
                0 <= k < strings.len() && (#[trigger] strings[k]).value == v && v.len() > 0 && !(
                strings[k].start <= at <= strings[k].end) {
                let k = choose|k: int|
                    0 <= k < strings.len() && (#[trigger] strings[k]).value == v && v.len() > 0 && !(
                    strings[k].start <= at <= strings[k].end);
                if k < init.len() {
                    assert(init[k] == strings[k]);
                    assert(before.contains(v));
                    let m = choose|m: int| 0 <= m < before.len() && before[m] == v;
                    assert(all[m] == v);
                } else {
                    assert(all[all.len() - 1] == v);
                }
            }
        }
    } else {
        assert(strings.filter(p).map_values(f) =~= Seq::empty());
    }
}

/// The cursor is in a string where it is between its quotes. Of such strings the last one counts.
pub proof fn law_string_around_the_cursor(strings: Seq<TomlStr>, at: int)
    ensures
        match toml_table::string_at(strings, at) {
            Some(s) => exists|k: int|
                0 <= k < strings.len() && #[trigger] strings[k] == s && s.start <= at <= s.end
                    && forall|j: int|
                    k < j < strings.len() ==> !((#[trigger] strings[j]).start <= at
                        <= strings[j].end),
            None => forall|j: int|
                0 <= j < strings.len() ==> !((#[trigger] strings[j]).start <= at <= strings[j].end),
        },
    decreases strings.len(),
{
    if strings.len() > 0 {
        let init = strings.drop_last();
        assert(strings[strings.len() - 1] == strings.last());
        if !(strings.last().start <= at <= strings.last().end) {
            law_string_around_the_cursor(init, at);
            match toml_table::string_at(init, at) {
                Some(s) => {
                    let k = choose|k: int|
                        0 <= k < init.len() && #[trigger] init[k] == s && s.start <= at <= s.end
                            && forall|j: int|
                            k < j < init.len() ==> !((#[trigger] init[j]).start <= at
                                <= init[j].end);
                    assert(strings[k] == s);
                    assert forall|j: int| k < j < strings.len() implies !((
                    #[trigger] strings[j]).start <= at <= strings[j].end) by {
                        if j < init.len() {
                            assert(init[j] == strings[j]);
                        }
                    }
                },
                None => {
                    assert forall|j: int| 0 <= j < strings.len() implies !((
                    #[trigger] strings[j]).start <= at <= strings[j].end) by {
                        if j < init.len() {
                            assert(init[j] == strings[j]);
                        }
                    }
                },
            }
        }
    }
}

/// An array of features has a feature that is being typed where the array is closed and the cursor is
/// in one of its strings. The other strings are the selected features, and what is typed is the text
/// of that string up to the cursor.
pub proof fn law_feature_being_typed(t: Seq<u8>, i: int, end: int, at: int)
    ensures
        i >= end || t[i] as char != '[' ==> toml_table::feature_slot(t, i, end, at) is None,
        i < end && t[i] as char == '[' ==> match toml_scan::matching(t, i, t[i], 0x5du8, end) {
            None => toml_table::feature_slot(t, i, end, at) is None,
            Some(close) => {
                let strings = toml_table::array_strings(t, i + 1, close);
                match (toml_table::string_at(strings, at), toml_table::feature_slot(t, i, end, at)) {
                    (Some(s), Some(f)) => {
                        &&& f.start == s.start
                        &&& f.end == s.end
                        &&& f.next == close + 1
                        &&& f.selected == toml_table::other_values(strings, at)
                        &&& valid_utf8(t.subrange(s.start, at)) ==> f.prefix == decode_utf8(
                            t.subrange(s.start, at),
                        )
                        &&& !valid_utf8(t.subrange(s.start, at)) ==> f.prefix.len() == 0
                    },
                    (None, None) => true,
                    _ => false,
                }
            },
        },
{
}

/// The entries of an inline table are found by going through it: what separates tokens is passed over,
/// and so is a byte that can start no key.
pub proof fn law_between_entries(t: Seq<u8>, i: int, close: int)
    requires
        0 <= i,
        close <= t.len(),
    ensures
        i >= close ==> toml_table::entries_from(t, i, close) == Seq::<Entry>::empty(),
        i < close && t[i] as char != '#' && !ascii::crate_byte(t[i]) ==> toml_table::entries_from(
            t,
            i,
            close,
        ) == toml_table::entries_from(t, i + 1, close),
{
    if i < close && t[i] as char != '#' && !ascii::crate_byte(t[i]) {
        if scanning::separator(t[i]) {
            assert(toml_scan::trivia_end(t, i, close, false) == toml_scan::trivia_end(
                t,
                i + 1,
                close,
                false,
            ));
        } else {
            assert(toml_scan::trivia_end(t, i, close, false) == i);
            assert(toml_scan::key_end(t, i, close) == i);
        }
    }
}

/// A comment between the entries of an inline table holds none of them.
pub proof fn law_comment_between_entries(t: Seq<u8>, i: int, e: int, close: int)
    requires
        0 <= i < e <= close <= t.len(),
        t[i] as char == '#',
        forall|k: int| i <= k < e ==> #[trigger] t[k] as char != '\n',
        e < close ==> t[e] as char == '\n',
    ensures
        toml_table::entries_from(t, i, close) == toml_table::entries_from(t, e, close),
{
    lemma_comment_is_trivia(t, i + 1, e, close);
    if e < close {
        assert(toml_scan::trivia_end(t, e, close, true) == toml_scan::trivia_end(
            t,
            e + 1,
            close,
            false,
        ));
    }
}

/// A key with an `=` behind it is an entry, whose value is what comes behind the `=`; the next entry
/// comes behind that value. A key without an `=` is no entry, and what comes instead is passed over as
/// a value. White space, commas and comments may stand between.
pub proof fn law_entry_of_a_table(t: Seq<u8>, i: int, close: int)
    requires
        0 <= i < close <= t.len(),
        ascii::crate_byte(t[i]),
    ensures
        toml_scan::bare_key(t, i, close) matches Some((key, n)) && {
            let sign = toml_scan::trivia_end(t, n, close, false);
            if sign < close && t[sign] as char == '=' {
                let value = toml_scan::trivia_end(t, sign + 1, close, false);
                let rest = toml_table::entries_from(
                    t,
                    toml_scan::value_end(t, value, close),
                    close,
                );
                &&& toml_table::entries_from(t, i, close).len() == rest.len() + 1
                &&& toml_table::entries_from(t, i, close)[0].key == key
                &&& toml_table::entries_from(t, i, close)[0].at == value
                &&& toml_table::entries_from(t, i, close).drop_first() == rest
            } else {
                toml_table::entries_from(t, i, close) == toml_table::entries_from(
                    t,
                    toml_scan::value_end(t, sign, close),
                    close,
                )
            }
        },
{
    assert(toml_scan::trivia_end(t, i, close, false) == i);
    toml_scan::lemma_key_end(t, i + 1, close);
    assert(toml_scan::key_end(t, i, close) > i);
    let n = toml_scan::key_end(t, i, close);
    let sign = toml_scan::trivia_end(t, n, close, false);
    if sign < close && t[sign] as char == '=' {
        let value = toml_scan::trivia_end(t, sign + 1, close, false);
        let rest = toml_table::entries_from(t, toml_scan::value_end(t, value, close), close);
        assert(toml_table::entries_from(t, i, close).drop_first() =~= rest);
    }
}

/// The string for a key is that of the last entry with the key and a string.
pub proof fn law_last_string_counts(t: Seq<u8>, close: int, entries: Seq<Entry>, key: Seq<char>)
    ensures
        match toml_table::last_string(t, close, entries, key) {
            Some(s) => exists|k: int|
                0 <= k < entries.len() && (#[trigger] entries[k]).key == key && toml_scan::toml_str(
                    t,
                    entries[k].at,
                    close,
                ) == Some(s) && forall|j: int|
                    k < j < entries.len() && (#[trigger] entries[j]).key == key
                        ==> toml_scan::toml_str(t, entries[j].at, close) is None,
            None => forall|j: int|
                0 <= j < entries.len() && (#[trigger] entries[j]).key == key ==> toml_scan::toml_str(
                    t,
                    entries[j].at,
                    close,
                ) is None,
        },
    decreases entries.len(),
{
    if entries.len() > 0 {
        let init = entries.drop_last();
        assert(entries[entries.len() - 1] == entries.last());
        law_last_string_counts(t, close, init, key);
        if !toml_table::gives_string(t, close, entries.last(), key) {
            match toml_table::last_string(t, close, init, key) {
                Some(s) => {
                    let k = choose|k: int|
                        0 <= k < init.len() && (#[trigger] init[k]).key == key
                            && toml_scan::toml_str(t, init[k].at, close) == Some(s)
                            && forall|j: int|
                            k < j < init.len() && (#[trigger] init[j]).key == key
                                ==> toml_scan::toml_str(t, init[j].at, close) is None;
                    assert(entries[k] == init[k]);
                    assert forall|j: int|
                        k < j < entries.len() && (#[trigger] entries[j]).key
                            == key implies toml_scan::toml_str(t, entries[j].at, close) is None by {
                        if j < init.len() {
                            assert(init[j] == entries[j]);
                        }
                    }
                },
                None => {
                    assert forall|j: int|
                        0 <= j < entries.len() && (#[trigger] entries[j]).key
                            == key implies toml_scan::toml_str(t, entries[j].at, close) is None by {
                        if j < init.len() {
                            assert(init[j] == entries[j]);
                        }
                    }
                },
            }
        }
    }
}

/// Whether an entry gives the key a string that the cursor is in.
pub open spec fn string_with_cursor(
    t: Seq<u8>,
    close: int,
    e: Entry,
    key: Seq<char>,
    at: int,
) -> bool {
    e.key == key && (toml_scan::toml_str(t, e.at, close) matches Some(s) && s.start <= at <= s.end)
}

/// The string for a key that the cursor is in is one that an entry with the key has around the cursor;
/// of several, the last.
pub proof fn law_string_for_a_key_around_the_cursor(
    t: Seq<u8>,
    close: int,
    entries: Seq<Entry>,
    key: Seq<char>,
    at: int,
)
    ensures
        match toml_table::last_string_at(t, close, entries, key, at) {
            Some(s) => exists|k: int|
                0 <= k < entries.len() && #[trigger] string_with_cursor(t, close, entries[k], key, at)
                    && toml_scan::toml_str(t, entries[k].at, close) == Some(s) && forall|j: int|
                    k < j < entries.len() ==> !#[trigger] string_with_cursor(
                        t,
                        close,
                        entries[j],
                        key,
                        at,
                    ),
            None => forall|j: int|
                0 <= j < entries.len() ==> !#[trigger] string_with_cursor(
                    t,
                    close,
                    entries[j],
                    key,
                    at,
                ),
        },
    decreases entries.len(),
{
    if entries.len() > 0 {
        let init = entries.drop_last();
        let last = entries.last();
        assert(entries[entries.len() - 1] == last);
        law_string_for_a_key_around_the_cursor(t, close, init, key, at);
        if string_with_cursor(t, close, last, key, at) {
            assert(toml_table::last_string_at(t, close, entries, key, at) == toml_scan::toml_str(
                t,
                last.at,
                close,
            ));
            assert(string_with_cursor(t, close, entries[entries.len() - 1], key, at));
        } else {
            assert(toml_table::last_string_at(t, close, entries, key, at)
                == toml_table::last_string_at(t, close, init, key, at));
            assert forall|j: int| 0 <= j < init.len() implies #[trigger] entries[j] == init[j] by {}
            match toml_table::last_string_at(t, close, init, key, at) {
                Some(s) => {
                    let k = choose|k: int|
                        0 <= k < init.len() && #[trigger] string_with_cursor(
                            t,
                            close,
                            init[k],
                            key,
                            at,
                        ) && toml_scan::toml_str(t, init[k].at, close) == Some(s) && forall|j: int|
                            k < j < init.len() ==> !#[trigger] string_with_cursor(
                                t,
                                close,
                                init[j],
                                key,
                                at,
                            );
                    assert(string_with_cursor(t, close, entries[k], key, at));
                    assert forall|j: int| k < j < entries.len() implies !#[trigger] string_with_cursor(
                        t,
                        close,
                        entries[j],
                        key,
                        at,
                    ) by {
                        if j < init.len() {
                            assert(!string_with_cursor(t, close, init[j], key, at));
                        }
                    }
                },
                None => {
                    assert forall|j: int| 0 <= j < entries.len() implies !#[trigger] string_with_cursor(
                        t,
                        close,
                        entries[j],
                        key,
                        at,
                    ) by {
                        if j < init.len() {
                            assert(!string_with_cursor(t, close, init[j], key, at));
                        }
                    }
                },
            }
        }
    }
}

/// Whether an entry gives `features` an array.
pub open spec fn array_of_features(t: Seq<u8>, close: int, e: Entry) -> bool {
    e.key == "features"@ && e.at < close && t[e.at] as char == '['
}

/// Of the arrays of features of an inline table, the last one counts.
pub proof fn law_last_features_count(t: Seq<u8>, close: int, entries: Seq<Entry>, k: int, at: int)
    ensures
        (forall|j: int| 0 <= j < entries.len() ==> !#[trigger] array_of_features(t, close, entries[j]))
            ==> toml_table::last_features(t, close, entries, at) is None,
        0 <= k < entries.len() && array_of_features(t, close, entries[k]) && (forall|j: int|
            k < j < entries.len() ==> !#[trigger] array_of_features(t, close, entries[j]))
            ==> toml_table::last_features(t, close, entries, at) == toml_table::feature_slot(
            t,
            entries[k].at,
            close,
            at,
        ),
    decreases entries.len(),
{
    if entries.len() > 0 {
        let init = entries.drop_last();
        assert(array_of_features(t, close, entries[entries.len() - 1]) == array_of_features(
            t,
            close,
            entries.last(),
        ));
        assert forall|j: int| 0 <= j < init.len() implies #[trigger] array_of_features(
            t,
            close,
            init[j],
        ) == array_of_features(t, close, entries[j]) by {}
        law_last_features_count(t, close, init, k, at);
    }
}

/// What an inline table says comes from its entries: `package`, `version` and `features` are read under
/// these keys, and a version is being typed where the cursor is in the string of `version`.
pub proof fn law_keys_of_a_table(t: Seq<u8>, open: int, close: int, at: int)
    ensures
        ({
            let entries = toml_table::entries_from(t, open + 1, close);
            let table = toml_table::inline_table(t, open, close, at);
            &&& match toml_table::last_string(t, close, entries, "package"@) {
                Some(s) => table.package == Some(s.value),
                None => table.package is None,
            }
            &&& match toml_table::last_string(t, close, entries, "version"@) {
                Some(s) => table.version == Some(s.value),
                None => table.version is None,
            }
            &&& match (
                toml_table::last_string_at(t, close, entries, "version"@, at),
                table.version_cursor,
            ) {
                (Some(s), Some((prefix, start, end))) => {
                    &&& start == s.start
                    &&& end == s.end
                    &&& valid_utf8(t.subrange(s.start, at)) ==> prefix == decode_utf8(
                        t.subrange(s.start, at),
                    )
                    &&& !valid_utf8(t.subrange(s.start, at)) ==> prefix.len() == 0
                },
                (None, None) => true,
                _ => false,
            }
            &&& table.features == toml_table::last_features(t, close, entries, at)
        }),
{
}

/// What was read of an array of features and of an inline table is what they say.
pub proof fn law_table_that_was_read(f: FeatureArray, table: InlineTable)
    ensures
        f@.selected == text::texts(f.selected_features@),
        f@.prefix == f.feature_prefix@,
        f@.start == f.content_start,
        f@.end == f.content_end,
        f@.next == f.next_offset,
        table@.package is Some <==> table.package_name is Some,
        table.package_name matches Some(p) ==> table@.package == Some(p@),
        table@.version is Some <==> table.version is Some,
        table.version matches Some(v) ==> table@.version == Some(v@),
        table@.version_cursor is Some <==> table.version_cursor is Some,
        table.version_cursor matches Some((p, s, e)) ==> table@.version_cursor == Some(
            (p@, s as int, e as int),
        ),
        table@.features is Some <==> table.feature_array is Some,
        table.feature_array matches Some(a) ==> table@.features == Some(a@),
{
}

} // verus!
