//! Laws of the crate index and of its copy on disk.
use crate::ascii;
use crate::crate_index;
use crate::crate_index::{CacheFile, CrateEntry, EntryModel, Refresh};
use crate::index_cache;
use crate::position;
use crate::text;
use vstd::prelude::*;
use vstd::string::*;
use vstd::utf8::*;

verus! {

/// Line `k` of the text `b`, without the white space around it.
pub open spec fn listed(b: Seq<u8>, k: int) -> Seq<char> {
    text::trimmed(decode_utf8(position::line_bytes(b, k)))
}

proof fn lemma_ascii_byte_is_a_character(s: Seq<char>, k: int)
    requires
        0 <= k < encode_utf8(s).len(),
        encode_utf8(s)[k] < 0x80,
    ensures
        s == decode_utf8(encode_utf8(s).subrange(0, k)) + seq![encode_utf8(s)[k] as char]
            + decode_utf8(encode_utf8(s).subrange(k + 1, encode_utf8(s).len() as int)),
        s.contains(encode_utf8(s)[k] as char),
{
    let b = encode_utf8(s);
    encode_utf8_valid_utf8(s);
    encode_utf8_decode_utf8(s);
    text::lemma_ascii_boundary(b, k);
    decode_utf8_split(b, k);
    valid_utf8_split(b, k);
    let tail = b.subrange(k, b.len() as int);
    assert(tail[0] == b[k]);
    text::lemma_ascii_boundary(tail, 0);
    decode_utf8_split(tail, 1);
    let one = tail.subrange(0, 1);
    assert(one =~= seq![b[k]]);
    text::lemma_ascii_decode(one);
    assert(decode_utf8(one) =~= seq![b[k] as char]);
    assert(tail.subrange(1, tail.len() as int) =~= b.subrange(k + 1, b.len() as int));
    let head = decode_utf8(b.subrange(0, k));
    assert(s =~= head + seq![b[k] as char] + decode_utf8(b.subrange(k + 1, b.len() as int)));
    assert(s[head.len() as int] == b[k] as char);
}

proof fn lemma_name_and_version(line: Seq<u8>, name: Seq<char>, version: Seq<char>)
    requires
        text::trimmed(decode_utf8(line)) == name + seq![' '] + version,
        !name.contains(' '),
    ensures
        crate_index::name_in_line(line) == encode_utf8(name),
        crate_index::version_in_line(line) == version,
{
    let s = text::trimmed(decode_utf8(line));
    let t = encode_utf8(s);
    let n = encode_utf8(name);
    text::lemma_encode_add(name + seq![' '], version);
    text::lemma_encode_add(name, seq![' ']);
    is_ascii_chars_encode_utf8(seq![' ']);
    assert(encode_utf8(seq![' ']) =~= seq![0x20u8]);
    assert(t =~= n + seq![0x20u8] + encode_utf8(version));
    let space = ascii::first_at(t, 0x20u8, 0);
    ascii::lemma_first_at(t, 0x20u8, 0);
    assert(t[n.len() as int] == 0x20u8);
    if space < n.len() {
        assert(n[space] == t[space]);
        lemma_ascii_byte_is_a_character(name, space);
    }
    assert(space == n.len());
    assert(t.subrange(0, space) =~= n);
    assert(t.subrange(space + 1, t.len() as int) =~= encode_utf8(version));
    encode_utf8_decode_utf8(version);
}

proof fn lemma_name_alone(line: Seq<u8>)
    requires
        !text::trimmed(decode_utf8(line)).contains(' '),
    ensures
        crate_index::name_in_line(line) == encode_utf8(text::trimmed(decode_utf8(line))),
        crate_index::version_in_line(line) == "0.0.0"@,
{
    let s = text::trimmed(decode_utf8(line));
    let t = encode_utf8(s);
    ascii::lemma_first_at(t, 0x20u8, 0);
    let space = ascii::first_at(t, 0x20u8, 0);
    if space < t.len() {
        lemma_ascii_byte_is_a_character(s, space);
    }
    assert(t.subrange(0, space) =~= t);
}

proof fn lemma_entries_contain(b: Seq<u8>, n: int, k: int)
    requires
        0 <= k < n,
    ensures
        crate_index::entry_in_line(position::line_bytes(b, k), k) matches Some(e)
            ==> crate_index::entries_upto(b, n).contains(e),
    decreases n,
{
    let before = crate_index::entries_upto(b, n - 1);
    let all = crate_index::entries_upto(b, n);
    if k == n - 1 {
        match crate_index::entry_in_line(position::line_bytes(b, k), k) {
            Some(e) => {
                assert(all[all.len() - 1] == e);
            },
            None => {},
        }
    } else {
        lemma_entries_contain(b, n - 1, k);
        match crate_index::entry_in_line(position::line_bytes(b, k), k) {
            Some(e) => {
                let m = choose|m: int| 0 <= m < before.len() && before[m] == e;
                assert(all[m] == e);
            },
            None => {},
        }
    }
}

proof fn lemma_entries_come_from_lines(b: Seq<u8>, n: int, i: int)
    requires
        0 <= i < crate_index::entries_upto(b, n).len(),
    ensures
        ({
            let e = crate_index::entries_upto(b, n)[i];
            &&& 0 <= e.rank < n
            &&& crate_index::entry_in_line(position::line_bytes(b, e.rank), e.rank) == Some(e)
        }),
    decreases n,
{
    if n > 0 && i < crate_index::entries_upto(b, n - 1).len() {
        lemma_entries_come_from_lines(b, n - 1, i);
    }
}

/// Each line of the index with a name, a space and a version is an entry: with exactly that name, that
/// version, and the number of the line as its rank. So is each line with a name alone, with the version
/// `0.0.0`. The name has two bytes or more, and may hold any characters but the space.
pub proof fn law_each_line_is_an_entry(b: Seq<u8>, k: int, name: Seq<char>, version: Seq<char>)
    requires
        0 <= k < position::line_count(b),
        encode_utf8(name).len() >= 2,
        !name.contains(' '),
    ensures
        listed(b, k) == name + seq![' '] + version ==> crate_index::entries_of(b).contains(
            (EntryModel { name, version, rank: k }),
        ),
        listed(b, k) == name ==> crate_index::entries_of(b).contains(
            (EntryModel { name, version: "0.0.0"@, rank: k }),
        ),
{
    let line = position::line_bytes(b, k);
    encode_utf8_decode_utf8(name);
    if listed(b, k) == name + seq![' '] + version {
        lemma_name_and_version(line, name, version);
        lemma_entries_contain(b, position::line_count(b), k);
    }
    if listed(b, k) == name {
        lemma_name_alone(line);
        lemma_entries_contain(b, position::line_count(b), k);
    }
}

/// Each entry of the index comes from a line of its own: the line that its rank counts holds its name, a
/// space and its version, or its name alone. The entries are in the order of their lines.
pub proof fn law_each_entry_is_a_line(b: Seq<u8>, i: int)
    requires
        0 <= i < crate_index::entries_of(b).len(),
    ensures
        ({
            let e = crate_index::entries_of(b)[i];
            &&& 0 <= e.rank < position::line_count(b)
            &&& encode_utf8(e.name).len() >= 2
            &&& !e.name.contains(' ')
            &&& {
                ||| listed(b, e.rank) == e.name + seq![' '] + e.version
                ||| listed(b, e.rank) == e.name && e.version == "0.0.0"@
            }
            &&& i + 1 < crate_index::entries_of(b).len() ==> e.rank < crate_index::entries_of(
                b,
            )[i + 1].rank
        }),
{
    lemma_entries_come_from_lines(b, position::line_count(b), i);
    let e = crate_index::entries_of(b)[i];
    let line = position::line_bytes(b, e.rank);
    let s = listed(b, e.rank);
    lemma_line_splits(line);
    if i + 1 < crate_index::entries_of(b).len() {
        lemma_entries_grow(b, position::line_count(b), i);
    }
}

proof fn lemma_entries_grow(b: Seq<u8>, n: int, i: int)
    requires
        0 <= i < crate_index::entries_upto(b, n).len() - 1,
    ensures
        crate_index::entries_upto(b, n)[i].rank < crate_index::entries_upto(b, n)[i + 1].rank,
    decreases n,
{
    let before = crate_index::entries_upto(b, n - 1);
    if i + 1 < before.len() {
        lemma_entries_grow(b, n - 1, i);
    } else {
        lemma_entries_come_from_lines(b, n - 1, i);
    }
}

proof fn lemma_line_splits(line: Seq<u8>)
    ensures
        ({
            let s = text::trimmed(decode_utf8(line));
            let name = decode_utf8(crate_index::name_in_line(line));
            let version = crate_index::version_in_line(line);
            &&& crate_index::name_in_line(line) == encode_utf8(name)
            &&& !name.contains(' ')
            &&& s == name + seq![' '] + version || (s == name && version == "0.0.0"@)
        }),
{
    let s = text::trimmed(decode_utf8(line));
    let t = encode_utf8(s);
    encode_utf8_decode_utf8(s);
    ascii::lemma_first_at(t, 0x20u8, 0);
    let space = ascii::first_at(t, 0x20u8, 0);
    if space < t.len() {
        lemma_ascii_byte_is_a_character(s, space);
        let name = decode_utf8(t.subrange(0, space));
        encode_utf8_valid_utf8(s);
        text::lemma_ascii_boundary(t, space);
        valid_utf8_split(t, space);
        decode_utf8_encode_utf8(t.subrange(0, space));
        lemma_no_space(name, t.subrange(0, space));
    } else {
        assert(t.subrange(0, space) =~= t);
        lemma_no_space(s, t);
    }
}

proof fn lemma_no_space(name: Seq<char>, bytes: Seq<u8>)
    requires
        bytes == encode_utf8(name),
        forall|i: int| 0 <= i < bytes.len() ==> bytes[i] != 0x20u8,
    ensures
        !name.contains(' '),
{
    if name.contains(' ') {
        let k = choose|k: int| 0 <= k < name.len() && name[k] == ' ';
        let head = name.subrange(0, k);
        let tail = name.subrange(k + 1, name.len() as int);
        assert(name =~= head + seq![' '] + tail);
        text::lemma_encode_add(head + seq![' '], tail);
        text::lemma_encode_add(head, seq![' ']);
        is_ascii_chars_encode_utf8(seq![' ']);
        assert(encode_utf8(seq![' ']) =~= seq![0x20u8]);
        assert(bytes[encode_utf8(head).len() as int] == 0x20u8);
    }
}

/// A search finds those entries whose names start with the query, in any case, and keeps their order;
/// of these the first ones up to the limit, and one in any event.
pub proof fn law_entries_that_are_found(entries: Seq<EntryModel>, q: Seq<char>, max: int)
    ensures
        crate_index::well_bucketed(entries, q) ==> {
            let wanted = entries.filter(
                |e: EntryModel| q.is_prefix_of(text::lowercase(e.name)),
            );
            let r = crate_index::found(crate_index::buckets_of(entries), q, max);
            &&& wanted.len() <= max || wanted.len() <= 1 ==> r == wanted
            &&& wanted.len() > max && max >= 1 ==> r == wanted.take(max)
            &&& wanted.len() > 1 && max < 1 ==> r == wanted.take(1)
        },
{
    crate_index::law_search_finds_what_was_built(entries, q, max);
    assert(crate_index::matching(entries, q) =~= entries.filter(
        |e: EntryModel| q.is_prefix_of(text::lowercase(e.name)),
    )) by {
        lemma_same_filter(entries, q);
    }
}

proof fn lemma_same_filter(entries: Seq<EntryModel>, q: Seq<char>)
    ensures
        crate_index::matching(entries, q) == entries.filter(
            |e: EntryModel| q.is_prefix_of(text::lowercase(e.name)),
        ),
    decreases entries.len(),
{
    reveal(Seq::filter);
    if entries.len() > 0 {
        lemma_same_filter(entries.drop_last(), q);
    }
}

/// Each crate with an ASCII name that starts with the query, in any case, is found, unless as many as
/// the limit says are found already, all of which are listed before it.
pub proof fn law_no_crate_is_missed(entries: Seq<EntryModel>, query: Seq<char>, max: int, j: int)
    requires
        crate_index::ascii_names(entries),
        is_ascii_chars(query),
        query.len() >= 2,
        forall|i: int, k: int|
            0 <= i < k < entries.len() ==> (#[trigger] entries[i]).rank < (#[trigger] entries[k]).rank,
        0 <= j < entries.len(),
        text::lowercase(query).is_prefix_of(text::lowercase(entries[j].name)),
    ensures
        ({
            let r = crate_index::found(
                crate_index::buckets_of(entries),
                text::lowercase(query),
                max,
            );
            ||| r.contains(entries[j])
            ||| r.len() >= 1 && r.len() >= max && forall|i: int|
                0 <= i < r.len() ==> (#[trigger] r[i]).rank < entries[j].rank
        }),
{
    let q = text::lowercase(query);
    crate_index::lemma_lowercase_ascii(query);
    crate_index::law_ascii_names_are_well_bucketed(entries, q);
    crate_index::law_search_finds_what_was_built(entries, q, max);
    let p = |e: EntryModel| crate_index::matches_query(e, q);
    let all = entries.filter(p);
    entries.lemma_filter_contains(p, j);
    crate_index::lemma_filter_in_rank_order(entries, p);
    let m = choose|m: int| 0 <= m < all.len() && all[m] == entries[j];
    let r = crate_index::found(crate_index::buckets_of(entries), q, max);
    if m < r.len() {
        assert(r[m] == all[m]);
    } else {
        assert forall|i: int| 0 <= i < r.len() implies (#[trigger] r[i]).rank < entries[j].rank by {
            assert(r[i] == all[i]);
            assert(all[i].rank < all[m].rank);
        }
    }
}

/// The version of a crate is that of the first entry with its name, in any case. There is none where no
/// entry has it, the index was not built, or the name has less than two bytes.
pub proof fn law_version_of_a_crate(entries: Seq<EntryModel>, q: Seq<char>, j: int)
    ensures
        crate_index::latest(false, crate_index::buckets_of(entries), q) is None,
        encode_utf8(q).len() < 2 ==> crate_index::latest(true, crate_index::buckets_of(entries), q)
            is None,
        encode_utf8(q).len() >= 2 && crate_index::well_bucketed(entries, q) ==> {
            let v = crate_index::latest(true, crate_index::buckets_of(entries), q);
            &&& (forall|i: int|
                0 <= i < entries.len() ==> text::lowercase((#[trigger] entries[i]).name) != q) ==> v
                is None
            &&& 0 <= j < entries.len() && text::lowercase(entries[j].name) == q && (forall|i: int|
                0 <= i < j ==> text::lowercase((#[trigger] entries[i]).name) != q) ==> v == Some(
                entries[j].version,
            )
        },
{
    crate_index::law_latest_version_is_first_listed(entries, q);
    lemma_first_named(entries, q, 0, j);
}

proof fn lemma_first_named(entries: Seq<EntryModel>, q: Seq<char>, i: int, j: int)
    requires
        0 <= i,
    ensures
        (forall|k: int|
            i <= k < entries.len() ==> text::lowercase((#[trigger] entries[k]).name) != q)
            ==> crate_index::first_named(entries, q, i) is None,
        i <= j < entries.len() && text::lowercase(entries[j].name) == q && (forall|k: int|
            i <= k < j ==> text::lowercase((#[trigger] entries[k]).name) != q)
            ==> crate_index::first_named(entries, q, i) == Some(entries[j]),
    decreases entries.len() - i,
{
    if i < entries.len() {
        lemma_first_named(entries, q, i + 1, j);
    }
}

/// A name belongs to the bucket of the lower case of its first two bytes, whatever characters they are,
/// and a query looks into the bucket of its first two bytes.
pub proof fn law_buckets_by_two_bytes(start: Seq<char>, rest: Seq<char>)
    requires
        encode_utf8(start).len() == 2,
    ensures
        crate_index::bucket_key(start + rest) == text::lowercase(start),
        crate_index::two_bytes(start + rest) == start,
{
    text::lemma_encode_add(start, rest);
    assert(encode_utf8(start + rest).subrange(0, 2) =~= encode_utf8(start));
    encode_utf8_decode_utf8(start);
}

/// A name or a query can be cut behind its second byte where a character ends there.
pub proof fn law_names_that_can_be_cut(q: Seq<char>)
    ensures
        crate_index::sliceable(q) <==> is_char_boundary(encode_utf8(q), 2),
{
}

/// A text can be indexed where each name of two bytes or more can be cut behind its second byte.
pub proof fn law_texts_that_can_be_indexed(b: Seq<u8>)
    ensures
        crate_index::indexable(b) <==> forall|k: int|
            0 <= k < position::line_count(b) ==> {
                let name = #[trigger] crate_index::name_in_line(position::line_bytes(b, k));
                name.len() >= 2 ==> is_char_boundary(name, 2)
            },
{
    if crate_index::indexable(b) {
        assert forall|k: int| 0 <= k < position::line_count(b) implies {
            let name = #[trigger] crate_index::name_in_line(position::line_bytes(b, k));
            name.len() >= 2 ==> is_char_boundary(name, 2)
        } by {}
    }
    if forall|k: int|
        0 <= k < position::line_count(b) ==> {
            let name = #[trigger] crate_index::name_in_line(position::line_bytes(b, k));
            name.len() >= 2 ==> is_char_boundary(name, 2)
        } {
        assert forall|k: int|
            #![trigger position::line_bytes(b, k)]
            0 <= k < position::line_count(b) && crate_index::name_in_line(
                position::line_bytes(b, k),
            ).len() >= 2 implies is_char_boundary(
            crate_index::name_in_line(position::line_bytes(b, k)),
            2,
        ) by {
            let name = crate_index::name_in_line(position::line_bytes(b, k));
        }
    }
}

/// The index is downloaded before it is of use where there is no copy, in the background where the copy
/// is out of date, and not at all where it is in date, whether it can be read or not.
pub proof fn law_when_to_download(content: String, meta: Option<Seq<char>>, now: u64)
    ensures
        crate_index::refresh_for(CacheFile::Missing, meta, now) == Refresh::Required,
        index_cache::expired(meta, now) ==> {
            &&& crate_index::refresh_for(CacheFile::Unreadable, meta, now) == Refresh::InBackground
            &&& crate_index::refresh_for(CacheFile::Readable(content), meta, now)
                == Refresh::InBackground
        },
        !index_cache::expired(meta, now) ==> {
            &&& crate_index::refresh_for(CacheFile::Unreadable, meta, now) == Refresh::NotNeeded
            &&& crate_index::refresh_for(CacheFile::Readable(content), meta, now)
                == Refresh::NotNeeded
        },
{
}

/// A copy is out of date more than a day after the time under `lastUpdate`, and where no such time is
/// known. A time in the future is in date.
pub proof fn law_age_of_a_copy(text: Seq<char>, now: u64)
    ensures
        index_cache::expired(None, now),
        index_cache::json_number(text, "lastUpdate"@) is None ==> index_cache::expired(
            Some(text),
            now,
        ),
        index_cache::json_number(text, "lastUpdate"@) matches Some(time) ==> (index_cache::expired(
            Some(text),
            now,
        ) <==> now > time + 24 * 60 * 60),
{
}

/// A text is made of letters where each of its characters is a small letter or a capital of ASCII.
pub proof fn law_letters(s: Seq<char>)
    ensures
        index_cache::letters(s) <==> forall|i: int|
            0 <= i < s.len() ==> ('a' <= #[trigger] s[i] <= 'z') || ('A' <= s[i] <= 'Z'),
{
}

/// The model of an entry has its name, its version and its rank, and that of a list has those of each of
/// its entries.
pub proof fn law_entries_as_models(e: CrateEntry, v: Seq<CrateEntry>)
    ensures
        e@.name == e.name@,
        e@.version == e.version@,
        e@.rank == e.rank,
        crate_index::models(v).len() == v.len(),
        forall|i: int| 0 <= i < v.len() ==> #[trigger] crate_index::models(v)[i] == v[i]@,
{
}

} // verus!
