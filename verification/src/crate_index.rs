//! An index of crates by the first two bytes of their names.
use crate::ascii;
use crate::ascii::{find_byte, SPACE};
use crate::index_cache;
use crate::index_cache::is_cache_expired;
use crate::position;
use crate::position::{count_lines, line_starts, line_text};
use crate::text;
use vstd::hash_map::StringHashMap;
use vstd::prelude::*;
use vstd::string::*;
use vstd::utf8::*;

verus! {

/// A crate of the index.
pub struct CrateEntry {
    /// The name of the crate.
    pub name: String,
    /// Its latest version.
    pub version: String,
    /// The line of the index that lists it, counted from zero.
    pub rank: usize,
}

/// The text that a [`CrateEntry`] holds.
pub struct EntryModel {
    /// The name of the crate.
    pub name: Seq<char>,
    /// Its latest version.
    pub version: Seq<char>,
    /// The line of the index that lists it, counted from zero.
    pub rank: int,
}

impl View for CrateEntry {
    type V = EntryModel;

    open spec fn view(&self) -> EntryModel {
        EntryModel { name: self.name@, version: self.version@, rank: self.rank as int }
    }
}

impl Clone for CrateEntry {
    fn clone(&self) -> (r: Self)
        ensures
            r@ == self@,
    {
        CrateEntry { name: self.name.clone(), version: self.version.clone(), rank: self.rank }
    }
}

/// The text that a list of entries holds.
pub open spec fn models(v: Seq<CrateEntry>) -> Seq<EntryModel> {
    v.map_values(|e: CrateEntry| e@)
}

/// The key of the bucket that a name belongs to: the lower case of its first two bytes.
pub open spec fn bucket_key(name: Seq<char>) -> Seq<char> {
    text::lowercase(decode_utf8(encode_utf8(name).subrange(0, 2)))
}

/// The name that a line of the index lists: what comes before its first space.
pub open spec fn name_in_line(line: Seq<u8>) -> Seq<u8> {
    let t = text::trimmed_bytes(line);
    t.subrange(0, ascii::first_at(t, SPACE, 0))
}

/// The version that a line of the index lists: what comes behind its first space.
pub open spec fn version_in_line(line: Seq<u8>) -> Seq<char> {
    let t = text::trimmed_bytes(line);
    let space = ascii::first_at(t, SPACE, 0);
    if space < t.len() {
        decode_utf8(t.subrange(space + 1, t.len() as int))
    } else {
        "0.0.0"@
    }
}

/// The crate that line `rank` of the index lists, where its name has two bytes or more.
pub open spec fn entry_in_line(line: Seq<u8>, rank: int) -> Option<EntryModel> {
    if name_in_line(line).len() < 2 {
        None
    } else {
        Some(
            EntryModel {
                name: decode_utf8(name_in_line(line)),
                version: version_in_line(line),
                rank,
            },
        )
    }
}

/// The crates that the first `n` lines of the index `b` list.
pub open spec fn entries_upto(b: Seq<u8>, n: int) -> Seq<EntryModel>
    decreases n,
{
    if n <= 0 {
        Seq::empty()
    } else {
        match entry_in_line(position::line_bytes(b, n - 1), n - 1) {
            Some(e) => entries_upto(b, n - 1).push(e),
            None => entries_upto(b, n - 1),
        }
    }
}

/// The crates that the index `b` lists.
pub open spec fn entries_of(b: Seq<u8>) -> Seq<EntryModel> {
    entries_upto(b, position::line_count(b))
}

/// The entries that belong to the bucket with that key, in their order.
pub open spec fn bucket_of(entries: Seq<EntryModel>, key: Seq<char>) -> Seq<EntryModel> {
    entries.filter(|e: EntryModel| bucket_key(e.name) == key)
}

/// The entries by the keys of their buckets.
pub open spec fn buckets_of(entries: Seq<EntryModel>) -> Map<Seq<char>, Seq<EntryModel>> {
    Map::new(
        |key: Seq<char>| bucket_of(entries, key).len() > 0,
        |key: Seq<char>| bucket_of(entries, key),
    )
}

/// Whether no name in the first `n` lines of the index `b` has its second byte in the middle of a
/// character.
pub open spec fn indexable_upto(b: Seq<u8>, n: int) -> bool {
    forall|k: int|
        #![trigger position::line_bytes(b, k)]
        0 <= k < n && name_in_line(position::line_bytes(b, k)).len() >= 2 ==> is_char_boundary(
            name_in_line(position::line_bytes(b, k)),
            2,
        )
}

/// Whether each name of the index `b` can be cut behind its second byte.
pub open spec fn indexable(b: Seq<u8>) -> bool {
    indexable_upto(b, position::line_count(b))
}

/// What the buckets `m` hold under `key`.
pub open spec fn held(m: Map<Seq<char>, Seq<EntryModel>>, key: Seq<char>) -> Seq<EntryModel> {
    if m.contains_key(key) {
        m[key]
    } else {
        Seq::empty()
    }
}

/// One more entry goes to the end of its bucket and changes no other.
pub proof fn lemma_buckets_push(entries: Seq<EntryModel>, e: EntryModel)
    ensures
        buckets_of(entries.push(e)) == buckets_of(entries).insert(
            bucket_key(e.name),
            held(buckets_of(entries), bucket_key(e.name)).push(e),
        ),
{
    let key = bucket_key(e.name);
    let next = entries.push(e);
    assert forall|k: Seq<char>| #[trigger] bucket_of(next, k) == if k == key {
        bucket_of(entries, k).push(e)
    } else {
        bucket_of(entries, k)
    } by {
        reveal(Seq::filter);
        assert(next.drop_last() =~= entries);
    }
    assert(bucket_of(entries, key).len() == 0 ==> bucket_of(entries, key) =~= Seq::empty());
    assert(buckets_of(next) =~= buckets_of(entries).insert(
        key,
        held(buckets_of(entries), key).push(e),
    ));
}

/// Lists of entries by key.
struct Buckets {
    slots: StringHashMap<usize>,
    lists: Vec<Vec<CrateEntry>>,
}

impl Buckets {
    /// Each key has a list of its own.
    spec fn wf(&self) -> bool {
        &&& forall|k: Seq<char>| #[trigger]
            self.slots@.contains_key(k) ==> self.slots@[k] < self.lists@.len()
        &&& forall|j: Seq<char>, k: Seq<char>|
            #![trigger self.slots@.contains_key(j), self.slots@.contains_key(k)]
            self.slots@.contains_key(j) && self.slots@.contains_key(k) && j != k ==> self.slots@[j]
                != self.slots@[k]
    }

    /// The lists by key.
    spec fn map(&self) -> Map<Seq<char>, Seq<EntryModel>> {
        Map::new(
            |k: Seq<char>| self.slots@.contains_key(k),
            |k: Seq<char>| models(self.lists@[self.slots@[k] as int]@),
        )
    }

    fn new() -> (r: Self)
        ensures
            r.wf(),
            r.map() == Map::<Seq<char>, Seq<EntryModel>>::empty(),
    {
        let r = Buckets { slots: StringHashMap::new(), lists: Vec::new() };
        assert(r.map() =~= Map::<Seq<char>, Seq<EntryModel>>::empty());
        r
    }

    /// Adds `entry` at the end of the list for `key`.
    fn push(&mut self, key: String, entry: CrateEntry)
        requires
            old(self).wf(),
        ensures
            final(self).wf(),
            final(self).map() == old(self).map().insert(
                key@,
                held(old(self).map(), key@).push(entry@),
            ),
    {
        let ghost before = *self;
        let ghost e = entry@;
        let ghost k = key@;
        let known: Option<usize> = match self.slots.get(key.as_str()) {
            Some(i) => Some(*i),
            None => None,
        };
        match known {
            Some(i) => {
                self.lists[i].push(entry);
                assert(self.slots@ == before.slots@);
                assert(models(self.lists@[i as int]@) =~= models(before.lists@[i as int]@).push(e));
                assert forall|j: Seq<char>| #[trigger]
                    self.slots@.contains_key(j) && j != k implies self.lists@[self.slots@[j] as int]
                    == before.lists@[before.slots@[j] as int] by {
                    assert(before.slots@.contains_key(k));
                }
            },
            None => {
                let i: usize = self.lists.len();
                let mut list: Vec<CrateEntry> = Vec::new();
                list.push(entry);
                assert(models(list@) =~= Seq::empty().push(e));
                self.lists.push(list);
                self.slots.insert(key, i);
            },
        }
        assert(self.map() =~= before.map().insert(k, held(before.map(), k).push(e)));
    }

    /// The list for `key`.
    fn get(&self, key: &str) -> (r: Option<&Vec<CrateEntry>>)
        requires
            self.wf(),
        ensures
            match r {
                Some(v) => self.map().contains_key(key@) && self.map()[key@] == models(v@),
                None => !self.map().contains_key(key@),
            },
    {
        match self.slots.get(key) {
            Some(i) => Some(&self.lists[*i]),
            None => None,
        }
    }
}

/// The copy of the index on disk.
pub enum CacheFile {
    /// There is none.
    Missing,
    /// There is one, but it cannot be read.
    Unreadable,
    /// There is one, with this content.
    Readable(String),
}

/// Whether the index has to be downloaded.
#[derive(Clone, Copy, Debug, PartialEq, Eq, Structural)]
pub enum Refresh {
    /// No: the copy on disk is in date.
    NotNeeded,
    /// Yes, while the copy on disk is in use.
    InBackground,
    /// Yes, before the index is of any use.
    Required,
}

/// Whether the index has to be downloaded at the time `now`, in seconds, where `meta` is the text
/// that goes with the copy on disk.
pub open spec fn refresh_for(cache: CacheFile, meta: Option<Seq<char>>, now: u64) -> Refresh {
    if cache is Missing {
        Refresh::Required
    } else if index_cache::expired(meta, now) {
        Refresh::InBackground
    } else {
        Refresh::NotNeeded
    }
}

/// An index of crates.
pub struct CrateIndex {
    buckets: Buckets,
    loaded: bool,
}

impl CrateIndex {
    /// What every index keeps.
    pub closed spec fn wf(&self) -> bool {
        self.buckets.wf()
    }

    /// The crates by the keys of their buckets.
    pub closed spec fn buckets(&self) -> Map<Seq<char>, Seq<EntryModel>> {
        self.buckets.map()
    }

    /// Whether the index was built.
    pub closed spec fn loaded(&self) -> bool {
        self.loaded
    }

    /// An index without crates, which was not built yet.
    pub fn new() -> (r: Self)
        ensures
            r.wf(),
            r.buckets() == Map::<Seq<char>, Seq<EntryModel>>::empty(),
            !r.loaded(),
    {
        CrateIndex { buckets: Buckets::new(), loaded: false }
    }

    /// Whether the index was built.
    pub fn is_loaded(&self) -> (r: bool)
        ensures
            r == self.loaded(),
    {
        self.loaded
    }

    /// Builds the index anew from a text that lists one crate per line: its name, a space and its
    /// version.
    pub fn build_index(&mut self, content: &str)
        requires
            indexable(content.spec_bytes()),
        ensures
            final(self).wf(),
            final(self).loaded(),
            final(self).buckets() == buckets_of(entries_of(content.spec_bytes())),
    {
        let ghost b = content.spec_bytes();
        let ls = line_starts(content);
        let count: usize = count_lines(content, ls.as_slice());
        let mut buckets = Buckets::new();
        let mut rank: usize = 0;
        proof {
            text::lemma_str_bytes(content);
            position::lemma_starts(b, b.len() as int);
            assert(entries_upto(b, 0) =~= Seq::empty());
            lemma_no_buckets();
        }
        while rank < count
            invariant
                b == content.spec_bytes(),
                position::ints(ls@) == position::starts_of(b),
                rank <= count <= ls@.len(),
                count == position::line_count(b),
                indexable(b),
                buckets.wf(),
                buckets.map() == buckets_of(entries_upto(b, rank as int)),
            decreases count - rank,
        {
            let raw = line_text(content, ls.as_slice(), rank);
            let line = raw.trim();
            let bytes = line.as_bytes();
            proof {
                text::lemma_str_bytes(raw);
                text::lemma_str_bytes(line);
                ascii::lemma_first_at(bytes@, SPACE, 0);
                is_char_boundary_start_end_of_seq(bytes@);
                assert(entries_upto(b, rank + 1) == match entry_in_line(
                    position::line_bytes(b, rank as int),
                    rank as int,
                ) {
                    Some(e) => entries_upto(b, rank as int).push(e),
                    None => entries_upto(b, rank as int),
                });
            }
            let len: usize = bytes.len();
            let (name, version) = match find_byte(bytes, SPACE, 0) {
                Some(i) => {
                    proof {
                        text::lemma_ascii_boundary(bytes@, i as int);
                    }
                    (text::slice_str(line, 0, i), text::slice_str(line, i + 1, len))
                },
                None => {
                    assert(bytes@.subrange(0, bytes@.len() as int) =~= bytes@);
                    (line, "0.0.0")
                },
            };
            proof {
                text::lemma_str_bytes(name);
                text::lemma_str_bytes(version);
                assert(name.spec_bytes() == name_in_line(position::line_bytes(b, rank as int)));
                assert(version@ == version_in_line(position::line_bytes(b, rank as int)));
            }
            if name.as_bytes().len() >= 2 {
                proof {
                    is_char_boundary_start_end_of_seq(name.spec_bytes());
                }
                let start = text::slice_str(name, 0, 2);
                proof {
                    text::lemma_str_bytes(start);
                    lemma_buckets_push(
                        entries_upto(b, rank as int),
                        EntryModel { name: name@, version: version@, rank: rank as int },
                    );
                }
                let entry = CrateEntry { name: name.to_owned(), version: version.to_owned(), rank };
                buckets.push(start.to_lowercase(), entry);
            }
            rank += 1;
        }
        self.buckets = buckets;
        self.loaded = true;
    }

    /// Builds the index from the copy on disk, where it can be read, and says whether the index has
    /// to be downloaded. `meta` is the text that goes with the copy, and `now` the time in seconds.
    pub fn initialize(&mut self, cache: &CacheFile, meta: Option<&str>, now: u64) -> (r: Refresh)
        requires
            old(self).wf(),
            cache matches CacheFile::Readable(content) ==> indexable(encode_utf8(content@)),
        ensures
            final(self).wf(),
            match cache {
                CacheFile::Readable(content) => {
                    &&& final(self).loaded()
                    &&& final(self).buckets() == buckets_of(entries_of(encode_utf8(content@)))
                },
                _ => {
                    &&& final(self).loaded() == old(self).loaded()
                    &&& final(self).buckets() == old(self).buckets()
                },
            },
            r == refresh_for(
                *cache,
                match meta {
                    Some(text) => Some(text@),
                    None => None,
                },
                now,
            ),
    {
        match cache {
            CacheFile::Missing => {
                return Refresh::Required;
            },
            CacheFile::Unreadable => {},
            CacheFile::Readable(content) => {
                self.build_index(content.as_str());
            },
        }
        if is_cache_expired(meta, now) {
            Refresh::InBackground
        } else {
            Refresh::NotNeeded
        }
    }

    /// The crates whose names start with `query`, in any case, up to `max_results` of them (but the
    /// first of them in any event), in the order of the index. A query of less than two bytes finds
    /// nothing.
    pub fn search(&self, query: &str, max_results: usize) -> (r: Vec<CrateEntry>)
        requires
            self.wf(),
            self.loaded() && query.spec_bytes().len() >= 2 ==> sliceable(text::lowercase(query@)),
        ensures
            models(r@) == if self.loaded() && query.spec_bytes().len() >= 2 {
                found(self.buckets(), text::lowercase(query@), max_results as int)
            } else {
                Seq::empty()
            },
    {
        let mut results: Vec<CrateEntry> = Vec::new();
        assert(models(results@) =~= Seq::empty());
        if !self.loaded || query.as_bytes().len() < 2 {
            return results;
        }
        let q = query.to_lowercase();
        let lowered = q.as_str();
        let ghost buckets = self.buckets();
        proof {
            text::lemma_str_bytes(lowered);
            is_char_boundary_start_end_of_seq(encode_utf8(q@));
        }
        let prefix = text::slice_str(lowered, 0, 2);
        proof {
            text::lemma_str_bytes(prefix);
            assert(prefix@ == two_bytes(q@));
            reveal(Seq::filter);
        }
        let bucket: &Vec<CrateEntry> = match self.buckets.get(prefix) {
            Some(bucket) => bucket,
            None => {
                assert(matching(Seq::empty(), q@) =~= Seq::empty());
                assert(found(buckets, q@, max_results as int) =~= Seq::empty());
                return results;
            },
        };
        let ghost all = models(bucket@);
        let mut i: usize = 0;
        assert(all.take(0) =~= Seq::empty());
        while i < bucket.len()
            invariant
                i <= bucket@.len(),
                all == models(bucket@),
                models(results@) == matching(all.take(i as int), q@),
                results@.len() == 0 || results@.len() < max_results,
                buckets.contains_key(two_bytes(q@)),
                buckets[two_bytes(q@)] == all,
                self.buckets() == buckets,
                self.loaded(),
                query.spec_bytes().len() >= 2,
                q@ == text::lowercase(query@),
                lowered@ == q@,
            decreases bucket@.len() - i,
        {
            let entry = &bucket[i];
            proof {
                reveal(Seq::filter);
                assert(all.take(i + 1).drop_last() =~= all.take(i as int));
                assert(all[i as int] == entry@);
            }
            if text::str_starts_with(entry.name.to_lowercase().as_str(), lowered) {
                let ghost before = results@;
                let copy = entry.clone();
                results.push(copy);
                assert(models(results@) =~= models(before).push(entry@));
                if results.len() >= max_results {
                    proof {
                        let head = all.take(i + 1);
                        let tail = all.skip(i + 1);
                        assert(all =~= head + tail);
                        Seq::filter_distributes_over_add(
                            head,
                            tail,
                            |e: EntryModel| matches_query(e, q@),
                        );
                        assert(found(buckets, q@, max_results as int) =~= models(results@));
                    }
                    return results;
                }
            }
            i += 1;
        }
        assert(all.take(bucket@.len() as int) =~= all);
        assert(found(buckets, q@, max_results as int) =~= models(results@));
        results
    }

    /// As [`CrateIndex::search`], for any query: `None` where the lower case of the query cannot be
    /// cut behind its second byte.
    pub fn try_search(&self, query: &str, max_results: usize) -> (r: Option<Vec<CrateEntry>>)
        requires
            self.wf(),
        ensures
            match r {
                Some(v) => models(v@) == if self.loaded() && query.spec_bytes().len() >= 2 {
                    found(self.buckets(), text::lowercase(query@), max_results as int)
                } else {
                    Seq::empty()
                },
                None => self.loaded() && query.spec_bytes().len() >= 2,
            },
            r is None <==> self.loaded() && query.spec_bytes().len() >= 2 && !sliceable(
                text::lowercase(query@),
            ),
    {
        if self.loaded && query.as_bytes().len() >= 2 {
            let q = query.to_lowercase();
            if !q.as_str().is_char_boundary(2) {
                return None;
            }
        }
        Some(self.search(query, max_results))
    }

    /// The version of the first crate of that name, in any case.
    pub fn get_latest_version(&self, crate_name: &str) -> (r: Option<String>)
        requires
            self.wf(),
            self.loaded() && encode_utf8(text::lowercase(crate_name@)).len() >= 2 ==> sliceable(
                text::lowercase(crate_name@),
            ),
        ensures
            match r {
                Some(v) => latest(self.loaded(), self.buckets(), text::lowercase(crate_name@)) == Some(
                    v@,
                ),
                None => latest(self.loaded(), self.buckets(), text::lowercase(crate_name@)) is None,
            },
    {
        if !self.loaded {
            return None;
        }
        let q = crate_name.to_lowercase();
        let lowered = q.as_str();
        let ghost buckets = self.buckets();
        if lowered.as_bytes().len() < 2 {
            return None;
        }
        proof {
            text::lemma_str_bytes(lowered);
            is_char_boundary_start_end_of_seq(encode_utf8(q@));
        }
        let prefix = text::slice_str(lowered, 0, 2);
        proof {
            text::lemma_str_bytes(prefix);
            assert(prefix@ == two_bytes(q@));
        }
        let bucket: &Vec<CrateEntry> = match self.buckets.get(prefix) {
            Some(bucket) => bucket,
            None => {
                return None;
            },
        };
        let ghost all = models(bucket@);
        let mut i: usize = 0;
        while i < bucket.len()
            invariant
                i <= bucket@.len(),
                all == models(bucket@),
                first_named(all, q@, i as int) == first_named(all, q@, 0),
                held(buckets, two_bytes(q@)) == all,
                self.buckets() == buckets,
                self.loaded(),
                encode_utf8(q@).len() >= 2,
                q@ == text::lowercase(crate_name@),
                lowered@ == q@,
            decreases bucket@.len() - i,
        {
            let entry = &bucket[i];
            assert(all[i as int] == entry@);
            if text::str_equal(entry.name.to_lowercase().as_str(), lowered) {
                return Some(entry.version.clone());
            }
            i += 1;
        }
        None
    }

    /// As [`CrateIndex::get_latest_version`], for any name: an outer `None` where the lower case of
    /// the name cannot be cut behind its second byte.
    pub fn try_get_latest_version(&self, crate_name: &str) -> (r: Option<Option<String>>)
        requires
            self.wf(),
        ensures
            match r {
                Some(Some(v)) => latest(self.loaded(), self.buckets(), text::lowercase(crate_name@))
                    == Some(v@),
                Some(None) => latest(self.loaded(), self.buckets(), text::lowercase(crate_name@)) is None,
                None => true,
            },
            r is None <==> self.loaded() && encode_utf8(text::lowercase(crate_name@)).len() >= 2
                && !sliceable(text::lowercase(crate_name@)),
    {
        if self.loaded {
            let q = crate_name.to_lowercase();
            if q.as_str().as_bytes().len() >= 2 && !q.as_str().is_char_boundary(2) {
                return None;
            }
        }
        Some(self.get_latest_version(crate_name))
    }
}

/// Whether `q` can be cut behind its second byte.
pub open spec fn sliceable(q: Seq<char>) -> bool {
    is_char_boundary(encode_utf8(q), 2)
}

/// The first two bytes of `q`.
pub open spec fn two_bytes(q: Seq<char>) -> Seq<char> {
    decode_utf8(encode_utf8(q).subrange(0, 2))
}

/// Whether the name of `e` starts with `q`, in any case, where `q` is in lower case.
pub open spec fn matches_query(e: EntryModel, q: Seq<char>) -> bool {
    q.is_prefix_of(text::lowercase(e.name))
}

/// The entries whose names start with `q`, in their order.
pub open spec fn matching(entries: Seq<EntryModel>, q: Seq<char>) -> Seq<EntryModel> {
    entries.filter(|e: EntryModel| matches_query(e, q))
}

/// The first `max` entries, but one in any event.
pub open spec fn limited(entries: Seq<EntryModel>, max: int) -> Seq<EntryModel> {
    let limit = if max < 1 {
        1
    } else {
        max
    };
    if entries.len() <= limit {
        entries
    } else {
        entries.take(limit)
    }
}

/// What a search for `q`, which is in lower case, finds in the buckets.
pub open spec fn found(buckets: Map<Seq<char>, Seq<EntryModel>>, q: Seq<char>, max: int) -> Seq<
    EntryModel,
> {
    limited(matching(held(buckets, two_bytes(q)), q), max)
}

/// The first entry at or after `i` whose name is `q`, in any case.
pub open spec fn first_named(entries: Seq<EntryModel>, q: Seq<char>, i: int) -> Option<EntryModel>
    decreases entries.len() - i,
{
    if i >= entries.len() {
        None
    } else if text::lowercase(entries[i].name) == q {
        Some(entries[i])
    } else {
        first_named(entries, q, i + 1)
    }
}

/// The version of the crate with the name `q`, in any case.
pub open spec fn latest(
    loaded: bool,
    buckets: Map<Seq<char>, Seq<EntryModel>>,
    q: Seq<char>,
) -> Option<Seq<char>> {
    if loaded && encode_utf8(q).len() >= 2 {
        match first_named(held(buckets, two_bytes(q)), q, 0) {
            Some(e) => Some(e.version),
            None => None,
        }
    } else {
        None
    }
}

/// No entries make no buckets.
proof fn lemma_no_buckets()
    ensures
        buckets_of(Seq::empty()) == Map::<Seq<char>, Seq<EntryModel>>::empty(),
{
    reveal(Seq::filter);
    assert(buckets_of(Seq::empty()) =~= Map::<Seq<char>, Seq<EntryModel>>::empty());
}

/// Tells whether an index can be built from `content`: whether no name in it has its second byte in
/// the middle of a character.
pub fn can_index(content: &str) -> (r: bool)
    ensures
        r == indexable(content.spec_bytes()),
{
    let ghost b = content.spec_bytes();
    let ls = line_starts(content);
    let count: usize = count_lines(content, ls.as_slice());
    let mut k: usize = 0;
    proof {
        text::lemma_str_bytes(content);
        position::lemma_starts(b, b.len() as int);
    }
    while k < count
        invariant
            b == content.spec_bytes(),
            position::ints(ls@) == position::starts_of(b),
            k <= count <= ls@.len(),
            count == position::line_count(b),
            indexable_upto(b, k as int),
        decreases count - k,
    {
        let raw = line_text(content, ls.as_slice(), k);
        let line = raw.trim();
        let bytes = line.as_bytes();
        proof {
            text::lemma_str_bytes(raw);
            text::lemma_str_bytes(line);
            ascii::lemma_first_at(bytes@, SPACE, 0);
            is_char_boundary_start_end_of_seq(bytes@);
        }
        let end: usize = match find_byte(bytes, SPACE, 0) {
            Some(i) => {
                proof {
                    text::lemma_ascii_boundary(bytes@, i as int);
                }
                i
            },
            None => bytes.len(),
        };
        let name = text::slice_str(line, 0, end);
        if name.as_bytes().len() >= 2 && !name.is_char_boundary(2) {
            assert(name.spec_bytes() == name_in_line(position::line_bytes(b, k as int)));
            return false;
        }
        k += 1;
    }
    true
}

/// Whether the search for `q` looks for each entry that it is to find in the bucket where the entry
/// is: where the lower case of the first two bytes of its name is the first two bytes of `q`.
pub open spec fn well_bucketed(entries: Seq<EntryModel>, q: Seq<char>) -> bool {
    forall|i: int|
        0 <= i < entries.len() && matches_query(#[trigger] entries[i], q) ==> bucket_key(
            entries[i].name,
        ) == two_bytes(q)
}

/// Whether the names of all entries are in ASCII and have two characters or more.
pub open spec fn ascii_names(entries: Seq<EntryModel>) -> bool {
    forall|i: int|
        0 <= i < entries.len() ==> is_ascii_chars((#[trigger] entries[i]).name)
            && entries[i].name.len() >= 2
}

/// Choosing by one condition and then by one that implies it is choosing by the second.
proof fn lemma_filter_twice(
    s: Seq<EntryModel>,
    p: spec_fn(EntryModel) -> bool,
    q: spec_fn(EntryModel) -> bool,
)
    requires
        forall|i: int| 0 <= i < s.len() && q(#[trigger] s[i]) ==> p(s[i]),
    ensures
        s.filter(p).filter(q) == s.filter(q),
    decreases s.len(),
{
    reveal(Seq::filter);
    if s.len() > 0 {
        let t = s.drop_last();
        assert forall|i: int| 0 <= i < t.len() && q(#[trigger] t[i]) implies p(t[i]) by {
            assert(t[i] == s[i]);
        }
        lemma_filter_twice(t, p, q);
        assert(s.last() == s[s.len() - 1]);
        if p(s.last()) {
            assert(t.filter(p).push(s.last()).drop_last() =~= t.filter(p));
        }
    }
}

/// The first two bytes of an ASCII text are its first two characters.
pub proof fn lemma_two_bytes_ascii(s: Seq<char>)
    requires
        is_ascii_chars(s),
        s.len() >= 2,
    ensures
        two_bytes(s) == s.subrange(0, 2),
        sliceable(s),
{
    text::lemma_ascii_slice(s, 0, 2);
}

/// The lower case of an ASCII text is in ASCII, and of the same length.
pub proof fn lemma_lowercase_ascii(s: Seq<char>)
    requires
        is_ascii_chars(s),
    ensures
        is_ascii_chars(text::lowercase(s)),
        text::lowercase(s).len() == s.len(),
        text::lowercase(s) == s.map_values(|c: char| text::ascii_lower(c)),
{
    let r = text::lowercase(s);
    assert forall|i: int| 0 <= i < r.len() implies '\0' <= #[trigger] r[i] <= '\u{7f}' by {
        assert('\0' <= s[i] <= '\u{7f}');
    }
}

/// The bucket of an ASCII name is that of the first two bytes of its lower case.
pub proof fn lemma_bucket_of_ascii(name: Seq<char>)
    requires
        is_ascii_chars(name),
        name.len() >= 2,
    ensures
        bucket_key(name) == two_bytes(text::lowercase(name)),
        bucket_key(name) == text::lowercase(name).subrange(0, 2),
{
    lemma_two_bytes_ascii(name);
    lemma_lowercase_ascii(name);
    lemma_two_bytes_ascii(text::lowercase(name));
    assert(is_ascii_chars(name.subrange(0, 2)));
    assert(text::ascii_lowercase(name.subrange(0, 2)) =~= text::lowercase(name).subrange(0, 2));
}

/// A search for `q` looks in the right bucket for each crate whose name is in ASCII.
pub proof fn law_ascii_names_are_well_bucketed(entries: Seq<EntryModel>, q: Seq<char>)
    requires
        ascii_names(entries),
        is_ascii_chars(q),
        q.len() >= 2,
    ensures
        well_bucketed(entries, q),
{
    lemma_two_bytes_ascii(q);
    assert forall|i: int|
        0 <= i < entries.len() && matches_query(#[trigger] entries[i], q) implies bucket_key(
        entries[i].name,
    ) == two_bytes(q) by {
        let name = entries[i].name;
        lemma_bucket_of_ascii(name);
        let l = text::lowercase(name);
        assert(l.subrange(0, q.len() as int) == q);
        assert(l.subrange(0, 2) =~= q.subrange(0, 2)) by {
            assert forall|k: int| 0 <= k < 2 implies l[k] == q[k] by {
                assert(l.subrange(0, q.len() as int)[k] == l[k]);
            }
        }
    }
}

/// A search finds what was built in: the first crates of the index, up to the limit, whose names
/// start with the query, in any case and in the order of the index. (It holds where the search looks
/// for each of them in the bucket that it is in, as it does for names in ASCII.)
pub proof fn law_search_finds_what_was_built(entries: Seq<EntryModel>, q: Seq<char>, max: int)
    ensures
        well_bucketed(entries, q) ==> found(buckets_of(entries), q, max) == limited(
            matching(entries, q),
            max,
        ),
{
    if well_bucketed(entries, q) {
        let key = two_bytes(q);
        let p = |e: EntryModel| bucket_key(e.name) == key;
        let m = |e: EntryModel| matches_query(e, q);
        lemma_filter_twice(entries, p, m);
        assert(held(buckets_of(entries), key) =~= bucket_of(entries, key));
    }
}

/// The version of a crate is that of the first line of the index with its name, in any case. (It
/// holds where the look-up looks for each crate of that name in the bucket that it is in, as it does
/// for names in ASCII.)
pub proof fn law_latest_version_is_first_listed(entries: Seq<EntryModel>, q: Seq<char>)
    ensures
        well_bucketed(entries, q) && encode_utf8(q).len() >= 2 ==> latest(
            true,
            buckets_of(entries),
            q,
        ) == match first_named(entries, q, 0) {
            Some(e) => Some(e.version),
            None => None,
        },
{
    if well_bucketed(entries, q) && encode_utf8(q).len() >= 2 {
        let key = two_bytes(q);
        assert(held(buckets_of(entries), key) =~= bucket_of(entries, key));
        assert forall|i: int|
            0 <= i < entries.len() && text::lowercase((#[trigger] entries[i]).name)
                == q implies bucket_key(entries[i].name) == key by {
            assert(q.subrange(0, q.len() as int) =~= q);
            assert(matches_query(entries[i], q));
        }
        lemma_first_named_in_bucket(entries, q, key);
    }
}

/// The first entry of a name comes first also in its bucket.
proof fn lemma_first_named_in_bucket(entries: Seq<EntryModel>, q: Seq<char>, key: Seq<char>)
    requires
        forall|i: int|
            0 <= i < entries.len() && text::lowercase((#[trigger] entries[i]).name) == q
                ==> bucket_key(entries[i].name) == key,
    ensures
        first_named(bucket_of(entries, key), q, 0) == first_named(entries, q, 0),
    decreases entries.len(),
{
    reveal(Seq::filter);
    if entries.len() > 0 {
        let init = entries.drop_last();
        let e = entries.last();
        assert(e == entries[entries.len() - 1]);
        assert forall|i: int|
            0 <= i < init.len() && text::lowercase((#[trigger] init[i]).name)
                == q implies bucket_key(init[i].name) == key by {
            assert(init[i] == entries[i]);
        }
        lemma_first_named_in_bucket(init, q, key);
        assert(entries =~= init.push(e));
        lemma_first_named_push(init, e, q, 0);
        lemma_first_named_push(bucket_of(init, key), e, q, 0);
    }
}

/// One more entry at the end is the first of its name where no other is.
proof fn lemma_first_named_push(entries: Seq<EntryModel>, e: EntryModel, q: Seq<char>, i: int)
    requires
        0 <= i <= entries.len(),
    ensures
        first_named(entries.push(e), q, i) == match first_named(entries, q, i) {
            Some(f) => Some(f),
            None => if text::lowercase(e.name) == q {
                Some(e)
            } else {
                None
            },
        },
    decreases entries.len() - i,
{
    reveal_with_fuel(first_named, 2);
    if i < entries.len() {
        assert(entries.push(e)[i] == entries[i]);
        lemma_first_named_push(entries, e, q, i + 1);
    }
}

/// Whether the entries stand in the order of their lines.
pub open spec fn in_rank_order(entries: Seq<EntryModel>) -> bool {
    forall|i: int, j: int|
        0 <= i < j < entries.len() ==> (#[trigger] entries[i]).rank < (#[trigger] entries[j]).rank
}

/// The entries of an index stand in the order of their lines, and each is in a line of its own.
proof fn lemma_entries_in_rank_order(b: Seq<u8>, n: int)
    ensures
        in_rank_order(entries_upto(b, n)),
        forall|i: int| 0 <= i < entries_upto(b, n).len() ==> (#[trigger] entries_upto(b, n)[i]).rank < n,
    decreases n,
{
    if n > 0 {
        lemma_entries_in_rank_order(b, n - 1);
    }
}

/// Choosing entries keeps their order, and adds none.
pub proof fn lemma_filter_in_rank_order(s: Seq<EntryModel>, p: spec_fn(EntryModel) -> bool)
    requires
        in_rank_order(s),
    ensures
        in_rank_order(s.filter(p)),
        forall|i: int| 0 <= i < s.filter(p).len() ==> s.contains(#[trigger] s.filter(p)[i]),
    decreases s.len(),
{
    reveal(Seq::filter);
    if s.len() > 0 {
        let t = s.drop_last();
        assert(in_rank_order(t)) by {
            assert forall|i: int, j: int| 0 <= i < j < t.len() implies (#[trigger] t[i]).rank < (
            #[trigger] t[j]).rank by {
                assert(t[i] == s[i] && t[j] == s[j]);
            }
        }
        lemma_filter_in_rank_order(t, p);
        assert forall|i: int| 0 <= i < t.filter(p).len() implies s.contains(#[trigger] t.filter(p)[i])
            && t.filter(p)[i].rank < s.last().rank by {
            let k = choose|k: int| 0 <= k < t.len() && t[k] == t.filter(p)[i];
            assert(s[k] == t.filter(p)[i]);
            assert(s[k].rank < s[s.len() - 1].rank);
        }
        assert(s.contains(s[s.len() - 1]));
    }
}

/// What a search finds in an index that was built from `b` is listed in `b`, starts with the query,
/// in any case, and comes in the order of the lines of `b`.
pub proof fn law_search_results_are_listed_in_order(b: Seq<u8>, q: Seq<char>, max: int)
    ensures
        ({
            let r = found(buckets_of(entries_of(b)), q, max);
            &&& in_rank_order(r)
            &&& forall|i: int|
                0 <= i < r.len() ==> entries_of(b).contains(#[trigger] r[i]) && matches_query(
                    r[i],
                    q,
                )
            &&& r.len() <= 1 || r.len() <= max
        }),
{
    let entries = entries_of(b);
    let key = two_bytes(q);
    let bucket = bucket_of(entries, key);
    let p = |e: EntryModel| bucket_key(e.name) == key;
    let m = |e: EntryModel| matches_query(e, q);
    lemma_entries_in_rank_order(b, position::line_count(b));
    lemma_filter_in_rank_order(entries, p);
    lemma_filter_in_rank_order(bucket, m);
    reveal(Seq::filter);
    assert(held(buckets_of(entries), key) =~= bucket);
    let all = matching(bucket, q);
    let r = found(buckets_of(entries), q, max);
    assert forall|i: int| 0 <= i < r.len() implies entries.contains(#[trigger] r[i])
        && matches_query(r[i], q) by {
        assert(r[i] == all[i]);
        bucket.lemma_filter_pred(m, i);
        let k = choose|k: int| 0 <= k < bucket.len() && bucket[k] == all[i];
        assert(entries.contains(bucket[k]));
    }
    assert(in_rank_order(r)) by {
        assert forall|i: int, j: int| 0 <= i < j < r.len() implies (#[trigger] r[i]).rank < (
        #[trigger] r[j]).rank by {
            assert(r[i] == all[i] && r[j] == all[j]);
        }
    }
}

} // verus!
