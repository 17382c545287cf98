//! The features of crates: the records of the sparse index, the choice of a version, and the cache.
use crate::position;
use crate::position::{count_lines, line_starts, line_text};
use crate::sorted_names;
use crate::sorted_names::insert_name;
use crate::text;
use vstd::hash_map::StringHashMap;
use vstd::prelude::*;
use vstd::string::*;
use vstd::utf8::*;

verus! {

/// What the sparse index says of one version of a crate.
pub struct SparseRecord {
    /// The version.
    pub vers: String,
    /// Whether the version was withdrawn.
    pub yanked: bool,
    /// The names of its features.
    pub features: Vec<String>,
    /// The names of its features that are written in the newer syntax.
    pub features2: Option<Vec<String>>,
}

/// What the sparse index says of one version of a crate.
#[verifier::ext_equal]
pub struct RecordModel {
    pub vers: Seq<char>,
    pub yanked: bool,
    pub features: Seq<Seq<char>>,
    pub features2: Option<Seq<Seq<char>>>,
}

impl View for SparseRecord {
    type V = RecordModel;

    open spec fn view(&self) -> RecordModel {
        RecordModel {
            vers: self.vers@,
            yanked: self.yanked,
            features: text::texts(self.features@),
            features2: match self.features2 {
                Some(names) => Some(text::texts(names@)),
                None => None,
            },
        }
    }
}

/// The models of a sequence of records.
pub open spec fn models(records: Seq<SparseRecord>) -> Seq<RecordModel> {
    records.map_values(|r: SparseRecord| r@)
}

/// Whether `semver` reads `text` as a version requirement.
pub uninterp spec fn is_requirement(text: Seq<char>) -> bool;

/// Whether `semver` reads `text` as a version.
pub uninterp spec fn is_version(text: Seq<char>) -> bool;

/// Whether the version satisfies the requirement, as `semver` reads both.
pub uninterp spec fn admits(requirement: Seq<char>, version: Seq<char>) -> bool;

/// Whether version `a` comes before version `b` in the order of `semver`, or at the same place.
pub uninterp spec fn at_most(a: Seq<char>, b: Seq<char>) -> bool;

/// `semver::VersionReq::parse` reads a version requirement, or fails. Whether it fails is a function
/// of the text, and no more is claimed of it.
#[verifier::external_body]
fn requirement_parses(text: &str) -> (r: bool)
    ensures
        r == is_requirement(text@),
{
    semver::VersionReq::parse(text).is_ok()
}

/// `semver::Version::parse` reads a version, or fails. Whether it fails is a function of the text,
/// and no more is claimed of it.
#[verifier::external_body]
fn version_parses(text: &str) -> (r: bool)
    ensures
        r == is_version(text@),
{
    semver::Version::parse(text).is_ok()
}

/// `semver::VersionReq::matches` tells whether a version satisfies a requirement. The answer is a
/// function of the two texts, and no more is claimed of it.
#[verifier::external_body]
fn requirement_admits(requirement: &str, version: &str) -> (r: bool)
    requires
        is_requirement(requirement@),
        is_version(version@),
    ensures
        r == admits(requirement@, version@),
{
    match (semver::VersionReq::parse(requirement), semver::Version::parse(version)) {
        (Ok(requirement), Ok(version)) => requirement.matches(&version),
        _ => false,
    }
}

/// `<=` on `semver::Version` is a total order. So what is at most the lower of two versions is at
/// most the higher, and of two versions one is at most the other. Which one is a function of the two
/// texts, and no more is claimed of it.
#[verifier::external_body]
fn version_at_most(a: &str, b: &str) -> (r: bool)
    requires
        is_version(a@),
        is_version(b@),
    ensures
        r == at_most(a@, b@),
        r ==> forall|c: Seq<char>|
            is_version(c) && #[trigger] at_most(c, a@) ==> at_most(c, b@),
        !r ==> at_most(b@, a@),
        !r ==> forall|c: Seq<char>|
            is_version(c) && #[trigger] at_most(c, b@) ==> at_most(c, a@),
{
    match (semver::Version::parse(a), semver::Version::parse(b)) {
        (Ok(a), Ok(b)) => a <= b,
        _ => false,
    }
}

/// Whether a version may be chosen for a requirement: it was not withdrawn, and satisfies it.
pub open spec fn candidate(record: RecordModel, requirement: Seq<char>) -> bool {
    !record.yanked && is_version(record.vers) && admits(requirement, record.vers)
}

/// Whether record `k` is the one to choose: the highest candidate, and the last of those that are
/// at the same place in the order.
pub open spec fn chosen(records: Seq<RecordModel>, requirement: Seq<char>, k: int) -> bool {
    &&& 0 <= k < records.len()
    &&& candidate(records[k], requirement)
    &&& forall|j: int|
        0 <= j < records.len() && j != k && candidate(#[trigger] records[j], requirement)
            ==> at_most(records[j].vers, records[k].vers)
    &&& forall|j: int|
        k < j < records.len() && candidate(#[trigger] records[j], requirement) ==> !at_most(
            records[k].vers,
            records[j].vers,
        )
}

/// Whether `names` lists the features of a record, in ascending order.
pub open spec fn lists_features(names: Seq<Seq<char>>, record: RecordModel) -> bool {
    &&& sorted_names::ascending(names)
    &&& forall|s: Seq<char>| #[trigger]
        names.contains(s) <==> record.features.contains(s) || (record.features2 matches Some(
            more,
        ) && more.contains(s))
}

/// Whether `answer` is what the records of a crate say of its features: those of the chosen version,
/// or nothing where the requirement makes no sense or no version satisfies it.
pub open spec fn resolves(
    records: Seq<RecordModel>,
    version_req: Seq<char>,
    answer: Option<Seq<Seq<char>>>,
) -> bool {
    let requirement = text::trimmed(version_req);
    match answer {
        Some(names) => is_requirement(requirement) && exists|k: int| #[trigger]
            chosen(records, requirement, k) && lists_features(names, records[k]),
        None => !is_requirement(requirement) || forall|k: int|
            0 <= k < records.len() ==> !candidate(#[trigger] records[k], requirement),
    }
}

/// The texts of a list of names that may be missing.
pub open spec fn optional_texts(names: Option<Vec<String>>) -> Option<Seq<Seq<char>>> {
    match names {
        Some(names) => Some(text::texts(names@)),
        None => None,
    }
}

/// The names of the features of a record, in ascending order.
pub fn feature_names(record: &SparseRecord) -> (r: Vec<String>)
    ensures
        lists_features(text::texts(r@), record@),
{
    let mut names: Vec<String> = Vec::new();
    assert(text::texts(names@) =~= Seq::empty());
    insert_names(&mut names, &record.features);
    match &record.features2 {
        Some(more) => insert_names(&mut names, more),
        None => {},
    }
    names
}

/// Adds names to a list of names in ascending order.
fn insert_names(names: &mut Vec<String>, more: &Vec<String>)
    requires
        sorted_names::ascending(text::texts(old(names)@)),
    ensures
        sorted_names::ascending(text::texts(final(names)@)),
        forall|s: Seq<char>| #[trigger]
            text::texts(final(names)@).contains(s) <==> text::texts(old(names)@).contains(s)
                || text::texts(more@).contains(s),
{
    let ghost before = text::texts(names@);
    let ghost added = text::texts(more@);
    let mut i: usize = 0;
    assert(added.take(0) =~= Seq::empty());
    while i < more.len()
        invariant
            i <= more@.len(),
            added == text::texts(more@),
            sorted_names::ascending(text::texts(names@)),
            forall|s: Seq<char>| #[trigger]
                text::texts(names@).contains(s) <==> before.contains(s) || added.take(
                    i as int,
                ).contains(s),
        decreases more@.len() - i,
    {
        insert_name(names, more[i].as_str());
        proof {
            let head = added.take(i as int);
            let next = added.take(i + 1);
            assert(next =~= head.push(more@[i as int]@));
            assert forall|s: Seq<char>| #[trigger] next.contains(s) <==> s == more@[i as int]@
                || head.contains(s) by {
                assert(next[i as int] == more@[i as int]@);
                if head.contains(s) {
                    let k = choose|k: int| 0 <= k < head.len() && head[k] == s;
                    assert(next[k] == s);
                }
            }
        }
        i += 1;
    }
    assert(added.take(more@.len() as int) =~= added);
}

/// Which record to keep after one more was looked at: the one that was kept so far, or the next,
/// which takes its place where it is a candidate that is not lower.
pub fn keep_higher(kept: Option<usize>, next: usize, is_candidate: bool, not_lower: bool) -> (r:
    Option<usize>)
    ensures
        r == if is_candidate && (kept is None || not_lower) {
            Some(next)
        } else {
            kept
        },
{
    match kept {
        Some(k) => if is_candidate && not_lower {
            Some(next)
        } else {
            Some(k)
        },
        None => if is_candidate {
            Some(next)
        } else {
            None
        },
    }
}

/// The index of the record to choose for a requirement, if there is one.
fn choose_record(records: &Vec<SparseRecord>, requirement: &str) -> (r: Option<usize>)
    requires
        is_requirement(requirement@),
    ensures
        match r {
            Some(k) => chosen(models(records@), requirement@, k as int),
            None => forall|k: int|
                0 <= k < records@.len() ==> !candidate(
                    #[trigger] models(records@)[k],
                    requirement@,
                ),
        },
{
    let ghost all = models(records@);
    let mut kept: Option<usize> = None;
    let mut i: usize = 0;
    while i < records.len()
        invariant
            i <= records@.len(),
            all == models(records@),
            is_requirement(requirement@),
            match kept {
                Some(k) => k < i && chosen(all.take(i as int), requirement@, k as int),
                None => forall|k: int|
                    0 <= k < i ==> !candidate(#[trigger] all[k], requirement@),
            },
        decreases records@.len() - i,
    {
        let next = &records[i];
        assert(all[i as int] == next@);
        let version = next.vers.as_str();
        let is_candidate = !next.yanked && version_parses(version) && requirement_admits(
            requirement,
            version,
        );
        let not_lower = match kept {
            Some(k) => {
                assert(all.take(i as int)[k as int] == records@[k as int]@);
                is_candidate && version_at_most(records[k].vers.as_str(), version)
            },
            None => true,
        };
        let ghost head = all.take(i as int);
        let ghost longer = all.take(i + 1);
        let ghost before = kept;
        kept = keep_higher(kept, i, is_candidate, not_lower);
        proof {
            assert(longer =~= head.push(next@));
            match before {
                Some(k) => {
                    let k = k as int;
                    let now = kept.unwrap() as int;
                    assert(longer[k] == head[k]);
                    assert forall|j: int|
                        0 <= j < longer.len() && j != now && candidate(
                            #[trigger] longer[j],
                            requirement@,
                        ) implies at_most(longer[j].vers, longer[now].vers) by {
                        if j < i {
                            assert(longer[j] == head[j]);
                            if j != k {
                                assert(at_most(head[j].vers, head[k].vers));
                            }
                        }
                    }
                    assert forall|j: int|
                        now < j < longer.len() && candidate(
                            #[trigger] longer[j],
                            requirement@,
                        ) implies !at_most(longer[now].vers, longer[j].vers) by {
                        if j < i {
                            assert(longer[j] == head[j]);
                        }
                    }
                },
                None => {
                    assert forall|j: int| 0 <= j < i implies !candidate(
                        #[trigger] longer[j],
                        requirement@,
                    ) by {
                        assert(longer[j] == all[j]);
                    }
                },
            }
        }
        i += 1;
    }
    assert(all.take(records@.len() as int) =~= all);
    kept
}

/// The features of the highest version that satisfies the requirement and was not withdrawn.
pub fn resolve_features(records: &Vec<SparseRecord>, version_req: &str) -> (r: Option<Vec<String>>)
    ensures
        resolves(models(records@), version_req@, optional_texts(r)),
{
    let requirement = version_req.trim();
    if !requirement_parses(requirement) {
        return None;
    }
    match choose_record(records, requirement) {
        Some(k) => {
            let record = &records[k];
            assert(models(records@)[k as int] == record@);
            Some(feature_names(record))
        },
        None => None,
    }
}

/// The records say one thing only of the features of a crate for a requirement.
pub proof fn law_answer_is_unique(
    records: Seq<RecordModel>,
    version_req: Seq<char>,
    a: Option<Seq<Seq<char>>>,
    b: Option<Seq<Seq<char>>>,
)
    ensures
        resolves(records, version_req, a) && resolves(records, version_req, b) ==> a == b,
{
    let requirement = text::trimmed(version_req);
    if resolves(records, version_req, a) && resolves(records, version_req, b) && a is Some
        && b is Some {
        let i = choose|k: int| #[trigger]
            chosen(records, requirement, k) && lists_features(a.unwrap(), records[k]);
        let j = choose|k: int| #[trigger]
            chosen(records, requirement, k) && lists_features(b.unwrap(), records[k]);
        if i < j {
            assert(at_most(records[i].vers, records[j].vers));
        }
        if j < i {
            assert(at_most(records[j].vers, records[i].vers));
        }
        assert(i == j);
        sorted_names::law_ascending_list_is_unique(a.unwrap(), b.unwrap());
    }
}

/// The path of a crate in the sparse index.
pub open spec fn sparse_path_of(name: Seq<char>) -> Seq<char> {
    let b = encode_utf8(name);
    if b.len() == 0 {
        Seq::empty()
    } else if b.len() == 1 {
        "1/"@ + name
    } else if b.len() == 2 {
        "2/"@ + name
    } else if b.len() == 3 {
        "3/"@ + decode_utf8(b.subrange(0, 1)) + "/"@ + name
    } else {
        decode_utf8(b.subrange(0, 2)) + "/"@ + decode_utf8(b.subrange(2, 4)) + "/"@ + name
    }
}

/// Whether the directories of a crate in the sparse index can be cut from its name: characters end
/// where the parts of the name end.
pub open spec fn has_sparse_path(name: Seq<char>) -> bool {
    let b = encode_utf8(name);
    &&& b.len() == 3 ==> is_char_boundary(b, 1)
    &&& b.len() >= 4 ==> is_char_boundary(b, 2) && is_char_boundary(b, 4)
}

/// The address of a crate in the sparse index.
pub open spec fn sparse_url_of(name: Seq<char>) -> Seq<char> {
    "https://index.crates.io/"@ + sparse_path_of(name)
}

/// The path of a crate in the sparse index.
pub fn sparse_path(name: &str) -> (r: String)
    requires
        has_sparse_path(name@),
    ensures
        r@ == sparse_path_of(name@),
{
    proof {
        text::lemma_str_bytes(name);
        is_char_boundary_start_end_of_seq(name.spec_bytes());
    }
    let len: usize = name.as_bytes().len();
    let mut path = String::new();
    if len == 0 {
        assert(path@ =~= Seq::empty());
        return path;
    }
    if len == 1 {
        path.append("1/");
    } else if len == 2 {
        path.append("2/");
    } else if len == 3 {
        let first = text::slice_str(name, 0, 1);
        proof {
            text::lemma_str_bytes(first);
        }
        path.append("3/");
        path.append(first);
        path.append("/");
    } else {
        let first = text::slice_str(name, 0, 2);
        let second = text::slice_str(name, 2, 4);
        proof {
            text::lemma_str_bytes(first);
            text::lemma_str_bytes(second);
        }
        path.append(first);
        path.append("/");
        path.append(second);
        path.append("/");
    }
    path.append(name);
    assert(path@ =~= sparse_path_of(name@));
    path
}

/// Tells whether a crate has a path in the sparse index.
pub fn can_have_sparse_path(name: &str) -> (r: bool)
    ensures
        r == has_sparse_path(name@),
{
    proof {
        text::lemma_str_bytes(name);
    }
    let len: usize = name.as_bytes().len();
    if len == 3 {
        name.is_char_boundary(1)
    } else if len >= 4 {
        name.is_char_boundary(2) && name.is_char_boundary(4)
    } else {
        true
    }
}

/// The address of a crate in the sparse index.
pub fn sparse_url(name: &str) -> (r: String)
    requires
        has_sparse_path(name@),
    ensures
        r@ == sparse_url_of(name@),
{
    let mut url = "https://index.crates.io/".to_owned();
    let path = sparse_path(name);
    url.append(path.as_str());
    url
}

/// Each crate whose name is in ASCII has a path in the sparse index. The directories of the path are
/// the length of the name, or parts of it: its first character, or its first two pairs of them.
pub proof fn law_sparse_path_of_ascii(name: Seq<char>)
    requires
        is_ascii_chars(name),
    ensures
        has_sparse_path(name),
        name.len() == 1 ==> sparse_path_of(name) == "1/"@ + name,
        name.len() == 2 ==> sparse_path_of(name) == "2/"@ + name,
        name.len() == 3 ==> sparse_path_of(name) == "3/"@ + name.subrange(0, 1) + "/"@ + name,
        name.len() >= 4 ==> sparse_path_of(name) == name.subrange(0, 2) + "/"@ + name.subrange(
            2,
            4,
        ) + "/"@ + name,
{
    text::lemma_ascii_slice(name, 0, 0);
    if name.len() >= 1 {
        text::lemma_ascii_slice(name, 0, 1);
    }
    if name.len() >= 4 {
        text::lemma_ascii_slice(name, 0, 2);
        text::lemma_ascii_slice(name, 2, 4);
    }
}

/// The lines of the first `n` lines of `b` that hold more than white space.
pub open spec fn filled_lines_upto(b: Seq<u8>, n: int) -> Seq<Seq<char>>
    decreases n,
{
    if n <= 0 {
        Seq::empty()
    } else {
        let line = decode_utf8(position::line_bytes(b, n - 1));
        if text::trimmed(line).len() == 0 {
            filled_lines_upto(b, n - 1)
        } else {
            filled_lines_upto(b, n - 1).push(line)
        }
    }
}

/// The lines of `b` that hold more than white space.
pub open spec fn filled_lines(b: Seq<u8>) -> Seq<Seq<char>> {
    filled_lines_upto(b, position::line_count(b))
}

/// The lines of a file of the sparse index that hold a record: those that are not blank.
pub fn record_lines(content: &str) -> (r: Vec<String>)
    ensures
        text::texts(r@) == filled_lines(content.spec_bytes()),
{
    let ghost b = content.spec_bytes();
    let ls = line_starts(content);
    let count: usize = count_lines(content, ls.as_slice());
    let mut lines: Vec<String> = Vec::new();
    let mut k: usize = 0;
    proof {
        position::lemma_starts(b, b.len() as int);
        assert(text::texts(lines@) =~= Seq::empty());
    }
    while k < count
        invariant
            b == content.spec_bytes(),
            position::ints(ls@) == position::starts_of(b),
            k <= count <= ls@.len(),
            count == position::line_count(b),
            text::texts(lines@) == filled_lines_upto(b, k as int),
        decreases count - k,
    {
        let line = line_text(content, ls.as_slice(), k);
        let trimmed = line.trim();
        proof {
            text::lemma_str_bytes(line);
        }
        if !trimmed.is_empty() {
            let ghost before = lines@;
            lines.push(line.to_owned());
            assert(text::texts(lines@) =~= text::texts(before).push(line@));
        }
        k += 1;
    }
    lines
}

/// What is known of the features of a crate, or where to ask.
pub enum Lookup {
    /// The answer.
    Known(Option<Vec<String>>),
    /// The records of the crate `name` have to be fetched from `url` first.
    Fetch { name: String, url: String },
}

/// The records of the crates that were asked for.
pub struct FeatureIndex {
    cache: StringHashMap<Option<Vec<SparseRecord>>>,
}

/// The model of the records of a crate; there are none where fetching them failed.
pub open spec fn optional_models(records: Option<Vec<SparseRecord>>) -> Option<Seq<RecordModel>> {
    match records {
        Some(records) => Some(models(records@)),
        None => None,
    }
}

/// Whether `answer` is what the cache says of a crate: what its records say, or nothing where
/// fetching them failed.
pub open spec fn answers(
    records: Option<Seq<RecordModel>>,
    version_req: Seq<char>,
    answer: Option<Seq<Seq<char>>>,
) -> bool {
    match records {
        Some(records) => resolves(records, version_req, answer),
        None => answer is None,
    }
}

/// The name by which a crate is known to the cache.
pub open spec fn cache_name(crate_name: Seq<char>) -> Seq<char> {
    text::lowercase(text::trimmed(crate_name))
}

/// Whether the records of a crate have to be fetched.
pub open spec fn must_fetch(
    cache: Map<Seq<char>, Option<Seq<RecordModel>>>,
    crate_name: Seq<char>,
) -> bool {
    cache_name(crate_name).len() > 0 && !cache.contains_key(cache_name(crate_name))
}

/// Whether `found` is what the cache gives for the features of a crate.
pub open spec fn looks_up(
    cache: Map<Seq<char>, Option<Seq<RecordModel>>>,
    crate_name: Seq<char>,
    version_req: Seq<char>,
    found: Lookup,
) -> bool {
    let n = cache_name(crate_name);
    match found {
        Lookup::Known(answer) => {
            &&& !must_fetch(cache, crate_name)
            &&& if n.len() == 0 {
                answer is None
            } else {
                answers(cache[n], version_req, optional_texts(answer))
            }
        },
        Lookup::Fetch { name, url } => {
            &&& must_fetch(cache, crate_name)
            &&& name@ == n
            &&& url@ == sparse_url_of(n)
        },
    }
}

/// The records of a reply: those of its lines that hold one.
pub open spec fn kept_records(lines: Seq<Option<SparseRecord>>) -> Seq<RecordModel>
    decreases lines.len(),
{
    if lines.len() == 0 {
        Seq::empty()
    } else {
        match lines.last() {
            Some(record) => kept_records(lines.drop_last()).push(record@),
            None => kept_records(lines.drop_last()),
        }
    }
}

/// Keeps the records of a reply, and drops the lines that hold none.
fn keep_records(lines: Vec<Option<SparseRecord>>) -> (r: Vec<SparseRecord>)
    ensures
        models(r@) == kept_records(lines@),
{
    let ghost all = lines@;
    let mut records: Vec<SparseRecord> = Vec::new();
    assert(models(records@) =~= kept_records(all.take(0)));
    for line in it: lines
        invariant
            it.seq() == all,
            models(records@) == kept_records(all.take(it.index() as int)),
    {
        let ghost before = records@;
        proof {
            let longer = all.take(it.index() + 1);
            assert(longer.drop_last() =~= all.take(it.index() as int));
            assert(longer.last() == line);
        }
        match line {
            Some(record) => {
                records.push(record);
                assert(models(records@) =~= models(before).push(record@));
            },
            None => {},
        }
    }
    assert(all.take(all.len() as int) =~= all);
    records
}

impl FeatureIndex {
    /// What the cache holds, by the name of the crate. There are no records where fetching them
    /// failed.
    pub closed spec fn cached(&self) -> Map<Seq<char>, Option<Seq<RecordModel>>> {
        self.cache@.map_values(|records: Option<Vec<SparseRecord>>| optional_models(records))
    }

    /// A cache without any crates.
    pub fn new() -> (r: Self)
        ensures
            r.cached() == Map::<Seq<char>, Option<Seq<RecordModel>>>::empty(),
    {
        let r = FeatureIndex { cache: StringHashMap::new() };
        assert(r.cached() =~= Map::empty());
        r
    }

    /// Looks up the features of a crate, in the highest version that satisfies `version_req` and was
    /// not withdrawn.
    pub fn get_features(&self, crate_name: &str, version_req: &str) -> (r: Lookup)
        requires
            must_fetch(self.cached(), crate_name@) ==> has_sparse_path(cache_name(crate_name@)),
        ensures
            looks_up(self.cached(), crate_name@, version_req@, r),
    {
        let name = crate_name.trim().to_lowercase();
        if name.as_str().is_empty() {
            return Lookup::Known(None);
        }
        match self.cache.get(name.as_str()) {
            Some(cached) => match cached {
                Some(records) => Lookup::Known(resolve_features(records, version_req)),
                None => Lookup::Known(None),
            },
            None => {
                let url = sparse_url(name.as_str());
                Lookup::Fetch { name, url }
            },
        }
    }

    /// Looks up the features of a crate as `get_features` does, but gives nothing where the records
    /// have to be fetched and the crate has no path in the sparse index.
    pub fn try_get_features(&self, crate_name: &str, version_req: &str) -> (r: Option<Lookup>)
        ensures
            r is None <==> must_fetch(self.cached(), crate_name@) && !has_sparse_path(
                cache_name(crate_name@),
            ),
            r matches Some(found) ==> looks_up(
                self.cached(),
                crate_name@,
                version_req@,
                found,
            ),
    {
        let name = crate_name.trim().to_lowercase();
        if !name.as_str().is_empty() && !self.cache.contains_key(name.as_str())
            && !can_have_sparse_path(name.as_str()) {
            return None;
        }
        Some(self.get_features(crate_name, version_req))
    }

    /// Keeps what came back when the records of the crate `name` were fetched, and answers from it.
    /// Of each line of the reply, `reply` has the record, if it holds one; there is no reply where
    /// fetching failed.
    pub fn finish_fetch(
        &mut self,
        name: String,
        reply: Option<Vec<Option<SparseRecord>>>,
        version_req: &str,
    ) -> (r: Option<Vec<String>>)
        ensures
            final(self).cached() == old(self).cached().insert(
                name@,
                match reply {
                    Some(lines) => Some(kept_records(lines@)),
                    None => None,
                },
            ),
            answers(final(self).cached()[name@], version_req@, optional_texts(r)),
    {
        let ghost key = name@;
        let ghost before = self.cached();
        match reply {
            Some(lines) => {
                let records = keep_records(lines);
                let answer = resolve_features(&records, version_req);
                self.cache.insert(name, Some(records));
                assert(self.cached() =~= before.insert(key, Some(models(records@))));
                answer
            },
            None => {
                self.cache.insert(name, None);
                assert(self.cached() =~= before.insert(key, None));
                None
            },
        }
    }
}

/// A crate is fetched once: after what came back was kept, be it that fetching failed, each look-up
/// of the crate is answered from the cache, and the look-up of no other crate is changed.
pub proof fn law_fetched_once(
    cache: Map<Seq<char>, Option<Seq<RecordModel>>>,
    crate_name: Seq<char>,
    other: Seq<char>,
    version_req: Seq<char>,
    records: Option<Seq<RecordModel>>,
    found: Lookup,
)
    ensures
        ({
            let after = cache.insert(cache_name(crate_name), records);
            &&& !must_fetch(after, crate_name)
            &&& looks_up(after, crate_name, version_req, found) ==> found is Known
            &&& looks_up(after, crate_name, version_req, found) && cache_name(crate_name).len() > 0
                ==> answers(records, version_req, optional_texts(found->Known_0))
            &&& cache_name(other) != cache_name(crate_name) ==> looks_up(
                after,
                other,
                version_req,
                found,
            ) == looks_up(cache, other, version_req, found)
        }),
{
}

} // verus!
