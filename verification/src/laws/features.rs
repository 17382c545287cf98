//! Laws of the records of the sparse index, the choice of a version, and the cache.
use crate::feature_index;
use crate::feature_index::{Lookup, RecordModel, SparseRecord};
use crate::position;
use crate::sorted_names;
use crate::text;
use vstd::prelude::*;
use vstd::string::*;
use vstd::utf8::*;

verus! {

/// Whether record `k` may be chosen: it was not withdrawn, has a version, and that version satisfies
/// the requirement.
pub open spec fn may_be_chosen(records: Seq<RecordModel>, requirement: Seq<char>, k: int) -> bool {
    &&& 0 <= k < records.len()
    &&& !records[k].yanked
    &&& feature_index::is_version(records[k].vers)
    &&& feature_index::admits(requirement, records[k].vers)
}

/// An answer is given exactly where the requirement makes sense and some version that was not withdrawn
/// satisfies it, whatever white space is around the requirement.
pub proof fn law_when_features_are_known(
    records: Seq<RecordModel>,
    version_req: Seq<char>,
    answer: Option<Seq<Seq<char>>>,
)
    ensures
        feature_index::resolves(records, version_req, answer) ==> (answer is Some
            <==> feature_index::is_requirement(text::trimmed(version_req)) && exists|k: int|
            #[trigger] may_be_chosen(records, text::trimmed(version_req), k)),
{
    let requirement = text::trimmed(version_req);
    if feature_index::resolves(records, version_req, answer) {
        match answer {
            Some(names) => {
                let k = choose|k: int| #[trigger]
                    feature_index::chosen(records, requirement, k) && feature_index::lists_features(
                        names,
                        records[k],
                    );
                assert(may_be_chosen(records, requirement, k));
            },
            None => {
                if feature_index::is_requirement(requirement) {
                    assert forall|k: int| !#[trigger] may_be_chosen(records, requirement, k) by {
                        if 0 <= k < records.len() {
                            assert(!feature_index::candidate(records[k], requirement));
                        }
                    }
                }
            },
        }
    }
}

/// The features that are given are those of one record that may be chosen: no other such record has a
/// higher version, and none behind it has the same place in the order. They are all features of that
/// record, in either syntax, each once and in ascending order, and no others.
pub proof fn law_features_of_the_highest_version(
    records: Seq<RecordModel>,
    version_req: Seq<char>,
    names: Seq<Seq<char>>,
) -> (k: int)
    requires
        feature_index::resolves(records, version_req, Some(names)),
    ensures
        may_be_chosen(records, text::trimmed(version_req), k),
        forall|j: int|
            j != k && #[trigger] may_be_chosen(records, text::trimmed(version_req), j)
                ==> feature_index::at_most(records[j].vers, records[k].vers),
        forall|j: int|
            j > k && #[trigger] may_be_chosen(records, text::trimmed(version_req), j)
                ==> !feature_index::at_most(records[k].vers, records[j].vers),
        forall|s: Seq<char>| #[trigger]
            names.contains(s) <==> records[k].features.contains(s) || (records[k].features2 is Some
                && records[k].features2->0.contains(s)),
        forall|i: int, j: int|
            0 <= i < j < names.len() ==> sorted_names::name_less(
                #[trigger] names[i],
                #[trigger] names[j],
            ),
{
    let requirement = text::trimmed(version_req);
    let k = choose|k: int| #[trigger]
        feature_index::chosen(records, requirement, k) && feature_index::lists_features(
            names,
            records[k],
        );
    assert forall|j: int|
        j != k && #[trigger] may_be_chosen(records, requirement, j) implies feature_index::at_most(
        records[j].vers,
        records[k].vers,
    ) by {
        assert(feature_index::candidate(records[j], requirement));
    }
    assert forall|j: int|
        j > k && #[trigger] may_be_chosen(records, requirement, j) implies !feature_index::at_most(
        records[k].vers,
        records[j].vers,
    ) by {
        assert(feature_index::candidate(records[j], requirement));
    }
    assert forall|s: Seq<char>| #[trigger]
        names.contains(s) <==> records[k].features.contains(s) || (records[k].features2 is Some
            && records[k].features2->0.contains(s)) by {}
    k
}

/// A list has the features of a record where it is in ascending order and has each feature of either
/// syntax, and nothing else.
pub proof fn law_list_of_features(names: Seq<Seq<char>>, record: RecordModel)
    ensures
        feature_index::lists_features(names, record) <==> sorted_names::ascending(names) && (forall|
            s: Seq<char>,
        |
            (#[trigger] names.contains(s)) == (record.features.contains(s) || (record.features2
                is Some && record.features2->0.contains(s)))),
{
}

/// The records that are kept of a reply are all records that its lines hold, whatever they say: each
/// line with a record adds it at the end, each other line adds nothing.
pub proof fn law_records_of_a_reply(lines: Seq<Option<SparseRecord>>, record: SparseRecord)
    ensures
        feature_index::kept_records(Seq::empty()) == Seq::<RecordModel>::empty(),
        feature_index::kept_records(lines.push(Some(record))) == feature_index::kept_records(
            lines,
        ).push(record@),
        feature_index::kept_records(lines.push(None)) == feature_index::kept_records(lines),
{
    assert(lines.push(Some(record)).drop_last() =~= lines);
    assert(lines.push(None).drop_last() =~= lines);
}

/// A record is kept of a reply exactly where a line holds it, and as many are kept as lines hold one.
pub proof fn law_each_record_is_kept(lines: Seq<Option<SparseRecord>>, m: RecordModel)
    ensures
        feature_index::kept_records(lines).contains(m) <==> exists|k: int|
            0 <= k < lines.len() && (#[trigger] lines[k]) is Some && lines[k]->0@ == m,
        feature_index::kept_records(lines).len() == lines.filter(
            |line: Option<SparseRecord>| line is Some,
        ).len(),
    decreases lines.len(),
{
    reveal(Seq::filter);
    let kept = feature_index::kept_records(lines);
    if lines.len() > 0 {
        let init = lines.drop_last();
        let before = feature_index::kept_records(init);
        law_each_record_is_kept(init, m);
        assert(lines[lines.len() - 1] == lines.last());
        if kept.contains(m) {
            let i = choose|i: int| 0 <= i < kept.len() && kept[i] == m;
            if i < before.len() {
                assert(before[i] == m);
                assert(before.contains(m));
                let k = choose|k: int|
                    0 <= k < init.len() && (#[trigger] init[k]) is Some && init[k]->0@ == m;
                assert(lines[k] == init[k]);
            }
        }
        if exists|k: int|
            0 <= k < lines.len() && (#[trigger] lines[k]) is Some && lines[k]->0@ == m {
            let k = choose|k: int|
                0 <= k < lines.len() && (#[trigger] lines[k]) is Some && lines[k]->0@ == m;
            if k < init.len() {
                assert(init[k] == lines[k]);
                assert(before.contains(m));
                let i = choose|i: int| 0 <= i < before.len() && before[i] == m;
                assert(kept[i] == m);
            } else {
                assert(kept[kept.len() - 1] == m);
            }
        }
    }
}

/// The features that a fetch gives are those of the records in its reply: for each line with a record
/// that may be chosen, the chosen record is not lower.
pub proof fn law_no_line_of_a_reply_is_passed_over(
    lines: Seq<Option<SparseRecord>>,
    version_req: Seq<char>,
    answer: Option<Seq<Seq<char>>>,
    i: int,
)
    requires
        0 <= i < lines.len(),
        lines[i] is Some,
        feature_index::is_requirement(text::trimmed(version_req)),
        !lines[i]->0.yanked,
        feature_index::is_version(lines[i]->0.vers@),
        feature_index::admits(text::trimmed(version_req), lines[i]->0.vers@),
        feature_index::resolves(feature_index::kept_records(lines), version_req, answer),
    ensures
        answer matches Some(names) && exists|j: int|
            0 <= j < lines.len() && (#[trigger] lines[j]) is Some && feature_index::lists_features(
                names,
                lines[j]->0@,
            ) && (lines[j]->0@ == lines[i]->0@ || feature_index::at_most(
                lines[i]->0.vers@,
                lines[j]->0.vers@,
            )),
{
    let requirement = text::trimmed(version_req);
    let records = feature_index::kept_records(lines);
    let m = lines[i]->0@;
    law_each_record_is_kept(lines, m);
    let a = choose|a: int| 0 <= a < records.len() && records[a] == m;
    assert(may_be_chosen(records, requirement, a));
    law_when_features_are_known(records, version_req, answer);
    let names = answer.unwrap();
    let k = choose|k: int| #[trigger]
        feature_index::chosen(records, requirement, k) && feature_index::lists_features(
            names,
            records[k],
        );
    assert(records.contains(records[k]));
    law_each_record_is_kept(lines, records[k]);
    let j = choose|j: int|
        0 <= j < lines.len() && (#[trigger] lines[j]) is Some && lines[j]->0@ == records[k];
    if a != k {
        assert(feature_index::candidate(records[a], requirement));
        assert(feature_index::at_most(records[a].vers, records[k].vers));
    }
    assert(lines[j] is Some && feature_index::lists_features(names, lines[j]->0@));
}

/// The lines of a file that hold a record are all that are not blank, as they are and in their order.
pub proof fn law_lines_with_records(b: Seq<u8>)
    ensures
        feature_index::filled_lines(b) == Seq::new(
            position::line_count(b) as nat,
            |k: int| decode_utf8(position::line_bytes(b, k)),
        ).filter(|s: Seq<char>| text::trimmed(s).len() > 0),
{
    position::lemma_starts(b, b.len() as int);
    lemma_filled_lines(b, position::line_count(b) as nat);
}

proof fn lemma_filled_lines(b: Seq<u8>, n: nat)
    ensures
        feature_index::filled_lines_upto(b, n as int) == Seq::new(
            n,
            |k: int| decode_utf8(position::line_bytes(b, k)),
        ).filter(|s: Seq<char>| text::trimmed(s).len() > 0),
    decreases n,
{
    reveal(Seq::filter);
    let all = Seq::new(n, |k: int| decode_utf8(position::line_bytes(b, k)));
    if n > 0 {
        let m = (n - 1) as nat;
        lemma_filled_lines(b, m);
        assert(all.drop_last() =~= Seq::new(m, |k: int| decode_utf8(position::line_bytes(b, k))));
    }
}

/// The path of a crate whose name has four bytes or more is made of its first two pairs of bytes and
/// the name; of a name with three bytes, of a three, its first byte and the name.
pub proof fn law_sparse_path_of_parts(first: Seq<char>, second: Seq<char>, rest: Seq<char>)
    ensures
        encode_utf8(first).len() == 2 && encode_utf8(second).len() == 2 ==> {
            let name = first + second + rest;
            &&& feature_index::has_sparse_path(name)
            &&& feature_index::sparse_path_of(name) == first + "/"@ + second + "/"@ + name
        },
        encode_utf8(first).len() == 1 && encode_utf8(rest).len() == 2 ==> {
            let name = first + rest;
            &&& feature_index::has_sparse_path(name)
            &&& feature_index::sparse_path_of(name) == "3/"@ + first + "/"@ + name
        },
{
    encode_utf8_valid_utf8(first);
    encode_utf8_valid_utf8(second);
    encode_utf8_valid_utf8(rest);
    encode_utf8_decode_utf8(first);
    encode_utf8_decode_utf8(second);
    if encode_utf8(first).len() == 2 && encode_utf8(second).len() == 2 {
        let name = first + second + rest;
        let b = encode_utf8(name);
        text::lemma_encode_add(first + second, rest);
        text::lemma_encode_add(first, second);
        text::lemma_encode_add(second, rest);
        assert(b.subrange(0, 2) =~= encode_utf8(first));
        assert(b.subrange(2, 4) =~= encode_utf8(second));
        lemma_boundary_between(first, second + rest);
        assert(first + (second + rest) =~= name);
        lemma_boundary_between(first + second, rest);
    }
    if encode_utf8(first).len() == 1 && encode_utf8(rest).len() == 2 {
        let name = first + rest;
        text::lemma_encode_add(first, rest);
        assert(encode_utf8(name).subrange(0, 1) =~= encode_utf8(first));
        lemma_boundary_between(first, rest);
    }
}

proof fn lemma_boundary_between(a: Seq<char>, c: Seq<char>)
    ensures
        is_char_boundary(encode_utf8(a + c), encode_utf8(a).len() as int),
{
    text::lemma_encode_add(a, c);
    let b = encode_utf8(a + c);
    let at = encode_utf8(a).len() as int;
    encode_utf8_valid_utf8(a + c);
    if c.len() == 0 {
        assert(encode_utf8(c).len() == 0);
        is_char_boundary_start_end_of_seq(b);
    } else {
        encode_utf8_first_scalar(c);
        assert(b[at] == encode_utf8(c)[0]);
        is_char_boundary_iff_not_is_continuation_byte(b, at);
    }
}

/// A crate has a path where characters end at the ends of the parts: behind the first byte of a name
/// with three bytes, and behind the second and the fourth of a longer name.
pub proof fn law_names_with_a_path(name: Seq<char>)
    ensures
        encode_utf8(name).len() <= 2 ==> feature_index::has_sparse_path(name),
        encode_utf8(name).len() == 3 ==> (feature_index::has_sparse_path(name) <==> is_char_boundary(
            encode_utf8(name),
            1,
        )),
        encode_utf8(name).len() >= 4 ==> (feature_index::has_sparse_path(name) <==> is_char_boundary(
            encode_utf8(name),
            2,
        ) && is_char_boundary(encode_utf8(name), 4)),
        encode_utf8(name).len() == 0 ==> feature_index::sparse_path_of(name).len() == 0,
        encode_utf8(name).len() == 1 ==> feature_index::sparse_path_of(name) == "1/"@ + name,
        encode_utf8(name).len() == 2 ==> feature_index::sparse_path_of(name) == "2/"@ + name,
{
}

/// The address of a crate is its path on the server of the sparse index.
pub proof fn law_sparse_url(name: Seq<char>)
    ensures
        feature_index::sparse_url_of(name) == "https://index.crates.io/"@
            + feature_index::sparse_path_of(name),
{
}

/// A crate is known to the cache by its name in lower case, without the white space around it.
pub proof fn law_name_in_the_cache(crate_name: Seq<char>)
    ensures
        feature_index::cache_name(crate_name) == text::lowercase(text::trimmed(crate_name)),
{
}

/// A crate that is in the cache is answered from it: with what its records say, or with nothing where
/// fetching them failed. One that is not is fetched, by its name and from its address; and no name has
/// no features.
pub proof fn law_look_up(
    cache: Map<Seq<char>, Option<Seq<RecordModel>>>,
    crate_name: Seq<char>,
    version_req: Seq<char>,
    found: Lookup,
)
    requires
        feature_index::looks_up(cache, crate_name, version_req, found),
    ensures
        ({
            let n = text::lowercase(text::trimmed(crate_name));
            &&& n.len() == 0 ==> (found matches Lookup::Known(answer) && answer is None)
            &&& n.len() > 0 && !cache.contains_key(n) ==> (found matches Lookup::Fetch { name, url }
                && name@ == n && url@ == "https://index.crates.io/"@ + feature_index::sparse_path_of(
                n,
            ))
            &&& n.len() > 0 && cache.contains_key(n) ==> (found matches Lookup::Known(answer) && {
                &&& cache[n] is None ==> answer is None
                &&& cache[n] matches Some(records) ==> {
                    &&& answer is None ==> feature_index::resolves(records, version_req, None)
                    &&& answer matches Some(names) ==> feature_index::resolves(
                        records,
                        version_req,
                        Some(text::texts(names@)),
                    )
                }
            })
        }),
{
}

/// An answer from fetched records is what they say, and there is none where fetching failed.
pub proof fn law_answer_after_a_fetch(
    records: Seq<RecordModel>,
    version_req: Seq<char>,
    answer: Option<Seq<Seq<char>>>,
)
    ensures
        feature_index::answers(None, version_req, answer) <==> answer is None,
        feature_index::answers(Some(records), version_req, answer) <==> feature_index::resolves(
            records,
            version_req,
            answer,
        ),
{
}

/// The model of a record has all that the record says, and that of a list has those of each of its
/// records.
pub proof fn law_records_as_models(
    r: SparseRecord,
    v: Seq<SparseRecord>,
    names: Option<Vec<String>>,
    records: Option<Vec<SparseRecord>>,
)
    ensures
        r@.vers == r.vers@,
        r@.yanked == r.yanked,
        r@.features == text::texts(r.features@),
        r@.features2 is Some <==> r.features2 is Some,
        r.features2 matches Some(more) ==> r@.features2 == Some(text::texts(more@)),
        feature_index::models(v).len() == v.len(),
        forall|i: int| 0 <= i < v.len() ==> #[trigger] feature_index::models(v)[i] == v[i]@,
        names is None ==> feature_index::optional_texts(names) is None,
        names matches Some(list) ==> feature_index::optional_texts(names) == Some(
            text::texts(list@),
        ),
        records is None ==> feature_index::optional_models(records) is None,
        records matches Some(list) ==> feature_index::optional_models(records) == Some(
            feature_index::models(list@),
        ),
{
}

} // verus!
