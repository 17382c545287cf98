//! Laws of open documents and of what is offered in them.
use crate::completion;
use crate::completion::{Answer, AnswerModel, CompletionItem, ItemKind, ItemModel};
use crate::crate_index;
use crate::crate_index::EntryModel;
use crate::digits;
use crate::position::{Position, Range};
use crate::text;
use crate::toml_context;
use crate::toml_context::{
    CompletionModel, CrateNameModel, FeatureCompletionContext, FeatureModel, VersionModel,
};
use vstd::prelude::*;
use vstd::string::*;
use vstd::utf8::*;

verus! {

/// Whether `feature` is one that `typed` asks for: what is typed and some rest, and none of the selected
/// features.
pub open spec fn asked_for(feature: Seq<char>, typed: FeatureModel) -> bool {
    &&& exists|rest: Seq<char>| feature == #[trigger] (typed.feature_prefix + rest)
    &&& forall|j: int|
        0 <= j < typed.selected_features.len() ==> feature != #[trigger] typed.selected_features[j]
}

/// No item that is offered has the text of any selected feature, each starts with what is typed, and
/// each has the text of one of the features.
pub proof fn law_no_selected_feature_is_offered(
    features: Seq<Seq<char>>,
    typed: FeatureModel,
    i: int,
)
    requires
        0 <= i < completion::feature_offers(features, typed).len(),
    ensures
        ({
            let item = completion::feature_offers(features, typed)[i];
            &&& forall|j: int|
                0 <= j < typed.selected_features.len() ==> item.label
                    != #[trigger] typed.selected_features[j]
            &&& typed.feature_prefix.is_prefix_of(item.label)
            &&& features.contains(item.label)
            &&& item.new_text == item.label
            &&& item.range == typed.range
        }),
{
    let wanted = |f: Seq<char>| completion::offers_feature(f, typed);
    let kept = features.filter(wanted);
    features.lemma_filter_pred(wanted, i);
    let label = completion::feature_offers(features, typed)[i].label;
    assert(label == kept[i]);
    assert(kept.contains(label));
    features.lemma_filter_contains_rev(wanted, label);
    assert forall|j: int| 0 <= j < typed.selected_features.len() implies label
        != #[trigger] typed.selected_features[j] by {
        assert(typed.selected_features.contains(typed.selected_features[j]));
    }
}

/// Each feature that starts with what is typed and differs from all selected features is offered; and
/// the features that are offered come in the order of the features, with none left out or repeated.
pub proof fn law_each_fitting_feature_is_offered(
    features: Seq<Seq<char>>,
    typed: FeatureModel,
    k: int,
)
    ensures
        0 <= k < features.len() && asked_for(features[k], typed) ==> exists|i: int|
            0 <= i < completion::feature_offers(features, typed).len() && (
            #[trigger] completion::feature_offers(features, typed)[i]).label == features[k],
        completion::feature_offers(features, typed).map_values(|item: ItemModel| item.label)
            == features.filter(|f: Seq<char>| asked_for(f, typed)),
{
    let wanted = |f: Seq<char>| completion::offers_feature(f, typed);
    let kept = features.filter(wanted);
    let offers = completion::feature_offers(features, typed);
    lemma_fitting_features(features, typed);
    assert(offers.map_values(|item: ItemModel| item.label) =~= kept);
    if 0 <= k < features.len() && asked_for(features[k], typed) {
        lemma_asked_for(features[k], typed);
        features.lemma_filter_contains(wanted, k);
        let i = choose|i: int| 0 <= i < kept.len() && kept[i] == features[k];
        assert(offers[i].label == features[k]);
    }
}

proof fn lemma_asked_for(feature: Seq<char>, typed: FeatureModel)
    ensures
        asked_for(feature, typed) <==> completion::offers_feature(feature, typed),
{
    let p = typed.feature_prefix;
    lemma_splits(p, feature);
    if asked_for(feature, typed) && typed.selected_features.contains(feature) {
        let j = choose|j: int|
            0 <= j < typed.selected_features.len() && typed.selected_features[j] == feature;
    }
    if completion::offers_feature(feature, typed) {
        assert forall|j: int| 0 <= j < typed.selected_features.len() implies feature
            != #[trigger] typed.selected_features[j] by {
            assert(typed.selected_features.contains(typed.selected_features[j]));
        }
    }
}

proof fn lemma_splits(p: Seq<char>, s: Seq<char>)
    ensures
        p.is_prefix_of(s) <==> exists|rest: Seq<char>| s == #[trigger] (p + rest),
{
    if p.is_prefix_of(s) {
        assert(s =~= p + s.subrange(p.len() as int, s.len() as int));
    }
    if exists|rest: Seq<char>| s == #[trigger] (p + rest) {
        let rest = choose|rest: Seq<char>| s == #[trigger] (p + rest);
        assert(s.subrange(0, p.len() as int) =~= p);
    }
}

proof fn lemma_fitting_features(features: Seq<Seq<char>>, typed: FeatureModel)
    ensures
        features.filter(|f: Seq<char>| completion::offers_feature(f, typed)) == features.filter(
            |f: Seq<char>| asked_for(f, typed),
        ),
    decreases features.len(),
{
    reveal(Seq::filter);
    if features.len() > 0 {
        lemma_fitting_features(features.drop_last(), typed);
        lemma_asked_for(features.last(), typed);
    }
}

/// An item for a feature or a version shows it, and puts it where the typed part stands.
pub proof fn law_item_for_a_value(value: Seq<char>, range: Range)
    ensures
        ({
            let item = completion::value_item(value, range);
            &&& item.label == value
            &&& item.new_text == value
            &&& item.range == range
            &&& item.kind == ItemKind::Value
            &&& item.detail is None
            &&& item.sort_text is None
        }),
{
}

/// The latest version is offered for each way to split it into a part that is typed and a rest, nothing
/// and the whole of it among them.
pub proof fn law_version_is_offered_for_each_start(
    start: Seq<char>,
    rest: Seq<char>,
    typed: VersionModel,
)
    requires
        typed.version_prefix == start,
    ensures
        completion::version_offer(Some(start + rest), typed) matches Some(item) && {
            &&& item.label == start + rest
            &&& item.new_text == start + rest
            &&& item.range == typed.range
            &&& item.kind == ItemKind::Value
        },
{
    assert((start + rest).subrange(0, start.len() as int) =~= start);
}

/// A version is offered only where it is known and starts with what is typed.
pub proof fn law_no_other_version_is_offered(latest: Option<Seq<char>>, typed: VersionModel)
    ensures
        completion::version_offer(latest, typed) matches Some(item) ==> {
            &&& latest == Some(item.label)
            &&& exists|rest: Seq<char>| item.label == #[trigger] (typed.version_prefix + rest)
        },
{
    match latest {
        Some(v) => {
            lemma_splits(typed.version_prefix, v);
        },
        None => {},
    }
}

/// For each crate that is found one item is offered, in the same order. It shows the name of the crate
/// and its version, sorts by its rank, and puts the name in the place of the typed one.
pub proof fn law_items_for_crates(
    entries: Seq<EntryModel>,
    line: u32,
    name: CrateNameModel,
    i: int,
)
    requires
        0 <= i < entries.len(),
    ensures
        completion::crate_offers(entries, line, name).len() == entries.len(),
        ({
            let item = completion::crate_offers(entries, line, name)[i];
            &&& item.label == entries[i].name
            &&& item.new_text == entries[i].name
            &&& item.kind == ItemKind::Module
            &&& item.detail == Some(seq!['v'] + entries[i].version)
            &&& item.sort_text == Some(digits::padded(entries[i].rank as nat, 8))
            &&& item.range.start == (Position { line, character: name.start_character })
            &&& item.range.end == (Position { line, character: name.end_character })
        }),
{
    reveal_strlit("v");
    assert("v"@ =~= seq!['v']);
}

/// A crate name is answered with an incomplete list of at most thirty crates, those that the index
/// finds for what is typed; and with none where less than two bytes are typed or the index was not
/// built.
pub proof fn law_answer_to_a_crate_name(
    loaded: bool,
    buckets: Map<Seq<char>, Seq<EntryModel>>,
    line: u32,
    name: CrateNameModel,
)
    ensures
        completion::answer_to(loaded, buckets, line, CompletionModel::CrateName(name)) matches
            AnswerModel::Incomplete(items) && {
            &&& loaded && encode_utf8(name.prefix).len() >= 2 ==> items == completion::crate_offers(
                crate_index::found(buckets, text::lowercase(name.prefix), 30),
                line,
                name,
            )
            &&& !loaded || encode_utf8(name.prefix).len() < 2 ==> items.len() == 0
            &&& items.len() <= 30
        },
{
}

/// A version is answered with the latest version of the crate, in any case, where that is offered, and
/// with nothing where it is not. A feature is answered once the features of its crate are known.
pub proof fn law_answer_to_a_version_or_a_feature(
    loaded: bool,
    buckets: Map<Seq<char>, Seq<EntryModel>>,
    line: u32,
    v: VersionModel,
    f: FeatureModel,
)
    ensures
        ({
            let latest = crate_index::latest(loaded, buckets, text::lowercase(v.crate_name));
            let answer = completion::answer_to(loaded, buckets, line, CompletionModel::Version(v));
            match completion::version_offer(latest, v) {
                Some(item) => answer matches AnswerModel::Items(items) && items.len() == 1
                    && items[0] == item,
                None => answer is Nothing,
            }
        }),
        completion::answer_to(loaded, buckets, line, CompletionModel::Feature(f))
            == AnswerModel::Features(f),
{
}

/// The index can be asked for a feature in any event, and for a name where the lower case of the name
/// can be cut behind its second byte, it has less than two bytes, or the index was not built.
pub proof fn law_what_can_be_answered(
    loaded: bool,
    f: FeatureModel,
    name: CrateNameModel,
    v: VersionModel,
)
    ensures
        completion::answerable(loaded, CompletionModel::Feature(f)),
        completion::answerable(loaded, CompletionModel::CrateName(name)) <==> !loaded || encode_utf8(
            name.prefix,
        ).len() < 2 || is_char_boundary(encode_utf8(text::lowercase(name.prefix)), 2),
        completion::answerable(loaded, CompletionModel::Version(v)) <==> !loaded || encode_utf8(
            text::lowercase(v.crate_name),
        ).len() < 2 || is_char_boundary(encode_utf8(text::lowercase(v.crate_name)), 2),
{
}

/// Something is typed in a document only where it is open and its path ends with `cargo.toml`, in any
/// case; and then it is what the text of the document says.
pub proof fn law_requests_in_open_documents(
    documents: Map<Seq<char>, Seq<char>>,
    uri: Seq<char>,
    path: Seq<char>,
    line: int,
    character: int,
)
    ensures
        ({
            let typed = completion::requested(documents, uri, path, line, character);
            let cargo = exists|head: Seq<char>|
                text::lowercase(path) == #[trigger] (head + "cargo.toml"@);
            &&& !cargo || !documents.contains_key(uri) ==> typed is None
            &&& cargo && documents.contains_key(uri) ==> typed == toml_context::completion_at(
                encode_utf8(documents[uri]),
                line,
                character,
            )
        }),
{
    let s = text::lowercase(path);
    let p = "cargo.toml"@;
    if p.is_suffix_of(s) {
        assert(s =~= s.subrange(0, s.len() - p.len()) + p);
    }
    if exists|head: Seq<char>| s == #[trigger] (head + p) {
        let head = choose|head: Seq<char>| s == #[trigger] (head + p);
        assert(s.subrange(s.len() - p.len(), s.len() as int) =~= p);
    }
}

/// Completions are asked for by the quotes, the comma, the hyphen, the underscore and each small letter,
/// and by nothing else; each of them once.
pub proof fn law_characters_that_trigger(c: char)
    ensures
        completion::trigger_list().contains(seq![c]) <==> c == '"' || c == '\'' || c == ',' || c == '-'
            || c == '_' || 'a' <= c <= 'z',
        completion::trigger_list().len() == 31,
        forall|i: int|
            0 <= i < completion::trigger_list().len() ==> (#[trigger] completion::trigger_list()[i]).len()
                == 1,
{
    let list = completion::trigger_list();
    let first = seq!['"', '\'', ',', '-', '_'];
    if list.contains(seq![c]) {
        let i = choose|i: int| 0 <= i < list.len() && list[i] == seq![c];
        assert(seq![c][0] == c);
        if i < 5 {
            assert(list[i][0] == first[i]);
            assert(i == 0 || i == 1 || i == 2 || i == 3 || i == 4);
        } else {
            assert(list[i][0] == ((0x61 + i - 5) as u8) as char);
        }
    }
    if 'a' <= c <= 'z' {
        let i = c as int - 0x61 + 5;
        assert(list[i] =~= seq![c]);
    }
    assert(list[0] =~= seq!['"']);
    assert(list[1] =~= seq!['\'']);
    assert(list[2] =~= seq![',']);
    assert(list[3] =~= seq!['-']);
    assert(list[4] =~= seq!['_']);
}

/// The model of an item has all that the item shows and does, that of a list has those of each of its
/// items, and that of an answer has its items.
pub proof fn law_items_as_models(
    item: CompletionItem,
    items: Vec<CompletionItem>,
    typed: FeatureCompletionContext,
)
    ensures
        item@.label == item.label@,
        item@.kind == item.kind,
        item@.detail is Some <==> item.detail is Some,
        item.detail matches Some(s) ==> item@.detail == Some(s@),
        item@.sort_text is Some <==> item.sort_text is Some,
        item.sort_text matches Some(s) ==> item@.sort_text == Some(s@),
        item@.range == item.range,
        item@.new_text == item.new_text@,
        completion::item_models(items@).len() == items@.len(),
        forall|i: int|
            0 <= i < items@.len() ==> #[trigger] completion::item_models(items@)[i] == items@[i]@,
        Answer::Nothing@ == AnswerModel::Nothing,
        Answer::Items(items)@ == AnswerModel::Items(completion::item_models(items@)),
        Answer::Incomplete(items)@ == AnswerModel::Incomplete(completion::item_models(items@)),
        Answer::Features(typed)@ == AnswerModel::Features(typed@),
{
}

} // verus!
