//! The completions of a language server: the documents that are open, and what is offered in them.
use crate::ascii;
use crate::crate_index;
use crate::crate_index::{CrateEntry, CrateIndex, EntryModel};
use crate::digits;
use crate::position::{Position, Range};
use crate::sorted_names;
use crate::text;
use crate::text::{str_ends_with, str_equal, str_starts_with};
use crate::toml_context;
use crate::toml_context::{
    get_completion_context, CompletionContext, CompletionModel, CrateNameContext, CrateNameModel,
    FeatureCompletionContext, FeatureModel, VersionContext, VersionModel,
};
use crate::toml_scan;
use vstd::hash_map::StringHashMap;
use vstd::prelude::*;
use vstd::string::*;
use vstd::utf8::*;

verus! {

/// How many crates are offered at most.
pub const SEARCH_LIMIT: usize = 30;

/// The documents that are open, by their addresses.
pub struct Documents {
    texts: StringHashMap<String>,
}

/// The documents after the changes of one of them: the last change has the whole text.
pub open spec fn changed(
    documents: Map<Seq<char>, Seq<char>>,
    uri: Seq<char>,
    changes: Seq<Seq<char>>,
) -> Map<Seq<char>, Seq<char>> {
    if changes.len() == 0 {
        documents
    } else {
        documents.insert(uri, changes.last())
    }
}

impl View for Documents {
    type V = Map<Seq<char>, Seq<char>>;

    closed spec fn view(&self) -> Map<Seq<char>, Seq<char>> {
        self.texts@.map_values(|s: String| s@)
    }
}

impl Documents {
    /// No documents.
    pub fn new() -> (r: Self)
        ensures
            r@ == Map::<Seq<char>, Seq<char>>::empty(),
    {
        let r = Documents { texts: StringHashMap::new() };
        assert(r@ =~= Map::empty());
        r
    }

    /// Opens a document.
    pub fn open(&mut self, uri: String, text: String)
        ensures
            final(self)@ == old(self)@.insert(uri@, text@),
    {
        self.texts.insert(uri, text);
        assert(self@ =~= old(self)@.insert(uri@, text@));
    }

    /// Changes a document. Each change has the whole text.
    pub fn change(&mut self, uri: String, changes: Vec<String>)
        ensures
            final(self)@ == changed(old(self)@, uri@, text::texts(changes@)),
    {
        let mut rest = changes;
        match rest.pop() {
            Some(text) => {
                assert(text::texts(changes@).last() == text@);
                self.open(uri, text);
            },
            None => {},
        }
    }

    /// Closes a document.
    pub fn close(&mut self, uri: &str)
        ensures
            final(self)@ == old(self)@.remove(uri@),
    {
        self.texts.remove(uri);
        assert(self@ =~= old(self)@.remove(uri@));
    }

    /// The text of a document, if it is open.
    pub fn get(&self, uri: &str) -> (r: Option<&String>)
        ensures
            match r {
                Some(text) => self@.contains_key(uri@) && self@[uri@] == text@,
                None => !self@.contains_key(uri@),
            },
    {
        self.texts.get(uri)
    }
}

/// A document has the text that it was opened with or last changed to, until it is closed; and no
/// other document is affected.
pub proof fn law_documents(
    documents: Map<Seq<char>, Seq<char>>,
    uri: Seq<char>,
    other: Seq<char>,
    text: Seq<char>,
    changes: Seq<Seq<char>>,
)
    requires
        other != uri,
    ensures
        documents.insert(uri, text).contains_pair(uri, text),
        changed(documents, uri, changes.push(text)).contains_pair(uri, text),
        changed(documents, uri, Seq::empty()) == documents,
        !documents.remove(uri).contains_key(uri),
        documents.insert(uri, text).contains_key(other) == documents.contains_key(other),
        changed(documents, uri, changes).contains_key(other) == documents.contains_key(other),
        documents.remove(uri).contains_key(other) == documents.contains_key(other),
        documents.contains_key(other) ==> {
            &&& documents.insert(uri, text)[other] == documents[other]
            &&& changed(documents, uri, changes)[other] == documents[other]
            &&& documents.remove(uri)[other] == documents[other]
        },
{
    assert(changes.push(text).last() == text);
}

/// Tells whether a path is that of a `Cargo.toml` file, in any case.
pub fn is_cargo_toml(path: &str) -> (r: bool)
    ensures
        r == "cargo.toml"@.is_suffix_of(text::lowercase(path@)),
{
    str_ends_with(path.to_lowercase().as_str(), "cargo.toml")
}

/// What is typed in one of the documents: what the text of the document says, where it is open and
/// the path is that of a `Cargo.toml` file.
pub open spec fn requested(
    documents: Map<Seq<char>, Seq<char>>,
    uri: Seq<char>,
    path: Seq<char>,
    line: int,
    character: int,
) -> Option<CompletionModel> {
    if "cargo.toml"@.is_suffix_of(text::lowercase(path)) && documents.contains_key(uri) {
        toml_context::completion_at(encode_utf8(documents[uri]), line, character)
    } else {
        None
    }
}

/// What is typed at a position of one of the documents, if anything.
pub fn requested_context(
    documents: &Documents,
    uri: &str,
    path: &str,
    line: u32,
    character: u32,
) -> (r: Option<CompletionContext>)
    ensures
        match r {
            Some(c) => requested(documents@, uri@, path@, line as int, character as int) == Some(
                c@,
            ),
            None => requested(
                documents@,
                uri@,
                path@,
                line as int,
                character as int,
            ) is None,
        },
{
    if !is_cargo_toml(path) {
        return None;
    }
    match documents.get(uri) {
        Some(text) => {
            let content = text.as_str();
            proof {
                text::lemma_str_bytes(content);
            }
            get_completion_context(content, line, character)
        },
        None => None,
    }
}

/// What sort of thing is offered.
#[derive(Clone, Copy, Debug, PartialEq, Eq, Structural)]
pub enum ItemKind {
    /// A crate.
    Module,
    /// A feature or a version.
    Value,
}

/// One thing that is offered.
pub struct CompletionItem {
    /// What is shown.
    pub label: String,
    /// What sort of thing it is.
    pub kind: ItemKind,
    /// What is shown beside it.
    pub detail: Option<String>,
    /// The text by which it is sorted, where that is not what is shown.
    pub sort_text: Option<String>,
    /// What it replaces.
    pub range: Range,
    /// What it puts there.
    pub new_text: String,
}

/// The texts that a [`CompletionItem`] holds.
#[verifier::ext_equal]
pub struct ItemModel {
    pub label: Seq<char>,
    pub kind: ItemKind,
    pub detail: Option<Seq<char>>,
    pub sort_text: Option<Seq<char>>,
    pub range: Range,
    pub new_text: Seq<char>,
}

impl View for CompletionItem {
    type V = ItemModel;

    open spec fn view(&self) -> ItemModel {
        ItemModel {
            label: self.label@,
            kind: self.kind,
            detail: match self.detail {
                Some(s) => Some(s@),
                None => None,
            },
            sort_text: match self.sort_text {
                Some(s) => Some(s@),
                None => None,
            },
            range: self.range,
            new_text: self.new_text@,
        }
    }
}

/// The models of a sequence of items.
pub open spec fn item_models(items: Seq<CompletionItem>) -> Seq<ItemModel> {
    items.map_values(|i: CompletionItem| i@)
}

/// The item that offers a feature or a version.
pub open spec fn value_item(value: Seq<char>, range: Range) -> ItemModel {
    ItemModel {
        label: value,
        kind: ItemKind::Value,
        detail: None,
        sort_text: None,
        range,
        new_text: value,
    }
}

/// The item that offers a crate for the name that is typed in line `line`. Such items are sorted by
/// the rank of the crate.
pub open spec fn crate_item(entry: EntryModel, line: u32, name: CrateNameModel) -> ItemModel {
    ItemModel {
        label: entry.name,
        kind: ItemKind::Module,
        detail: Some("v"@ + entry.version),
        sort_text: Some(digits::padded(entry.rank as nat, 8)),
        range: Range {
            start: Position { line, character: name.start_character },
            end: Position { line, character: name.end_character },
        },
        new_text: entry.name,
    }
}

/// Whether a feature is offered: it starts with what is typed, and was not selected before.
pub open spec fn offers_feature(feature: Seq<char>, typed: FeatureModel) -> bool {
    typed.feature_prefix.is_prefix_of(feature) && !typed.selected_features.contains(feature)
}

/// The items that offer those of the features that are to be offered.
pub open spec fn feature_offers(features: Seq<Seq<char>>, typed: FeatureModel) -> Seq<ItemModel> {
    features.filter(|f: Seq<char>| offers_feature(f, typed)).map_values(
        |f: Seq<char>| value_item(f, typed.range),
    )
}

/// The items that offer crates for the name that is typed in line `line`.
pub open spec fn crate_offers(
    entries: Seq<EntryModel>,
    line: u32,
    name: CrateNameModel,
) -> Seq<ItemModel> {
    entries.map_values(|e: EntryModel| crate_item(e, line, name))
}

/// The item that offers the latest version of a crate, where it starts with what is typed.
pub open spec fn version_offer(latest: Option<Seq<char>>, typed: VersionModel) -> Option<ItemModel> {
    match latest {
        Some(v) => if typed.version_prefix.is_prefix_of(v) {
            Some(value_item(v, typed.range))
        } else {
            None
        },
        None => None,
    }
}

/// Makes the item that offers a feature or a version.
fn make_value_item(value: &str, range: Range) -> (r: CompletionItem)
    ensures
        r@ == value_item(value@, range),
{
    CompletionItem {
        label: value.to_owned(),
        kind: ItemKind::Value,
        detail: None,
        sort_text: None,
        range,
        new_text: value.to_owned(),
    }
}

/// Tells whether a list of strings holds `s`.
fn holds_string(list: &Vec<String>, s: &str) -> (r: bool)
    ensures
        r == text::texts(list@).contains(s@),
{
    let mut i: usize = 0;
    while i < list.len()
        invariant
            i <= list@.len(),
            forall|k: int| 0 <= k < i ==> #[trigger] text::texts(list@)[k] != s@,
        decreases list@.len() - i,
    {
        assert(text::texts(list@)[i as int] == list@[i as int]@);
        if str_equal(list[i].as_str(), s) {
            return true;
        }
        i += 1;
    }
    false
}

/// The items that offer those of the features that start with what is typed and were not selected
/// before. Where no features are known, there are none.
pub fn feature_items(features: Option<&Vec<String>>, typed: &FeatureCompletionContext) -> (r: Vec<
    CompletionItem,
>)
    ensures
        item_models(r@) == feature_offers(
            match features {
                Some(list) => text::texts(list@),
                None => Seq::empty(),
            },
            typed@,
        ),
{
    let mut items: Vec<CompletionItem> = Vec::new();
    proof {
        reveal(Seq::filter);
        assert(item_models(items@) =~= feature_offers(Seq::empty(), typed@));
    }
    let list = match features {
        Some(list) => list,
        None => {
            return items;
        },
    };
    let ghost all = text::texts(list@);
    let mut i: usize = 0;
    assert(all.take(0) =~= Seq::empty());
    while i < list.len()
        invariant
            i <= list@.len(),
            all == text::texts(list@),
            item_models(items@) == feature_offers(all.take(i as int), typed@),
        decreases list@.len() - i,
    {
        let feature = list[i].as_str();
        let ghost before = items@;
        let ghost head = all.take(i as int);
        let ghost wanted = |f: Seq<char>| offers_feature(f, typed@);
        proof {
            reveal(Seq::filter);
            assert(all.take(i + 1) =~= head.push(feature@));
            assert(head.push(feature@).drop_last() =~= head);
        }
        if str_starts_with(feature, typed.feature_prefix.as_str()) && !holds_string(
            &typed.selected_features,
            feature,
        ) {
            items.push(make_value_item(feature, typed.range));
            proof {
                assert(head.push(feature@).filter(wanted) =~= head.filter(wanted).push(feature@));
                assert(item_models(items@) =~= item_models(before).push(
                    value_item(feature@, typed.range),
                ));
                assert(item_models(items@) =~= feature_offers(all.take(i + 1), typed@));
            }
        } else {
            assert(head.push(feature@).filter(wanted) =~= head.filter(wanted));
        }
        i += 1;
    }
    assert(all.take(list@.len() as int) =~= all);
    items
}

/// The items that offer crates for the name that is typed in line `line`.
pub fn crate_items(entries: &Vec<CrateEntry>, line: u32, name: &CrateNameContext) -> (r: Vec<
    CompletionItem,
>)
    ensures
        item_models(r@) == crate_offers(crate_index::models(entries@), line, name@),
{
    let ghost all = crate_index::models(entries@);
    let mut items: Vec<CompletionItem> = Vec::new();
    let mut i: usize = 0;
    assert(item_models(items@) =~= crate_offers(all.take(0), line, name@));
    while i < entries.len()
        invariant
            i <= entries@.len(),
            all == crate_index::models(entries@),
            item_models(items@) == crate_offers(all.take(i as int), line, name@),
        decreases entries@.len() - i,
    {
        let entry = &entries[i];
        let ghost before = items@;
        let mut detail = "v".to_owned();
        detail.append(entry.version.as_str());
        let item = CompletionItem {
            label: entry.name.clone(),
            kind: ItemKind::Module,
            detail: Some(detail),
            sort_text: Some(digits::padded_text(entry.rank, 8)),
            range: Range {
                start: Position { line, character: name.start_character },
                end: Position { line, character: name.end_character },
            },
            new_text: entry.name.clone(),
        };
        items.push(item);
        proof {
            assert(all[i as int] == entry@);
            assert(item@ == crate_item(entry@, line, name@));
            assert(item_models(items@) =~= item_models(before).push(item@));
            assert(all.take(i + 1) =~= all.take(i as int).push(entry@));
            assert(item_models(items@) =~= crate_offers(all.take(i + 1), line, name@));
        }
        i += 1;
    }
    assert(all.take(entries@.len() as int) =~= all);
    items
}

/// The item that offers the latest version of a crate, where it starts with what is typed.
pub fn version_item(latest: Option<String>, typed: &VersionContext) -> (r: Option<CompletionItem>)
    ensures
        match r {
            Some(item) => version_offer(
                match latest {
                    Some(v) => Some(v@),
                    None => None,
                },
                typed@,
            ) == Some(item@),
            None => version_offer(
                match latest {
                    Some(v) => Some(v@),
                    None => None,
                },
                typed@,
            ) is None,
        },
{
    match latest {
        Some(version) => if str_starts_with(version.as_str(), typed.version_prefix.as_str()) {
            Some(make_value_item(version.as_str(), typed.range))
        } else {
            None
        },
        None => None,
    }
}

/// What is answered where something is typed.
pub enum Answer {
    /// Nothing is offered.
    Nothing,
    /// These items are offered.
    Items(Vec<CompletionItem>),
    /// These items are offered, and the list is to be asked for again when more is typed.
    Incomplete(Vec<CompletionItem>),
    /// The features of a crate have to be looked up first, for `feature_items`.
    Features(FeatureCompletionContext),
}

/// The texts that an [`Answer`] holds.
pub enum AnswerModel {
    Nothing,
    Items(Seq<ItemModel>),
    Incomplete(Seq<ItemModel>),
    Features(FeatureModel),
}

impl View for Answer {
    type V = AnswerModel;

    open spec fn view(&self) -> AnswerModel {
        match self {
            Answer::Nothing => AnswerModel::Nothing,
            Answer::Items(items) => AnswerModel::Items(item_models(items@)),
            Answer::Incomplete(items) => AnswerModel::Incomplete(item_models(items@)),
            Answer::Features(typed) => AnswerModel::Features(typed@),
        }
    }
}

/// The crates that are found for the start of a name.
pub open spec fn crates_for(
    loaded: bool,
    buckets: Map<Seq<char>, Seq<EntryModel>>,
    prefix: Seq<char>,
) -> Seq<EntryModel> {
    if loaded && encode_utf8(prefix).len() >= 2 {
        crate_index::found(buckets, text::lowercase(prefix), SEARCH_LIMIT as int)
    } else {
        Seq::empty()
    }
}

/// What is answered where `typed` is typed in line `line`.
pub open spec fn answer_to(
    loaded: bool,
    buckets: Map<Seq<char>, Seq<EntryModel>>,
    line: u32,
    typed: CompletionModel,
) -> AnswerModel {
    match typed {
        CompletionModel::Feature(f) => AnswerModel::Features(f),
        CompletionModel::CrateName(name) => AnswerModel::Incomplete(
            crate_offers(crates_for(loaded, buckets, name.prefix), line, name),
        ),
        CompletionModel::Version(v) => match version_offer(
            crate_index::latest(loaded, buckets, text::lowercase(v.crate_name)),
            v,
        ) {
            Some(item) => AnswerModel::Items(seq![item]),
            None => AnswerModel::Nothing,
        },
    }
}

/// Whether the index can be asked for what is typed: the key of the bucket can be cut from the lower
/// case of the name.
pub open spec fn answerable(loaded: bool, typed: CompletionModel) -> bool {
    match typed {
        CompletionModel::Feature(_) => true,
        CompletionModel::CrateName(name) => loaded && encode_utf8(name.prefix).len() >= 2
            ==> crate_index::sliceable(text::lowercase(name.prefix)),
        CompletionModel::Version(v) => loaded && encode_utf8(text::lowercase(v.crate_name)).len()
            >= 2 ==> crate_index::sliceable(text::lowercase(v.crate_name)),
    }
}

/// Answers where `typed` is typed in line `line`. There is no answer where the index cannot be asked
/// for what is typed.
pub fn answer(index: &CrateIndex, line: u32, typed: CompletionContext) -> (r: Option<Answer>)
    requires
        index.wf(),
    ensures
        r is None <==> !answerable(index.loaded(), typed@),
        r matches Some(a) ==> a@ == answer_to(index.loaded(), index.buckets(), line, typed@),
{
    match typed {
        CompletionContext::Feature(f) => Some(Answer::Features(f)),
        CompletionContext::CrateName(name) => match index.try_search(
            name.prefix.as_str(),
            SEARCH_LIMIT,
        ) {
            Some(entries) => Some(Answer::Incomplete(crate_items(&entries, line, &name))),
            None => None,
        },
        CompletionContext::Version(v) => match index.try_get_latest_version(v.crate_name.as_str()) {
            Some(latest) => match version_item(latest, &v) {
                Some(item) => {
                    let items = vec![item];
                    assert(item_models(items@) =~= seq![item@]);
                    Some(Answer::Items(items))
                },
                None => Some(Answer::Nothing),
            },
            None => None,
        },
    }
}

/// A crate name that is typed in a document can always be answered.
pub proof fn law_crate_names_are_answerable(b: Seq<u8>, line: int, character: int, loaded: bool)
    requires
        valid_utf8(b),
        0 <= line,
        0 <= character,
    ensures
        toml_context::completion_at(b, line, character) matches Some(typed) ==> (
        typed is CrateName ==> answerable(loaded, typed)),
{
    match toml_context::completion_at(b, line, character) {
        Some(CompletionModel::CrateName(name)) => {
            let current = toml_context::line_or_empty(b, line);
            let cursor = toml_context::lower(character, current.len() as int);
            let start = toml_context::name_start(current, cursor);
            toml_context::law_crate_name_extent(current, character);
            let part = current.subrange(start, cursor);
            assert forall|i: int| 0 <= i < part.len() implies #[trigger] part[i] < 0x80 by {
                assert(ascii::crate_byte(
                    current.subrange(
                        start,
                        toml_scan::key_end(current, cursor, current.len() as int),
                    )[i],
                ));
            }
            text::lemma_ascii_decode(part);
            let prefix = name.prefix;
            assert(prefix == part.map_values(|x: u8| x as char));
            assert(is_ascii_chars(prefix)) by {
                assert forall|i: int| 0 <= i < prefix.len() implies '\0' <= #[trigger] prefix[i]
                    <= '\u{7f}' by {
                    assert(part[i] < 0x80);
                }
            }
            is_ascii_chars_encode_utf8(prefix);
            crate_index::lemma_lowercase_ascii(prefix);
            if prefix.len() >= 2 {
                crate_index::lemma_two_bytes_ascii(text::lowercase(prefix));
            }
        },
        _ => {},
    }
}

/// The features that are offered are those that start with what is typed and were not selected
/// before, and each item puts its feature where the typed part stands.
pub proof fn law_offered_features(features: Seq<Seq<char>>, typed: FeatureModel)
    ensures
        forall|f: Seq<char>| #[trigger]
            feature_offers(features, typed).contains(value_item(f, typed.range)) <==> (
            features.contains(f) && offers_feature(f, typed)),
        forall|i: int|
            0 <= i < feature_offers(features, typed).len() ==> {
                let item = #[trigger] feature_offers(features, typed)[i];
                item == value_item(item.label, typed.range)
            },
        feature_offers(features, typed).len() <= features.len(),
{
    let wanted = |f: Seq<char>| offers_feature(f, typed);
    let kept = features.filter(wanted);
    let offers = feature_offers(features, typed);
    features.lemma_filter_len(wanted);
    assert forall|f: Seq<char>| #[trigger]
        offers.contains(value_item(f, typed.range)) <==> features.contains(f) && offers_feature(
            f,
            typed,
        ) by {
        if offers.contains(value_item(f, typed.range)) {
            let i = choose|i: int| 0 <= i < offers.len() && offers[i] == value_item(f, typed.range);
            assert(kept[i] == f);
            features.lemma_filter_pred(wanted, i);
            features.lemma_filter_contains_rev(wanted, f);
        }
        if features.contains(f) && offers_feature(f, typed) {
            let i = choose|i: int| 0 <= i < features.len() && features[i] == f;
            features.lemma_filter_contains(wanted, i);
            let j = choose|j: int| 0 <= j < kept.len() && kept[j] == f;
            assert(offers[j] == value_item(f, typed.range));
        }
    }
}

/// Crates that are found in the order of their ranks are also sorted in that order, as long as the
/// ranks have no more than eight digits.
pub proof fn law_crate_items_are_sorted_by_rank(
    entries: Seq<EntryModel>,
    line: u32,
    name: CrateNameModel,
)
    requires
        crate_index::in_rank_order(entries),
        forall|i: int|
            0 <= i < entries.len() ==> 0 <= (#[trigger] entries[i]).rank < digits::power_of_ten(8),
    ensures
        forall|i: int, j: int|
            0 <= i < j < entries.len() ==> sorted_names::name_less(
                (#[trigger] crate_offers(entries, line, name)[i]).sort_text.unwrap(),
                (#[trigger] crate_offers(entries, line, name)[j]).sort_text.unwrap(),
            ),
{
    let offers = crate_offers(entries, line, name);
    assert forall|i: int, j: int| 0 <= i < j < entries.len() implies sorted_names::name_less(
        (#[trigger] offers[i]).sort_text.unwrap(),
        (#[trigger] offers[j]).sort_text.unwrap(),
    ) by {
        assert(entries[i].rank < entries[j].rank);
        digits::law_padded_numbers_keep_their_order(
            entries[i].rank as nat,
            entries[j].rank as nat,
            8,
        );
    }
}

/// The characters that ask for completions when they are typed: quotes, the comma, the hyphen, the
/// underscore and the small letters.
pub open spec fn trigger_list() -> Seq<Seq<char>> {
    Seq::new(
        31,
        |i: int|
            if i < 5 {
                seq![seq!['"', '\'', ',', '-', '_'][i]]
            } else {
                seq![((0x61 + i - 5) as u8) as char]
            },
    )
}

/// The characters that ask for completions when they are typed.
pub fn trigger_characters() -> (r: Vec<String>)
    ensures
        text::texts(r@) == trigger_list(),
{
    let mut list: Vec<String> = Vec::new();
    list.push("\"".to_owned());
    list.push("'".to_owned());
    list.push(",".to_owned());
    list.push("-".to_owned());
    list.push("_".to_owned());
    proof {
        reveal_strlit("\"");
        reveal_strlit("'");
        reveal_strlit(",");
        reveal_strlit("-");
        reveal_strlit("_");
        assert(list@[0]@ =~= trigger_list()[0]);
        assert(list@[1]@ =~= trigger_list()[1]);
        assert(list@[2]@ =~= trigger_list()[2]);
        assert(list@[3]@ =~= trigger_list()[3]);
        assert(list@[4]@ =~= trigger_list()[4]);
    }
    let mut letter: u8 = 0x61;
    while letter <= 0x7a
        invariant
            0x61 <= letter <= 0x7b,
            list@.len() == letter - 0x61 + 5,
            forall|i: int| 0 <= i < list@.len() ==> (#[trigger] list@[i])@ == trigger_list()[i],
        decreases 0x7b - letter,
    {
        let mut s = String::new();
        s.push(letter as char);
        assert(s@ =~= trigger_list()[list@.len() as int]);
        list.push(s);
        letter += 1;
    }
    assert(text::texts(list@) =~= trigger_list());
    list
}

} // verus!
