//! One normalized entry: a record with its persons resolved, its fields
//! rendered and merged with those it inherits, and its text followed by the
//! texts of the records it refers to.

use vstd::prelude::*;
use vstd::string::StringExecFns;
use crate::error::{Error, ErrorView};
use crate::fields::merged;
use crate::keyed::KeyedMap;
use crate::person::{resolved_all, NameView, PersonView, RawPerson, SRAPerson};
use crate::reading::{
    authors_named, canonical_type, editors_named, record_authors, record_editors,
    record_references, record_text, references_named, text_named, type_named,
};
use crate::record::{
    duplicate_fields, first_missing, found, has_field, names_no_editor, names_no_parent,
    RawRecord, RecordStore, RecordView,
};

verus! {

/// A normalized entry.
#[derive(Debug)]
pub struct SRAEntry {
    /// The key of the record.
    pub id: String,
    /// The authors of the record.
    pub authors: Vec<SRAPerson>,
    /// The editors of the record, of all roles.
    pub editors: Vec<SRAPerson>,
    /// The canonical name of the record's type.
    pub entry_type: String,
    /// The text of the record, followed by the texts of the records it refers
    /// to.
    pub bibtex: String,
    /// The rendered fields, inherited ones included.
    pub other: KeyedMap<String>,
}

/// What an `SRAEntry` holds.
pub struct EntryView {
    pub id: Seq<char>,
    pub authors: Seq<NameView>,
    pub editors: Seq<NameView>,
    pub entry_type: Seq<char>,
    pub bibtex: Seq<char>,
    pub other: Map<Seq<char>, Seq<char>>,
}

impl DeepView for SRAEntry {
    type V = EntryView;

    open spec fn deep_view(&self) -> EntryView {
        EntryView {
            id: self.id@,
            authors: self.authors.deep_view(),
            editors: self.editors.deep_view(),
            entry_type: self.entry_type@,
            bibtex: self.bibtex@,
            other: self.other.deep_view(),
        }
    }
}

impl View for SRAEntry {
    type V = EntryView;

    open spec fn view(&self) -> EntryView {
        self.deep_view()
    }
}

/// What `biblatex` reads from a record beyond its key and fields.
#[derive(Debug)]
pub struct Reading {
    /// The canonical name of the record's type.
    pub entry_type: String,
    /// The authors, where the record names any.
    pub authors: Option<Vec<RawPerson>>,
    /// The editors in one group for each role, where they can be read.
    pub editors: Option<Vec<Vec<RawPerson>>>,
    /// The record written out as text.
    pub bibtex: String,
}

/// What a `Reading` holds.
pub struct ReadingView {
    pub entry_type: Seq<char>,
    pub authors: Option<Seq<PersonView>>,
    pub editors: Option<Seq<Seq<PersonView>>>,
    pub bibtex: Seq<char>,
}

impl DeepView for Reading {
    type V = ReadingView;

    open spec fn deep_view(&self) -> ReadingView {
        ReadingView {
            entry_type: self.entry_type@,
            authors: self.authors.deep_view(),
            editors: self.editors.deep_view(),
            bibtex: self.bibtex@,
        }
    }
}

impl View for Reading {
    type V = ReadingView;

    open spec fn view(&self) -> ReadingView {
        self.deep_view()
    }
}

/// The members of all groups, group after group.
pub open spec fn concatenated(groups: Seq<Seq<PersonView>>) -> Seq<PersonView>
    decreases groups.len(),
{
    if groups.len() == 0 {
        Seq::empty()
    } else {
        concatenated(groups.drop_last()) + groups.last()
    }
}

/// The authors of an entry; none where the record gives none.
pub open spec fn entry_authors(authors: Option<Seq<PersonView>>) -> Seq<NameView> {
    match authors {
        Some(people) => resolved_all(people),
        None => Seq::empty(),
    }
}

/// The editors of an entry, of all roles; none where the record gives none.
pub open spec fn entry_editors(editors: Option<Seq<Seq<PersonView>>>) -> Seq<NameView> {
    match editors {
        Some(groups) => resolved_all(concatenated(groups)),
        None => Seq::empty(),
    }
}

/// The texts one after the other, each behind an empty line.
pub open spec fn appended(texts: Seq<Seq<char>>) -> Seq<char>
    decreases texts.len(),
{
    if texts.len() == 0 {
        Seq::empty()
    } else {
        appended(texts.drop_last()) + seq!['\n', '\n'] + texts.last()
    }
}

/// The entry made of a record, of what was read from it, of the records it
/// refers to and of their texts.
pub open spec fn assembled(
    record: RecordView,
    reading: ReadingView,
    ancestors: Seq<RecordView>,
    texts: Seq<Seq<char>>,
) -> EntryView {
    EntryView {
        id: record.key,
        authors: entry_authors(reading.authors),
        editors: entry_editors(reading.editors),
        entry_type: reading.entry_type,
        bibtex: reading.bibtex + appended(texts),
        other: merged(record, ancestors),
    }
}

/// What `biblatex` reads from a record.
pub open spec fn reading_named(record: RecordView) -> ReadingView {
    ReadingView {
        entry_type: type_named(record.entry_type),
        authors: authors_named(record.fields),
        editors: editors_named(record.fields),
        bibtex: text_named(record.key, record.entry_type, record.fields),
    }
}

/// The keys that a record refers to; none where its references cannot be
/// read.
pub open spec fn references(record: RecordView) -> Seq<Seq<char>> {
    match references_named(record.fields) {
        Some(keys) => keys,
        None => Seq::empty(),
    }
}

/// The records that a record refers to, as `index` finds them.
pub open spec fn ancestors_of(record: RecordView, index: Map<Seq<char>, RecordView>) -> Seq<
    RecordView,
> {
    found(index, references(record))
}

/// The text of each of the given records.
pub open spec fn texts_named(records: Seq<RecordView>) -> Seq<Seq<char>> {
    records.map_values(
        |record: RecordView| text_named(record.key, record.entry_type, record.fields),
    )
}

/// The normalized entry of a record from all of whose references `index`
/// leads to a record.
pub open spec fn normalized_entry(record: RecordView, index: Map<Seq<char>, RecordView>) -> EntryView {
    assembled(
        record,
        reading_named(record),
        ancestors_of(record, index),
        texts_named(ancestors_of(record, index)),
    )
}

/// The first and last names of `people`, in their order.
pub fn resolve_people(people: Vec<RawPerson>) -> (names: Vec<SRAPerson>)
    ensures
        names.deep_view() == resolved_all(people.deep_view()),
{
    let mut names: Vec<SRAPerson> = Vec::new();
    let ghost all = people@;
    for person in it: people.into_iter()
        invariant
            it.seq() == all,
            names.len() == it.index(),
            forall|j: int| 0 <= j < names.len() ==> names[j]@ == crate::person::resolved(all[j]@),
    {
        names.push(SRAPerson::from(person));
    }
    assert(names.deep_view() =~= resolved_all(people.deep_view()));
    names
}

/// The members of all groups in one sequence, group after group.
pub fn flatten(groups: Vec<Vec<RawPerson>>) -> (people: Vec<RawPerson>)
    ensures
        people.deep_view() == concatenated(groups.deep_view()),
{
    let mut people: Vec<RawPerson> = Vec::new();
    let ghost items = groups@;
    let ghost all = groups.deep_view();
    assert(all.take(0) == Seq::<Seq<PersonView>>::empty());
    for group in it: groups.into_iter()
        invariant
            it.seq() == items,
            all.len() == items.len(),
            forall|j: int| 0 <= j < items.len() ==> all[j] == #[trigger] items[j].deep_view(),
            people.deep_view() == concatenated(all.take(it.index())),
    {
        let ghost before = people.deep_view();
        let ghost i = it.index();
        assert(all.take(i + 1).drop_last() == all.take(i));
        let mut group = group;
        let ghost members = group.deep_view();
        assert(all[i] == members);
        people.append(&mut group);
        assert(people.deep_view() =~= before + members);
    }
    assert(all.take(all.len() as int) == all);
    people
}

impl Reading {
    /// Has `biblatex` read `record`.
    pub fn of(record: &RawRecord) -> (reading: Reading)
        ensures
            reading@ == reading_named(record@),
            reading.authors is Some <==> has_field(record@.fields, "author"@),
            reading.editors is Some,
            names_no_editor(record@.fields) ==> reading@.editors == Some(
                Seq::<Seq<PersonView>>::empty(),
            ),
    {
        Reading {
            entry_type: canonical_type(record.entry_type.as_str()),
            authors: record_authors(duplicate_fields(&record.fields)),
            editors: record_editors(duplicate_fields(&record.fields)),
            bibtex: text_of(record),
        }
    }
}

/// The text that `biblatex` writes for `record`.
pub fn text_of(record: &RawRecord) -> (text: String)
    ensures
        text@ == text_named(record@.key, record@.entry_type, record@.fields),
{
    record_text(
        record.key.clone(),
        record.entry_type.as_str(),
        duplicate_fields(&record.fields),
    )
}

/// The keys that `record` refers to, in the order in which it names them.
pub fn references_of(record: &RawRecord) -> (keys: Vec<String>)
    ensures
        keys.deep_view() == references(record@),
        names_no_parent(record@.fields) ==> keys.deep_view() == Seq::<Seq<char>>::empty(),
{
    match record_references(duplicate_fields(&record.fields)) {
        Some(keys) => keys,
        None => {
            let keys: Vec<String> = Vec::new();
            assert(keys.deep_view() =~= Seq::<Seq<char>>::empty());
            keys
        },
    }
}

impl SRAEntry {
    /// The entry's fields are in ascending order of their names.
    pub open spec fn wf(&self) -> bool {
        self.other.wf()
    }

    /// The text of an entry: `text`, then each of `texts` behind an empty
    /// line.
    pub fn append_texts(text: String, texts: &Vec<String>) -> (bibtex: String)
        ensures
            bibtex@ == text@ + appended(texts.deep_view()),
    {
        let mut bibtex = text;
        let ghost all = texts.deep_view();
        assert(all.take(0) == Seq::<Seq<char>>::empty());
        let mut i: usize = 0;
        while i < texts.len()
            invariant
                i <= texts.len(),
                all == texts.deep_view(),
                all.len() == texts.len(),
                bibtex@ == text@ + appended(all.take(i as int)),
            decreases texts.len() - i,
        {
            assert(all.take(i + 1).drop_last() == all.take(i as int));
            assert(all[i as int] == texts[i as int]@);
            proof {
                reveal_strlit("\n\n");
            }
            bibtex.append("\n\n");
            bibtex.append(texts[i].as_str());
            assert("\n\n"@ == seq!['\n', '\n']);
            assert(bibtex@ == text@ + (appended(all.take(i as int)) + seq!['\n', '\n']
                + all[i as int]));
            i = i + 1;
        }
        assert(all.take(all.len() as int) == all);
        bibtex
    }

    /// The entry of `record`, of which `reading` was read, which refers to
    /// `ancestors`, whose texts are `texts`.
    pub fn assemble(
        record: &RawRecord,
        reading: Reading,
        ancestors: &Vec<RawRecord>,
        texts: &Vec<String>,
    ) -> (entry: SRAEntry)
        ensures
            entry.wf(),
            entry@ == assembled(
                record@,
                reading@,
                ancestors.deep_view(),
                texts.deep_view(),
            ),
    {
        let authors = match reading.authors {
            Some(people) => resolve_people(people),
            None => {
                let names: Vec<SRAPerson> = Vec::new();
                assert(names.deep_view() =~= Seq::<NameView>::empty());
                names
            },
        };
        let editors = match reading.editors {
            Some(groups) => resolve_people(flatten(groups)),
            None => {
                let names: Vec<SRAPerson> = Vec::new();
                assert(names.deep_view() =~= Seq::<NameView>::empty());
                names
            },
        };
        SRAEntry {
            id: record.key.clone(),
            authors,
            editors,
            entry_type: reading.entry_type,
            bibtex: Self::append_texts(reading.bibtex, texts),
            other: Self::merge(record, ancestors),
        }
    }

    /// The normalized entry of `record`, whose references are looked up in
    /// `store`. It fails where one of them leads to no record, and names the
    /// first such reference.
    pub fn from(record: &RawRecord, store: &RecordStore) -> (normalized: Result<SRAEntry, Error>)
        requires
            store.wf(),
        ensures
            match first_missing(store.index(), references(record@)) {
                Some(reference) => normalized matches Err(error) && error@
                    == (ErrorView::ReferenceNotFound { record: record@.key, reference }),
                None => normalized matches Ok(entry) && entry.wf() && entry@ == normalized_entry(
                    record@,
                    store.index(),
                ),
            },
            names_no_parent(record@.fields) ==> (normalized matches Ok(entry) && entry@.other
                == merged(record@, Seq::empty()) && entry@.bibtex == text_named(
                record@.key,
                record@.entry_type,
                record@.fields,
            )),
            normalized matches Ok(entry) ==> {
                &&& entry@.id == record@.key
                &&& !has_field(record@.fields, "author"@) ==> entry@.authors.len() == 0
                &&& names_no_editor(record@.fields) ==> entry@.editors.len() == 0
            },
    {
        let keys = references_of(record);
        let ancestors = store.resolve(record.key.as_str(), &keys)?;
        let ghost all = ancestors.deep_view();
        let mut texts: Vec<String> = Vec::new();
        let mut i: usize = 0;
        while i < ancestors.len()
            invariant
                i <= ancestors.len(),
                all == ancestors.deep_view(),
                all.len() == ancestors.len(),
                texts.len() == i,
                forall|j: int| 0 <= j < i ==> (#[trigger] texts[j])@ == texts_named(all)[j],
            decreases ancestors.len() - i,
        {
            assert(all[i as int] == ancestors[i as int]@);
            texts.push(text_of(&ancestors[i]));
            i = i + 1;
        }
        assert(texts.deep_view() =~= texts_named(all));
        Ok(Self::assemble(record, Reading::of(record), &ancestors, &texts))
    }
}

} // verus!
