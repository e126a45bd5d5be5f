//! Records as a bibliography holds them, and the store in which a record is
//! found by its key.

use vstd::prelude::*;
use biblatex::Bibliography;
use crate::fragment::{FragmentView, ValueFragment};
use crate::error::{Error, ErrorView};
use crate::keyed::KeyedMap;
use crate::reading::{index_of, record_under, records, records_of};

verus! {

/// One field of a record: its name and the fragments of its value.
#[derive(Debug)]
pub struct RawField {
    pub name: String,
    pub value: Vec<ValueFragment>,
}

/// What a `RawField` holds.
pub struct FieldView {
    pub name: Seq<char>,
    pub value: Seq<FragmentView>,
}

impl DeepView for RawField {
    type V = FieldView;

    open spec fn deep_view(&self) -> FieldView {
        FieldView { name: self.name@, value: self.value.deep_view() }
    }
}

impl View for RawField {
    type V = FieldView;

    open spec fn view(&self) -> FieldView {
        self.deep_view()
    }
}

impl RawField {
    /// A field of the given name and value.
    pub fn new(name: String, value: Vec<ValueFragment>) -> (field: RawField)
        ensures
            field.name == name,
            field.value == value,
    {
        RawField { name, value }
    }

    /// A field whose value is one fragment of plain text.
    pub fn text(name: &str, text: &str) -> (field: RawField)
        ensures
            field@ == (FieldView {
                name: name@,
                value: seq![FragmentView::Text { text: text@, verbatim: false }],
            }),
    {
        let mut value: Vec<ValueFragment> = Vec::new();
        value.push(ValueFragment::text(text));
        let field = RawField { name: name.to_owned(), value };
        assert(field@.value =~= seq![FragmentView::Text { text: text@, verbatim: false }]);
        field
    }

    /// A copy of this field.
    pub fn duplicate(&self) -> (copy: RawField)
        ensures
            copy@ == self@,
    {
        RawField { name: self.name.clone(), value: duplicate_fragments(&self.value) }
    }
}

/// A copy of the fragments of a value.
pub fn duplicate_fragments(fragments: &Vec<ValueFragment>) -> (copy: Vec<ValueFragment>)
    ensures
        copy.deep_view() == fragments.deep_view(),
{
    let mut copy: Vec<ValueFragment> = Vec::new();
    let mut i: usize = 0;
    while i < fragments.len()
        invariant
            i <= fragments.len(),
            copy.len() == i,
            forall|j: int| 0 <= j < i ==> copy[j]@ == fragments[j]@,
        decreases fragments.len() - i,
    {
        copy.push(fragments[i].duplicate());
        i = i + 1;
    }
    assert(copy.deep_view() =~= fragments.deep_view());
    copy
}

/// A copy of the fields of a record.
pub fn duplicate_fields(fields: &Vec<RawField>) -> (copy: Vec<RawField>)
    ensures
        copy.deep_view() == fields.deep_view(),
{
    let mut copy: Vec<RawField> = Vec::new();
    let mut i: usize = 0;
    while i < fields.len()
        invariant
            i <= fields.len(),
            copy.len() == i,
            forall|j: int| 0 <= j < i ==> copy[j]@ == fields[j]@,
        decreases fields.len() - i,
    {
        copy.push(fields[i].duplicate());
        i = i + 1;
    }
    assert(copy.deep_view() =~= fields.deep_view());
    copy
}

/// One record of a bibliography.
#[derive(Debug)]
pub struct RawRecord {
    /// The key by which the record is cited and referred to.
    pub key: String,
    /// The name of the record's type, such as "book".
    pub entry_type: String,
    /// The fields in the order in which they are applied: of two fields with
    /// one name the later one counts.
    pub fields: Vec<RawField>,
}

impl RawRecord {
    /// A copy of this record.
    pub fn duplicate(&self) -> (copy: RawRecord)
        ensures
            copy@ == self@,
    {
        RawRecord {
            key: self.key.clone(),
            entry_type: self.entry_type.clone(),
            fields: duplicate_fields(&self.fields),
        }
    }

    /// A record of the given key, type and fields.
    pub fn new(key: String, entry_type: String, fields: Vec<RawField>) -> (record: RawRecord)
        ensures
            record.key == key,
            record.entry_type == entry_type,
            record.fields == fields,
    {
        RawRecord { key, entry_type, fields }
    }
}

/// What a `RawRecord` holds.
pub struct RecordView {
    pub key: Seq<char>,
    pub entry_type: Seq<char>,
    pub fields: Seq<FieldView>,
}

impl DeepView for RawRecord {
    type V = RecordView;

    open spec fn deep_view(&self) -> RecordView {
        RecordView {
            key: self.key@,
            entry_type: self.entry_type@,
            fields: self.fields.deep_view(),
        }
    }
}

impl View for RawRecord {
    type V = RecordView;

    open spec fn view(&self) -> RecordView {
        self.deep_view()
    }
}

/// Whether one of `fields` has the name `name`.
pub open spec fn has_field(fields: Seq<FieldView>, name: Seq<char>) -> bool {
    exists|i: int| 0 <= i < fields.len() && (#[trigger] fields[i]).name == name
}

/// Whether none of `fields` is one in which a record names the records it
/// refers to.
pub open spec fn names_no_parent(fields: Seq<FieldView>) -> bool {
    !has_field(fields, "crossref"@) && !has_field(fields, "xref"@)
}

/// Whether none of `fields` is one in which a record names editors.
pub open spec fn names_no_editor(fields: Seq<FieldView>) -> bool {
    &&& !has_field(fields, "editor"@)
    &&& !has_field(fields, "editora"@)
    &&& !has_field(fields, "editorb"@)
    &&& !has_field(fields, "editorc"@)
}

/// Whether one of the first `n` records has the key `key`.
pub open spec fn has_key_before(records: Seq<RecordView>, key: Seq<char>, n: int) -> bool {
    exists|i: int| 0 <= i < n && i < records.len() && (#[trigger] records[i]).key == key
}

/// Whether position `i` is that of the first record with the key `key`.
pub open spec fn is_first(records: Seq<RecordView>, key: Seq<char>, i: int) -> bool {
    &&& 0 <= i < records.len()
    &&& records[i].key == key
    &&& !has_key_before(records, key, i)
}

/// The position of the first record with the key `key`.
pub open spec fn position(records: Seq<RecordView>, key: Seq<char>) -> Option<int> {
    if exists|i: int| is_first(records, key, i) {
        Some(choose|i: int| is_first(records, key, i))
    } else {
        None
    }
}

/// The record that is found under `key`: the first one with that key.
pub open spec fn lookup(records: Seq<RecordView>, key: Seq<char>) -> Option<RecordView> {
    match position(records, key) {
        Some(i) => Some(records[i]),
        None => None,
    }
}

/// The index that leads from every key that a record has to the first record
/// with that key.
pub open spec fn own_index(records: Seq<RecordView>) -> Map<Seq<char>, RecordView> {
    Map::new(
        |key: Seq<char>| lookup(records, key) is Some,
        |key: Seq<char>| lookup(records, key).unwrap(),
    )
}

/// The record to which `index` leads from `key`, if it leads to one.
pub open spec fn under(index: Map<Seq<char>, RecordView>, key: Seq<char>) -> Option<RecordView> {
    if index.contains_key(key) {
        Some(index[key])
    } else {
        None
    }
}

/// Those of `keys` from which `index` leads to no record, in their order.
pub open spec fn missing(index: Map<Seq<char>, RecordView>, keys: Seq<Seq<char>>) -> Seq<
    Seq<char>,
> {
    keys.filter(|key: Seq<char>| !index.contains_key(key))
}

/// The first of `keys` from which `index` leads to no record.
pub open spec fn first_missing(index: Map<Seq<char>, RecordView>, keys: Seq<Seq<char>>) -> Option<
    Seq<char>,
> {
    if missing(index, keys).len() == 0 {
        None
    } else {
        Some(missing(index, keys)[0])
    }
}

/// The records to which `index` leads from `keys`, in the order of the keys.
pub open spec fn found(index: Map<Seq<char>, RecordView>, keys: Seq<Seq<char>>) -> Seq<
    RecordView,
> {
    keys.map_values(|key: Seq<char>| index[key])
}

/// Whether no two records have one key.
pub open spec fn distinct_keys(records: Seq<RecordView>) -> bool {
    forall|i: int, j: int|
        0 <= i < j < records.len() ==> (#[trigger] records[i]).key != (#[trigger] records[j]).key
}

/// A key has at most one first position.
pub proof fn lemma_position_of_first(records: Seq<RecordView>, key: Seq<char>, i: int)
    requires
        is_first(records, key, i),
    ensures
        position(records, key) == Some(i),
        lookup(records, key) == Some(records[i]),
{
    let j = choose|j: int| is_first(records, key, j);
    if j < i {
        assert(has_key_before(records, key, i));
    }
    if i < j {
        assert(has_key_before(records, key, j));
    }
}

/// A key that no record has is not found.
pub proof fn lemma_position_of_none(records: Seq<RecordView>, key: Seq<char>)
    requires
        !has_key_before(records, key, records.len() as int),
    ensures
        position(records, key) is None,
        lookup(records, key) is None,
{
    if exists|i: int| is_first(records, key, i) {
        let i = choose|i: int| is_first(records, key, i);
        assert(has_key_before(records, key, records.len() as int));
    }
}

/// The records of a bibliography, and the index by which a record is found
/// under a key. A store made of records finds each under its own key; a store
/// read from a parsed bibliography finds what that bibliography finds, under
/// keys and aliases alike.
#[derive(Debug)]
pub struct RecordStore<'a> {
    records: Vec<RawRecord>,
    first: KeyedMap<usize>,
    source: Option<&'a Bibliography>,
}

impl<'a> DeepView for RecordStore<'a> {
    type V = Seq<RecordView>;

    closed spec fn deep_view(&self) -> Seq<RecordView> {
        self.records.deep_view()
    }
}

impl<'a> View for RecordStore<'a> {
    type V = Seq<RecordView>;

    open spec fn view(&self) -> Seq<RecordView> {
        self.deep_view()
    }
}

impl<'a> RecordStore<'a> {
    /// What is kept beside the records leads from every key to the first
    /// record that has it.
    pub closed spec fn wf(&self) -> bool {
        &&& self.first.wf()
        &&& forall|key: Seq<char>|
            self.first@.contains_key(key) <==> has_key_before(self@, key, self@.len() as int)
        &&& forall|key: Seq<char>| #[trigger]
            self.first@.contains_key(key) ==> is_first(self@, key, self.first@[key] as int)
    }

    /// The index of the store: the record that is found under each key.
    pub closed spec fn index(&self) -> Map<Seq<char>, RecordView> {
        match self.source {
            Some(bibliography) => index_of(*bibliography),
            None => own_index(self@),
        }
    }

    /// A store of the given records, in their order, each found under its own
    /// key.
    pub fn new(records: Vec<RawRecord>) -> (store: RecordStore<'a>)
        ensures
            store.wf(),
            store@ == records.deep_view(),
            store.index() == own_index(records.deep_view()),
    {
        Self::indexed(records, None)
    }

    /// A store of the records of `bibliography`, in their order, in which a
    /// key finds what it finds in the bibliography.
    pub fn read(bibliography: &'a Bibliography) -> (store: RecordStore<'a>)
        ensures
            store.wf(),
            store@ == records_of(*bibliography),
            store.index() == index_of(*bibliography),
    {
        Self::indexed(records(bibliography), Some(bibliography))
    }

    /// A store of the given records that looks keys up in `source`, where
    /// there is one.
    fn indexed(records: Vec<RawRecord>, source: Option<&'a Bibliography>) -> (store: RecordStore<
        'a,
    >)
        ensures
            store.wf(),
            store@ == records.deep_view(),
            store.source == source,
    {
        let mut first: KeyedMap<usize> = KeyedMap::new();
        let ghost all = records.deep_view();
        let mut i: usize = 0;
        while i < records.len()
            invariant
                i <= records.len(),
                all == records.deep_view(),
                all.len() == records.len(),
                first.wf(),
                forall|key: Seq<char>|
                    first@.contains_key(key) <==> has_key_before(all, key, i as int),
                forall|key: Seq<char>| #[trigger]
                    first@.contains_key(key) ==> is_first(all, key, first@[key] as int),
            decreases records.len() - i,
        {
            let ghost own = all[i as int].key;
            assert(own == records[i as int].key@);
            if !first.contains_key(records[i].key.as_str()) {
                first.insert(records[i].key.clone(), i);
            }
            proof {
                assert forall|key: Seq<char>| first@.contains_key(key) <==> has_key_before(
                    all,
                    key,
                    i + 1,
                ) by {
                    if has_key_before(all, key, i as int) {
                        let j = choose|j: int|
                            0 <= j < i && j < all.len() && (#[trigger] all[j]).key == key;
                        assert(has_key_before(all, key, i + 1));
                    }
                    if key == own {
                        assert(has_key_before(all, key, i + 1));
                    }
                    if has_key_before(all, key, i + 1) {
                        let j = choose|j: int|
                            0 <= j < i + 1 && j < all.len() && (#[trigger] all[j]).key == key;
                        if j < i {
                            assert(has_key_before(all, key, i as int));
                        }
                    }
                }
            }
            i = i + 1;
        }
        RecordStore { records, first, source }
    }

    /// The number of records.
    pub fn len(&self) -> (n: usize)
        ensures
            n == self@.len(),
    {
        self.records.len()
    }

    /// The record at position `i`.
    pub fn record(&self, i: usize) -> (record: &RawRecord)
        requires
            i < self@.len(),
        ensures
            record@ == self@[i as int],
    {
        &self.records[i]
    }

    /// The records that the record with the key `record` refers to by
    /// `references`, in the order in which it names them. Where one of the
    /// keys leads to no record, the first such key is reported.
    pub fn resolve(&self, record: &str, references: &Vec<String>) -> (resolved: Result<
        Vec<RawRecord>,
        Error,
    >)
        requires
            self.wf(),
        ensures
            match first_missing(self.index(), references.deep_view()) {
                Some(reference) => resolved matches Err(error) && error@
                    == (ErrorView::ReferenceNotFound { record: record@, reference }),
                None => resolved matches Ok(ancestors) && ancestors.deep_view() == found(
                    self.index(),
                    references.deep_view(),
                ),
            },
    {
        let mut ancestors: Vec<RawRecord> = Vec::new();
        let ghost keys = references.deep_view();
        let ghost index = self.index();
        let ghost absent = |key: Seq<char>| !index.contains_key(key);
        let mut i: usize = 0;
        proof {
            reveal(Seq::filter);
            assert(keys.take(0) == Seq::<Seq<char>>::empty());
            assert(ancestors.deep_view() =~= found(index, keys.take(0)));
        }
        while i < references.len()
            invariant
                self.wf(),
                index == self.index(),
                i <= references.len(),
                keys == references.deep_view(),
                keys.len() == references.len(),
                absent == |key: Seq<char>| !index.contains_key(key),
                keys.take(i as int).filter(absent).len() == 0,
                ancestors.len() == i,
                ancestors.deep_view() == found(index, keys.take(i as int)),
            decreases references.len() - i,
        {
            assert(keys[i as int] == references[i as int]@);
            proof {
                reveal(Seq::filter);
                assert(keys.take(i + 1).drop_last() == keys.take(i as int));
            }
            match self.get(references[i].as_str()) {
                Some(ancestor) => {
                    let ghost before = ancestors.deep_view();
                    assert(under(index, keys[i as int]) == Some(ancestor@));
                    ancestors.push(ancestor);
                    assert(ancestors.deep_view() =~= before.push(index[keys[i as int]]));
                    assert(found(index, keys.take(i + 1)) =~= found(
                        index,
                        keys.take(i as int),
                    ).push(index[keys[i as int]]));
                },
                None => {
                    proof {
                        let front = keys.take(i + 1);
                        let back = keys.skip(i + 1);
                        assert(keys == front + back);
                        Seq::filter_distributes_over_add(front, back, absent);
                        assert(front.filter(absent) == seq![keys[i as int]]);
                    }
                    return Err(
                        Error::ReferenceNotFound {
                            record: record.to_owned(),
                            reference: references[i].clone(),
                        },
                    );
                },
            }
            i = i + 1;
        }
        proof {
            assert(keys.take(keys.len() as int) == keys);
        }
        Ok(ancestors)
    }

    /// A copy of the record that is found under `key`, if there is one.
    pub fn get(&self, key: &str) -> (found: Option<RawRecord>)
        requires
            self.wf(),
        ensures
            found.deep_view() == under(self.index(), key@),
    {
        match self.source {
            Some(bibliography) => record_under(bibliography, key),
            None => match self.first.get(key) {
                Some(at) => {
                    proof {
                        lemma_position_of_first(self@, key@, *at as int);
                    }
                    Some(self.records[*at].duplicate())
                },
                None => {
                    proof {
                        lemma_position_of_none(self@, key@);
                    }
                    None
                },
            },
        }
    }
}

} // verus!
