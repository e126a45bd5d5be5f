//! What the `biblatex` crate makes of a record. The record is handed over as
//! key, type and fields; each function here has `biblatex` build its own entry
//! from them and asks it one question. Nothing here is proved: what a function
//! returns is given a name, and the rest of the library reasons about that
//! name.

use vstd::prelude::*;
use biblatex::{Bibliography, Chunk, Entry, EntryType, Spanned};
use crate::fragment::ValueFragment::{Math, Text};
use crate::person::{PersonView, RawPerson};
use crate::record::{
    has_field, names_no_editor, names_no_parent, FieldView, RawField, RawRecord, RecordView,
};

verus! {

/// A parsed bibliography as `biblatex` holds it. Of what is in it the library
/// knows what `records` hands out.
#[verifier::external_type_specification]
#[verifier::external_body]
pub struct ExBibliography(biblatex::Bibliography);

/// The records that a bibliography holds, in its order: of each its key, the
/// canonical name of its type, and its fields in the order of their names.
pub uninterp spec fn records_of(bibliography: Bibliography) -> Seq<RecordView>;

/// `Bibliography::iter`: the entries in the order of the bibliography, each
/// handed out as a record of its key, the name that `EntryType`'s `Display`
/// gives its type, and its fields, which `biblatex` keeps in the order of
/// their names.
#[verifier::external_body]
pub(crate) fn records(bibliography: &Bibliography) -> (records: Vec<RawRecord>)
    ensures
        records.deep_view() == records_of(*bibliography),
{
    bibliography.iter().map(|entry| RawRecord {
        key: entry.key.clone(),
        entry_type: entry.entry_type.to_string(),
        fields: entry.fields.iter().map(|(name, chunks)| RawField::new(
            name.clone(),
            chunks.iter().map(|chunk| match &chunk.v {
                Chunk::Normal(text) => Text { text: text.clone(), verbatim: false },
                Chunk::Verbatim(text) => Text { text: text.clone(), verbatim: true },
                Chunk::Math(inner) => Math(inner.clone()),
            }).collect(),
        )).collect(),
    }).collect()
}

/// The index of a bibliography: the record that it holds under each key and
/// each alias, handed out as `records` hands records out.
pub uninterp spec fn index_of(bibliography: Bibliography) -> Map<Seq<char>, RecordView>;

/// `Bibliography::get`: the entry that the bibliography holds under `key`, be
/// it the entry's key or an alias of it, handed out as `records` hands entries
/// out, or nothing where it holds none under `key`.
#[verifier::external_body]
pub(crate) fn record_under(bibliography: &Bibliography, key: &str) -> (found: Option<RawRecord>)
    ensures
        found.deep_view() == (if index_of(*bibliography).contains_key(key@) {
            Some(index_of(*bibliography)[key@])
        } else {
            None
        }),
{
    bibliography.get(key).map(|entry| RawRecord {
        key: entry.key.clone(),
        entry_type: entry.entry_type.to_string(),
        fields: entry.fields.iter().map(|(name, chunks)| RawField::new(
            name.clone(),
            chunks.iter().map(|chunk| match &chunk.v {
                Chunk::Normal(text) => Text { text: text.clone(), verbatim: false },
                Chunk::Verbatim(text) => Text { text: text.clone(), verbatim: true },
                Chunk::Math(inner) => Math(inner.clone()),
            }).collect(),
        )).collect(),
    })
}

/// The canonical name that `biblatex` has for a type written as `entry_type`.
pub uninterp spec fn type_named(entry_type: Seq<char>) -> Seq<char>;

/// The text that `biblatex` writes for a record.
pub uninterp spec fn text_named(
    key: Seq<char>,
    entry_type: Seq<char>,
    fields: Seq<FieldView>,
) -> Seq<char>;

/// The authors that `biblatex` reads from the fields of a record.
pub uninterp spec fn authors_named(fields: Seq<FieldView>) -> Option<Seq<PersonView>>;

/// The editors that `biblatex` reads from the fields of a record, one group
/// for each editorial role.
pub uninterp spec fn editors_named(fields: Seq<FieldView>) -> Option<Seq<Seq<PersonView>>>;

/// The keys that, as `biblatex` reads the fields of a record, the record
/// refers to.
pub uninterp spec fn references_named(fields: Seq<FieldView>) -> Option<Seq<Seq<char>>>;

/// `EntryType`'s `Display`, on the type that `EntryType::new` makes of
/// `entry_type`: the lower-case name of the type that `biblatex` knows under
/// this name or one of its aliases, and "unknown" for every other.
#[verifier::external_body]
pub(crate) fn canonical_type(entry_type: &str) -> (name: String)
    ensures
        name@ == type_named(entry_type@),
{
    EntryType::new(entry_type).to_string()
}

/// `Entry::to_biblatex_string`, on an entry of the given key, type and
/// fields: the record in BibLaTeX syntax. The result depends on nothing else.
#[verifier::external_body]
pub(crate) fn record_text(key: String, entry_type: &str, fields: Vec<RawField>) -> (text: String)
    ensures
        text@ == text_named(key@, entry_type@, fields.deep_view()),
{
    let mut entry = Entry::new(key, EntryType::new(entry_type));
    for field in fields {
        let chunks = field.value.into_iter().map(|fragment| match fragment {
            Text { text, verbatim: false } => Chunk::Normal(text),
            Text { text, verbatim: true } => Chunk::Verbatim(text),
            Math(inner) => Chunk::Math(inner),
        });
        entry.fields.insert(field.name, chunks.map(Spanned::zero).collect());
    }
    entry.to_biblatex_string()
}

/// `Entry::author`, on an entry of the given fields: the persons named in its
/// field `author`, and nothing exactly where the entry has no such field:
/// `biblatex` reads persons from every value. The result depends on nothing
/// else.
#[verifier::external_body]
pub(crate) fn record_authors(fields: Vec<RawField>) -> (authors: Option<Vec<RawPerson>>)
    ensures
        authors.deep_view() == authors_named(fields.deep_view()),
        authors is Some <==> has_field(fields.deep_view(), "author"@),
{
    let mut entry = Entry::new(String::new(), EntryType::Misc);
    for field in fields {
        let chunks = field.value.into_iter().map(|fragment| match fragment {
            Text { text, verbatim: false } => Chunk::Normal(text),
            Text { text, verbatim: true } => Chunk::Verbatim(text),
            Math(inner) => Chunk::Math(inner),
        });
        entry.fields.insert(field.name, chunks.map(Spanned::zero).collect());
    }
    Some(entry.author().ok()?.into_iter().map(
        |p| RawPerson::new(p.prefix, p.given_name, p.name, p.suffix)
    ).collect())
}

/// `Entry::editors`, on an entry of the given fields: the persons named in
/// its fields `editor`, `editora`, `editorb` and `editorc`, one group for each
/// of these that the entry has, so none where it has none of them. `biblatex`
/// reads persons from every value and takes every role, so there is always a
/// result. It depends on nothing else.
#[verifier::external_body]
pub(crate) fn record_editors(fields: Vec<RawField>) -> (editors: Option<Vec<Vec<RawPerson>>>)
    ensures
        editors.deep_view() == editors_named(fields.deep_view()),
        editors is Some,
        names_no_editor(fields.deep_view()) ==> editors.deep_view() == Some(
            Seq::<Seq<PersonView>>::empty(),
        ),
{
    let mut entry = Entry::new(String::new(), EntryType::Misc);
    for field in fields {
        let chunks = field.value.into_iter().map(|fragment| match fragment {
            Text { text, verbatim: false } => Chunk::Normal(text),
            Text { text, verbatim: true } => Chunk::Verbatim(text),
            Math(inner) => Chunk::Math(inner),
        });
        entry.fields.insert(field.name, chunks.map(Spanned::zero).collect());
    }
    Some(entry.editors().ok()?.into_iter().map(|group| group.0.into_iter().map(
        |p| RawPerson::new(p.prefix, p.given_name, p.name, p.suffix)
    ).collect()).collect())
}

/// `Entry::parents`, on an entry of the given fields: the key in its field
/// `crossref`, then the keys in its field `xref`, as far as it has them, so
/// none where it has neither. `biblatex` reads keys from every value, so there
/// is always a result. It depends on nothing else.
#[verifier::external_body]
pub(crate) fn record_references(fields: Vec<RawField>) -> (keys: Option<Vec<String>>)
    ensures
        keys.deep_view() == references_named(fields.deep_view()),
        keys is Some,
        names_no_parent(fields.deep_view()) ==> keys.deep_view() == Some(
            Seq::<Seq<char>>::empty(),
        ),
{
    let mut entry = Entry::new(String::new(), EntryType::Misc);
    for field in fields {
        let chunks = field.value.into_iter().map(|fragment| match fragment {
            Text { text, verbatim: false } => Chunk::Normal(text),
            Text { text, verbatim: true } => Chunk::Verbatim(text),
            Math(inner) => Chunk::Math(inner),
        });
        entry.fields.insert(field.name, chunks.map(Spanned::zero).collect());
    }
    entry.parents().ok()
}

} // verus!
