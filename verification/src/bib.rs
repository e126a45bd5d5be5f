//! A normalized bibliography: one entry for each record, kept in ascending
//! order of the keys.

use vstd::prelude::*;
use biblatex::Bibliography;
use crate::entry::{normalized_entry, references, EntryView, SRAEntry};
use crate::error::{Error, ErrorView};
use crate::keyed::{lemma_ascending_distinct, KeyedMap};
use crate::reading::{index_of, records_of};
use crate::record::{
    distinct_keys, first_missing, has_key_before, names_no_parent, RecordStore, RecordView,
};

verus! {

/// A normalized bibliography.
#[derive(Debug)]
pub struct SRABib {
    /// The entries by their keys.
    pub entries: KeyedMap<SRAEntry>,
}

impl DeepView for SRABib {
    type V = Map<Seq<char>, EntryView>;

    open spec fn deep_view(&self) -> Map<Seq<char>, EntryView> {
        self.entries.deep_view()
    }
}

impl View for SRABib {
    type V = Map<Seq<char>, EntryView>;

    open spec fn view(&self) -> Map<Seq<char>, EntryView> {
        self.deep_view()
    }
}

/// What normalizing the first `n` of `records` gives: the entries by their
/// keys, or the first reference that leads to no record.
pub open spec fn normalized_prefix(
    records: Seq<RecordView>,
    index: Map<Seq<char>, RecordView>,
    n: nat,
) -> Result<
    Map<Seq<char>, EntryView>,
    ErrorView,
>
    decreases n,
{
    if n == 0 {
        Ok(Map::empty())
    } else {
        let record = records[n - 1];
        match normalized_prefix(records, index, (n - 1) as nat) {
            Err(error) => Err(error),
            Ok(entries) => match first_missing(index, references(record)) {
                Some(reference) => Err(
                    ErrorView::ReferenceNotFound { record: record.key, reference },
                ),
                None => Ok(entries.insert(record.key, normalized_entry(record, index))),
            },
        }
    }
}

/// What normalizing `records` gives: the entries by their keys, or the first
/// reference of the first record that has one that leads to no record.
pub open spec fn normalized(records: Seq<RecordView>, index: Map<Seq<char>, RecordView>) -> Result<
    Map<Seq<char>, EntryView>,
    ErrorView,
> {
    normalized_prefix(records, index, records.len())
}

/// Once a reference has led to no record, further records change nothing.
pub proof fn lemma_failure_stays(
    records: Seq<RecordView>,
    index: Map<Seq<char>, RecordView>,
    n: nat,
    m: nat,
)
    requires
        n <= m,
        normalized_prefix(records, index, n) is Err,
    ensures
        normalized_prefix(records, index, m) == normalized_prefix(records, index, n),
    decreases m,
{
    if n < m {
        lemma_failure_stays(records, index, n, (m - 1) as nat);
    }
}

/// Whether none of `records` has a field in which it names a record that it
/// refers to.
pub open spec fn refer_to_none(records: Seq<RecordView>) -> bool {
    forall|i: int| 0 <= i < records.len() ==> names_no_parent((#[trigger] records[i]).fields)
}

/// Whether one of the first `n` records refers to a key under which
/// `records` holds no record.
pub open spec fn dangles_before(
    records: Seq<RecordView>,
    index: Map<Seq<char>, RecordView>,
    n: int,
) -> bool {
    exists|i: int|
        0 <= i < n && i < records.len() && first_missing(
            index,
            references(#[trigger] records[i]),
        ) is Some
}

/// Normalizing fails exactly where a record refers to a key under which
/// there is no record.
pub proof fn lemma_fails_where_reference_dangles(
    records: Seq<RecordView>,
    index: Map<Seq<char>, RecordView>,
    n: nat,
)
    requires
        n <= records.len(),
    ensures
        normalized_prefix(records, index, n) is Err <==> dangles_before(records, index, n as int),
    decreases n,
{
    if n > 0 {
        lemma_fails_where_reference_dangles(records, index, (n - 1) as nat);
        if dangles_before(records, index, n - 1) {
            let i = choose|i: int|
                0 <= i < n - 1 && i < records.len() && first_missing(
                    index,
                    references(#[trigger] records[i]),
                ) is Some;
            assert(dangles_before(records, index, n as int));
        }
        if first_missing(index, references(records[n - 1])) is Some {
            assert(dangles_before(records, index, n as int));
        }
        if dangles_before(records, index, n as int) {
            let i = choose|i: int|
                0 <= i < n && i < records.len() && first_missing(
                    index,
                    references(#[trigger] records[i]),
                ) is Some;
            if i < n - 1 {
                assert(dangles_before(records, index, n - 1));
            }
        }
    }
}

/// Where normalizing succeeds, the keys of the entries are the keys of the
/// records.
pub proof fn lemma_keys_are_record_keys(
    records: Seq<RecordView>,
    index: Map<Seq<char>, RecordView>,
    n: nat,
    key: Seq<char>,
)
    requires
        n <= records.len(),
        normalized_prefix(records, index, n) is Ok,
    ensures
        normalized_prefix(records, index, n)->Ok_0.contains_key(key) <==> has_key_before(
            records,
            key,
            n as int,
        ),
    decreases n,
{
    if n > 0 {
        lemma_keys_are_record_keys(records, index, (n - 1) as nat, key);
        if has_key_before(records, key, n - 1) {
            let i = choose|i: int|
                0 <= i < n - 1 && i < records.len() && (#[trigger] records[i]).key == key;
            assert(has_key_before(records, key, n as int));
        }
        if records[n - 1].key == key {
            assert(has_key_before(records, key, n as int));
        }
        if has_key_before(records, key, n as int) {
            let i = choose|i: int|
                0 <= i < n && i < records.len() && (#[trigger] records[i]).key == key;
            if i < n - 1 {
                assert(has_key_before(records, key, n - 1));
            }
        }
    }
}

/// Where no two records have one key and normalizing succeeds, every record
/// has its own entry under its own key.
pub proof fn lemma_entry_of_each_record(
    records: Seq<RecordView>,
    index: Map<Seq<char>, RecordView>,
    n: nat,
    i: int,
)
    requires
        n <= records.len(),
        distinct_keys(records),
        normalized_prefix(records, index, n) is Ok,
        0 <= i < n,
    ensures
        normalized_prefix(records, index, n)->Ok_0.contains_key(records[i].key),
        normalized_prefix(records, index, n)->Ok_0[records[i].key] == normalized_entry(
            records[i],
            index,
        ),
    decreases n,
{
    if i < n - 1 {
        lemma_entry_of_each_record(records, index, (n - 1) as nat, i);
        assert(records[i].key != records[n - 1].key);
    }
}

/// Where no two records have one key and normalizing succeeds, there are as
/// many entries as records.
pub proof fn lemma_as_many_entries_as_records(
    records: Seq<RecordView>,
    index: Map<Seq<char>, RecordView>,
    bib: SRABib,
)
    requires
        distinct_keys(records),
        bib.wf(),
        normalized(records, index) == Ok::<_, ErrorView>(bib@),
    ensures
        bib.entries.keys().len() == records.len(),
{
    let held = records.map_values(|record: RecordView| record.key);
    let walked = bib.entries.keys();
    assert(held.no_duplicates());
    assert(walked.no_duplicates()) by {
        assert forall|i: int, j: int|
            0 <= i < walked.len() && 0 <= j < walked.len() && i != j implies walked[i]
            != walked[j] by {
            if walked[i] == walked[j] {
                lemma_ascending_distinct(walked, i, j);
            }
        }
    }
    assert(held.to_set() =~= walked.to_set()) by {
        assert forall|key: Seq<char>| held.contains(key) <==> walked.contains(key) by {
            lemma_keys_are_record_keys(records, index, records.len(), key);
            bib.entries.lemma_keys_are_domain(key);
            assert(bib@.contains_key(key) == bib.entries@.contains_key(key));
            if held.contains(key) {
                let i = held.index_of(key);
                assert(records[i].key == key);
                assert(has_key_before(records, key, records.len() as int));
            }
            if has_key_before(records, key, records.len() as int) {
                let i = choose|i: int|
                    0 <= i < records.len() && i < records.len() && (#[trigger] records[i]).key
                        == key;
                assert(held[i] == key);
            }
        }
    }
    held.unique_seq_to_set();
    walked.unique_seq_to_set();
}

/// Two normalized bibliographies with the same contents are walked alike:
/// their entries come in the same order, and so do the fields of each entry.
/// So normalizing the same records twice gives the same output, item for item.
pub proof fn lemma_normalizing_twice_agrees(
    records: Seq<RecordView>,
    index: Map<Seq<char>, RecordView>,
    first: SRABib,
    second: SRABib,
)
    requires
        first.wf(),
        second.wf(),
        normalized(records, index) == Ok::<_, ErrorView>(first@),
        normalized(records, index) == Ok::<_, ErrorView>(second@),
    ensures
        first.entries.keys() == second.entries.keys(),
        first.entries.values().len() == second.entries.values().len(),
        forall|i: int|
            0 <= i < first.entries.keys().len() ==> {
                &&& (#[trigger] first.entries.values()[i])@ == second.entries.values()[i]@
                &&& first.entries.values()[i].other.keys() == second.entries.values()[i].other.keys()
            },
{
    let a = first.entries;
    let b = second.entries;
    assert(a@.dom() =~= b@.dom()) by {
        assert forall|key: Seq<char>| a@.dom().contains(key) == b@.dom().contains(key) by {
            assert(first@.contains_key(key) == second@.contains_key(key));
        }
    }
    a.lemma_same_walk(&b);
    assert forall|i: int| 0 <= i < a.keys().len() implies {
        &&& (#[trigger] a.values()[i])@ == b.values()[i]@
        &&& a.values()[i].other.keys() == b.values()[i].other.keys()
    } by {
        let key = a.keys()[i];
        a.lemma_walk_at(i);
        b.lemma_walk_at(i);
        assert(first@[key] == second@[key]);
        let x = a.values()[i];
        let y = b.values()[i];
        assert(x.other.deep_view() == y.other.deep_view());
        assert(x.other@.dom() =~= y.other@.dom()) by {
            assert forall|name: Seq<char>| x.other@.dom().contains(name) == y.other@.dom().contains(
                name,
            ) by {
                assert(x.other.deep_view().contains_key(name) == y.other.deep_view().contains_key(
                    name,
                ));
            }
        }
        x.other.lemma_same_walk(&y.other);
    }
}

impl SRABib {
    /// The entries are in ascending order of their keys, and so are the
    /// fields of each entry.
    pub open spec fn wf(&self) -> bool {
        &&& self.entries.wf()
        &&& forall|key: Seq<char>| #[trigger]
            self.entries@.contains_key(key) ==> self.entries@[key].wf()
    }

    /// Normalizes every record of `store`. It fails where a record refers to
    /// a key under which the store holds no record.
    pub fn normalize(store: &RecordStore) -> (bib: Result<SRABib, Error>)
        requires
            store.wf(),
        ensures
            match normalized(store@, store.index()) {
                Ok(entries) => bib matches Ok(bib) && bib.wf() && bib@ == entries,
                Err(failure) => bib matches Err(error) && error@ == failure,
            },
            refer_to_none(store@) ==> bib is Ok,
    {
        let mut entries: KeyedMap<SRAEntry> = KeyedMap::new();
        assert(entries.deep_view() =~= Map::<Seq<char>, EntryView>::empty());
        let mut i: usize = 0;
        while i < store.len()
            invariant
                store.wf(),
                i <= store@.len(),
                entries.wf(),
                forall|key: Seq<char>| #[trigger]
                    entries@.contains_key(key) ==> entries@[key].wf(),
                normalized_prefix(store@, store.index(), i as nat) == Ok::<_, ErrorView>(entries.deep_view()),
            decreases store@.len() - i,
        {
            let record = store.record(i);
            let ghost before = entries.deep_view();
            match SRAEntry::from(record, store) {
                Ok(entry) => {
                    entries.insert(record.key.clone(), entry);
                    assert(entries.deep_view() =~= before.insert(record@.key, entry@));
                },
                Err(error) => {
                    proof {
                        lemma_failure_stays(store@, store.index(), (i + 1) as nat, store@.len());
                    }
                    return Err(error);
                },
            }
            i = i + 1;
        }
        Ok(SRABib { entries })
    }

    /// Normalizes every record of `bibliography`.
    pub fn new(bibliography: &Bibliography) -> (bib: Result<SRABib, Error>)
        ensures
            match normalized(records_of(*bibliography), index_of(*bibliography)) {
                Ok(entries) => bib matches Ok(bib) && bib.wf() && bib@ == entries,
                Err(failure) => bib matches Err(error) && error@ == failure,
            },
            refer_to_none(records_of(*bibliography)) ==> bib is Ok,
    {
        Self::normalize(&RecordStore::read(bibliography))
    }
}

} // verus!
