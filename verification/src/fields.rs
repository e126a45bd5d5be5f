//! The fields of an entry: the rendered fields of the records it refers to,
//! overlaid with the record's own.

use vstd::prelude::*;
use crate::entry::SRAEntry;
use crate::fragment::{render, rendered};
use crate::keyed::KeyedMap;
use crate::record::{has_field, FieldView, RawRecord, RecordView};

verus! {

/// Each field as its name and its rendered value.
pub open spec fn rendered_fields(fields: Seq<FieldView>) -> Seq<(Seq<char>, Seq<char>)> {
    fields.map_values(|field: FieldView| (field.name, rendered(field.value)))
}

/// `base` after the pairs of name and value were written into it one after
/// the other: the last pair of a name decides its value.
pub open spec fn overlaid(
    base: Map<Seq<char>, Seq<char>>,
    pairs: Seq<(Seq<char>, Seq<char>)>,
) -> Map<Seq<char>, Seq<char>>
    decreases pairs.len(),
{
    if pairs.len() == 0 {
        base
    } else {
        overlaid(base, pairs.drop_last()).insert(pairs.last().0, pairs.last().1)
    }
}

/// The fields that a record has from the records it refers to: those of the
/// first, overlaid with those of the second, and so on.
pub open spec fn inherited(ancestors: Seq<RecordView>) -> Map<Seq<char>, Seq<char>>
    decreases ancestors.len(),
{
    if ancestors.len() == 0 {
        Map::empty()
    } else {
        overlaid(inherited(ancestors.drop_last()), rendered_fields(ancestors.last().fields))
    }
}

/// The fields of a normalized entry: the inherited ones, overlaid with the
/// record's own.
pub open spec fn merged(record: RecordView, ancestors: Seq<RecordView>) -> Map<
    Seq<char>,
    Seq<char>,
> {
    overlaid(inherited(ancestors), rendered_fields(record.fields))
}

/// Whether `record` has a field of the name `name`.
pub open spec fn defines(record: RecordView, name: Seq<char>) -> bool {
    has_field(record.fields, name)
}

/// Whether the field at position `i` of `record` is its last one of the name
/// `name`, which is the one that counts.
pub open spec fn defines_at(record: RecordView, name: Seq<char>, i: int) -> bool {
    &&& 0 <= i < record.fields.len()
    &&& record.fields[i].name == name
    &&& forall|j: int| i < j < record.fields.len() ==> (#[trigger] record.fields[j]).name != name
}

/// The last pair of a name decides the value of that name.
pub proof fn lemma_overlaid_last(
    base: Map<Seq<char>, Seq<char>>,
    pairs: Seq<(Seq<char>, Seq<char>)>,
    i: int,
)
    requires
        0 <= i < pairs.len(),
        forall|j: int| i < j < pairs.len() ==> (#[trigger] pairs[j]).0 != pairs[i].0,
    ensures
        overlaid(base, pairs).contains_key(pairs[i].0),
        overlaid(base, pairs)[pairs[i].0] == pairs[i].1,
    decreases pairs.len(),
{
    if i < pairs.len() - 1 {
        assert(pairs.last() == pairs[pairs.len() - 1]);
        lemma_overlaid_last(base, pairs.drop_last(), i);
    }
}

/// A name that no pair has keeps what the base gives it.
pub proof fn lemma_overlaid_untouched(
    base: Map<Seq<char>, Seq<char>>,
    pairs: Seq<(Seq<char>, Seq<char>)>,
    name: Seq<char>,
)
    requires
        forall|j: int| 0 <= j < pairs.len() ==> (#[trigger] pairs[j]).0 != name,
    ensures
        overlaid(base, pairs).contains_key(name) == base.contains_key(name),
        base.contains_key(name) ==> overlaid(base, pairs)[name] == base[name],
    decreases pairs.len(),
{
    if pairs.len() > 0 {
        assert(pairs.last() == pairs[pairs.len() - 1]);
        lemma_overlaid_untouched(base, pairs.drop_last(), name);
    }
}

/// The names of an overlaid map are those of the base and those of the pairs.
pub proof fn lemma_overlaid_names(
    base: Map<Seq<char>, Seq<char>>,
    pairs: Seq<(Seq<char>, Seq<char>)>,
    name: Seq<char>,
)
    ensures
        overlaid(base, pairs).contains_key(name) <==> base.contains_key(name) || exists|j: int|
            0 <= j < pairs.len() && (#[trigger] pairs[j]).0 == name,
    decreases pairs.len(),
{
    if pairs.len() > 0 {
        let front = pairs.drop_last();
        lemma_overlaid_names(base, front, name);
        if exists|j: int| 0 <= j < front.len() && (#[trigger] front[j]).0 == name {
            let j = choose|j: int| 0 <= j < front.len() && (#[trigger] front[j]).0 == name;
            assert(pairs[j].0 == name);
        }
        if pairs.last().0 == name {
            assert(pairs[pairs.len() - 1].0 == name);
        }
        if exists|j: int| 0 <= j < pairs.len() && (#[trigger] pairs[j]).0 == name {
            let j = choose|j: int| 0 <= j < pairs.len() && (#[trigger] pairs[j]).0 == name;
            if j < front.len() {
                assert(front[j].0 == name);
            }
        }
    }
}

/// The inherited fields are those that one of the ancestors has.
pub proof fn lemma_inherited_names(ancestors: Seq<RecordView>, name: Seq<char>)
    ensures
        inherited(ancestors).contains_key(name) <==> exists|a: int|
            0 <= a < ancestors.len() && defines(#[trigger] ancestors[a], name),
    decreases ancestors.len(),
{
    if ancestors.len() > 0 {
        let front = ancestors.drop_last();
        let last = ancestors.last();
        let pairs = rendered_fields(last.fields);
        lemma_inherited_names(front, name);
        lemma_overlaid_names(inherited(front), pairs, name);
        if exists|a: int| 0 <= a < front.len() && defines(#[trigger] front[a], name) {
            let a = choose|a: int| 0 <= a < front.len() && defines(#[trigger] front[a], name);
            assert(defines(ancestors[a], name));
        }
        if exists|j: int| 0 <= j < pairs.len() && (#[trigger] pairs[j]).0 == name {
            let j = choose|j: int| 0 <= j < pairs.len() && (#[trigger] pairs[j]).0 == name;
            assert(last.fields[j].name == name);
            assert(defines(ancestors[ancestors.len() - 1], name));
        }
        if exists|a: int| 0 <= a < ancestors.len() && defines(#[trigger] ancestors[a], name) {
            let a = choose|a: int|
                0 <= a < ancestors.len() && defines(#[trigger] ancestors[a], name);
            if a < front.len() {
                assert(defines(front[a], name));
            } else {
                let j = choose|j: int|
                    0 <= j < last.fields.len() && (#[trigger] last.fields[j]).name == name;
                assert(pairs[j].0 == name);
            }
        }
    }
}

/// The fields of an entry are exactly those that the record or one of its
/// ancestors has.
pub proof fn lemma_merged_names(record: RecordView, ancestors: Seq<RecordView>, name: Seq<char>)
    ensures
        merged(record, ancestors).contains_key(name) <==> defines(record, name) || exists|a: int|
            0 <= a < ancestors.len() && defines(#[trigger] ancestors[a], name),
{
    let pairs = rendered_fields(record.fields);
    lemma_inherited_names(ancestors, name);
    lemma_overlaid_names(inherited(ancestors), pairs, name);
    if exists|j: int| 0 <= j < pairs.len() && (#[trigger] pairs[j]).0 == name {
        let j = choose|j: int| 0 <= j < pairs.len() && (#[trigger] pairs[j]).0 == name;
        assert(record.fields[j].name == name);
    }
    if defines(record, name) {
        let j = choose|j: int|
            0 <= j < record.fields.len() && (#[trigger] record.fields[j]).name == name;
        assert(pairs[j].0 == name);
    }
}

/// A field that the record has itself keeps the record's own value, whatever
/// the ancestors have under that name.
pub proof fn lemma_own_field_overrides(
    record: RecordView,
    ancestors: Seq<RecordView>,
    name: Seq<char>,
    i: int,
)
    requires
        defines_at(record, name, i),
    ensures
        merged(record, ancestors).contains_key(name),
        merged(record, ancestors)[name] == rendered(record.fields[i].value),
{
    let pairs = rendered_fields(record.fields);
    assert forall|j: int| i < j < pairs.len() implies (#[trigger] pairs[j]).0 != pairs[i].0 by {
        assert(record.fields[j].name != name);
    }
    lemma_overlaid_last(inherited(ancestors), pairs, i);
}

/// What the last of the ancestors that have a field gives it is what the
/// ancestors together give it.
pub proof fn lemma_last_ancestor_decides(
    ancestors: Seq<RecordView>,
    name: Seq<char>,
    a: int,
    i: int,
)
    requires
        0 <= a < ancestors.len(),
        defines_at(ancestors[a], name, i),
        forall|b: int| a < b < ancestors.len() ==> !defines(#[trigger] ancestors[b], name),
    ensures
        inherited(ancestors).contains_key(name),
        inherited(ancestors)[name] == rendered(ancestors[a].fields[i].value),
    decreases ancestors.len(),
{
    let front = ancestors.drop_last();
    let last = ancestors.last();
    let pairs = rendered_fields(last.fields);
    if a == ancestors.len() - 1 {
        assert forall|j: int| i < j < pairs.len() implies (#[trigger] pairs[j]).0
            != pairs[i].0 by {
            assert(last.fields[j].name != name);
        }
        lemma_overlaid_last(inherited(front), pairs, i);
    } else {
        assert forall|b: int| a < b < front.len() implies !defines(#[trigger] front[b], name) by {
            assert(!defines(ancestors[b], name));
        }
        lemma_last_ancestor_decides(front, name, a, i);
        assert(!defines(ancestors[ancestors.len() - 1], name));
        assert forall|j: int| 0 <= j < pairs.len() implies (#[trigger] pairs[j]).0 != name by {
            assert(last.fields[j].name == pairs[j].0);
        }
        lemma_overlaid_untouched(inherited(front), pairs, name);
    }
}

/// A field that the record does not have itself has the value that the last
/// of its ancestors with such a field gives it.
pub proof fn lemma_field_is_inherited(
    record: RecordView,
    ancestors: Seq<RecordView>,
    name: Seq<char>,
    a: int,
    i: int,
)
    requires
        !defines(record, name),
        0 <= a < ancestors.len(),
        defines_at(ancestors[a], name, i),
        forall|b: int| a < b < ancestors.len() ==> !defines(#[trigger] ancestors[b], name),
    ensures
        merged(record, ancestors).contains_key(name),
        merged(record, ancestors)[name] == rendered(ancestors[a].fields[i].value),
{
    let pairs = rendered_fields(record.fields);
    lemma_last_ancestor_decides(ancestors, name, a, i);
    assert forall|j: int| 0 <= j < pairs.len() implies (#[trigger] pairs[j]).0 != name by {
        assert(record.fields[j].name == pairs[j].0);
    }
    lemma_overlaid_untouched(inherited(ancestors), pairs, name);
}

/// Writing one pair more is one insertion more.
proof fn lemma_overlaid_step(
    base: Map<Seq<char>, Seq<char>>,
    pairs: Seq<(Seq<char>, Seq<char>)>,
    i: int,
)
    requires
        0 <= i < pairs.len(),
    ensures
        overlaid(base, pairs.take(i + 1)) == overlaid(base, pairs.take(i)).insert(
            pairs[i].0,
            pairs[i].1,
        ),
{
    assert(pairs.take(i + 1).drop_last() == pairs.take(i));
}

/// Writes the pairs of name and value into `other`, one after the other.
pub fn absorb(other: &mut KeyedMap<String>, pairs: Vec<(String, String)>)
    requires
        old(other).wf(),
    ensures
        final(other).wf(),
        final(other).deep_view() == overlaid(old(other).deep_view(), pairs.deep_view()),
{
    let ghost items = pairs@;
    let ghost all = pairs.deep_view();
    let ghost base = other.deep_view();
    assert(all.take(0) == Seq::<(Seq<char>, Seq<char>)>::empty());
    for pair in it: pairs.into_iter()
        invariant
            it.seq() == items,
            all.len() == items.len(),
            forall|j: int| 0 <= j < items.len() ==> all[j] == #[trigger] items[j].deep_view(),
            other.wf(),
            other.deep_view() == overlaid(base, all.take(it.index())),
    {
        let ghost before = other.deep_view();
        let ghost i = it.index();
        proof {
            lemma_overlaid_step(base, all, i);
            assert(all[i] == pair.deep_view());
        }
        let (name, value) = pair;
        other.insert(name, value);
        assert(other.deep_view() =~= before.insert(name@, value@));
    }
    assert(all.take(all.len() as int) == all);
}

impl SRAEntry {
    /// Name and rendered value of each field of `record`, in the order of
    /// the fields.
    pub fn fields(record: &RawRecord) -> (pairs: Vec<(String, String)>)
        ensures
            pairs.deep_view() == rendered_fields(record@.fields),
    {
        let mut pairs: Vec<(String, String)> = Vec::new();
        let mut i: usize = 0;
        while i < record.fields.len()
            invariant
                i <= record.fields.len(),
                pairs.len() == i,
                forall|j: int|
                    0 <= j < i ==> (#[trigger] pairs[j]).deep_view() == (
                        record.fields[j]@.name,
                        rendered(record.fields[j]@.value),
                    ),
            decreases record.fields.len() - i,
        {
            let field = &record.fields[i];
            pairs.push((field.name.clone(), render(&field.value)));
            i = i + 1;
        }
        assert(pairs.deep_view() =~= rendered_fields(record@.fields));
        pairs
    }

    /// The fields of the entry of `record`, which refers to `ancestors`.
    pub fn merge(record: &RawRecord, ancestors: &Vec<RawRecord>) -> (other: KeyedMap<String>)
        ensures
            other.wf(),
            other.deep_view() == merged(record@, ancestors.deep_view()),
    {
        let mut other: KeyedMap<String> = KeyedMap::new();
        let ghost all = ancestors.deep_view();
        assert(other.deep_view() =~= Map::<Seq<char>, Seq<char>>::empty());
        assert(all.take(0) == Seq::<RecordView>::empty());
        let mut i: usize = 0;
        while i < ancestors.len()
            invariant
                i <= ancestors.len(),
                all == ancestors.deep_view(),
                all.len() == ancestors.len(),
                other.wf(),
                other.deep_view() == inherited(all.take(i as int)),
            decreases ancestors.len() - i,
        {
            assert(all.take(i + 1).drop_last() == all.take(i as int));
            assert(all[i as int] == ancestors[i as int]@);
            absorb(&mut other, Self::fields(&ancestors[i]));
            i = i + 1;
        }
        assert(all.take(all.len() as int) == all);
        absorb(&mut other, Self::fields(record));
        other
    }
}

} // verus!
