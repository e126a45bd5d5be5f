//! Persons: a name in four parts, and the first and last name made from it.

use vstd::prelude::*;
use vstd::string::StringExecFns;

verus! {

/// A name as a bibliography holds it.
#[derive(Debug)]
pub struct RawPerson {
    /// What stands between given name and family name, such as "von".
    pub prefix: String,
    /// The given name.
    pub given_name: String,
    /// The family name.
    pub name: String,
    /// What follows the family name, such as "Jr.".
    pub suffix: String,
}

/// What a `RawPerson` holds.
pub struct PersonView {
    pub prefix: Seq<char>,
    pub given_name: Seq<char>,
    pub name: Seq<char>,
    pub suffix: Seq<char>,
}

impl DeepView for RawPerson {
    type V = PersonView;

    open spec fn deep_view(&self) -> PersonView {
        PersonView {
            prefix: self.prefix@,
            given_name: self.given_name@,
            name: self.name@,
            suffix: self.suffix@,
        }
    }
}

impl View for RawPerson {
    type V = PersonView;

    open spec fn view(&self) -> PersonView {
        self.deep_view()
    }
}

impl RawPerson {
    /// A name of the given parts.
    pub fn new(prefix: String, given_name: String, name: String, suffix: String) -> (person:
        RawPerson)
        ensures
            person.prefix == prefix,
            person.given_name == given_name,
            person.name == name,
            person.suffix == suffix,
    {
        RawPerson { prefix, given_name, name, suffix }
    }
}

/// A person by first and last name.
#[derive(Debug)]
pub struct SRAPerson {
    pub first_name: String,
    pub last_name: String,
}

/// What an `SRAPerson` holds.
pub struct NameView {
    pub first_name: Seq<char>,
    pub last_name: Seq<char>,
}

impl DeepView for SRAPerson {
    type V = NameView;

    open spec fn deep_view(&self) -> NameView {
        NameView { first_name: self.first_name@, last_name: self.last_name@ }
    }
}

impl View for SRAPerson {
    type V = NameView;

    open spec fn view(&self) -> NameView {
        self.deep_view()
    }
}

/// Those of `parts` that are not empty, in their order.
pub open spec fn nonempty(parts: Seq<Seq<char>>) -> Seq<Seq<char>> {
    parts.filter(|part: Seq<char>| part.len() > 0)
}

/// The parts one after the other, with one space between neighbours.
pub open spec fn joined(parts: Seq<Seq<char>>) -> Seq<char>
    decreases parts.len(),
{
    if parts.len() == 0 {
        Seq::empty()
    } else if parts.len() == 1 {
        parts[0]
    } else {
        joined(parts.drop_last()) + seq![' '] + parts.last()
    }
}

/// The last name of a person: prefix, family name and suffix, as far as they
/// are not empty, separated by single spaces.
pub open spec fn last_name_of(person: PersonView) -> Seq<char> {
    joined(nonempty(seq![person.prefix, person.name, person.suffix]))
}

/// The first and last name of a person.
pub open spec fn resolved(person: PersonView) -> NameView {
    NameView { first_name: person.given_name, last_name: last_name_of(person) }
}

/// The first and last names of `people`, in their order.
pub open spec fn resolved_all(people: Seq<PersonView>) -> Seq<NameView> {
    people.map_values(|person: PersonView| resolved(person))
}

/// A person with a prefix and a family name and without a suffix has as last
/// name the two with one space between them, and nothing behind.
pub proof fn lemma_last_name_without_suffix(person: PersonView)
    requires
        person.prefix.len() > 0,
        person.name.len() > 0,
        person.suffix.len() == 0,
    ensures
        last_name_of(person) == person.prefix + seq![' '] + person.name,
{
    let parts = seq![person.prefix, person.name, person.suffix];
    let kept = seq![person.prefix, person.name];
    reveal_with_fuel(Seq::filter, 4);
    assert(parts.drop_last() == kept);
    assert(kept.drop_last() == seq![person.prefix]);
    assert(seq![person.prefix].drop_last() == Seq::<Seq<char>>::empty());
    assert(nonempty(parts) == kept);
    reveal_with_fuel(joined, 3);
}

/// Looking at one part more either adds it to the parts kept or changes
/// nothing.
proof fn lemma_nonempty_step(parts: Seq<Seq<char>>, i: int)
    requires
        0 <= i < parts.len(),
    ensures
        nonempty(parts.take(i + 1)) == if parts[i].len() > 0 {
            nonempty(parts.take(i)).push(parts[i])
        } else {
            nonempty(parts.take(i))
        },
{
    reveal(Seq::filter);
    assert(parts.take(i + 1).drop_last() == parts.take(i));
}

/// Whether a string has no space at either end and no two spaces in a row.
pub open spec fn tidy(text: Seq<char>) -> bool {
    &&& text.len() > 0 ==> text.first() != ' ' && text.last() != ' '
    &&& forall|i: int|
        0 <= i < text.len() - 1 ==> !((#[trigger] text[i]) == ' ' && text[i + 1] == ' ')
}

/// Joining tidy parts, none of them empty, gives a tidy string: it begins as
/// the first part begins, ends as the last part ends, and is empty only where
/// there is no part.
pub proof fn lemma_joined_is_tidy(parts: Seq<Seq<char>>)
    requires
        forall|i: int| 0 <= i < parts.len() ==> (#[trigger] parts[i]).len() > 0 && tidy(parts[i]),
    ensures
        tidy(joined(parts)),
        joined(parts).len() == 0 <==> parts.len() == 0,
        parts.len() > 0 ==> joined(parts).first() == parts.first().first() && joined(
            parts,
        ).last() == parts.last().last(),
    decreases parts.len(),
{
    if parts.len() > 1 {
        let front = parts.drop_last();
        lemma_joined_is_tidy(front);
        let a = joined(front);
        let b = parts.last();
        let all = joined(parts);
        assert(all == a + seq![' '] + b);
        assert(front.first() == parts.first());
        assert(front.last() == parts[parts.len() - 2]);
        assert(tidy(b) && b.len() > 0);
        assert forall|i: int| 0 <= i < all.len() - 1 implies !((#[trigger] all[i]) == ' '
            && all[i + 1] == ' ') by {
            if i < a.len() - 1 {
                assert(all[i] == a[i] && all[i + 1] == a[i + 1]);
            } else if i == a.len() - 1 {
                assert(all[i] == a.last());
            } else if i == a.len() {
                assert(all[i + 1] == b.first());
            } else {
                assert(all[i] == b[i - a.len() - 1] && all[i + 1] == b[i - a.len()]);
            }
        }
    }
}

/// A last name made of tidy parts is tidy: the parts that are empty leave no
/// space behind, at either end or between the others. It is empty only where
/// all three parts are.
pub proof fn lemma_last_name_is_tidy(person: PersonView)
    requires
        tidy(person.prefix),
        tidy(person.name),
        tidy(person.suffix),
    ensures
        tidy(last_name_of(person)),
        last_name_of(person).len() == 0 <==> person.prefix.len() == 0 && person.name.len() == 0
            && person.suffix.len() == 0,
{
    let parts = seq![person.prefix, person.name, person.suffix];
    let keep = |part: Seq<char>| part.len() > 0;
    let kept = parts.filter(keep);
    assert forall|i: int| 0 <= i < kept.len() implies (#[trigger] kept[i]).len() > 0 && tidy(
        kept[i],
    ) by {
        parts.lemma_filter_pred(keep, i);
        assert(kept.contains(kept[i]));
        parts.lemma_filter_contains_rev(keep, kept[i]);
        let j = parts.index_of(kept[i]);
        assert(parts[j] == kept[i]);
    }
    lemma_joined_is_tidy(kept);
    if kept.len() == 0 {
        assert forall|j: int| 0 <= j < 3 implies (#[trigger] parts[j]).len() == 0 by {
            if parts[j].len() > 0 {
                parts.lemma_filter_contains(keep, j);
            }
        }
        assert(parts[0] == person.prefix && parts[1] == person.name && parts[2]
            == person.suffix);
    } else {
        parts.lemma_filter_pred(keep, 0);
        assert(kept.contains(kept[0]));
        parts.lemma_filter_contains_rev(keep, kept[0]);
        let j = parts.index_of(kept[0]);
        assert(parts[j] == kept[0]);
    }
}

/// Joins those of `parts` that are not empty, with one space between
/// neighbours.
pub fn join_nonempty(parts: &Vec<&str>) -> (out: String)
    ensures
        out@ == joined(nonempty(parts.deep_view())),
{
    let mut out = String::new();
    let ghost all = parts.deep_view();
    let mut i: usize = 0;
    proof {
        reveal(Seq::filter);
        assert(all.take(0) == Seq::<Seq<char>>::empty());
    }
    while i < parts.len()
        invariant
            i <= parts.len(),
            all == parts.deep_view(),
            all.len() == parts.len(),
            out@ == joined(nonempty(all.take(i as int))),
            out@.len() == 0 <==> nonempty(all.take(i as int)).len() == 0,
        decreases parts.len() - i,
    {
        let part: &str = parts[i];
        proof {
            lemma_nonempty_step(all, i as int);
            assert(all[i as int] == part@);
        }
        if !part.is_empty() {
            let ghost kept = nonempty(all.take(i as int));
            if !out.as_str().is_empty() {
                proof {
                    reveal_strlit(" ");
                }
                out.append(" ");
                assert(" "@ == seq![' ']);
            }
            out.append(part);
            proof {
                assert(kept.push(part@).drop_last() == kept);
                if kept.len() > 0 {
                    assert(out@ == joined(kept) + seq![' '] + part@);
                }
            }
        }
        i = i + 1;
    }
    proof {
        assert(all.take(all.len() as int) == all);
    }
    out
}

/// The last name of `person`.
pub fn last_name(person: &RawPerson) -> (name: String)
    ensures
        name@ == last_name_of(person@),
{
    let mut parts: Vec<&str> = Vec::new();
    parts.push(person.prefix.as_str());
    parts.push(person.name.as_str());
    parts.push(person.suffix.as_str());
    assert(parts.deep_view() == seq![person.prefix@, person.name@, person.suffix@]);
    join_nonempty(&parts)
}

impl SRAPerson {
    /// The first and last name of `person`.
    pub fn from(person: RawPerson) -> (out: SRAPerson)
        ensures
            out@ == resolved(person@),
    {
        let last_name = last_name(&person);
        SRAPerson { first_name: person.given_name, last_name }
    }

    /// The first and last name of `person`, which is left as it is.
    pub fn resolve(person: &RawPerson) -> (out: SRAPerson)
        ensures
            out@ == resolved(person@),
    {
        SRAPerson { first_name: person.given_name.clone(), last_name: last_name(person) }
    }
}

} // verus!
