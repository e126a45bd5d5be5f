use bib2::person::join_nonempty;
use bib2::{RawPerson, SRAPerson};

fn person(prefix: &str, given_name: &str, name: &str, suffix: &str) -> RawPerson {
    RawPerson::new(
        prefix.to_string(),
        given_name.to_string(),
        name.to_string(),
        suffix.to_string(),
    )
}

#[test]
fn prefix_and_family_name_are_joined_by_one_space() {
    let resolved = SRAPerson::from(person("von", "John", "Neumann", ""));
    assert_eq!(resolved.first_name, "John");
    assert_eq!(resolved.last_name, "von Neumann");
}

#[test]
fn all_three_parts_of_the_last_name_are_joined() {
    let resolved = SRAPerson::from(person("de la", "Jean", "Fontaine", "Jr."));
    assert_eq!(resolved.first_name, "Jean");
    assert_eq!(resolved.last_name, "de la Fontaine Jr.");
}

#[test]
fn empty_parts_leave_no_space_behind() {
    assert_eq!(SRAPerson::from(person("", "A", "B", "")).last_name, "B");
    assert_eq!(SRAPerson::from(person("", "A", "B", "III")).last_name, "B III");
    assert_eq!(SRAPerson::from(person("van", "A", "", "III")).last_name, "van III");
    assert_eq!(SRAPerson::from(person("van", "A", "", "")).last_name, "van");
    assert_eq!(SRAPerson::from(person("", "", "", "")).last_name, "");
    assert_eq!(SRAPerson::from(person("", "", "", "")).first_name, "");
}

#[test]
fn the_given_name_is_taken_as_it_stands() {
    let resolved = SRAPerson::from(person("", " Harcourt  Fenton ", "Mudd", ""));
    assert_eq!(resolved.first_name, " Harcourt  Fenton ");
    assert_eq!(resolved.last_name, "Mudd");
}

#[test]
fn resolving_a_borrowed_person_gives_the_same_names() {
    let raw = person("von", "John", "Neumann", "Sr.");
    let borrowed = SRAPerson::resolve(&raw);
    let owned = SRAPerson::from(raw);
    assert_eq!(borrowed.first_name, owned.first_name);
    assert_eq!(borrowed.last_name, owned.last_name);
    assert_eq!(borrowed.last_name, "von Neumann Sr.");
}

#[test]
fn joining_skips_empty_parts_wherever_they_stand() {
    assert_eq!(join_nonempty(&vec![]), "");
    assert_eq!(join_nonempty(&vec!["", ""]), "");
    assert_eq!(join_nonempty(&vec!["a"]), "a");
    assert_eq!(join_nonempty(&vec!["", "a", "", "b", ""]), "a b");
    assert_eq!(join_nonempty(&vec!["a", " ", "b"]), "a   b");
}
