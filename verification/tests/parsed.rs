use bib2::{RecordStore, SRABib, SRAEntry};
use biblatex::{Bibliography, Chunk, Entry, EntryType, Spanned};
use std::collections::BTreeMap;

#[test]
fn lib_crossref() {
    let bib = r#"
            @inproceedings{foo,
                author = {Max Müller},
                title = {Lorem Ipsum et Dolor},
                month = sep,
                year = 2005,
                crossref = {ref},
            }
            @proceedings{ref,
                month = jan,
                year = 2001,
                title = {Book Title},
                category = {baz},
            }
        "#;
    let parsed = Bibliography::parse(bib).unwrap();
    println!("{parsed:#?}");
    let sra_bib = SRABib::new(&parsed).unwrap();
    println!("{sra_bib:#?}");

    let thesis = sra_bib.entries.get("foo").unwrap();
    assert_eq!(thesis.entry_type, "inproceedings");
    assert_eq!(thesis.authors.len(), 1);
    assert_eq!(thesis.other.get("title").unwrap(), "Lorem Ipsum et Dolor");
    assert_eq!(thesis.other.get("year").unwrap(), "2001");
    assert_eq!(thesis.other.get("month").unwrap(), "January");
    assert_eq!(thesis.other.get("category").unwrap(), "baz");
}

#[test]
fn lib_bib_example() {
    let bib = r#"
            @proceedings{ASE2023,
                title       = {Proceedings of the 38th IEEE/ACM International Conference on Automated Software Engineering},
                year        = 2023,
                publisher   = {IEEE},
                address     = {San Francisco, California, USA},
            }
            @inproceedings{Smith2023,
                author      = {John Smith},
                title       = {Automated Code Generation: Innovations and Challenges},
                pages       = {15-29},
                crossref    = {ASE2023},
            }
            @inproceedings{Doe2023,
                author      = {Jane Doe},
                title       = {Towards a New Era of Software Testing},
                pages       = {30-45},
                crossref    = {ASE2023},
            }
        "#;
    let parsed = Bibliography::parse(bib).unwrap();
    let sra_bib = SRABib::new(&parsed).unwrap();

    let smith23 = sra_bib.entries.get("Smith2023").unwrap();
    assert_eq!(smith23.other.get("booktitle").unwrap(), "Proceedings of the 38th IEEE/ACM International Conference on Automated Software Engineering");
    assert_eq!(smith23.other.get("address").unwrap(), "San Francisco, California, USA");
    assert_eq!(smith23.other.get("year").unwrap(), "2023");
    assert_eq!(smith23.other.get("publisher").unwrap(), "IEEE");

    let doe23 = sra_bib.entries.get("Doe2023").unwrap();
    assert_eq!(doe23.other.get("booktitle").unwrap(), "Proceedings of the 38th IEEE/ACM International Conference on Automated Software Engineering");
    assert_eq!(doe23.other.get("address").unwrap(), "San Francisco, California, USA");
    assert_eq!(doe23.other.get("year").unwrap(), "2023");
    assert_eq!(doe23.other.get("publisher").unwrap(), "IEEE");
}

#[test]
fn main_bib_example() {
    let bib = r#"
            @proceedings{ASE2023,
                title       = {Proceedings of the 38th IEEE/ACM International Conference on Automated Software Engineering},
                year        = 2023,
                publisher   = {IEEE},
                address     = {San Francisco, California, USA},
            }
            @inproceedings{Smith2023,
                author      = {John Smith},
                title       = {Automated Code Generation: Innovations and Challenges},
                pages       = {15-29},
                crossref    = {ASE2023},
            }
            @inproceedings{Doe2023,
                author      = {Jane Doe},
                title       = {Towards a New Era of Software Testing},
                pages       = {30-45},
                crossref    = {ASE2023},
            }
        "#;
    let parsed = Bibliography::parse(bib).unwrap();
    let sra_bib = SRABib::new(&parsed).unwrap();

    let smith23 = sra_bib.entries.get("Smith2023").unwrap();
    assert_eq!(smith23.other.get("booktitle").unwrap(), "Proceedings of the 38th IEEE/ACM International Conference on Automated Software Engineering");
    assert_eq!(smith23.other.get("address").unwrap(), "San Francisco, California, USA");
    assert_eq!(smith23.other.get("year").unwrap(), "2023");
    assert_eq!(smith23.other.get("publisher").unwrap(), "IEEE");

    let doe23 = sra_bib.entries.get("Doe2023").unwrap();
    assert_eq!(doe23.other.get("booktitle").unwrap(), "Proceedings of the 38th IEEE/ACM International Conference on Automated Software Engineering");
    assert_eq!(doe23.other.get("address").unwrap(), "San Francisco, California, USA");
    assert_eq!(doe23.other.get("year").unwrap(), "2023");
    assert_eq!(doe23.other.get("publisher").unwrap(), "IEEE");
}

fn rendered_fields(entry: &Entry) -> Vec<(String, String)> {
    let mut pairs = Vec::new();
    for (name, chunks) in &entry.fields {
        let mut value = String::new();
        for chunk in chunks {
            match &chunk.v {
                Chunk::Math(inner) => value.push_str(&format!("${inner}$")),
                other => value.push_str(other.get()),
            }
        }
        pairs.push((name.clone(), value));
    }
    pairs
}

fn last_name(prefix: &str, name: &str, suffix: &str) -> String {
    let parts: Vec<&str> = [prefix, name, suffix].into_iter().filter(|p| !p.is_empty()).collect();
    parts.join(" ")
}

/// Holds a normalized entry against what the parsed entry itself answers.
fn assert_agrees(entry: &Entry, bibliography: &Bibliography, normalized: &SRAEntry) {
    assert_eq!(normalized.id, entry.key);
    assert_eq!(normalized.entry_type, entry.entry_type.to_string());

    let authors = entry.author().unwrap_or_default();
    assert_eq!(normalized.authors.len(), authors.len());
    for (person, expected) in normalized.authors.iter().zip(authors.iter()) {
        assert_eq!(person.first_name, expected.given_name);
        assert_eq!(
            person.last_name,
            last_name(&expected.prefix, &expected.name, &expected.suffix)
        );
    }

    let mut editors = Vec::new();
    for group in entry.editors().unwrap_or_default() {
        editors.extend(group.0);
    }
    assert_eq!(normalized.editors.len(), editors.len());
    for (person, expected) in normalized.editors.iter().zip(editors.iter()) {
        assert_eq!(person.first_name, expected.given_name);
        assert_eq!(
            person.last_name,
            last_name(&expected.prefix, &expected.name, &expected.suffix)
        );
    }

    let parents = entry.parents().unwrap();
    let mut bibtex = entry.to_biblatex_string();
    let mut other = BTreeMap::new();
    for key in &parents {
        let parent = bibliography.get(key).unwrap();
        bibtex += "\n\n";
        bibtex += &parent.to_biblatex_string();
        other.extend(rendered_fields(parent));
    }
    other.extend(rendered_fields(entry));
    assert_eq!(normalized.bibtex, bibtex);

    assert_eq!(normalized.other.len(), other.len());
    for (at, (name, value)) in other.iter().enumerate() {
        assert_eq!(normalized.other.key_at(at), name);
        assert_eq!(normalized.other.value_at(at), value);
    }
}

fn assert_all_agree(source: &str) {
    let parsed = Bibliography::parse(source).unwrap();
    let sra_bib = SRABib::new(&parsed).unwrap();
    assert_eq!(sra_bib.entries.len(), parsed.len());
    for entry in parsed.iter() {
        assert_agrees(entry, &parsed, sra_bib.entries.get(&entry.key).unwrap());
    }
}

#[test]
fn normalization_agrees_with_the_parsed_entries() {
    assert_all_agree(
        r#"
            @inproceedings{foo,
                author = {Max Müller and {Robert and Sons, Inc.}},
                editor = {Jane Doe},
                editora = {von Neumann, John},
                editoratype = {compiler},
                title = {Lorem $x^2$ Ipsum et {Dolor}},
                month = sep,
                year = 2005,
                crossref = {ref},
                xref = {a, b},
            }
            @proceedings{ref,
                month = jan,
                year = 2001,
                title = {Book Title},
                category = {baz},
            }
            @artwork{a, title = {A}, url = {https://example.org/a_b}}
            @Conference{b, title = {B}, journal = {J}, author = {Mudd, Sr., Harcourt Fenton}}
            @mastersthesis{c, title = {C}, school = {S}, editor = {given=Hans, family=Harman}}
        "#,
    );
}

#[test]
fn editors_of_every_role_are_kept_in_the_order_of_the_roles() {
    let source = r#"
            @book{k,
                editorb = {Third Person},
                editor = {Jane Doe and John Roe},
                editortype = {nobody},
                editora = {de la Fontaine, Jean},
                title = {T},
            }
        "#;
    let parsed = Bibliography::parse(source).unwrap();
    let sra_bib = SRABib::new(&parsed).unwrap();
    let editors = &sra_bib.entries.get("k").unwrap().editors;
    let names: Vec<(&str, &str)> = editors
        .iter()
        .map(|p| (p.first_name.as_str(), p.last_name.as_str()))
        .collect();
    assert_eq!(
        names,
        vec![("Jane", "Doe"), ("John", "Roe"), ("Jean", "de la Fontaine"), ("Third", "Person")]
    );
    assert!(sra_bib.entries.get("k").unwrap().authors.is_empty());
    assert_all_agree(source);
}

#[test]
fn the_store_holds_what_the_bibliography_holds() {
    let parsed = Bibliography::parse(
        r#"
            @Book{one, title = {A {B} $c$}, year = 1999}
            @artwork{two, crossref = {one}}
        "#,
    )
    .unwrap();
    let store = RecordStore::read(&parsed);
    assert_eq!(store.len(), 2);
    let one = store.record(0);
    assert_eq!(one.key, "one");
    assert_eq!(one.entry_type, "book");
    assert_eq!(one.fields.len(), 2);
    assert_eq!(one.fields[0].name, "title");
    assert_eq!(one.fields[1].name, "year");
    let title: Vec<String> = one.fields[0].value.iter().map(|f| format!("{f:?}")).collect();
    assert_eq!(
        title,
        vec![
            "Text { text: \"A \", verbatim: false }",
            "Text { text: \"B\", verbatim: true }",
            "Text { text: \" \", verbatim: false }",
            "Math(\"c\")",
        ]
    );
    assert_eq!(store.record(1).entry_type, "unknown");
    assert_eq!(store.get("two").unwrap().key, "two");
    assert!(store.get("three").is_none());
}

#[test]
fn a_reference_to_no_record_fails_after_parsing() {
    let parsed = Bibliography::parse(
        r#"
            @book{a, title = {A}}
            @inbook{b, title = {B}, crossref = {nowhere}}
        "#,
    )
    .unwrap();
    let error = SRABib::new(&parsed).unwrap_err();
    assert_eq!(
        error.message(),
        "record `b` refers to `nowhere`, which is not in the bibliography"
    );
}

fn entry(key: &str, entry_type: &str, fields: &[(&str, &str)]) -> Entry {
    let mut entry = Entry::new(key.to_string(), EntryType::new(entry_type));
    for (name, value) in fields {
        entry.set(name, vec![Spanned::zero(Chunk::Normal(value.to_string()))]);
    }
    entry
}

// The parser gives a child the date of its parent in place of the child's
// own year and month. Here the bibliography holds the records as they are
// written, so that the record's own fields meet those of its parent.
#[test]
fn main_crossref() {
    let mut parsed = Bibliography::new();
    parsed.insert(entry(
        "foo",
        "inproceedings",
        &[
            ("author", "Max Müller"),
            ("title", "Lorem Ipsum et Dolor"),
            ("month", "September"),
            ("year", "2005"),
            ("crossref", "ref"),
        ],
    ));
    parsed.insert(entry(
        "ref",
        "proceedings",
        &[("month", "January"), ("year", "2001"), ("title", "Book Title"), ("category", "baz")],
    ));
    println!("{parsed:#?}");
    let sra_bib = SRABib::new(&parsed).unwrap();
    println!("{sra_bib:#?}");

    let thesis = sra_bib.entries.get("foo").unwrap();
    assert_eq!(thesis.entry_type, "inproceedings");
    assert_eq!(thesis.authors.len(), 1);
    assert_eq!(thesis.other.get("title").unwrap(), "Lorem Ipsum et Dolor");
    assert_eq!(thesis.other.get("year").unwrap(), "2005");
    assert_eq!(thesis.other.get("month").unwrap(), "September");
    assert_eq!(thesis.other.get("category").unwrap(), "baz");
}

#[test]
fn a_parent_is_found_under_an_alias() {
    let source = r#"
            @book{parent, ids = {old, older}, title = {P}, publisher = {Q}}
            @inbook{child, crossref = {old}, pages = {1}, title = {C}}
            @inbook{other, xref = {older, parent}}
        "#;
    let parsed = Bibliography::parse(source).unwrap();
    assert_eq!(parsed.get("old").unwrap().key, "parent");
    let sra_bib = SRABib::new(&parsed).unwrap();
    assert_eq!(sra_bib.entries.len(), 3);
    assert!(sra_bib.entries.get("old").is_none());

    let child = sra_bib.entries.get("child").unwrap();
    assert_eq!(child.other.get("title").unwrap(), "C");
    assert_eq!(child.other.get("publisher").unwrap(), "Q");
    assert_eq!(child.other.get("ids").unwrap(), "old, older");
    let parent = sra_bib.entries.get("parent").unwrap();
    assert_eq!(child.bibtex, format!("{}\n\n{}", parsed.get("child").unwrap().to_biblatex_string(), parent.bibtex));

    let other = sra_bib.entries.get("other").unwrap();
    assert_eq!(other.other.get("title").unwrap(), "P");
    assert_eq!(
        other.bibtex,
        format!(
            "{}\n\n{}\n\n{}",
            parsed.get("other").unwrap().to_biblatex_string(),
            parent.bibtex,
            parent.bibtex
        )
    );
    assert_all_agree(source);

    let store = RecordStore::read(&parsed);
    assert_eq!(store.get("older").unwrap().key, "parent");
    assert_eq!(store.get("parent").unwrap().key, "parent");
    assert!(store.get("oldest").is_none());
}

#[test]
fn an_alias_that_is_the_key_of_another_record_leads_to_the_aliased_one() {
    let source = r#"
            @book{a, title = {A}}
            @book{b, ids = {a}, title = {B}}
            @inbook{c, crossref = {a}}
        "#;
    let parsed = Bibliography::parse(source).unwrap();
    assert_eq!(parsed.get("a").unwrap().key, "b");
    let sra_bib = SRABib::new(&parsed).unwrap();
    assert_eq!(sra_bib.entries.len(), 3);
    assert_eq!(sra_bib.entries.get("a").unwrap().other.get("title").unwrap(), "A");
    assert_eq!(sra_bib.entries.get("c").unwrap().other.get("title").unwrap(), "B");
    assert_all_agree(source);
}

#[test]
fn an_alias_given_to_the_bibliography_is_followed() {
    let mut parsed = Bibliography::new();
    parsed.insert(entry("parent", "book", &[("title", "P")]));
    parsed.insert(entry("child", "inbook", &[("crossref", "nick")]));
    assert!(SRABib::new(&parsed).is_err());
    parsed.alias("parent", "nick");
    let sra_bib = SRABib::new(&parsed).unwrap();
    assert_eq!(sra_bib.entries.get("child").unwrap().other.get("title").unwrap(), "P");
    assert!(sra_bib.entries.get("nick").is_none());
}

#[test]
fn a_store_made_of_records_knows_no_alias() {
    let parsed = Bibliography::parse(
        r#"
            @book{parent, ids = {old}, title = {P}}
            @inbook{child, crossref = {old}}
        "#,
    )
    .unwrap();
    let read = RecordStore::read(&parsed);
    let records = (0..read.len()).map(|at| read.record(at).duplicate()).collect();
    let store = RecordStore::new(records);
    assert!(store.get("old").is_none());
    assert_eq!(store.get("parent").unwrap().key, "parent");
    assert!(SRABib::normalize(&read).is_ok());
    assert!(SRABib::normalize(&store).is_err());
}
