use bib2::fragment::render;
use bib2::ValueFragment;

#[test]
fn a_formula_is_rendered_between_dollar_signs() {
    let value = vec![
        ValueFragment::text("Area "),
        ValueFragment::math("x^2"),
        ValueFragment::text(" of a square"),
    ];
    let rendered = render(&value);
    assert_eq!(rendered, "Area $x^2$ of a square");
    assert_eq!(rendered.find("$x^2$"), Some(5));
}

#[test]
fn text_is_rendered_unchanged_and_without_separator() {
    let value = vec![
        ValueFragment::text("a "),
        ValueFragment::verbatim("B"),
        ValueFragment::text(""),
        ValueFragment::text(" c"),
    ];
    assert_eq!(render(&value), "a B c");
}

#[test]
fn no_fragment_renders_to_the_empty_string() {
    assert_eq!(render(&Vec::new()), "");
    assert_eq!(render(&vec![ValueFragment::math("")]), "$$");
}

#[test]
fn a_fragment_appends_itself_to_what_is_there() {
    let mut out = String::from("<");
    ValueFragment::math("\\alpha").render_into(&mut out);
    ValueFragment::text(">").render_into(&mut out);
    assert_eq!(out, "<$\\alpha$>");
}

#[test]
fn a_copy_of_a_fragment_renders_alike() {
    let value = vec![ValueFragment::verbatim("É"), ValueFragment::math("y")];
    let copy: Vec<ValueFragment> = value.iter().map(|f| f.duplicate()).collect();
    assert_eq!(render(&copy), render(&value));
    assert_eq!(format!("{copy:?}"), format!("{value:?}"));
}
