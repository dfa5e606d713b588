use rimworld_xml::element::DefElement;
use rimworld_xml::parser::DefParser;

fn element(name: &str, content: Option<&str>, attributes: &[(&str, &str)], children: Vec<DefElement>) -> DefElement {
    DefElement {
        name: name.to_string(),
        attributes: attributes.iter().map(|(k, v)| (k.to_string(), v.to_string())).collect(),
        content: content.map(|c| c.to_string()),
        children,
        depth: 0,
    }
}

fn parser() -> DefParser {
    DefParser::new(String::new())
}

#[test]
fn candidates_are_sorted_and_unique() {
    let forest = vec![
        element("li", Some("Steel"), &[("Class", "A.B")], vec![]),
        element("defName", Some("Self"), &[], vec![]),
        element("Muffalo", Some("0.1"), &[("other", "Zed")], vec![]),
        element("li", Some("Steel"), &[], vec![]),
    ];
    let (references, code_references) = parser().extract_references(&forest);
    assert_eq!(references, vec!["0.1", "Muffalo", "Steel", "Zed"]);
    assert_eq!(code_references, vec!["A.B"]);
}

#[test]
fn candidates_come_from_every_level() {
    let forest = vec![element(
        "comps",
        None,
        &[],
        vec![element(
            "li",
            None,
            &[("Class", "Mod.Comp")],
            vec![element("target", Some("Deep"), &[("Class", "Mod.Other"), ("ref", "Attr")], vec![])],
        )],
    )];
    let (references, code_references) = parser().extract_references(&forest);
    assert_eq!(references, vec!["Attr", "Deep", "comps", "target"]);
    assert_eq!(code_references, vec!["Mod.Comp", "Mod.Other"]);
}

#[test]
fn list_items_and_own_name_give_no_candidate_by_their_tag() {
    let forest = vec![
        element("li", None, &[], vec![]),
        element("defName", Some("Mine"), &[], vec![element("li", Some("x"), &[], vec![])]),
    ];
    let (references, _) = parser().extract_references(&forest);
    assert_eq!(references, vec!["x"]);
}

#[test]
fn excluded_tag_names_may_still_come_as_content_or_attribute() {
    let forest = vec![
        element("a", Some("li"), &[], vec![]),
        element("b", None, &[("k", "defName")], vec![]),
    ];
    let (references, _) = parser().extract_references(&forest);
    assert_eq!(references, vec!["a", "b", "defName", "li"]);
}

#[test]
fn attribute_values_of_own_name_element_still_count() {
    let forest = vec![element("defName", Some("Mine"), &[("k", "v"), ("Class", "C")], vec![])];
    let (references, code_references) = parser().extract_references(&forest);
    assert_eq!(references, vec!["v"]);
    assert_eq!(code_references, vec!["C"]);
}

#[test]
fn class_key_is_matched_exactly() {
    let forest = vec![element("a", None, &[("class", "lower"), ("Class", "Upper")], vec![])];
    let (references, code_references) = parser().extract_references(&forest);
    assert_eq!(references, vec!["a", "lower"]);
    assert_eq!(code_references, vec!["Upper"]);
}

#[test]
fn order_is_by_code_point() {
    let forest = vec![
        element("b", None, &[], vec![]),
        element("a", None, &[], vec![]),
        element("B", None, &[], vec![]),
        element("\u{e9}", None, &[], vec![]),
        element("ab", None, &[], vec![]),
        element("a", None, &[], vec![]),
        element("Z", None, &[], vec![]),
    ];
    let (references, _) = parser().extract_references(&forest);
    assert_eq!(references, vec!["B", "Z", "a", "ab", "b", "\u{e9}"]);
}

#[test]
fn empty_forest_gives_nothing() {
    let (references, code_references) = parser().extract_references(&[]);
    assert!(references.is_empty());
    assert!(code_references.is_empty());
}

#[test]
fn recursive_collection_appends_in_document_order() {
    let forest = vec![
        element("x", Some("1"), &[("k", "v"), ("Class", "C1")], vec![element("y", Some("1"), &[], vec![])]),
        element("x", None, &[("Class", "C1")], vec![]),
    ];
    let mut references = vec!["kept".to_string()];
    let mut code_references = vec!["kept too".to_string()];
    parser().extract_references_recursive(&forest, &mut references, &mut code_references);
    assert_eq!(references, vec!["kept", "x", "1", "v", "y", "1", "x"]);
    assert_eq!(code_references, vec!["kept too", "C1", "C1"]);
}
