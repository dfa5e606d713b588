use rimworld_xml::element::DefElement;
use rimworld_xml::parser::DefParser;
use rimworld_xml::profile::child_text;
use rimworld_xml::profile::has_child_named;
use rimworld_xml::record::DefStats;

fn leaf(name: &str) -> DefElement {
    DefElement {
        name: name.to_string(),
        attributes: Vec::new(),
        content: None,
        children: Vec::new(),
        depth: 0,
    }
}

fn node(name: &str, children: Vec<DefElement>) -> DefElement {
    DefElement { children, ..leaf(name) }
}

fn chain(levels: usize) -> DefElement {
    let mut e = leaf("bottom");
    for _ in 1..levels {
        e = node("level", vec![e]);
    }
    e
}

fn parser() -> DefParser {
    DefParser::new(String::new())
}

#[test]
fn tags_come_in_their_fixed_order() {
    let root = node(
        "ThingDef",
        vec![
            leaf("recipes"),
            leaf("comps"),
            leaf("statBases"),
            leaf("researchPrerequisites"),
            leaf("costList"),
        ],
    );
    assert_eq!(
        parser().generate_tags(&root, true, true),
        vec![
            "Abstract",
            "Inherits",
            "Craftable",
            "Research Required",
            "Has Stats",
            "Has Components",
            "Has Recipes"
        ]
    );
}

#[test]
fn tags_follow_each_flag_alone() {
    let root = node("ThingDef", vec![leaf("statBases")]);
    assert_eq!(parser().generate_tags(&root, false, false), vec!["Has Stats"]);
    assert_eq!(parser().generate_tags(&root, false, true), vec!["Inherits", "Has Stats"]);
    assert_eq!(parser().generate_tags(&leaf("ThingDef"), true, false), vec!["Abstract"]);
    assert!(parser().generate_tags(&leaf("ThingDef"), false, false).is_empty());
}

#[test]
fn only_direct_children_give_tags() {
    let root = node("ThingDef", vec![node("wrapper", vec![leaf("costList")])]);
    assert!(parser().generate_tags(&root, false, false).is_empty());
    let root = node("ThingDef", vec![leaf("costlist")]);
    assert!(parser().generate_tags(&root, false, false).is_empty());
}

#[test]
fn no_children_no_stats() {
    assert_eq!(parser().calculate_stats(&[]), None);
}

#[test]
fn a_single_leaf_counts_one_and_is_one_deep() {
    assert_eq!(
        parser().calculate_stats(&[leaf("a")]),
        Some(DefStats { element_count: 1, max_depth: 1, has_complex_structure: false })
    );
}

#[test]
fn twenty_five_elements_are_complex() {
    let children: Vec<DefElement> = (0..25).map(|_| leaf("x")).collect();
    assert_eq!(
        parser().calculate_stats(&children),
        Some(DefStats { element_count: 25, max_depth: 1, has_complex_structure: true })
    );
}

#[test]
fn five_levels_are_complex() {
    assert_eq!(
        parser().calculate_stats(&[chain(5)]),
        Some(DefStats { element_count: 5, max_depth: 5, has_complex_structure: true })
    );
}

#[test]
fn twenty_elements_on_four_levels_are_not_complex() {
    let mut children: Vec<DefElement> = (0..16).map(|_| leaf("x")).collect();
    children.push(chain(4));
    assert_eq!(
        parser().calculate_stats(&children),
        Some(DefStats { element_count: 20, max_depth: 4, has_complex_structure: false })
    );
    children.push(leaf("one more"));
    assert_eq!(
        parser().calculate_stats(&children),
        Some(DefStats { element_count: 21, max_depth: 4, has_complex_structure: true })
    );
}

#[test]
fn counting_includes_every_level() {
    let forest = vec![node("a", vec![leaf("b"), node("c", vec![leaf("d")])]), leaf("e")];
    assert_eq!(parser().count_elements(&forest), 5);
    assert_eq!(parser().count_elements(&[]), 0);
}

#[test]
fn depth_is_measured_from_the_given_level() {
    let forest = vec![leaf("e"), node("a", vec![leaf("b"), node("c", vec![leaf("d")])])];
    assert_eq!(parser().calculate_max_depth(&forest, 0), 3);
    assert_eq!(parser().calculate_max_depth(&forest, 7), 10);
    assert_eq!(parser().calculate_max_depth(&[], 4), 4);
}

#[test]
fn identity_rules() {
    let mut with_name = node("ThingDef", vec![DefElement { content: Some("Bar".to_string()), ..leaf("defName") }]);
    assert_eq!(parser().resolve_identity(&with_name), "Bar");
    with_name.attributes.push(("Name".to_string(), "Foo".to_string()));
    assert_eq!(parser().resolve_identity(&with_name), "Foo");
    assert_eq!(parser().resolve_identity(&leaf("ThingDef")), "Unknown");
}

#[test]
fn child_lookup_takes_the_first_of_a_name() {
    let forest = vec![
        DefElement { content: Some("one".to_string()), ..leaf("label") },
        DefElement { content: Some("two".to_string()), ..leaf("label") },
    ];
    assert_eq!(child_text(&forest, "label").map(|s| s.as_str()), Some("one"));
    assert_eq!(child_text(&forest, "description"), None);
    assert!(has_child_named(&forest, "label"));
    assert!(!has_child_named(&forest, "Label"));
}

#[test]
fn make_record_fills_every_field() {
    let mut root = node(
        "ResearchDef",
        vec![
            DefElement { content: Some("Smithing".to_string()), ..leaf("defName") },
            DefElement { content: Some("smithing".to_string()), ..leaf("label") },
            leaf("researchPrerequisites"),
        ],
    );
    root.attributes.push(("ParentName".to_string(), "Base".to_string()));
    let record = parser().make_record(root, "Data/Core/r.xml", "Core");
    assert_eq!(record.def_name, "Smithing");
    assert_eq!(record.def_type, "ResearchDef");
    assert_eq!(record.label.as_deref(), Some("smithing"));
    assert_eq!(record.description, None);
    assert_eq!(record.parent_name.as_deref(), Some("Base"));
    assert!(!record.is_abstract);
    assert_eq!(record.tags, vec!["Inherits", "Research Required"]);
    assert_eq!(
        record.stats,
        Some(DefStats { element_count: 3, max_depth: 1, has_complex_structure: false })
    );
    assert_eq!(
        record.raw_xml,
        "<ResearchDef ParentName=\"Base\">\n  <defName>Smithing</defName>\n  <label>smithing</label>\n  <researchPrerequisites />\n</ResearchDef>\n"
    );
    assert_eq!(record.elements.len(), 3);
    assert_eq!(record.file_path, "Data/Core/r.xml");
    assert_eq!(record.extension, "Core");
}
