use rimworld_xml::dataset::game_version_from;
use rimworld_xml::dataset::join_attributes;
use rimworld_xml::dataset::Category;
use rimworld_xml::dataset::DatasetGenerator;
use rimworld_xml::dataset::FlatElement;
use rimworld_xml::element::DefElement;
use rimworld_xml::parser::DefParser;

fn leaf(name: &str) -> DefElement {
    DefElement {
        name: name.to_string(),
        attributes: Vec::new(),
        content: None,
        children: Vec::new(),
        depth: 0,
    }
}

fn node(name: &str, children: Vec<DefElement>) -> DefElement {
    DefElement { children, ..leaf(name) }
}

fn generator(files: &[(&str, &str)]) -> DatasetGenerator {
    let mut parser = DefParser::new("/game".to_string());
    for (path, content) in files {
        parser.parse_xml_file(path, content).expect("well-formed markup");
    }
    parser.build_reference_mappings();
    DatasetGenerator::new(parser.parsed_defs, "/game".to_string())
}

fn empty() -> DatasetGenerator {
    DatasetGenerator::new(Vec::new(), String::new())
}

#[test]
fn new_keeps_what_it_is_given() {
    let g = generator(&[("a.xml", "<Defs><T Name=\"x\"></T></Defs>")]);
    assert_eq!(g.defs.len(), 1);
    assert_eq!(g.rimworld_path, "/game");
}

#[test]
fn titles_split_at_a_capital_after_a_small_letter() {
    let g = empty();
    assert_eq!(g.format_category_name("ThingDef"), "Thing Def");
    assert_eq!(g.format_category_name("thingDef"), "Thing Def");
    assert_eq!(g.format_category_name("PawnKindDef"), "Pawn Kind Def");
    assert_eq!(g.format_category_name("ABC"), "ABC");
    assert_eq!(g.format_category_name("aB"), "A B");
    assert_eq!(g.format_category_name("a"), "A");
    assert_eq!(g.format_category_name(""), "");
    assert_eq!(g.format_category_name("x1Y"), "X1Y");
    assert_eq!(g.format_category_name("already Spaced"), "Already Spaced");
}

#[test]
fn titles_follow_unicode_case() {
    let g = empty();
    assert_eq!(g.format_category_name("\u{e9}t\u{e9}\u{c9}t\u{e9}"), "\u{c9}t\u{e9} \u{c9}t\u{e9}");
    assert_eq!(g.format_category_name("\u{df}a"), "Sa");
}

#[test]
fn version_is_trimmed_or_unknown() {
    assert_eq!(game_version_from(Some("  1.5.4104 rev435\n")), "1.5.4104 rev435");
    assert_eq!(game_version_from(Some("")), "");
    assert_eq!(game_version_from(None), "Unknown");
}

#[test]
fn attributes_are_joined_with_spaces() {
    assert_eq!(join_attributes(&vec![]), "");
    assert_eq!(join_attributes(&vec![("a".to_string(), "1".to_string())]), "a=\"1\"");
    assert_eq!(
        join_attributes(&vec![
            ("a".to_string(), "1".to_string()),
            ("b".to_string(), "2".to_string()),
            ("c".to_string(), "".to_string())
        ]),
        "a=\"1\" b=\"2\" c=\"\""
    );
}

#[test]
fn flat_view_lists_an_element_before_its_children() {
    let mut root = node("a", vec![DefElement { content: Some("t".to_string()), ..leaf("b") }, leaf("c")]);
    root.attributes.push(("k".to_string(), "v".to_string()));
    let flat = empty().flatten_elements(&[root, leaf("d")]);
    assert_eq!(
        flat,
        vec![
            FlatElement {
                name: "a".to_string(),
                content: None,
                depth: 0,
                attributes: "k=\"v\"".to_string(),
                has_children: true
            },
            FlatElement {
                name: "b".to_string(),
                content: Some("t".to_string()),
                depth: 20,
                attributes: String::new(),
                has_children: false
            },
            FlatElement {
                name: "c".to_string(),
                content: None,
                depth: 20,
                attributes: String::new(),
                has_children: false
            },
            FlatElement {
                name: "d".to_string(),
                content: None,
                depth: 0,
                attributes: String::new(),
                has_children: false
            },
        ]
    );
}

#[test]
fn flat_view_takes_fifteen_elements() {
    let forest: Vec<DefElement> = (0..20).map(|i| leaf(&format!("e{}", i))).collect();
    let flat = empty().flatten_elements(&forest);
    assert_eq!(flat.len(), 15);
    assert_eq!(flat[14].name, "e14");
}

#[test]
fn flat_view_takes_five_children() {
    let children: Vec<DefElement> = (0..7).map(|i| leaf(&format!("c{}", i))).collect();
    let flat = empty().flatten_elements(&[node("a", children)]);
    let names: Vec<&str> = flat.iter().map(|f| f.name.as_str()).collect();
    assert_eq!(names, vec!["a", "c0", "c1", "c2", "c3", "c4"]);
}

#[test]
fn flat_view_stops_below_the_fourth_level() {
    let chain = node("l0", vec![node("l1", vec![node("l2", vec![node("l3", vec![node("l4", vec![leaf("l5")])])])])]);
    let flat = empty().flatten_elements(&[chain]);
    let levels: Vec<(&str, usize, bool)> =
        flat.iter().map(|f| (f.name.as_str(), f.depth, f.has_children)).collect();
    assert_eq!(levels, vec![("l0", 0, true), ("l1", 20, true), ("l2", 40, true), ("l3", 60, true)]);
}

#[test]
fn flat_view_holds_fifty_entries_at_most() {
    let forest: Vec<DefElement> = (0..15)
        .map(|i| node(&format!("e{}", i), (0..5).map(|k| leaf(&format!("c{}", k))).collect()))
        .collect();
    let flat = empty().flatten_elements(&forest);
    assert_eq!(flat.len(), 50);
    assert_eq!(flat[48].name, "e8");
    assert_eq!(flat[49].name, "c0");
    assert!(empty().flatten_elements(&[]).is_empty());
}

#[test]
fn recursive_flattening_respects_what_is_there() {
    let mut result: Vec<FlatElement> = Vec::new();
    empty().flatten_element_recursive(&node("a", vec![leaf("b")]), &mut result, 2);
    let levels: Vec<(&str, usize)> = result.iter().map(|f| (f.name.as_str(), f.depth)).collect();
    assert_eq!(levels, vec![("a", 40), ("b", 60)]);
    empty().flatten_element_recursive(&leaf("too deep"), &mut result, 4);
    assert_eq!(result.len(), 2);
}

#[test]
fn totals_count_different_kinds_and_files() {
    let g = generator(&[
        ("/game/Data/Core/a.xml", "<Defs><ThingDef Name=\"a\"></ThingDef><ThingDef Name=\"b\"></ThingDef><RecipeDef Name=\"c\"></RecipeDef></Defs>"),
        ("/game/Data/Core/b.xml", "<Defs><ThingDef Name=\"d\"></ThingDef></Defs>"),
    ]);
    let stats = g.get_stats("1.5".to_string(), "2024-01-01 00:00:00 UTC".to_string());
    assert_eq!(stats.total_defs, 4);
    assert_eq!(stats.total_categories, 2);
    assert_eq!(stats.total_files, 2);
    assert_eq!(stats.game_version, "1.5");
    assert_eq!(stats.generated_at, "2024-01-01 00:00:00 UTC");
    let none = empty().get_stats(String::new(), String::new());
    assert_eq!((none.total_defs, none.total_categories, none.total_files), (0, 0, 0));
}

#[test]
fn categories_are_ordered_by_title_and_records_by_name() {
    let g = generator(&[(
        "a.xml",
        "<Defs><ThingDef Name=\"m\"></ThingDef><RecipeDef Name=\"r\"></RecipeDef>\
         <ThingDef Name=\"a\"></ThingDef><BiomeDef Name=\"z\"></BiomeDef>\
         <ThingDef Name=\"m\"><label>second</label></ThingDef><ThingDef Name=\"B\"></ThingDef></Defs>",
    )]);
    assert_eq!(
        g.categories(),
        vec![
            Category {
                name: "BiomeDef".to_string(),
                display_name: "Biome Def".to_string(),
                count: 1,
                definitions: vec![3]
            },
            Category {
                name: "RecipeDef".to_string(),
                display_name: "Recipe Def".to_string(),
                count: 1,
                definitions: vec![1]
            },
            Category {
                name: "ThingDef".to_string(),
                display_name: "Thing Def".to_string(),
                count: 4,
                definitions: vec![5, 2, 0, 4]
            },
        ]
    );
}

#[test]
fn kinds_of_one_title_stand_in_the_order_of_their_names() {
    let g = generator(&[(
        "a.xml",
        "<Defs><thingDef Name=\"x\"></thingDef><ThingDef Name=\"y\"></ThingDef><Alpha Name=\"z\"></Alpha></Defs>",
    )]);
    let names: Vec<(String, String)> =
        g.categories().into_iter().map(|c| (c.name, c.display_name)).collect();
    assert_eq!(
        names,
        vec![
            ("Alpha".to_string(), "Alpha".to_string()),
            ("ThingDef".to_string(), "Thing Def".to_string()),
            ("thingDef".to_string(), "Thing Def".to_string()),
        ]
    );
    assert!(empty().categories().is_empty());
}
