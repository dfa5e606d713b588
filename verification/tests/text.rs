use rimworld_xml::element::find_key;
use rimworld_xml::element::get_attribute;
use rimworld_xml::element::set_attribute;
use rimworld_xml::parser::extension_for;
use rimworld_xml::parser::source_path;
use rimworld_xml::parser::DefParser;
use rimworld_xml::ranking::stable_order_of;
use rimworld_xml::sorted::find_slot;
use rimworld_xml::sorted::insert_sorted;
use rimworld_xml::sorted::sort_dedup;
use rimworld_xml::sorted::sorted_contains;
use rimworld_xml::text::same_text;
use rimworld_xml::text::trim;

fn texts(items: &[&str]) -> Vec<String> {
    items.iter().map(|s| s.to_string()).collect()
}

#[test]
fn trim_removes_whitespace_at_both_ends_only() {
    assert_eq!(trim("  a b  "), "a b");
    assert_eq!(trim("\t\r\n x \n"), "x");
    assert_eq!(trim("x"), "x");
    assert_eq!(trim(""), "");
    assert_eq!(trim("   "), "");
    assert_eq!(trim("\u{3000}\u{e9} \u{e9}\u{2028}"), "\u{e9} \u{e9}");
    assert_eq!(trim("\u{200b}x"), "\u{200b}x");
}

#[test]
fn same_text_compares_characters() {
    assert!(same_text("Defs", "Defs"));
    assert!(!same_text("Defs", "defs"));
    assert!(!same_text("Defs", "Def"));
    assert!(same_text("", ""));
}

#[test]
fn sort_dedup_orders_by_code_point() {
    assert_eq!(sort_dedup(&texts(&["b", "a", "b", "", "ab", "B", "a"])), texts(&["", "B", "a", "ab", "b"]));
    assert_eq!(sort_dedup(&texts(&["\u{10000}", "\u{ffff}", "z"])), texts(&["z", "\u{ffff}", "\u{10000}"]));
    assert!(sort_dedup(&[].to_vec()).is_empty());
}

#[test]
fn slots_in_a_sorted_list() {
    let sorted = texts(&["b", "d", "f"]);
    assert_eq!(find_slot(&sorted, "a"), 0);
    assert_eq!(find_slot(&sorted, "b"), 0);
    assert_eq!(find_slot(&sorted, "c"), 1);
    assert_eq!(find_slot(&sorted, "f"), 2);
    assert_eq!(find_slot(&sorted, "g"), 3);
    assert_eq!(find_slot(&[].to_vec(), "g"), 0);
    assert!(sorted_contains(&sorted, "d"));
    assert!(!sorted_contains(&sorted, "e"));
}

#[test]
fn insertion_keeps_the_list_sorted_and_unique() {
    let mut sorted = texts(&["b", "d"]);
    insert_sorted(&mut sorted, "c".to_string());
    insert_sorted(&mut sorted, "a".to_string());
    insert_sorted(&mut sorted, "e".to_string());
    insert_sorted(&mut sorted, "c".to_string());
    assert_eq!(sorted, texts(&["a", "b", "c", "d", "e"]));
}

#[test]
fn stable_order_keeps_equal_keys_in_place() {
    assert_eq!(stable_order_of(&texts(&["b", "a", "b", "a", "c"])), vec![1, 3, 0, 2, 4]);
    assert_eq!(stable_order_of(&texts(&["x"])), vec![0]);
    assert!(stable_order_of(&[].to_vec()).is_empty());
    assert_eq!(stable_order_of(&texts(&["c", "b", "a"])), vec![2, 1, 0]);
}

#[test]
fn extension_is_told_by_the_first_word_that_matches() {
    assert_eq!(extension_for("/game/data/core/defs/a.xml"), "Core");
    assert_eq!(extension_for("/game/data/royalty/core/a.xml"), "Royalty");
    assert_eq!(extension_for("/odyssey/royalty/ideology/biotech/anomaly"), "Anomaly");
    assert_eq!(extension_for("/odyssey/royalty/ideology/biotech"), "Biotech");
    assert_eq!(extension_for("/odyssey/royalty/ideology"), "Ideology");
    assert_eq!(extension_for("/odyssey/core"), "Odyssey");
    assert_eq!(extension_for("/encore/a.xml"), "Core");
    assert_eq!(extension_for("/game/data/a.xml"), "Unknown");
    assert_eq!(extension_for("/game/Core/a.xml"), "Unknown");
    assert_eq!(extension_for(""), "Unknown");
}

#[test]
fn extension_detection_ignores_case() {
    let parser = DefParser::new(String::new());
    assert_eq!(parser.detect_extension("/Game/Data/CORE/Defs/a.xml"), "Core");
    assert_eq!(parser.detect_extension("C:\\RimWorld\\Data\\Biotech\\Defs"), "Biotech");
    assert_eq!(parser.detect_extension("/mods/own/a.xml"), "Unknown");
}

#[test]
fn new_parser_is_empty() {
    let parser = DefParser::new("/game".to_string());
    assert_eq!(parser.rimworld_data_path, "/game");
    assert!(parser.parsed_defs.is_empty());
    assert!(parser.def_name_map.names.is_empty());
    assert!(parser.def_name_map.groups.is_empty());
}

#[test]
fn source_path_prefers_the_path_below_the_root() {
    assert_eq!(source_path(Some("Data/a.xml".to_string()), "a.xml".to_string()), "Data/a.xml");
    assert_eq!(source_path(None, "a.xml".to_string()), "a.xml");
}

#[test]
fn attribute_lists_behave_like_a_map() {
    let mut attrs: Vec<(String, String)> = Vec::new();
    set_attribute(&mut attrs, "a".to_string(), "1".to_string());
    set_attribute(&mut attrs, "b".to_string(), "2".to_string());
    set_attribute(&mut attrs, "a".to_string(), "3".to_string());
    assert_eq!(attrs, vec![("a".to_string(), "3".to_string()), ("b".to_string(), "2".to_string())]);
    assert_eq!(find_key(&attrs, "a"), 0);
    assert_eq!(find_key(&attrs, "b"), 1);
    assert_eq!(find_key(&attrs, "c"), 2);
    assert_eq!(get_attribute(&attrs, "b").map(|s| s.as_str()), Some("2"));
    assert_eq!(get_attribute(&attrs, "B"), None);
}
