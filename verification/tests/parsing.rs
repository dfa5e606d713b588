use rimworld_xml::element::DefElement;
use rimworld_xml::parser::DefParser;
use rimworld_xml::reader::read_events;
use rimworld_xml::reader::XmlEvent;
use rimworld_xml::record::RimWorldDef;

fn parse(path: &str, content: &str) -> Vec<RimWorldDef> {
    let mut parser = DefParser::new("/game".to_string());
    parser.parse_xml_file(path, content).expect("well-formed markup");
    parser.parsed_defs
}

fn child<'a>(elements: &'a [DefElement], name: &str) -> &'a DefElement {
    elements.iter().find(|e| e.name == name).expect("child is there")
}

#[test]
fn events_follow_the_document() {
    let events = read_events("<Defs><ThingDef Name=\"A\" Kind='b'>  hi &amp; bye </ThingDef></Defs>")
        .expect("well-formed markup");
    let expected = vec![
        XmlEvent::Start { name: "Defs".to_string(), attributes: vec![] },
        XmlEvent::Start {
            name: "ThingDef".to_string(),
            attributes: vec![
                ("Name".to_string(), "A".to_string()),
                ("Kind".to_string(), "b".to_string()),
            ],
        },
        XmlEvent::Text { text: "hi & bye".to_string() },
        XmlEvent::End { name: "ThingDef".to_string() },
        XmlEvent::End { name: "Defs".to_string() },
    ];
    assert_eq!(events, expected);
}

#[test]
fn declarations_comments_and_empty_tags_are_other_events() {
    let events = read_events("<?xml version=\"1.0\"?><!-- c --><a/><b></b>").expect("well-formed");
    assert_eq!(
        events,
        vec![
            XmlEvent::Other,
            XmlEvent::Other,
            XmlEvent::Other,
            XmlEvent::Start { name: "b".to_string(), attributes: vec![] },
            XmlEvent::End { name: "b".to_string() },
        ]
    );
}

#[test]
fn mismatched_end_tag_is_an_error() {
    let error = read_events("<Defs><a></b></Defs>").expect_err("end tag does not match");
    assert!(error.message.starts_with("Error parsing XML: "));
    assert!(error.message.len() > "Error parsing XML: ".len());
}

#[test]
fn malformed_file_adds_no_record() {
    let mut parser = DefParser::new("/game".to_string());
    let result = parser.parse_xml_file(
        "/game/Data/Core/Defs/a.xml",
        "<Defs><ThingDef><defName>A</defName></ThingDef><ThingDef></Wrong></Defs>",
    );
    assert!(result.is_err());
    assert_eq!(parser.parsed_defs.len(), 0);
}

#[test]
fn truncated_input_is_no_error() {
    let defs = parse(
        "/game/Data/Core/Defs/a.xml",
        "<Defs><ThingDef><defName>A</defName></ThingDef><ThingDef><defName>B</defName>",
    );
    assert_eq!(defs.len(), 1);
    assert_eq!(defs[0].def_name, "A");
}

#[test]
fn empty_text_gives_no_record() {
    assert_eq!(parse("a.xml", "").len(), 0);
    assert_eq!(parse("a.xml", "<Defs></Defs>").len(), 0);
}

#[test]
fn elements_outside_the_container_are_dropped() {
    let defs = parse("a.xml", "<Other><x>1</x></Other><Defs><ThingDef Name=\"A\"/><R Name=\"B\"></R></Defs><After></After>");
    assert_eq!(defs.len(), 1);
    assert_eq!(defs[0].def_name, "B");
    assert_eq!(defs[0].def_type, "R");
}

#[test]
fn identity_comes_from_name_attribute_first() {
    let defs = parse("a.xml", "<Defs><ThingDef Name=\"Foo\"><defName>Bar</defName></ThingDef></Defs>");
    assert_eq!(defs[0].def_name, "Foo");
    let defs = parse("a.xml", "<Defs><ThingDef Name=\"Foo\"></ThingDef></Defs>");
    assert_eq!(defs[0].def_name, "Foo");
}

#[test]
fn identity_falls_back_to_def_name_child() {
    let defs = parse("a.xml", "<Defs><ThingDef><label>x</label><defName>Bar</defName></ThingDef></Defs>");
    assert_eq!(defs[0].def_name, "Bar");
}

#[test]
fn identity_is_unknown_without_name_and_def_name() {
    let defs = parse("a.xml", "<Defs><ThingDef><label>x</label></ThingDef></Defs>");
    assert_eq!(defs[0].def_name, "Unknown");
}

#[test]
fn first_def_name_child_decides_even_without_content() {
    let defs = parse(
        "a.xml",
        "<Defs><ThingDef><defName></defName><defName>Late</defName></ThingDef></Defs>",
    );
    assert_eq!(defs[0].def_name, "Unknown");
}

#[test]
fn record_fields_come_from_the_root() {
    let defs = parse(
        "/game/Data/Royalty/Defs/things.xml",
        "<Defs><ThingDef ParentName=\"Base\" Abstract=\"True\"><defName>Sword</defName>\
         <label>sword</label><description>A blade.</description></ThingDef></Defs>",
    );
    let def = &defs[0];
    assert_eq!(def.def_name, "Sword");
    assert_eq!(def.def_type, "ThingDef");
    assert_eq!(def.label.as_deref(), Some("sword"));
    assert_eq!(def.description.as_deref(), Some("A blade."));
    assert_eq!(def.parent_name.as_deref(), Some("Base"));
    assert!(def.is_abstract);
    assert_eq!(def.tags, vec!["Abstract".to_string(), "Inherits".to_string()]);
    assert_eq!(def.file_path, "Data/Royalty/Defs/things.xml");
    assert_eq!(def.extension, "Royalty");
    assert!(def.references_out.is_empty());
    assert!(def.references_in.is_empty());
    assert!(def.code_references.is_empty());
    assert_eq!(def.elements.len(), 3);
}

#[test]
fn abstract_needs_the_exact_word() {
    let defs = parse("a.xml", "<Defs><A Abstract=\"true\"></A><B Abstract=\"True\"></B><C></C></Defs>");
    assert!(!defs[0].is_abstract);
    assert!(defs[1].is_abstract);
    assert!(!defs[2].is_abstract);
}

#[test]
fn source_path_is_the_file_name_outside_the_data_directory() {
    let defs = parse("/elsewhere/mods/things.xml", "<Defs><A></A></Defs>");
    assert_eq!(defs[0].file_path, "things.xml");
    assert_eq!(defs[0].extension, "Unknown");
}

#[test]
fn depth_counts_open_elements() {
    let defs = parse("a.xml", "<Defs><R><a><b><c>1</c></b></a><d>2</d></R></Defs>");
    let a = child(&defs[0].elements, "a");
    let b = child(&a.children, "b");
    let c = child(&b.children, "c");
    let d = child(&defs[0].elements, "d");
    assert_eq!(a.depth, 1);
    assert_eq!(b.depth, 2);
    assert_eq!(c.depth, 3);
    assert_eq!(d.depth, 1);
    assert_eq!(c.content.as_deref(), Some("1"));
}

#[test]
fn depth_starts_again_with_each_record() {
    let defs = parse("a.xml", "<Defs><R><a><b/></a></R><S><x></x></S></Defs>");
    assert_eq!(defs[1].elements[0].depth, 1);
}

#[test]
fn children_keep_document_order() {
    let defs = parse("a.xml", "<Defs><R><z>1</z><a>2</a><m>3</m></R></Defs>");
    let names: Vec<&str> = defs[0].elements.iter().map(|e| e.name.as_str()).collect();
    assert_eq!(names, vec!["z", "a", "m"]);
}

#[test]
fn last_text_run_wins() {
    let defs = parse("a.xml", "<Defs><R><a>first<b>inner</b>second</a></R></Defs>");
    let a = child(&defs[0].elements, "a");
    assert_eq!(a.content.as_deref(), Some("second"));
    assert_eq!(a.children[0].content.as_deref(), Some("inner"));
}

#[test]
fn text_is_trimmed_and_blank_text_is_dropped() {
    let defs = parse("a.xml", "<Defs><R><a>\n   padded\t </a><b>   </b><c>&#32;x&#32;</c></R></Defs>");
    assert_eq!(child(&defs[0].elements, "a").content.as_deref(), Some("padded"));
    assert_eq!(child(&defs[0].elements, "b").content, None);
    assert_eq!(child(&defs[0].elements, "c").content.as_deref(), Some("x"));
}

#[test]
fn text_with_unicode_whitespace_is_trimmed() {
    let defs = parse("a.xml", "<Defs><R><a>\u{2003}wide\u{00a0}</a></R></Defs>");
    assert_eq!(child(&defs[0].elements, "a").content.as_deref(), Some("wide"));
}

#[test]
fn self_closing_elements_are_left_out() {
    let defs = parse("a.xml", "<Defs><R><a/><b>1</b></R></Defs>");
    assert_eq!(defs[0].elements.len(), 1);
    assert_eq!(defs[0].elements[0].name, "b");
}

#[test]
fn attributes_are_copied_as_they_stand() {
    let defs = parse("a.xml", "<Defs><R><li Class=\"Mod.Comp\" Other=\"v w\">x</li></R></Defs>");
    let li = &defs[0].elements[0];
    assert_eq!(
        li.attributes,
        vec![
            ("Class".to_string(), "Mod.Comp".to_string()),
            ("Other".to_string(), "v w".to_string()),
        ]
    );
}

#[test]
fn records_of_several_files_accumulate() {
    let mut parser = DefParser::new("/game".to_string());
    parser.parse_xml_file("/game/Data/Core/a.xml", "<Defs><A Name=\"1\"></A></Defs>").unwrap();
    parser.parse_xml_file("/game/Data/Core/b.xml", "<Defs><B Name=\"2\"></B><C Name=\"3\"></C></Defs>").unwrap();
    let names: Vec<&str> = parser.parsed_defs.iter().map(|d| d.def_name.as_str()).collect();
    assert_eq!(names, vec!["1", "2", "3"]);
    assert_eq!(parser.parsed_defs[2].file_path, "Data/Core/b.xml");
}

#[test]
fn build_records_works_on_given_events() {
    let parser = DefParser::new(String::new());
    let events = vec![
        XmlEvent::Start { name: "Defs".to_string(), attributes: vec![] },
        XmlEvent::Start {
            name: "ThingDef".to_string(),
            attributes: vec![
                ("Name".to_string(), "First".to_string()),
                ("Name".to_string(), "Second".to_string()),
            ],
        },
        XmlEvent::Text { text: "  body  ".to_string() },
        XmlEvent::Other,
        XmlEvent::End { name: "ThingDef".to_string() },
        XmlEvent::End { name: "Defs".to_string() },
        XmlEvent::Start { name: "Late".to_string(), attributes: vec![] },
        XmlEvent::End { name: "Late".to_string() },
    ];
    let records = parser.build_records(&events, "f.xml", "Core");
    assert_eq!(records.len(), 1);
    assert_eq!(records[0].def_name, "Second");
    assert_eq!(records[0].raw_xml, "<ThingDef Name=\"Second\">body</ThingDef>\n");
    assert_eq!(records[0].stats, None);
    assert_eq!(records[0].file_path, "f.xml");
    assert_eq!(records[0].extension, "Core");
}
