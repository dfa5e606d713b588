use rimworld_xml::element::DefElement;
use rimworld_xml::element::ElementKind;
use rimworld_xml::render::indent_string;

fn element(name: &str, content: Option<&str>, children: Vec<DefElement>) -> DefElement {
    DefElement {
        name: name.to_string(),
        attributes: Vec::new(),
        content: content.map(|c| c.to_string()),
        children,
        depth: 0,
    }
}

#[test]
fn empty_leaf_is_self_closing() {
    assert_eq!(element("a", None, vec![]).to_xml(0), "<a />\n");
}

#[test]
fn value_leaf_stays_on_one_line() {
    assert_eq!(element("a", Some("text"), vec![]).to_xml(0), "<a>text</a>\n");
}

#[test]
fn attributes_follow_the_name_in_their_order() {
    let mut e = element("a", None, vec![]);
    e.attributes.push(("k".to_string(), "v".to_string()));
    e.attributes.push(("Class".to_string(), "X.Y".to_string()));
    assert_eq!(e.to_xml(0), "<a k=\"v\" Class=\"X.Y\" />\n");
    e.content = Some("t".to_string());
    assert_eq!(e.to_xml(0), "<a k=\"v\" Class=\"X.Y\">t</a>\n");
}

#[test]
fn children_are_indented_one_level_deeper() {
    let root = element(
        "R",
        None,
        vec![element("a", Some("1"), vec![]), element("b", None, vec![])],
    );
    assert_eq!(root.to_xml(0), "<R>\n  <a>1</a>\n  <b />\n</R>\n");
}

#[test]
fn content_beside_children_gets_its_own_line() {
    let root = element("R", Some("c"), vec![element("a", None, vec![])]);
    assert_eq!(root.to_xml(0), "<R>\n  c\n  <a />\n</R>\n");
}

#[test]
fn indentation_is_two_spaces_a_level() {
    assert_eq!(element("a", None, vec![]).to_xml(2), "    <a />\n");
    assert_eq!(element("a", Some("x"), vec![]).to_xml(1), "  <a>x</a>\n");
    assert_eq!(indent_string(0), "");
    assert_eq!(indent_string(3), "      ");
}

#[test]
fn nested_trees_close_at_their_own_level() {
    let root = element(
        "R",
        None,
        vec![element("a", None, vec![element("b", Some("x"), vec![element("c", None, vec![])])])],
    );
    assert_eq!(
        root.to_xml(0),
        "<R>\n  <a>\n    <b>\n      x\n      <c />\n    </b>\n  </a>\n</R>\n"
    );
}

#[test]
fn text_is_written_as_it_stands() {
    assert_eq!(element("a", Some("1 < 2 & 3"), vec![]).to_xml(0), "<a>1 < 2 & 3</a>\n");
}

#[test]
fn shape_tells_leaves_from_branches() {
    assert_eq!(element("a", None, vec![]).kind(), ElementKind::Empty);
    assert_eq!(element("a", Some("x"), vec![]).kind(), ElementKind::Value);
    assert_eq!(
        element("a", None, vec![element("b", None, vec![])]).kind(),
        ElementKind::Branch
    );
    assert_eq!(
        element("a", Some("x"), vec![element("b", None, vec![])]).kind(),
        ElementKind::Branch
    );
}
