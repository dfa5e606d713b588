//! What a record is told by its root element: its name, its tags, its
//! statistics.

use crate::element::DefElement;
use crate::element::ElementView;
use crate::element::attr_value;
use crate::element::forest_height;
use crate::element::get_attribute;
use crate::element::lemma_height_le_size;
use crate::element::forest_size;
use crate::element::forest_view;
use crate::element::lemma_forest_height_le_size;
use crate::element::lemma_member_bounds;
use crate::element::tree_size;
use crate::parser::DefParser;
use crate::record::DefStats;
use crate::record::DefView;
use crate::record::RimWorldDef;
use crate::render::element_text;
use crate::record::texts_view;
use crate::text::same_text;
use vstd::prelude::*;
use vstd::string::*;

verus! {

/// A prefix of a list of trees is no larger and no higher than the list.
pub proof fn lemma_prefix_bounds(forest: Seq<ElementView>, n: int)
    requires
        0 <= n <= forest.len(),
    ensures
        forest_size(forest.take(n)) <= forest_size(forest),
        forest_height(forest.take(n)) <= forest_height(forest),
    decreases forest.len(),
{
    if n == forest.len() {
        assert(forest.take(n) == forest);
    } else {
        lemma_prefix_bounds(forest.drop_last(), n);
        assert(forest.drop_last().take(n) == forest.take(n));
    }
}

/// Whether one of the elements has the given name.
pub open spec fn has_child(children: Seq<ElementView>, name: Seq<char>) -> bool {
    exists|i: int| 0 <= i < children.len() && children[i].name == name
}

/// The tag, if the flag is set.
pub open spec fn flag_tag(flag: bool, tag: Seq<char>) -> Seq<Seq<char>> {
    if flag {
        seq![tag]
    } else {
        Seq::empty()
    }
}

/// The tags of a record, in their fixed order: abstractness, inheritance,
/// then one for each telling child that is directly below the root.
pub open spec fn tags_of(children: Seq<ElementView>, is_abstract: bool, has_parent: bool) -> Seq<
    Seq<char>,
> {
    flag_tag(is_abstract, "Abstract"@) + flag_tag(has_parent, "Inherits"@) + flag_tag(
        has_child(children, "costList"@),
        "Craftable"@,
    ) + flag_tag(has_child(children, "researchPrerequisites"@), "Research Required"@) + flag_tag(
        has_child(children, "statBases"@),
        "Has Stats"@,
    ) + flag_tag(has_child(children, "comps"@), "Has Components"@) + flag_tag(
        has_child(children, "recipes"@),
        "Has Recipes"@,
    )
}

/// The statistics of a record's children: none where there are no children.
pub open spec fn stats_of(children: Seq<ElementView>) -> Option<DefStats> {
    if children.len() == 0 {
        None
    } else {
        Some(
            DefStats {
                element_count: forest_size(children) as usize,
                max_depth: forest_height(children) as usize,
                has_complex_structure: forest_size(children) > 20 || forest_height(children) > 4,
            },
        )
    }
}

/// The place of the first element with the given name, or the length of
/// the list where none has it.
pub open spec fn first_named(children: Seq<ElementView>, name: Seq<char>) -> int
    decreases children.len(),
{
    if children.len() == 0 {
        0
    } else if children[0].name == name {
        0
    } else {
        1 + first_named(children.drop_first(), name)
    }
}

/// The content of the first element with the given name; none where no
/// element has the name or the first that has it is without content.
pub open spec fn child_content(children: Seq<ElementView>, name: Seq<char>) -> Option<Seq<char>> {
    let i = first_named(children, name);
    if i < children.len() {
        children[i].content
    } else {
        None
    }
}

/// A record's name: the root's `Name` attribute; without it the content of
/// the first child `defName`; without that, `Unknown`.
pub open spec fn identity_of(root: ElementView) -> Seq<char> {
    match attr_value(root.attributes, "Name"@) {
        Some(name) => name,
        None => match child_content(root.children, "defName"@) {
            Some(name) => name,
            None => "Unknown"@,
        },
    }
}

/// A record is abstract where its root says `Abstract="True"`, in these
/// letters.
pub open spec fn is_abstract_of(root: ElementView) -> bool {
    attr_value(root.attributes, "Abstract"@) == Some("True"@)
}

/// The record of a root element, before references are resolved.
pub open spec fn record_of(root: ElementView, file_path: Seq<char>, extension: Seq<char>) -> DefView {
    DefView {
        def_name: identity_of(root),
        def_type: root.name,
        label: child_content(root.children, "label"@),
        description: child_content(root.children, "description"@),
        parent_name: attr_value(root.attributes, "ParentName"@),
        is_abstract: is_abstract_of(root),
        elements: root.children,
        file_path: file_path,
        tags: tags_of(
            root.children,
            is_abstract_of(root),
            attr_value(root.attributes, "ParentName"@) is Some,
        ),
        stats: stats_of(root.children),
        references_out: Seq::empty(),
        references_in: Seq::empty(),
        code_references: Seq::empty(),
        raw_xml: element_text(root, 0),
        extension: extension,
    }
}

/// `first_named` is the first place that holds the name.
pub proof fn lemma_first_named(children: Seq<ElementView>, name: Seq<char>)
    ensures
        0 <= first_named(children, name) <= children.len(),
        first_named(children, name) < children.len() ==> children[first_named(
            children,
            name,
        )].name == name,
        forall|j: int| 0 <= j < first_named(children, name) ==> children[j].name != name,
    decreases children.len(),
{
    if children.len() > 0 && children[0].name != name {
        let rest = children.drop_first();
        lemma_first_named(rest, name);
        assert forall|j: int| 0 <= j < first_named(children, name) implies children[j].name
            != name by {
            if j > 0 {
                assert(children[j] == rest[j - 1]);
            }
        }
    }
}

/// The content of the first element with the given name.
pub fn child_text<'a>(children: &'a [DefElement], name: &str) -> (r: Option<&'a String>)
    ensures
        match r {
            Some(text) => child_content(forest_view(children@), name@) == Some(text@),
            None => child_content(forest_view(children@), name@) is None,
        },
{
    let ghost forest = forest_view(children@);
    let mut i: usize = 0;
    while i < children.len()
        invariant
            i <= children.len(),
            forest == forest_view(children@),
            forall|j: int| 0 <= j < i ==> forest[j].name != name@,
        decreases children.len() - i,
    {
        if same_text(children[i].name.as_str(), name) {
            proof {
                assert(forest[i as int].name == name@);
                lemma_first_named(forest, name@);
            }
            return match &children[i].content {
                Some(text) => Some(text),
                None => None,
            };
        }
        i = i + 1;
    }
    proof {
        lemma_first_named(forest, name@);
    }
    None
}

/// A copy of an optional text.
pub fn copy_text(text: Option<&String>) -> (r: Option<String>)
    ensures
        match text {
            Some(t) => r == Some(*t),
            None => r is None,
        },
{
    match text {
        Some(t) => Some(t.clone()),
        None => None,
    }
}

/// Whether one of the elements has the given name.
pub fn has_child_named(children: &[DefElement], name: &str) -> (r: bool)
    ensures
        r == has_child(forest_view(children@), name@),
{
    let mut i: usize = 0;
    while i < children.len()
        invariant
            i <= children.len(),
            forall|j: int| 0 <= j < i ==> forest_view(children@)[j].name != name@,
        decreases children.len() - i,
    {
        if same_text(children[i].name.as_str(), name) {
            assert(forest_view(children@)[i as int].name == name@);
            return true;
        }
        i = i + 1;
    }
    false
}

/// Appends the tag if the flag is set.
fn push_tag(tags: &mut Vec<String>, flag: bool, tag: &str)
    ensures
        texts_view(final(tags)@) == texts_view(old(tags)@) + flag_tag(flag, tag@),
{
    if flag {
        tags.push(tag.to_owned());
    }
}

impl DefParser {
    /// The name of the record with the given root.
    pub fn resolve_identity(&self, element: &DefElement) -> (name: String)
        ensures
            name@ == identity_of(element@),
    {
        match get_attribute(&element.attributes, "Name") {
            Some(name) => name.clone(),
            None => {
                let children = element.children.as_slice();
                assert(forest_view(children@) == element@.children);
                match child_text(children, "defName") {
                    Some(name) => name.clone(),
                    None => "Unknown".to_owned(),
                }
            },
        }
    }

    /// Makes the record of a completed root element. Its references are
    /// left empty.
    pub fn make_record(&self, element: DefElement, file_path: &str, extension: &str) -> (record:
        RimWorldDef)
        requires
            tree_size(element@) <= usize::MAX,
        ensures
            record@ == record_of(element@, file_path@, extension@),
    {
        let ghost root = element@;
        proof {
            lemma_height_le_size(root);
        }
        let def_name = self.resolve_identity(&element);
        let children = element.children.as_slice();
        assert(forest_view(children@) == root.children);
        let label = copy_text(child_text(children, "label"));
        let description = copy_text(child_text(children, "description"));
        let parent_name = copy_text(get_attribute(&element.attributes, "ParentName"));
        let is_abstract = match get_attribute(&element.attributes, "Abstract") {
            Some(value) => same_text(value.as_str(), "True"),
            None => false,
        };
        let tags = self.generate_tags(&element, is_abstract, parent_name.is_some());
        let stats = self.calculate_stats(children);
        let raw_xml = element.to_xml(0);
        let record = RimWorldDef {
            def_name,
            def_type: element.name,
            label,
            description,
            parent_name,
            is_abstract,
            elements: element.children,
            file_path: file_path.to_owned(),
            tags,
            stats,
            references_out: Vec::new(),
            references_in: Vec::new(),
            code_references: Vec::new(),
            raw_xml,
            extension: extension.to_owned(),
        };
        proof {
            let v = record@;
            let w = record_of(root, file_path@, extension@);
            assert(v.elements == w.elements);
            assert(v.tags == w.tags);
            assert(v.references_out == w.references_out);
            assert(v.references_in == w.references_in);
            assert(v.code_references == w.code_references);
        }
        record
    }

    /// The tags of a record with the given root.
    pub fn generate_tags(&self, element: &DefElement, is_abstract: bool, has_parent: bool) -> (tags:
        Vec<String>)
        ensures
            texts_view(tags@) == tags_of(element@.children, is_abstract, has_parent),
    {
        let children = element.children.as_slice();
        assert(forest_view(children@) == element@.children);
        let mut tags: Vec<String> = Vec::new();
        assert(texts_view(tags@) == Seq::<Seq<char>>::empty());
        push_tag(&mut tags, is_abstract, "Abstract");
        push_tag(&mut tags, has_parent, "Inherits");
        push_tag(&mut tags, has_child_named(children, "costList"), "Craftable");
        push_tag(&mut tags, has_child_named(children, "researchPrerequisites"), "Research Required");
        push_tag(&mut tags, has_child_named(children, "statBases"), "Has Stats");
        push_tag(&mut tags, has_child_named(children, "comps"), "Has Components");
        push_tag(&mut tags, has_child_named(children, "recipes"), "Has Recipes");
        tags
    }

    /// Counts the elements of the trees and measures their height; nothing
    /// is reported for an empty list.
    pub fn calculate_stats(&self, elements: &[DefElement]) -> (stats: Option<DefStats>)
        requires
            forest_size(forest_view(elements@)) <= usize::MAX,
        ensures
            stats == stats_of(forest_view(elements@)),
    {
        if elements.len() == 0 {
            return None;
        }
        proof {
            lemma_forest_height_le_size(forest_view(elements@));
        }
        let element_count = self.count_elements(elements);
        let max_depth = self.calculate_max_depth(elements, 0);
        let has_complex_structure = element_count > 20 || max_depth > 4;
        Some(DefStats { element_count, max_depth, has_complex_structure })
    }

    /// The number of elements of the trees, at every level.
    pub fn count_elements(&self, elements: &[DefElement]) -> (count: usize)
        requires
            forest_size(forest_view(elements@)) <= usize::MAX,
        ensures
            count == forest_size(forest_view(elements@)),
        decreases forest_size(forest_view(elements@)),
    {
        let ghost forest = forest_view(elements@);
        let mut count: usize = 0;
        let mut i: usize = 0;
        while i < elements.len()
            invariant
                i <= elements.len(),
                forest == forest_view(elements@),
                forest_size(forest) <= usize::MAX,
                count == forest_size(forest.take(i as int)),
            decreases elements.len() - i,
        {
            proof {
                assert(forest.take(i as int + 1).drop_last() == forest.take(i as int));
                assert(forest[i as int].children == forest_view(elements[i as int].children@));
                lemma_member_bounds(forest, i as int);
                lemma_prefix_bounds(forest, i as int + 1);
            }
            let below = self.count_elements(elements[i].children.as_slice());
            count = count + 1 + below;
            i = i + 1;
        }
        proof {
            assert(forest.take(i as int) == forest);
        }
        count
    }

    /// The level of the deepest element of the trees, where the trees
    /// themselves stand just below `current_depth`.
    pub fn calculate_max_depth(&self, elements: &[DefElement], current_depth: usize) -> (depth:
        usize)
        requires
            current_depth + forest_height(forest_view(elements@)) <= usize::MAX,
        ensures
            depth == current_depth + forest_height(forest_view(elements@)),
        decreases forest_size(forest_view(elements@)),
    {
        let ghost forest = forest_view(elements@);
        let mut depth: usize = current_depth;
        let mut i: usize = 0;
        while i < elements.len()
            invariant
                i <= elements.len(),
                forest == forest_view(elements@),
                current_depth + forest_height(forest) <= usize::MAX,
                depth == current_depth + forest_height(forest.take(i as int)),
            decreases elements.len() - i,
        {
            proof {
                assert(forest.take(i as int + 1).drop_last() == forest.take(i as int));
                assert(forest[i as int].children == forest_view(elements[i as int].children@));
                lemma_member_bounds(forest, i as int);
                lemma_prefix_bounds(forest, i as int + 1);
            }
            let below = if elements[i].children.len() == 0 {
                current_depth + 1
            } else {
                self.calculate_max_depth(elements[i].children.as_slice(), current_depth + 1)
            };
            if below > depth {
                depth = below;
            }
            i = i + 1;
        }
        proof {
            assert(forest.take(i as int) == forest);
        }
        depth
    }
}

} // verus!
