//! Collecting from an element tree the texts that may name other records,
//! and those that name code.

use crate::element::AttrView;
use crate::element::DefElement;
use crate::element::ElementView;
use crate::element::attrs_view;
use crate::element::forest_size;
use crate::element::forest_view;
use crate::element::lemma_member_bounds;
use crate::parser::DefParser;
use crate::profile::flag_tag;
use crate::record::texts_view;
use crate::sorted::sort_dedup;
use crate::sorted::sorted_unique;
use crate::sorted::strictly_sorted;
use crate::text::same_text;
use vstd::prelude::*;
use vstd::string::*;

verus! {

/// Whether an element's name counts as a candidate: the name of a list
/// item or of the element that holds the record's own name does not.
pub open spec fn name_is_candidate(name: Seq<char>) -> bool {
    name != "defName"@ && name != "li"@
}

/// Whether the content of an element with this name counts as a candidate:
/// the record's own name does not.
pub open spec fn content_is_candidate(name: Seq<char>) -> bool {
    name != "defName"@
}

/// Whether an attribute with this key names code.
pub open spec fn key_names_code(key: Seq<char>) -> bool {
    key == "Class"@
}

/// The content, where it is there and counts.
pub open spec fn content_refs(name: Seq<char>, content: Option<Seq<char>>) -> Seq<Seq<char>> {
    match content {
        Some(c) => flag_tag(content_is_candidate(name), c),
        None => Seq::empty(),
    }
}

/// The values of the attributes that do not name code, in their order.
pub open spec fn attr_refs(attrs: Seq<AttrView>) -> Seq<Seq<char>>
    decreases attrs.len(),
{
    if attrs.len() == 0 {
        Seq::empty()
    } else {
        attr_refs(attrs.drop_last()) + flag_tag(
            !key_names_code(attrs.last().0),
            attrs.last().1,
        )
    }
}

/// The values of the attributes that name code, in their order.
pub open spec fn attr_codes(attrs: Seq<AttrView>) -> Seq<Seq<char>>
    decreases attrs.len(),
{
    if attrs.len() == 0 {
        Seq::empty()
    } else {
        attr_codes(attrs.drop_last()) + flag_tag(key_names_code(attrs.last().0), attrs.last().1)
    }
}

/// The candidates that one element gives by itself: its name, its content,
/// its attribute values.
pub open spec fn own_refs(e: ElementView) -> Seq<Seq<char>> {
    flag_tag(name_is_candidate(e.name), e.name) + content_refs(e.name, e.content) + attr_refs(
        e.attributes,
    )
}

/// The candidates of a tree: those of its root, then those of its children.
pub open spec fn tree_refs(e: ElementView) -> Seq<Seq<char>>
    decreases e,
{
    own_refs(e) + forest_refs(e.children)
}

/// The candidates of a list of trees, in document order.
pub open spec fn forest_refs(forest: Seq<ElementView>) -> Seq<Seq<char>>
    decreases forest,
{
    if forest.len() == 0 {
        Seq::empty()
    } else {
        forest_refs(forest.drop_last()) + tree_refs(forest.last())
    }
}

/// The code names of a tree.
pub open spec fn tree_codes(e: ElementView) -> Seq<Seq<char>>
    decreases e,
{
    attr_codes(e.attributes) + forest_codes(e.children)
}

/// The code names of a list of trees, in document order.
pub open spec fn forest_codes(forest: Seq<ElementView>) -> Seq<Seq<char>>
    decreases forest,
{
    if forest.len() == 0 {
        Seq::empty()
    } else {
        forest_codes(forest.drop_last()) + tree_codes(forest.last())
    }
}

/// Appends a copy of the text if the flag is set.
fn push_if(texts: &mut Vec<String>, flag: bool, text: &String)
    ensures
        texts_view(final(texts)@) == texts_view(old(texts)@) + flag_tag(flag, text@),
{
    if flag {
        texts.push(text.clone());
    }
}

impl DefParser {
    /// The candidate names and the code names of the trees, each list in
    /// rising order and without repetition.
    pub fn extract_references(&self, elements: &[DefElement]) -> (found: (Vec<String>, Vec<String>))
        ensures
            texts_view(found.0@) == sorted_unique(forest_refs(forest_view(elements@))),
            texts_view(found.1@) == sorted_unique(forest_codes(forest_view(elements@))),
            strictly_sorted(texts_view(found.0@)),
            strictly_sorted(texts_view(found.1@)),
            forall|t: Seq<char>|
                texts_view(found.0@).contains(t) <==> forest_refs(forest_view(elements@)).contains(
                    t,
                ),
            forall|t: Seq<char>|
                texts_view(found.1@).contains(t) <==> forest_codes(
                    forest_view(elements@),
                ).contains(t),
    {
        let mut references: Vec<String> = Vec::new();
        let mut code_references: Vec<String> = Vec::new();
        assert(texts_view(references@) == Seq::<Seq<char>>::empty());
        assert(texts_view(code_references@) == Seq::<Seq<char>>::empty());
        self.extract_references_recursive(elements, &mut references, &mut code_references);
        (sort_dedup(&references), sort_dedup(&code_references))
    }

    /// Appends the candidate names and the code names of the trees to the
    /// two lists, in document order.
    pub fn extract_references_recursive(
        &self,
        elements: &[DefElement],
        references: &mut Vec<String>,
        code_references: &mut Vec<String>,
    )
        ensures
            texts_view(final(references)@) == texts_view(old(references)@) + forest_refs(
                forest_view(elements@),
            ),
            texts_view(final(code_references)@) == texts_view(old(code_references)@)
                + forest_codes(forest_view(elements@)),
        decreases forest_size(forest_view(elements@)),
    {
        let ghost forest = forest_view(elements@);
        let ghost refs0 = texts_view(references@);
        let ghost codes0 = texts_view(code_references@);
        let mut i: usize = 0;
        while i < elements.len()
            invariant
                i <= elements.len(),
                forest == forest_view(elements@),
                texts_view(references@) == refs0 + forest_refs(forest.take(i as int)),
                texts_view(code_references@) == codes0 + forest_codes(forest.take(i as int)),
            decreases elements.len() - i,
        {
            let element = &elements[i];
            let ghost e = forest[i as int];
            let ghost refs1 = texts_view(references@);
            let ghost codes1 = texts_view(code_references@);
            proof {
                assert(forest.take(i as int + 1).drop_last() == forest.take(i as int));
                assert(e == element@);
                assert(e.children == forest_view(element.children@));
                lemma_member_bounds(forest, i as int);
            }
            let is_own_name = same_text(element.name.as_str(), "defName");
            let is_item = same_text(element.name.as_str(), "li");
            push_if(references, !is_own_name && !is_item, &element.name);
            match &element.content {
                Some(content) => {
                    push_if(references, !is_own_name, content);
                },
                None => {},
            }
            assert(texts_view(references@) == refs1 + flag_tag(name_is_candidate(e.name), e.name)
                + content_refs(e.name, e.content));
            let ghost refs2 = texts_view(references@);
            let ghost attrs = e.attributes;
            let mut k: usize = 0;
            while k < element.attributes.len()
                invariant
                    k <= element.attributes.len(),
                    attrs == attrs_view(element.attributes@),
                    texts_view(references@) == refs2 + attr_refs(attrs.take(k as int)),
                    texts_view(code_references@) == codes1 + attr_codes(attrs.take(k as int)),
                decreases element.attributes.len() - k,
            {
                proof {
                    assert(attrs.take(k as int + 1).drop_last() == attrs.take(k as int));
                }
                let names_code = same_text(element.attributes[k].0.as_str(), "Class");
                push_if(code_references, names_code, &element.attributes[k].1);
                push_if(references, !names_code, &element.attributes[k].1);
                k = k + 1;
            }
            proof {
                assert(attrs.take(k as int) == attrs);
            }
            let ghost refs3 = texts_view(references@);
            let ghost codes3 = texts_view(code_references@);
            self.extract_references_recursive(
                element.children.as_slice(),
                references,
                code_references,
            );
            proof {
                let front = forest.take(i as int);
                let next = forest.take(i as int + 1);
                assert(next.last() == e);
                assert(refs3 == refs1 + own_refs(e));
                assert(texts_view(references@) == refs3 + forest_refs(e.children));
                assert(texts_view(references@) == refs1 + tree_refs(e));
                assert(forest_refs(next) == forest_refs(front) + tree_refs(e));
                assert(texts_view(references@) == refs0 + forest_refs(next));
                assert(codes3 == codes1 + attr_codes(e.attributes));
                assert(texts_view(code_references@) == codes1 + tree_codes(e));
                assert(forest_codes(next) == forest_codes(front) + tree_codes(e));
                assert(texts_view(code_references@) == codes0 + forest_codes(next));
            }
            i = i + 1;
        }
        proof {
            assert(forest.take(i as int) == forest);
        }
    }
}

} // verus!
