//! The element tree and its mathematical model.

use crate::text::same_text;
use vstd::prelude::*;
use vstd::string::*;

verus! {

/// An attribute as a pair of key and value, seen as character sequences.
pub type AttrView = (Seq<char>, Seq<char>);

/// The model of an element: what its fields hold, as mathematical values.
pub struct ElementView {
    pub name: Seq<char>,
    pub attributes: Seq<AttrView>,
    pub content: Option<Seq<char>>,
    pub children: Seq<ElementView>,
    pub depth: nat,
}

/// A node of the parsed tree.
///
/// `attributes` holds the pairs in the order in which their keys first
/// appeared; a well-formed element has no key twice.
#[derive(Debug)]
pub struct DefElement {
    pub name: String,
    pub attributes: Vec<(String, String)>,
    pub content: Option<String>,
    pub children: Vec<DefElement>,
    pub depth: usize,
}

/// The model of a list of attributes.
pub open spec fn attrs_view(attrs: Seq<(String, String)>) -> Seq<AttrView> {
    Seq::new(attrs.len(), |i: int| (attrs[i].0@, attrs[i].1@))
}

/// The model of an optional text.
pub open spec fn text_view(text: Option<String>) -> Option<Seq<char>> {
    match text {
        Some(t) => Some(t@),
        None => None,
    }
}

/// The model of one element.
pub open spec fn element_view(e: DefElement) -> ElementView
    decreases e,
{
    ElementView {
        name: e.name@,
        attributes: attrs_view(e.attributes@),
        content: text_view(e.content),
        children: Seq::new(
            e.children.len() as nat,
            |i: int|
                if 0 <= i < e.children.len() {
                    element_view(e.children[i])
                } else {
                    arbitrary()
                },
        ),
        depth: e.depth as nat,
    }
}

/// The model of a list of elements.
pub open spec fn forest_view(elements: Seq<DefElement>) -> Seq<ElementView> {
    Seq::new(elements.len(), |i: int| element_view(elements[i]))
}

impl View for DefElement {
    type V = ElementView;

    open spec fn view(&self) -> ElementView {
        element_view(*self)
    }
}

/// What an element is by its shape.
#[derive(Debug, Clone, Copy, PartialEq, Eq)]
pub enum ElementKind {
    /// Neither content nor children.
    Empty,
    /// Content, and no children.
    Value,
    /// Children, with or without content.
    Branch,
}

/// The shape of an element.
pub open spec fn kind_of(e: ElementView) -> ElementKind {
    if e.children.len() > 0 {
        ElementKind::Branch
    } else if e.content is Some {
        ElementKind::Value
    } else {
        ElementKind::Empty
    }
}

impl DefElement {
    /// Tells a leaf without content, a leaf with content, and an element
    /// with children apart.
    pub fn kind(&self) -> (kind: ElementKind)
        ensures
            kind == kind_of(self@),
    {
        if self.children.len() > 0 {
            ElementKind::Branch
        } else if self.content.is_some() {
            ElementKind::Value
        } else {
            ElementKind::Empty
        }
    }
}

/// The place of the first pair with the given key, or the length of the
/// list where no pair has it.
pub open spec fn key_index(attrs: Seq<AttrView>, key: Seq<char>) -> int
    decreases attrs.len(),
{
    if attrs.len() == 0 {
        0
    } else if attrs[0].0 == key {
        0
    } else {
        1 + key_index(attrs.drop_first(), key)
    }
}

/// The value stored under a key, if any.
pub open spec fn attr_value(attrs: Seq<AttrView>, key: Seq<char>) -> Option<Seq<char>> {
    let i = key_index(attrs, key);
    if i < attrs.len() {
        Some(attrs[i].1)
    } else {
        None
    }
}

/// The list after a pair is stored: a pair with the same key is replaced
/// where it stands, a new key goes to the end.
pub open spec fn attrs_insert(attrs: Seq<AttrView>, key: Seq<char>, value: Seq<char>) -> Seq<
    AttrView,
> {
    let i = key_index(attrs, key);
    if i < attrs.len() {
        attrs.update(i, (key, value))
    } else {
        attrs.push((key, value))
    }
}

/// The list that results from storing the pairs one after the other.
pub open spec fn attrs_collect(pairs: Seq<AttrView>) -> Seq<AttrView>
    decreases pairs.len(),
{
    if pairs.len() == 0 {
        Seq::empty()
    } else {
        attrs_insert(attrs_collect(pairs.drop_last()), pairs.last().0, pairs.last().1)
    }
}

/// No key occurs twice.
pub open spec fn keys_unique(attrs: Seq<AttrView>) -> bool {
    forall|i: int, j: int| 0 <= i < j < attrs.len() ==> attrs[i].0 != attrs[j].0
}

/// `key_index` is the first place that holds the key.
pub proof fn lemma_key_index(attrs: Seq<AttrView>, key: Seq<char>)
    ensures
        0 <= key_index(attrs, key) <= attrs.len(),
        key_index(attrs, key) < attrs.len() ==> attrs[key_index(attrs, key)].0 == key,
        forall|j: int| 0 <= j < key_index(attrs, key) ==> attrs[j].0 != key,
    decreases attrs.len(),
{
    if attrs.len() > 0 && attrs[0].0 != key {
        let rest = attrs.drop_first();
        lemma_key_index(rest, key);
        assert forall|j: int| 0 <= j < key_index(attrs, key) implies attrs[j].0 != key by {
            if j > 0 {
                assert(attrs[j] == rest[j - 1]);
            }
        }
    }
}

/// A place before which the key does not occur, and which holds it or is
/// the end of the list, is the key's index.
pub proof fn lemma_key_index_is(attrs: Seq<AttrView>, key: Seq<char>, k: int)
    requires
        0 <= k <= attrs.len(),
        forall|j: int| 0 <= j < k ==> attrs[j].0 != key,
        k < attrs.len() ==> attrs[k].0 == key,
    ensures
        key_index(attrs, key) == k,
{
    lemma_key_index(attrs, key);
}

/// Storing a pair keeps the keys unique.
pub proof fn lemma_insert_keeps_unique(attrs: Seq<AttrView>, key: Seq<char>, value: Seq<char>)
    requires
        keys_unique(attrs),
    ensures
        keys_unique(attrs_insert(attrs, key, value)),
{
    lemma_key_index(attrs, key);
}

/// A collected list has no key twice.
pub proof fn lemma_collect_unique(pairs: Seq<AttrView>)
    ensures
        keys_unique(attrs_collect(pairs)),
    decreases pairs.len(),
{
    if pairs.len() > 0 {
        lemma_collect_unique(pairs.drop_last());
        lemma_insert_keeps_unique(
            attrs_collect(pairs.drop_last()),
            pairs.last().0,
            pairs.last().1,
        );
    }
}

/// Finds the first pair with the given key.
pub fn find_key(attrs: &Vec<(String, String)>, key: &str) -> (i: usize)
    ensures
        i == key_index(attrs_view(attrs@), key@),
{
    let mut i: usize = 0;
    while i < attrs.len()
        invariant
            i <= attrs.len(),
            forall|j: int| 0 <= j < i ==> attrs_view(attrs@)[j].0 != key@,
        decreases attrs.len() - i,
    {
        if same_text(attrs[i].0.as_str(), key) {
            proof {
                lemma_key_index_is(attrs_view(attrs@), key@, i as int);
            }
            return i;
        }
        i = i + 1;
    }
    proof {
        lemma_key_index_is(attrs_view(attrs@), key@, i as int);
    }
    i
}

/// Looks a key up.
pub fn get_attribute<'a>(attrs: &'a Vec<(String, String)>, key: &str) -> (r: Option<&'a String>)
    ensures
        match r {
            Some(value) => attr_value(attrs_view(attrs@), key@) == Some(value@),
            None => attr_value(attrs_view(attrs@), key@) is None,
        },
{
    let i = find_key(attrs, key);
    if i < attrs.len() {
        Some(&attrs[i].1)
    } else {
        None
    }
}

/// Stores a pair, replacing the value of a key that is already there.
pub fn set_attribute(attrs: &mut Vec<(String, String)>, key: String, value: String)
    ensures
        attrs_view(final(attrs)@) == attrs_insert(attrs_view(old(attrs)@), key@, value@),
{
    let i = find_key(attrs, key.as_str());
    if i < attrs.len() {
        attrs.set(i, (key, value));
    } else {
        attrs.push((key, value));
    }
}

/// A tree is well formed at a depth: its root stands at that depth, each
/// child one deeper, and no element has an attribute key twice.
pub open spec fn tree_wf(e: ElementView, depth: nat) -> bool
    decreases e,
{
    &&& e.depth == depth
    &&& keys_unique(e.attributes)
    &&& forall|i: int| 0 <= i < e.children.len() ==> tree_wf(#[trigger] e.children[i], depth + 1)
}

/// The number of elements of a tree, its root included.
pub open spec fn tree_size(e: ElementView) -> nat
    decreases e,
{
    1 + forest_size(e.children)
}

/// The number of elements of a list of trees.
pub open spec fn forest_size(forest: Seq<ElementView>) -> nat
    decreases forest,
{
    if forest.len() == 0 {
        0
    } else {
        forest_size(forest.drop_last()) + tree_size(forest.last())
    }
}

/// The number of elements on the longest path from a root down to a leaf.
pub open spec fn tree_height(e: ElementView) -> nat
    decreases e,
{
    1 + forest_height(e.children)
}

/// The height of the highest tree of a list; 0 for the empty list.
pub open spec fn forest_height(forest: Seq<ElementView>) -> nat
    decreases forest,
{
    if forest.len() == 0 {
        0
    } else {
        let rest = forest_height(forest.drop_last());
        let last = tree_height(forest.last());
        if rest >= last {
            rest
        } else {
            last
        }
    }
}

/// A tree is no higher than it has elements.
pub proof fn lemma_height_le_size(e: ElementView)
    ensures
        tree_height(e) <= tree_size(e),
    decreases e,
{
    lemma_forest_height_le_size(e.children);
}

/// A list of trees is no higher than it has elements.
pub proof fn lemma_forest_height_le_size(forest: Seq<ElementView>)
    ensures
        forest_height(forest) <= forest_size(forest),
    decreases forest,
{
    if forest.len() > 0 {
        lemma_forest_height_le_size(forest.drop_last());
        lemma_height_le_size(forest.last());
    }
}

/// Each tree of a list is no higher and no larger than the list.
pub proof fn lemma_member_bounds(forest: Seq<ElementView>, i: int)
    requires
        0 <= i < forest.len(),
    ensures
        tree_height(forest[i]) <= forest_height(forest),
        tree_size(forest[i]) <= forest_size(forest),
    decreases forest.len(),
{
    if i < forest.len() - 1 {
        lemma_member_bounds(forest.drop_last(), i);
    }
}

} // verus!
