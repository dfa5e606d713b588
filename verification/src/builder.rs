//! Assembling markup events into element trees, and the trees into records.
//!
//! The builder keeps the elements that are open, innermost last. Only what
//! stands inside the container `Defs` is kept; each tree that closes while
//! no other element is open becomes a record.

use crate::element::AttrView;
use crate::element::DefElement;
use crate::element::ElementView;
use crate::element::attrs_collect;
use crate::element::attrs_view;
use crate::element::forest_size;
use crate::element::forest_view;
use crate::element::lemma_collect_unique;
use crate::element::set_attribute;
use crate::element::tree_wf;
use crate::element::tree_size;
use crate::parser::DefParser;
use crate::profile::record_of;
use crate::reader::EventView;
use crate::reader::XmlEvent;
use crate::reader::events_view;
use crate::record::DefView;
use crate::record::RimWorldDef;
use crate::record::defs_view;
use crate::text::same_text;
use crate::text::trim;
use crate::text::trimmed;
use vstd::prelude::*;
use vstd::string::*;

verus! {

/// What the builder knows between two events.
pub struct BuildState {
    /// The open elements, the innermost last.
    pub stack: Seq<ElementView>,
    /// Whether the scan is inside the container.
    pub in_defs: bool,
    /// The completed top-level trees, in document order.
    pub roots: Seq<ElementView>,
}

/// The state before the first event.
pub open spec fn build_start() -> BuildState {
    BuildState { stack: Seq::empty(), in_defs: false, roots: Seq::empty() }
}

/// An element as an opening tag makes it: without content and children, at
/// the depth of the stack.
pub open spec fn fresh_element(name: Seq<char>, attributes: Seq<AttrView>, depth: nat) -> ElementView {
    ElementView {
        name: name,
        attributes: attrs_collect(attributes),
        content: None,
        children: Seq::empty(),
        depth: depth,
    }
}

/// The element with one more child at the end.
pub open spec fn with_child(parent: ElementView, child: ElementView) -> ElementView {
    ElementView {
        name: parent.name,
        attributes: parent.attributes,
        content: parent.content,
        children: parent.children.push(child),
        depth: parent.depth,
    }
}

/// The element with its content set.
pub open spec fn with_content(e: ElementView, content: Seq<char>) -> ElementView {
    ElementView {
        name: e.name,
        attributes: e.attributes,
        content: Some(content),
        children: e.children,
        depth: e.depth,
    }
}

/// An opening tag: the container's sets the flag; any other, inside the
/// container, opens an element.
pub open spec fn open_element(s: BuildState, name: Seq<char>, attributes: Seq<AttrView>) -> BuildState {
    if name == "Defs"@ {
        BuildState { stack: s.stack, in_defs: true, roots: s.roots }
    } else if s.in_defs {
        BuildState {
            stack: s.stack.push(fresh_element(name, attributes, s.stack.len())),
            in_defs: s.in_defs,
            roots: s.roots,
        }
    } else {
        s
    }
}

/// A closing tag: the container's clears the flag; any other, inside the
/// container, closes the innermost open element, which becomes the last
/// child of the element around it, or a completed tree where none is.
pub open spec fn close_element(s: BuildState, name: Seq<char>) -> BuildState {
    if name == "Defs"@ {
        BuildState { stack: s.stack, in_defs: false, roots: s.roots }
    } else if s.in_defs && s.stack.len() > 0 {
        let done = s.stack.last();
        let rest = s.stack.drop_last();
        if rest.len() == 0 {
            BuildState { stack: rest, in_defs: s.in_defs, roots: s.roots.push(done) }
        } else {
            BuildState {
                stack: rest.drop_last().push(with_child(rest.last(), done)),
                in_defs: s.in_defs,
                roots: s.roots,
            }
        }
    } else {
        s
    }
}

/// A run of text: trimmed, and unless nothing is left, it becomes the
/// content of the innermost open element, in place of earlier text.
pub open spec fn put_text(s: BuildState, text: Seq<char>) -> BuildState {
    if trimmed(text).len() > 0 && s.stack.len() > 0 {
        BuildState {
            stack: s.stack.drop_last().push(with_content(s.stack.last(), trimmed(text))),
            in_defs: s.in_defs,
            roots: s.roots,
        }
    } else {
        s
    }
}

/// The state after one more event.
pub open spec fn build_step(s: BuildState, event: EventView) -> BuildState {
    match event {
        EventView::Start { name, attributes } => open_element(s, name, attributes),
        EventView::End { name } => close_element(s, name),
        EventView::Text { text } => put_text(s, text),
        EventView::Other => s,
        EventView::Malformed => s,
    }
}

/// The state after the events, taken in order.
pub open spec fn build_run(events: Seq<EventView>) -> BuildState
    decreases events.len(),
{
    if events.len() == 0 {
        build_start()
    } else {
        build_step(build_run(events.drop_last()), events.last())
    }
}

/// The records of a list of completed trees.
pub open spec fn records_for(roots: Seq<ElementView>, file_path: Seq<char>, extension: Seq<char>) -> Seq<
    DefView,
> {
    Seq::new(roots.len(), |i: int| record_of(roots[i], file_path, extension))
}

/// The records of the trees that the events complete. Elements that are
/// still open at the end give none.
pub open spec fn records_of(events: Seq<EventView>, file_path: Seq<char>, extension: Seq<char>) -> Seq<
    DefView,
> {
    records_for(build_run(events).roots, file_path, extension)
}

/// Every open element stands at the depth of its place on the stack, every
/// completed tree at depth 0, and all are well formed.
pub open spec fn state_wf(s: BuildState) -> bool {
    &&& forall|k: int| 0 <= k < s.stack.len() ==> tree_wf(#[trigger] s.stack[k], k as nat)
    &&& forall|r: int| 0 <= r < s.roots.len() ==> tree_wf(#[trigger] s.roots[r], 0)
}

/// An event keeps the builder's state well formed.
pub proof fn lemma_step_wf(s: BuildState, event: EventView)
    requires
        state_wf(s),
    ensures
        state_wf(build_step(s, event)),
{
    let t = build_step(s, event);
    match event {
        EventView::Start { name, attributes } => {
            if name != "Defs"@ && s.in_defs {
                lemma_collect_unique(attributes);
                let fresh = fresh_element(name, attributes, s.stack.len());
                assert forall|k: int| 0 <= k < t.stack.len() implies tree_wf(
                    #[trigger] t.stack[k],
                    k as nat,
                ) by {
                    if k < s.stack.len() {
                        assert(t.stack[k] == s.stack[k]);
                    } else {
                        assert(t.stack[k] == fresh);
                    }
                }
            }
        },
        EventView::End { name } => {
            if name != "Defs"@ && s.in_defs && s.stack.len() > 0 {
                let done = s.stack.last();
                let rest = s.stack.drop_last();
                if rest.len() == 0 {
                    assert forall|r: int| 0 <= r < t.roots.len() implies tree_wf(
                        #[trigger] t.roots[r],
                        0,
                    ) by {
                        if r < s.roots.len() {
                            assert(t.roots[r] == s.roots[r]);
                        } else {
                            assert(t.roots[r] == s.stack[0]);
                        }
                    }
                } else {
                    let above = rest.last();
                    let grown = with_child(above, done);
                    let at = s.stack.len() - 2;
                    assert(above == s.stack[at]);
                    assert(done == s.stack[at + 1]);
                    assert(tree_wf(grown, at as nat)) by {
                        assert forall|i: int| 0 <= i < grown.children.len() implies tree_wf(
                            #[trigger] grown.children[i],
                            at as nat + 1,
                        ) by {
                            if i < above.children.len() {
                                assert(grown.children[i] == above.children[i]);
                            } else {
                                assert(grown.children[i] == done);
                            }
                        }
                    }
                    assert forall|k: int| 0 <= k < t.stack.len() implies tree_wf(
                        #[trigger] t.stack[k],
                        k as nat,
                    ) by {
                        if k < at {
                            assert(t.stack[k] == s.stack[k]);
                        } else {
                            assert(t.stack[k] == grown);
                        }
                    }
                }
            }
        },
        EventView::Text { text } => {
            if trimmed(text).len() > 0 && s.stack.len() > 0 {
                let top = s.stack.last();
                let filled = with_content(top, trimmed(text));
                let at = s.stack.len() - 1;
                assert(top == s.stack[at]);
                assert(tree_wf(filled, at as nat)) by {
                    assert forall|i: int| 0 <= i < filled.children.len() implies tree_wf(
                        #[trigger] filled.children[i],
                        at as nat + 1,
                    ) by {
                        assert(filled.children[i] == top.children[i]);
                    }
                }
                assert forall|k: int| 0 <= k < t.stack.len() implies tree_wf(
                    #[trigger] t.stack[k],
                    k as nat,
                ) by {
                    if k < at {
                        assert(t.stack[k] == s.stack[k]);
                    } else {
                        assert(t.stack[k] == filled);
                    }
                }
            }
        },
        EventView::Other => {},
        EventView::Malformed => {},
    }
}

/// Whatever the events, the builder's state is well formed.
pub proof fn lemma_run_wf(events: Seq<EventView>)
    ensures
        state_wf(build_run(events)),
    decreases events.len(),
{
    if events.len() > 0 {
        lemma_run_wf(events.drop_last());
        lemma_step_wf(build_run(events.drop_last()), events.last());
    }
}

/// The elements of every record stand at depth 1, their children one
/// deeper with each level, and no element has an attribute key twice.
pub proof fn lemma_records_wf(
    events: Seq<EventView>,
    file_path: Seq<char>,
    extension: Seq<char>,
    r: int,
    i: int,
)
    requires
        0 <= r < records_of(events, file_path, extension).len(),
        0 <= i < records_of(events, file_path, extension)[r].elements.len(),
    ensures
        tree_wf(records_of(events, file_path, extension)[r].elements[i], 1),
{
    lemma_run_wf(events);
    let root = build_run(events).roots[r];
    assert(tree_wf(root, 0));
    assert(records_of(events, file_path, extension)[r].elements == root.children);
}

/// A list of trees with one more tree at its end has the elements of both.
pub proof fn lemma_size_push(forest: Seq<ElementView>, e: ElementView)
    ensures
        forest_size(forest.push(e)) == forest_size(forest) + tree_size(e),
{
    assert(forest.push(e).drop_last() == forest);
}

/// Collects the pairs of an opening tag into an attribute list.
fn collect_attributes(pairs: &Vec<(String, String)>) -> (attrs: Vec<(String, String)>)
    ensures
        attrs_view(attrs@) == attrs_collect(attrs_view(pairs@)),
{
    let ghost all = attrs_view(pairs@);
    let mut attrs: Vec<(String, String)> = Vec::new();
    let mut k: usize = 0;
    assert(attrs_view(attrs@) == attrs_collect(all.take(0)));
    while k < pairs.len()
        invariant
            k <= pairs.len(),
            all == attrs_view(pairs@),
            attrs_view(attrs@) == attrs_collect(all.take(k as int)),
        decreases pairs.len() - k,
    {
        proof {
            assert(all.take(k as int + 1).drop_last() == all.take(k as int));
        }
        set_attribute(&mut attrs, pairs[k].0.clone(), pairs[k].1.clone());
        k = k + 1;
    }
    proof {
        assert(all.take(k as int) == all);
    }
    attrs
}

impl DefParser {
    /// Builds the records of one file from its events.
    pub fn build_records(&self, events: &Vec<XmlEvent>, file_path: &str, extension: &str) -> (records:
        Vec<RimWorldDef>)
        ensures
            defs_view(records@) == records_of(events_view(events@), file_path@, extension@),
    {
        let ghost all = events_view(events@);
        let mut stack: Vec<DefElement> = Vec::new();
        let mut in_defs = false;
        let mut records: Vec<RimWorldDef> = Vec::new();
        let ghost mut roots: Seq<ElementView> = Seq::empty();
        let mut i: usize = 0;
        proof {
            assert(all.take(0) == Seq::<EventView>::empty());
            assert(forest_view(stack@) == Seq::<ElementView>::empty());
        }
        while i < events.len()
            invariant
                i <= events.len(),
                all == events_view(events@),
                build_run(all.take(i as int)) == (BuildState {
                    stack: forest_view(stack@),
                    in_defs: in_defs,
                    roots: roots,
                }),
                defs_view(records@) == records_for(roots, file_path@, extension@),
                forest_size(forest_view(stack@)) <= i,
            decreases events.len() - i,
        {
            let ghost before = build_run(all.take(i as int));
            let ghost open = forest_view(stack@);
            proof {
                assert(all.take(i as int + 1).drop_last() == all.take(i as int));
                assert(all.take(i as int + 1).last() == events[i as int]@);
            }
            match &events[i] {
                XmlEvent::Start { name, attributes } => {
                    if same_text(name.as_str(), "Defs") {
                        in_defs = true;
                    } else if in_defs {
                        let element = DefElement {
                            name: name.clone(),
                            attributes: collect_attributes(attributes),
                            content: None,
                            children: Vec::new(),
                            depth: stack.len(),
                        };
                        proof {
                            let fresh = fresh_element(
                                name@,
                                attrs_view(attributes@),
                                open.len(),
                            );
                            assert(element@.children == Seq::<ElementView>::empty());
                            assert(element@ == fresh);
                            lemma_size_push(open, fresh);
                            assert(forest_size(fresh.children) == 0);
                        }
                        stack.push(element);
                        assert(forest_view(stack@) == open.push(element@));
                    }
                },
                XmlEvent::End { name } => {
                    if same_text(name.as_str(), "Defs") {
                        in_defs = false;
                    } else if in_defs && stack.len() > 0 {
                        let element = stack.pop().unwrap();
                        let ghost done = element@;
                        let ghost rest = forest_view(stack@);
                        proof {
                            assert(rest == open.drop_last());
                            assert(done == open.last());
                            assert(open == rest.push(done));
                            lemma_size_push(rest, done);
                        }
                        if stack.len() == 0 {
                            let record = self.make_record(element, file_path, extension);
                            let ghost made = defs_view(records@);
                            let ghost made_from = roots;
                            records.push(record);
                            proof {
                                roots = roots.push(done);
                                assert(defs_view(records@) == made.push(
                                    record_of(done, file_path@, extension@),
                                ));
                                assert(records_for(roots, file_path@, extension@) == records_for(
                                    made_from,
                                    file_path@,
                                    extension@,
                                ).push(record_of(done, file_path@, extension@)));
                            }
                        } else {
                            let mut parent = stack.pop().unwrap();
                            let ghost above = parent@;
                            let ghost below = forest_view(stack@);
                            proof {
                                assert(below == rest.drop_last());
                                assert(above == rest.last());
                                assert(rest == below.push(above));
                                lemma_size_push(below, above);
                            }
                            parent.children.push(element);
                            proof {
                                assert(parent@.children == above.children.push(done));
                                assert(parent@ == with_child(above, done));
                                lemma_size_push(above.children, done);
                                lemma_size_push(below, parent@);
                            }
                            stack.push(parent);
                            assert(forest_view(stack@) == below.push(with_child(above, done)));
                        }
                    }
                },
                XmlEvent::Text { text } => {
                    let text = trim(text.as_str());
                    if !text.as_str().is_empty() && stack.len() > 0 {
                        let mut top = stack.pop().unwrap();
                        let ghost was = top@;
                        let ghost below = forest_view(stack@);
                        proof {
                            assert(below == open.drop_last());
                            assert(was == open.last());
                            assert(open == below.push(was));
                            lemma_size_push(below, was);
                        }
                        top.content = Some(text);
                        proof {
                            assert(top@.children == was.children);
                            assert(top@ == with_content(was, text@));
                            lemma_size_push(below, top@);
                        }
                        stack.push(top);
                        assert(forest_view(stack@) == below.push(with_content(was, text@)));
                    }
                },
                XmlEvent::Other => {},
            }
            i = i + 1;
        }
        proof {
            assert(all.take(i as int) == all);
        }
        records
    }
}

} // verus!
