//! What holds of every run: laws of the reference graph and of the
//! candidate rules.

use crate::element::ElementView;
use crate::element::attr_value;
use crate::index::def_names;
use crate::profile::child_content;
use crate::profile::flag_tag;
use crate::profile::identity_of;
use crate::record::DefView;
use crate::references::attr_refs;
use crate::references::content_is_candidate;
use crate::references::forest_refs;
use crate::references::name_is_candidate;
use crate::references::own_refs;
use crate::references::tree_refs;
use crate::resolver::direct_in;
use crate::resolver::incoming;
use crate::resolver::inherited_in;
use crate::resolver::lemma_keep_valid;
use crate::resolver::out_refs;
use crate::resolver::resolved;
use crate::sorted::lemma_sorted_unique;
use crate::sorted::sorted_unique;
use crate::sorted::strictly_sorted;
use vstd::prelude::*;

verus! {

/// A text stands in a joined list where it stands in one of the parts.
pub proof fn lemma_concat_contains(a: Seq<Seq<char>>, b: Seq<Seq<char>>, t: Seq<char>)
    ensures
        (a + b).contains(t) <==> (a.contains(t) || b.contains(t)),
{
    if (a + b).contains(t) {
        let i = choose|i: int| 0 <= i < (a + b).len() && (a + b)[i] == t;
        if i < a.len() {
            assert(a[i] == t);
        } else {
            assert(b[i - a.len()] == t);
        }
    }
    if a.contains(t) {
        let i = choose|i: int| 0 <= i < a.len() && a[i] == t;
        assert((a + b)[i] == t);
    }
    if b.contains(t) {
        let i = choose|i: int| 0 <= i < b.len() && b[i] == t;
        assert((a + b)[i + a.len()] == t);
    }
}

/// A record's name is its root's `Name` attribute wherever the root has
/// one, whatever its children hold; without the attribute it is the
/// content of the first child `defName`; without that, `Unknown`.
pub proof fn lemma_identity(root: ElementView)
    ensures
        attr_value(root.attributes, "Name"@) is Some ==> identity_of(root) == attr_value(
            root.attributes,
            "Name"@,
        )->0,
        attr_value(root.attributes, "Name"@) is None && child_content(
            root.children,
            "defName"@,
        ) is Some ==> identity_of(root) == child_content(root.children, "defName"@)->0,
        attr_value(root.attributes, "Name"@) is None && child_content(
            root.children,
            "defName"@,
        ) is None ==> identity_of(root) == "Unknown"@,
{
}

/// The outgoing references of a record are sorted without repetition, each
/// is the name of a record and a candidate of the record's tree, and none
/// is the record's own name.
pub proof fn lemma_outgoing(defs: Seq<DefView>, p: int)
    requires
        0 <= p < defs.len(),
    ensures
        strictly_sorted(out_refs(defs, p)),
        !out_refs(defs, p).contains(defs[p].def_name),
        forall|t: Seq<char>|
            #![trigger out_refs(defs, p).contains(t)]
            out_refs(defs, p).contains(t) <==> (forest_refs(defs[p].elements).contains(t)
                && def_names(defs).contains(t) && t != defs[p].def_name),
{
    let candidates = sorted_unique(forest_refs(defs[p].elements));
    lemma_sorted_unique(forest_refs(defs[p].elements));
    lemma_keep_valid(def_names(defs), defs[p].def_name, candidates);
}

/// No record refers to itself: after resolution its own name is not among
/// its outgoing references.
pub proof fn lemma_no_self_reference(defs: Seq<DefView>, p: int)
    requires
        0 <= p < defs.len(),
    ensures
        !resolved(defs)[p].references_out.contains(defs[p].def_name),
{
    lemma_outgoing(defs, p);
}

/// A record that refers to the name of the record at `p` stands among the
/// names entered there.
pub proof fn lemma_direct_in_contains(defs: Seq<DefView>, p: int, upto: int, j: int)
    requires
        0 <= j < upto,
        out_refs(defs, j).contains(defs[p].def_name),
    ensures
        direct_in(defs, p, upto).contains(defs[j].def_name),
    decreases upto,
{
    let before = direct_in(defs, p, upto - 1);
    let step = flag_tag(
        out_refs(defs, upto - 1).contains(defs[p].def_name),
        defs[upto - 1].def_name,
    );
    lemma_concat_contains(before, step, defs[j].def_name);
    if j < upto - 1 {
        lemma_direct_in_contains(defs, p, upto - 1, j);
    } else {
        assert(step[0] == defs[j].def_name);
    }
}

/// Entering parents removes no name.
pub proof fn lemma_inherited_keeps(
    defs: Seq<DefView>,
    p: int,
    base: Seq<Seq<char>>,
    upto: int,
    t: Seq<char>,
)
    requires
        base.contains(t),
    ensures
        inherited_in(defs, p, base, upto).contains(t),
    decreases upto,
{
    if upto > 0 {
        lemma_inherited_keeps(defs, p, base, upto - 1, t);
        let acc = inherited_in(defs, p, base, upto - 1);
        let i = choose|i: int| 0 <= i < acc.len() && acc[i] == t;
        assert(acc.push(defs[upto - 1].def_name)[i] == t);
    }
}

/// A record that declares the name of the record at `p` as its parent
/// stands among the incoming names there.
pub proof fn lemma_inherited_adds(
    defs: Seq<DefView>,
    p: int,
    base: Seq<Seq<char>>,
    upto: int,
    c: int,
)
    requires
        0 <= c < upto,
        defs[c].parent_name == Some(defs[p].def_name),
    ensures
        inherited_in(defs, p, base, upto).contains(defs[c].def_name),
    decreases upto,
{
    let acc = inherited_in(defs, p, base, upto - 1);
    let name = defs[upto - 1].def_name;
    if c < upto - 1 {
        lemma_inherited_adds(defs, p, base, upto - 1, c);
        let i = choose|i: int| 0 <= i < acc.len() && acc[i] == defs[c].def_name;
        assert(acc.push(name)[i] == defs[c].def_name);
    } else {
        if !acc.contains(name) {
            assert(acc.push(name)[acc.len() as int] == name);
        }
    }
}

/// The graph is consistent in both directions: where the record at `a`
/// refers to the name of the record at `b`, the record at `b` names the
/// record at `a` among its incoming references. This holds for every
/// record that bears the name referred to.
pub proof fn lemma_references_mirrored(defs: Seq<DefView>, a: int, b: int)
    requires
        0 <= a < defs.len(),
        0 <= b < defs.len(),
        resolved(defs)[a].references_out.contains(defs[b].def_name),
    ensures
        resolved(defs)[b].references_in.contains(defs[a].def_name),
{
    let n = defs.len() as int;
    let direct = direct_in(defs, b, n);
    lemma_direct_in_contains(defs, b, n, a);
    lemma_concat_contains(defs[b].references_in, direct, defs[a].def_name);
    lemma_inherited_keeps(defs, b, defs[b].references_in + direct, n, defs[a].def_name);
}

/// A record that declares a parent stands among the incoming references of
/// every record that bears the parent's name.
pub proof fn lemma_parent_names_child(defs: Seq<DefView>, child: int, parent: int)
    requires
        0 <= child < defs.len(),
        0 <= parent < defs.len(),
        defs[child].parent_name == Some(defs[parent].def_name),
    ensures
        resolved(defs)[parent].references_in.contains(defs[child].def_name),
{
    let n = defs.len() as int;
    lemma_inherited_adds(
        defs,
        parent,
        defs[parent].references_in + direct_in(defs, parent, n),
        n,
        child,
    );
}

/// How often a text stands in a list.
pub open spec fn occurrences(s: Seq<Seq<char>>, t: Seq<char>) -> nat
    decreases s.len(),
{
    if s.len() == 0 {
        0
    } else {
        occurrences(s.drop_last(), t) + if s.last() == t {
            1nat
        } else {
            0nat
        }
    }
}

/// A text that stands in a list occurs in it, and the other way round.
pub proof fn lemma_occurrences_contains(s: Seq<Seq<char>>, t: Seq<char>)
    ensures
        occurrences(s, t) > 0 <==> s.contains(t),
    decreases s.len(),
{
    if s.len() > 0 {
        lemma_occurrences_contains(s.drop_last(), t);
        if s.contains(t) {
            let i = choose|i: int| 0 <= i < s.len() && s[i] == t;
            if i < s.len() - 1 {
                assert(s.drop_last()[i] == t);
            }
        }
        if s.drop_last().contains(t) {
            let i = choose|i: int| 0 <= i < s.drop_last().len() && s.drop_last()[i] == t;
            assert(s[i] == t);
        }
        if s.last() == t {
            assert(s[s.len() - 1] == t);
        }
    }
}

/// Entering parents adds a name at most once, and only a name that was not
/// there.
pub proof fn lemma_inherited_count(
    defs: Seq<DefView>,
    p: int,
    base: Seq<Seq<char>>,
    upto: int,
    t: Seq<char>,
)
    ensures
        occurrences(base, t) > 0 ==> occurrences(inherited_in(defs, p, base, upto), t)
            == occurrences(base, t),
        occurrences(base, t) == 0 ==> occurrences(inherited_in(defs, p, base, upto), t) <= 1,
    decreases upto,
{
    if upto > 0 {
        lemma_inherited_count(defs, p, base, upto - 1, t);
        let acc = inherited_in(defs, p, base, upto - 1);
        let name = defs[upto - 1].def_name;
        lemma_occurrences_contains(acc, t);
        assert(acc.push(name).drop_last() == acc);
    }
}

/// A child stands exactly once among the incoming references of its
/// parent, in whatever order the records come, provided that its name did
/// not stand there before and no record of its name refers to the parent.
pub proof fn lemma_child_named_once(defs: Seq<DefView>, child: int, parent: int)
    requires
        0 <= child < defs.len(),
        0 <= parent < defs.len(),
        defs[child].parent_name == Some(defs[parent].def_name),
        !defs[parent].references_in.contains(defs[child].def_name),
        !direct_in(defs, parent, defs.len() as int).contains(defs[child].def_name),
    ensures
        occurrences(resolved(defs)[parent].references_in, defs[child].def_name) == 1,
{
    let n = defs.len() as int;
    let name = defs[child].def_name;
    let base = defs[parent].references_in + direct_in(defs, parent, n);
    lemma_concat_contains(defs[parent].references_in, direct_in(defs, parent, n), name);
    lemma_occurrences_contains(base, name);
    lemma_inherited_count(defs, parent, base, n, name);
    lemma_parent_names_child(defs, child, parent);
    lemma_occurrences_contains(resolved(defs)[parent].references_in, name);
}

/// Whether a tree offers `t` as a candidate: by the name of an element
/// that counts, by a content that counts, or by an attribute that does not
/// name code, at any depth.
pub open spec fn tree_offers(e: ElementView, t: Seq<char>) -> bool
    decreases e,
{
    own_refs(e).contains(t) || forest_offers(e.children, t)
}

/// Whether one of the trees offers `t` as a candidate.
pub open spec fn forest_offers(forest: Seq<ElementView>, t: Seq<char>) -> bool
    decreases forest,
{
    forest.len() > 0 && (forest_offers(forest.drop_last(), t) || tree_offers(forest.last(), t))
}

/// The candidates of a list of trees are what its elements offer.
pub proof fn lemma_forest_refs(forest: Seq<ElementView>, t: Seq<char>)
    ensures
        forest_refs(forest).contains(t) <==> forest_offers(forest, t),
    decreases forest,
{
    if forest.len() > 0 {
        lemma_forest_refs(forest.drop_last(), t);
        lemma_tree_refs(forest.last(), t);
        lemma_concat_contains(forest_refs(forest.drop_last()), tree_refs(forest.last()), t);
    }
}

/// The candidates of a tree are what its elements offer.
pub proof fn lemma_tree_refs(e: ElementView, t: Seq<char>)
    ensures
        tree_refs(e).contains(t) <==> tree_offers(e, t),
    decreases e,
{
    lemma_forest_refs(e.children, t);
    lemma_concat_contains(own_refs(e), forest_refs(e.children), t);
}

/// An element's own name is no candidate where it is `li` or `defName`:
/// such an element gives only its content, except under `defName`, and its
/// attribute values.
pub proof fn lemma_excluded_names(e: ElementView, t: Seq<char>)
    requires
        e.name == "li"@ || e.name == "defName"@,
        own_refs(e).contains(t),
    ensures
        (e.content == Some(t) && content_is_candidate(e.name)) || attr_refs(e.attributes).contains(
            t,
        ),
{
    let by_name = flag_tag(name_is_candidate(e.name), e.name);
    let by_content = crate::references::content_refs(e.name, e.content);
    assert(by_name.len() == 0);
    lemma_concat_contains(by_name + by_content, attr_refs(e.attributes), t);
    lemma_concat_contains(by_name, by_content, t);
    if by_content.contains(t) {
        let i = choose|i: int| 0 <= i < by_content.len() && by_content[i] == t;
        assert(by_content[i] == t);
    }
}

} // verus!
