//! Writing an element tree back as indented markup.

use crate::element::AttrView;
use crate::element::DefElement;
use crate::element::ElementView;
use crate::element::attrs_view;
use crate::element::lemma_member_bounds;
use crate::element::tree_height;
use vstd::prelude::*;
use vstd::string::*;

verus! {

/// Two spaces for each level.
pub open spec fn indent_text(level: nat) -> Seq<char>
    decreases level,
{
    if level == 0 {
        Seq::empty()
    } else {
        indent_text((level - 1) as nat) + "  "@
    }
}

/// The attributes as they stand in an opening tag: each with a space before
/// it, its value in double quotes.
pub open spec fn attrs_text(attrs: Seq<AttrView>) -> Seq<char>
    decreases attrs.len(),
{
    if attrs.len() == 0 {
        Seq::empty()
    } else {
        attrs_text(attrs.drop_last()) + " "@ + attrs.last().0 + "=\""@ + attrs.last().1 + "\""@
    }
}

/// The markup of one element at the given level.
///
/// An element without content and children is a self-closing tag. Content
/// without children stays on the line of the tags; with children it gets a
/// line of its own, one level deeper. Children follow one level deeper, and
/// the closing tag is indented only after children.
pub open spec fn element_text(e: ElementView, level: nat) -> Seq<char>
    decreases e,
{
    let open = indent_text(level) + "<"@ + e.name + attrs_text(e.attributes);
    if e.content is None && e.children.len() == 0 {
        open + " />\n"@
    } else {
        let lead = match e.content {
            Some(content) => if e.children.len() == 0 {
                content
            } else {
                "\n"@ + indent_text(level + 1) + content + "\n"@
            },
            None => "\n"@,
        };
        let close = if e.children.len() == 0 {
            "</"@ + e.name + ">"@
        } else {
            indent_text(level) + "</"@ + e.name + ">"@
        };
        open + ">"@ + lead + forest_text(e.children, level + 1) + close + "\n"@
    }
}

/// The markup of a list of elements, one after the other.
pub open spec fn forest_text(forest: Seq<ElementView>, level: nat) -> Seq<char>
    decreases forest,
{
    if forest.len() == 0 {
        Seq::empty()
    } else {
        forest_text(forest.drop_last(), level) + element_text(forest.last(), level)
    }
}

/// The indentation of a level.
pub fn indent_string(level: usize) -> (r: String)
    ensures
        r@ == indent_text(level as nat),
{
    let mut r = String::new();
    let mut i: usize = 0;
    while i < level
        invariant
            i <= level,
            r@ == indent_text(i as nat),
        decreases level - i,
    {
        r.append("  ");
        i = i + 1;
    }
    r
}

impl DefElement {
    /// Writes the element and all below it as indented markup.
    pub fn to_xml(&self, indent: usize) -> (xml: String)
        requires
            indent + tree_height(self@) <= usize::MAX,
        ensures
            xml@ == element_text(self@, indent as nat),
        decreases self,
    {
        let indent_str = indent_string(indent);
        let mut xml = String::new();
        xml.append(indent_str.as_str());
        xml.append("<");
        xml.append(self.name.as_str());
        let ghost attrs = attrs_view(self.attributes@);
        let mut i: usize = 0;
        while i < self.attributes.len()
            invariant
                i <= self.attributes.len(),
                attrs == attrs_view(self.attributes@),
                xml@ == indent_text(indent as nat) + "<"@ + self.name@ + attrs_text(
                    attrs.take(i as int),
                ),
            decreases self.attributes.len() - i,
        {
            proof {
                assert(attrs.take(i as int + 1).drop_last() == attrs.take(i as int));
            }
            xml.append(" ");
            xml.append(self.attributes[i].0.as_str());
            xml.append("=\"");
            xml.append(self.attributes[i].1.as_str());
            xml.append("\"");
            i = i + 1;
        }
        proof {
            assert(attrs.take(i as int) == attrs);
        }
        if self.content.is_none() && self.children.len() == 0 {
            xml.append(" />\n");
            return xml;
        }
        xml.append(">");
        match &self.content {
            Some(content) => {
                if self.children.len() == 0 {
                    xml.append(content.as_str());
                } else {
                    let deeper = indent_string(indent + 1);
                    xml.append("\n");
                    xml.append(deeper.as_str());
                    xml.append(content.as_str());
                    xml.append("\n");
                }
            },
            None => {
                xml.append("\n");
            },
        }
        let ghost head = xml@;
        let ghost kids = self@.children;
        let mut k: usize = 0;
        while k < self.children.len()
            invariant
                k <= self.children.len(),
                kids == self@.children,
                indent + tree_height(self@) <= usize::MAX,
                xml@ == head + forest_text(kids.take(k as int), indent as nat + 1),
            decreases self.children.len() - k,
        {
            proof {
                assert(kids.take(k as int + 1).drop_last() == kids.take(k as int));
                assert(kids[k as int] == self.children[k as int]@);
                lemma_member_bounds(kids, k as int);
            }
            let child = self.children[k].to_xml(indent + 1);
            xml.append(child.as_str());
            k = k + 1;
        }
        proof {
            assert(kids.take(k as int) == kids);
        }
        if self.children.len() > 0 {
            xml.append(indent_str.as_str());
        }
        xml.append("</");
        xml.append(self.name.as_str());
        xml.append(">");
        xml.append("\n");
        xml
    }
}

} // verus!
