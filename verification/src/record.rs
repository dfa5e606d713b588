//! Records: one per top-level definition of a file.

use crate::element::DefElement;
use crate::element::ElementView;
use crate::element::forest_view;
use crate::element::text_view;
use vstd::prelude::*;

verus! {

/// What is counted in a record's element tree.
#[derive(Debug, Clone, Copy, PartialEq, Eq)]
pub struct DefStats {
    /// The number of elements below the record's root.
    pub element_count: usize,
    /// The number of levels below the record's root.
    pub max_depth: usize,
    /// More than 20 elements, or more than 4 levels.
    pub has_complex_structure: bool,
}

/// A definition with what was derived from its element tree.
#[derive(Debug)]
pub struct RimWorldDef {
    pub def_name: String,
    pub def_type: String,
    pub label: Option<String>,
    pub description: Option<String>,
    pub parent_name: Option<String>,
    pub is_abstract: bool,
    pub elements: Vec<DefElement>,
    pub file_path: String,
    pub tags: Vec<String>,
    pub stats: Option<DefStats>,
    /// The names of the definitions that this one refers to.
    pub references_out: Vec<String>,
    /// The names of the definitions that refer to this one.
    pub references_in: Vec<String>,
    /// The values of `Class` attributes.
    pub code_references: Vec<String>,
    pub raw_xml: String,
    pub extension: String,
}

/// The model of a record.
pub struct DefView {
    pub def_name: Seq<char>,
    pub def_type: Seq<char>,
    pub label: Option<Seq<char>>,
    pub description: Option<Seq<char>>,
    pub parent_name: Option<Seq<char>>,
    pub is_abstract: bool,
    pub elements: Seq<ElementView>,
    pub file_path: Seq<char>,
    pub tags: Seq<Seq<char>>,
    pub stats: Option<DefStats>,
    pub references_out: Seq<Seq<char>>,
    pub references_in: Seq<Seq<char>>,
    pub code_references: Seq<Seq<char>>,
    pub raw_xml: Seq<char>,
    pub extension: Seq<char>,
}

/// The model of a list of texts.
pub open spec fn texts_view(texts: Seq<String>) -> Seq<Seq<char>> {
    Seq::new(texts.len(), |i: int| texts[i]@)
}

impl View for RimWorldDef {
    type V = DefView;

    open spec fn view(&self) -> DefView {
        DefView {
            def_name: self.def_name@,
            def_type: self.def_type@,
            label: text_view(self.label),
            description: text_view(self.description),
            parent_name: text_view(self.parent_name),
            is_abstract: self.is_abstract,
            elements: forest_view(self.elements@),
            file_path: self.file_path@,
            tags: texts_view(self.tags@),
            stats: self.stats,
            references_out: texts_view(self.references_out@),
            references_in: texts_view(self.references_in@),
            code_references: texts_view(self.code_references@),
            raw_xml: self.raw_xml@,
            extension: self.extension@,
        }
    }
}

/// The models of a list of records.
pub open spec fn defs_view(defs: Seq<RimWorldDef>) -> Seq<DefView> {
    Seq::new(defs.len(), |i: int| defs[i]@)
}

} // verus!
