//! The parser: the records of a run and the index of their names.

use crate::builder::records_of;
use crate::index::NameIndex;
use crate::reader::ParseError;
use crate::reader::error_prefix;
use crate::reader::is_malformed;
use crate::reader::read_events;
use crate::reader::xml_events;
use crate::record::RimWorldDef;
use crate::record::defs_view;
use crate::text::contains;
use crate::text::is_substring;
use crate::text::lowercased;
use crate::text::to_lowercase;
use vstd::prelude::*;
use vstd::string::*;

verus! {

/// Collects the records of all files of a run.
pub struct DefParser {
    /// The directory that source paths are made relative to.
    pub rimworld_data_path: String,
    /// The records, in the order in which they were parsed.
    pub parsed_defs: Vec<RimWorldDef>,
    /// From each name to the places of its records; filled when the
    /// references are resolved.
    pub def_name_map: NameIndex,
}

/// The add-on that a lowercase path tells of: the first of `anomaly`,
/// `biotech`, `ideology`, `royalty`, `odyssey` and `core` that occurs in it
/// decides; `Unknown` where none does.
pub open spec fn extension_of(lower: Seq<char>) -> Seq<char> {
    if is_substring("anomaly"@, lower) {
        "Anomaly"@
    } else if is_substring("biotech"@, lower) {
        "Biotech"@
    } else if is_substring("ideology"@, lower) {
        "Ideology"@
    } else if is_substring("royalty"@, lower) {
        "Royalty"@
    } else if is_substring("odyssey"@, lower) {
        "Odyssey"@
    } else if is_substring("core"@, lower) {
        "Core"@
    } else {
        "Unknown"@
    }
}

/// The add-on that a path in lowercase tells of.
pub fn extension_for(lower: &str) -> (extension: String)
    ensures
        extension@ == extension_of(lower@),
{
    if contains(lower, "anomaly") {
        "Anomaly".to_owned()
    } else if contains(lower, "biotech") {
        "Biotech".to_owned()
    } else if contains(lower, "ideology") {
        "Ideology".to_owned()
    } else if contains(lower, "royalty") {
        "Royalty".to_owned()
    } else if contains(lower, "odyssey") {
        "Odyssey".to_owned()
    } else if contains(lower, "core") {
        "Core".to_owned()
    } else {
        "Unknown".to_owned()
    }
}

/// `Path::strip_prefix`: the path without the leading components that
/// `base` consists of, where it begins with them.
#[verifier::external_body]
fn strip_prefix(path: &str, base: &str) -> (rest: Option<String>) {
    std::path::Path::new(path).strip_prefix(base).ok().map(|p| p.to_string_lossy().to_string())
}

/// `Path::file_name`: the last component of the path; empty where the path
/// has none.
#[verifier::external_body]
fn file_name(path: &str) -> (name: String) {
    std::path::Path::new(path).file_name().unwrap_or_default().to_string_lossy().to_string()
}

/// The path under which a record's file is known: the path below the data
/// directory where the file lies there, else the file's name alone.
pub fn source_path(below_root: Option<String>, name: String) -> (source: String)
    ensures
        source == match below_root {
            Some(rest) => rest,
            None => name,
        },
{
    match below_root {
        Some(rest) => rest,
        None => name,
    }
}

impl DefParser {
    /// The add-on that a file belongs to, told by its path.
    pub fn detect_extension(&self, file_path: &str) -> (extension: String)
        ensures
            extension@ == extension_of(lowercased(file_path@)),
    {
        let lower = to_lowercase(file_path);
        extension_for(lower.as_str())
    }

    /// Parses the text of one file and appends its records, which bear the
    /// given source path and add-on. A text with a syntax error gives an
    /// error and no record.
    pub fn parse_xml_content(&mut self, source_file: &str, extension: &str, content: &str) -> (r:
        Result<(), ParseError>)
        ensures
            final(self).rimworld_data_path == old(self).rimworld_data_path,
            final(self).def_name_map == old(self).def_name_map,
            match r {
                Ok(_) => !is_malformed(xml_events(content@)) && defs_view(final(self).parsed_defs@)
                    == defs_view(old(self).parsed_defs@) + records_of(
                    xml_events(content@),
                    source_file@,
                    extension@,
                ),
                Err(e) => is_malformed(xml_events(content@)) && final(self).parsed_defs == old(
                    self,
                ).parsed_defs && error_prefix().is_prefix_of(e.message@),
            },
    {
        match read_events(content) {
            Ok(events) => {
                let mut records = self.build_records(&events, source_file, extension);
                let ghost added = defs_view(records@);
                self.parsed_defs.append(&mut records);
                assert(defs_view(self.parsed_defs@) == defs_view(old(self).parsed_defs@) + added);
                Ok(())
            },
            Err(e) => Err(e),
        }
    }

    /// Parses the text of the file at `file_path` and appends its records.
    ///
    /// The records bear the file's path below the data directory, or its
    /// name where it does not lie there, and the add-on that the path tells
    /// of. A text with a syntax error gives an error and no record.
    pub fn parse_xml_file(&mut self, file_path: &str, content: &str) -> (r: Result<(), ParseError>)
        ensures
            final(self).rimworld_data_path == old(self).rimworld_data_path,
            final(self).def_name_map == old(self).def_name_map,
            match r {
                Ok(_) => !is_malformed(xml_events(content@)) && exists|source: Seq<char>|
                    defs_view(final(self).parsed_defs@) == defs_view(old(self).parsed_defs@)
                        + #[trigger] records_of(
                        xml_events(content@),
                        source,
                        extension_of(lowercased(file_path@)),
                    ),
                Err(e) => is_malformed(xml_events(content@)) && final(self).parsed_defs == old(
                    self,
                ).parsed_defs && error_prefix().is_prefix_of(e.message@),
            },
    {
        let extension = self.detect_extension(file_path);
        let below_root = strip_prefix(file_path, self.rimworld_data_path.as_str());
        let source = source_path(below_root, file_name(file_path));
        self.parse_xml_content(source.as_str(), extension.as_str(), content)
    }

    /// A parser without records.
    pub fn new(rimworld_data_path: String) -> (parser: Self)
        ensures
            parser.rimworld_data_path == rimworld_data_path,
            parser.parsed_defs@.len() == 0,
            parser.def_name_map.matches(Seq::empty()),
    {
        DefParser { rimworld_data_path, parsed_defs: Vec::new(), def_name_map: NameIndex::new() }
    }
}

} // verus!
