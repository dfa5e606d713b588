//! Cutting a file's text into markup events.

use crate::element::AttrView;
use crate::element::attrs_view;
use quick_xml::events::Event;
use vstd::prelude::*;
use vstd::string::*;

verus! {

/// One step of the markup scan, as the tree builder needs it.
#[derive(Debug, Clone, PartialEq, Eq)]
pub enum XmlEvent {
    /// An opening tag with its attributes in document order.
    Start { name: String, attributes: Vec<(String, String)> },
    /// A closing tag.
    End { name: String },
    /// A run of text between tags, entity references resolved.
    Text { text: String },
    /// Anything else: a self-closing tag, a comment, a declaration, a
    /// processing instruction, character data, a document type.
    Other,
}

/// The model of a markup event. `Malformed` stands for the place where the
/// scan met a syntax error; nothing follows it.
pub enum EventView {
    Start { name: Seq<char>, attributes: Seq<AttrView> },
    End { name: Seq<char> },
    Text { text: Seq<char> },
    Other,
    Malformed,
}

impl View for XmlEvent {
    type V = EventView;

    open spec fn view(&self) -> EventView {
        match *self {
            XmlEvent::Start { name, attributes } => EventView::Start {
                name: name@,
                attributes: attrs_view(attributes@),
            },
            XmlEvent::End { name } => EventView::End { name: name@ },
            XmlEvent::Text { text } => EventView::Text { text: text@ },
            XmlEvent::Other => EventView::Other,
        }
    }
}

/// The models of a list of events.
pub open spec fn events_view(events: Seq<XmlEvent>) -> Seq<EventView> {
    Seq::new(events.len(), |i: int| events[i]@)
}

/// `quick_xml::Reader`, the streaming scanner. Nothing is known of what is
/// inside it but what `pending` names.
#[verifier::external_type_specification]
#[verifier::external_body]
#[verifier::reject_recursive_types(R)]
pub struct ExReader<R>(quick_xml::Reader<R>);

/// `quick_xml::Error`, what the scanner reports of a syntax error. It is
/// only carried to `error_text`.
#[verifier::external_type_specification]
#[verifier::external_body]
pub struct ExXmlError(quick_xml::Error);

/// The events that quick_xml's reader, with text trimming switched on, cuts
/// `content` into, up to the end of the text or to the first syntax error,
/// which then is the last entry.
///
/// A name or an attribute is handed on as the text that its bytes spell;
/// an attribute that the reader rejects is left out; a text whose entity
/// references cannot be resolved comes as empty text.
pub uninterp spec fn xml_events(content: Seq<char>) -> Seq<EventView>;

/// The events that a reader has yet to hand out, up to the end of its text
/// or to the first syntax error.
pub uninterp spec fn pending(reader: quick_xml::Reader<&[u8]>) -> Seq<EventView>;

/// Calls `quick_xml::Reader::from_str` and switches `trim_text` on. The new
/// reader has handed out nothing yet: it holds the events of `content`.
#[verifier::external_body]
fn open_reader<'a>(content: &'a str) -> (reader: quick_xml::Reader<&'a [u8]>)
    ensures
        pending(reader) == xml_events(content@),
{
    let mut reader = quick_xml::Reader::from_str(content);
    reader.trim_text(true);
    reader
}

/// Calls `quick_xml::Reader::read_event_into` once and hands the event on
/// with its name, attribute pairs or unescaped text as strings.
///
/// The reader gives its next pending event and keeps the rest. A syntax
/// error comes as `Err` where `Malformed` was pending; after it, and at the
/// end of the text, the reader has nothing pending and gives `None` from
/// then on.
#[verifier::external_body]
fn next_event(reader: &mut quick_xml::Reader<&[u8]>) -> (r: Result<
    Option<XmlEvent>,
    quick_xml::Error,
>)
    ensures
        match r {
            Ok(Some(e)) => pending(*old(reader)).len() > 0 && e@ == pending(*old(reader))[0]
                && pending(*final(reader)) == pending(*old(reader)).drop_first(),
            Ok(None) => pending(*old(reader)).len() == 0 && pending(*final(reader)).len() == 0,
            Err(_) => pending(*old(reader)).len() > 0 && pending(*old(reader))[0] is Malformed
                && pending(*final(reader)).len() == 0,
        },
{
    let utf8 = |b: &[u8]| std::str::from_utf8(b).unwrap_or("").to_string();
    Ok(match reader.read_event_into(&mut Vec::new())? {
        Event::Start(e) => Some(XmlEvent::Start {
            name: utf8(e.name().0),
            attributes: e.attributes().flatten().map(|a| (utf8(a.key.0), utf8(&a.value))).collect(),
        }),
        Event::End(e) => Some(XmlEvent::End { name: utf8(e.name().0) }),
        Event::Text(e) => Some(XmlEvent::Text { text: e.unescape().unwrap_or_default().into_owned() }),
        Event::Eof => None,
        _ => Some(XmlEvent::Other),
    })
}

/// Formats a `quick_xml::Error` with its `Display` impl. Nothing is claimed
/// of the text.
#[verifier::external_body]
fn error_text(error: &quick_xml::Error) -> (text: String) {
    format!("{}", error)
}

/// Why a file's text could not be turned into records.
#[derive(Debug, Clone, PartialEq, Eq)]
pub struct ParseError {
    /// What the markup scanner reported.
    pub message: String,
}

/// Whether the scan of a text ended in a syntax error.
pub open spec fn is_malformed(events: Seq<EventView>) -> bool {
    exists|i: int| 0 <= i < events.len() && events[i] is Malformed
}

/// How the message of a parse error begins.
pub open spec fn error_prefix() -> Seq<char> {
    "Error parsing XML: "@
}

/// Cuts `content` into its markup events.
///
/// Gives all events of the text where the scan reaches its end, and an error
/// where it meets a syntax error first. The error's message begins with
/// `Error parsing XML: `; what follows is the scanner's own report.
pub fn read_events(content: &str) -> (r: Result<Vec<XmlEvent>, ParseError>)
    ensures
        match r {
            Ok(events) => events_view(events@) == xml_events(content@) && !is_malformed(
                xml_events(content@),
            ),
            Err(e) => is_malformed(xml_events(content@)) && error_prefix().is_prefix_of(
                e.message@,
            ),
        },
{
    let mut reader = open_reader(content);
    let mut events: Vec<XmlEvent> = Vec::new();
    loop
        invariant
            events_view(events@) + pending(reader) == xml_events(content@),
            !is_malformed(events_view(events@)),
        decreases pending(reader).len(),
    {
        match next_event(&mut reader) {
            Ok(Some(event)) => {
                proof {
                    let before = events_view(events@);
                    let after = events_view(events@.push(event));
                    assert(after == before.push(event@));
                }
                events.push(event);
            },
            Ok(None) => {
                return Ok(events);
            },
            Err(error) => {
                proof {
                    let at = events.len() as int;
                    assert(xml_events(content@)[at] is Malformed);
                }
                let detail = error_text(&error);
                let mut message = "Error parsing XML: ".to_owned();
                message.append(detail.as_str());
                return Err(ParseError { message });
            },
        }
    }
}

} // verus!
