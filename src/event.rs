//! The lexical XML events that the tree is built from and written as, and the xml-rs reader and
//! writer that produce and consume them.
use vstd::prelude::*;

use crate::attribute::{AttributeName, NameModel};
use crate::namespace::Namespace;
use xml::attribute::OwnedAttribute;
use xml::common::XmlVersion;
use xml::name::OwnedName;
use xml::reader::XmlEvent as ReaderEvent;

verus! {

/// xml::reader::XmlEvent, the reader's event, opaque here: only the conversions below look inside.
#[verifier::external_type_specification]
#[verifier::external_body]
pub struct ExReaderEvent(ReaderEvent);

/// xml::name::OwnedName, the reader's name, opaque here.
#[verifier::external_type_specification]
#[verifier::external_body]
pub struct ExOwnedName(OwnedName);

/// xml::reader::Error, the reader's report of malformed text, carried as it is.
#[verifier::external_type_specification]
#[verifier::external_body]
pub struct ExReaderError(xml::reader::Error);

/// xml::writer::Error, the writer's report of a refused event, carried as it is.
#[verifier::external_type_specification]
#[verifier::external_body]
pub struct ExWriterError(xml::writer::Error);

/// A name as the reader reports it and the writer takes it: local name, namespace and prefix,
/// for elements as for attributes.
pub type QualifiedName = AttributeName;

/// One lexical XML event.
#[derive(Debug, PartialEq, Eq)]
pub enum Event {
    StartDocument,
    EndDocument,
    ProcessingInstruction { name: String, data: Option<String> },
    StartElement { name: QualifiedName, attributes: Vec<(AttributeName, String)>, namespace: Namespace },
    EndElement { name: QualifiedName },
    CData(String),
    Comment(String),
    Characters(String),
    Whitespace(String),
}

/// An event as a mathematical value.
pub enum EventModel {
    StartDocument,
    EndDocument,
    ProcessingInstruction(Seq<char>, Option<Seq<char>>),
    StartElement(NameModel, Seq<(NameModel, Seq<char>)>, Map<Seq<char>, Seq<char>>),
    EndElement(NameModel),
    CData(Seq<char>),
    Comment(Seq<char>),
    Characters(Seq<char>),
    Whitespace(Seq<char>),
}

/// Attribute pairs as mathematical values.
pub open spec fn pairs_model(v: Seq<(AttributeName, String)>) -> Seq<(NameModel, Seq<char>)> {
    v.map_values(|e: (AttributeName, String)| (e.0@, e.1@))
}

impl View for Event {
    type V = EventModel;

    open spec fn view(&self) -> EventModel {
        match self {
            Event::StartDocument => EventModel::StartDocument,
            Event::EndDocument => EventModel::EndDocument,
            Event::ProcessingInstruction { name, data } => EventModel::ProcessingInstruction(name@, data.deep_view()),
            Event::StartElement { name, attributes, namespace } => EventModel::StartElement(name@, pairs_model(attributes@), namespace@),
            Event::EndElement { name } => EventModel::EndElement(name@),
            Event::CData(s) => EventModel::CData(s@),
            Event::Comment(s) => EventModel::Comment(s@),
            Event::Characters(s) => EventModel::Characters(s@),
            Event::Whitespace(s) => EventModel::Whitespace(s@),
        }
    }
}

/// Events as mathematical values.
pub open spec fn events_model(v: Seq<Event>) -> Seq<EventModel> {
    v.map_values(|e: Event| e@)
}

/// What the reader is told to do with whitespace, character data and comments.
#[derive(Debug, Clone, Copy, PartialEq, Eq)]
pub struct ParserConfig {
    /// Trim leading and trailing whitespace of text.
    pub trim_whitespace: bool,
    /// Report whitespace as text.
    pub whitespace_to_characters: bool,
    /// Report CDATA sections as text.
    pub cdata_to_characters: bool,
    /// Leave comments out.
    pub ignore_comments: bool,
    /// Join adjacent text into one event.
    pub coalesce_characters: bool,
}

impl ParserConfig {
    /// The reader's own defaults: comments left out, adjacent text joined.
    pub fn new() -> (r: ParserConfig)
        ensures
            r == (ParserConfig {
                trim_whitespace: false,
                whitespace_to_characters: false,
                cdata_to_characters: false,
                ignore_comments: true,
                coalesce_characters: true,
            }),
    {
        ParserConfig {
            trim_whitespace: false,
            whitespace_to_characters: false,
            cdata_to_characters: false,
            ignore_comments: true,
            coalesce_characters: true,
        }
    }
}

/// How the writer lays out the text it produces.
#[derive(Debug, Clone, Copy, PartialEq, Eq)]
pub struct EmitterConfig {
    /// Indent nested elements on lines of their own.
    pub perform_indent: bool,
    /// Escape special characters in text and attribute values.
    pub perform_escaping: bool,
    /// Begin the document with an XML declaration.
    pub write_document_declaration: bool,
    /// Write an element without content as one empty tag.
    pub normalize_empty_elements: bool,
    /// Write CDATA sections as escaped text.
    pub cdata_to_characters: bool,
    /// Check that each end tag closes the element that is open.
    pub keep_element_names_stack: bool,
    /// Put a space inside comment delimiters.
    pub autopad_comments: bool,
    /// Put a space before the slash of an empty tag.
    pub pad_self_closing: bool,
}

impl EmitterConfig {
    /// The writer's own defaults: escaped text, a declaration, empty elements as empty tags.
    pub open spec fn spec_default() -> EmitterConfig {
        EmitterConfig {
        perform_indent: false,
        perform_escaping: true,
        write_document_declaration: true,
        normalize_empty_elements: true,
        cdata_to_characters: false,
        keep_element_names_stack: true,
        autopad_comments: true,
        pad_self_closing: true,
        }
    }

    /// The writer's own defaults.
    pub fn new() -> (r: EmitterConfig)
        ensures
            r == EmitterConfig::spec_default(),
    {
        EmitterConfig {
            perform_indent: false,
            perform_escaping: true,
            write_document_declaration: true,
            normalize_empty_elements: true,
            cdata_to_characters: false,
            keep_element_names_stack: true,
            autopad_comments: true,
            pad_self_closing: true,
        }
    }
}

impl Default for EmitterConfig {
    /// The writer's own defaults.
    fn default() -> (r: EmitterConfig)
        ensures
            r == EmitterConfig::spec_default(),
    {
        EmitterConfig::new()
    }
}

/// The events that xml-rs reads from `input` under `config`, up to the end of the document or the
/// first error, and whether it reached the end without error.
pub uninterp spec fn xml_reading(input: Seq<u8>, config: ParserConfig) -> (Seq<EventModel>, bool);

/// The text that xml-rs writes for `events` under `config`, or none where it refuses them.
pub uninterp spec fn xml_writing(events: Seq<EventModel>, config: EmitterConfig) -> Option<Seq<u8>>;

/// Moves the fields of an xml::name::OwnedName into a name of this library.
#[verifier::external_body]
fn name_of(n: OwnedName) -> AttributeName {
    AttributeName { local_name: n.local_name, namespace: n.namespace, prefix: n.prefix }
}

/// Moves an xml::reader::XmlEvent into the event of this library with the same variant and
/// fields.
#[verifier::external_body]
fn event_of(e: ReaderEvent) -> Event {
    match e {
        ReaderEvent::StartDocument { .. } => Event::StartDocument,
        ReaderEvent::EndDocument => Event::EndDocument,
        ReaderEvent::ProcessingInstruction { name, data } => Event::ProcessingInstruction { name, data },
        ReaderEvent::StartElement { name, attributes, namespace } => Event::StartElement {
            name: name_of(name),
            attributes: attributes.into_iter().map(|a| (name_of(a.name), a.value)).collect(),
            namespace: Namespace { inner: namespace },
        },
        ReaderEvent::EndElement { name } => Event::EndElement { name: name_of(name) },
        ReaderEvent::CData(s) => Event::CData(s),
        ReaderEvent::Comment(s) => Event::Comment(s),
        ReaderEvent::Characters(s) => Event::Characters(s),
        ReaderEvent::Whitespace(s) => Event::Whitespace(s),
    }
}

/// Relies on xml::reader::EventReader: the events it reads from `input`, each converted, up to and
/// including the end of the document, or up to the first error, which is returned beside them.
#[verifier::external_body]
pub(crate) fn read_events(input: &[u8], config: ParserConfig) -> (r: (Vec<Event>, Option<xml::reader::Error>))
    ensures
        events_model(r.0@) == xml_reading(input@, config).0,
        r.1 is None <==> xml_reading(input@, config).1,
{
    let c = config;
    let xc = xml::reader::ParserConfig::new().trim_whitespace(c.trim_whitespace).whitespace_to_characters(c.whitespace_to_characters)
        .cdata_to_characters(c.cdata_to_characters).ignore_comments(c.ignore_comments).coalesce_characters(c.coalesce_characters);
    let mut events = Vec::new();
    for e in xml::reader::EventReader::new_with_config(input, xc) {
        match e {
            Ok(e) => events.push(event_of(e)),
            Err(e) => return (events, Some(e)),
        }
    }
    (events, None)
}

/// Moves the fields of a name of this library into an xml::name::OwnedName.
#[verifier::external_body]
fn owned_name_of(n: AttributeName) -> OwnedName {
    OwnedName { local_name: n.local_name, namespace: n.namespace, prefix: n.prefix }
}

/// Moves an event of this library into the xml::reader::XmlEvent with the same variant and
/// fields, whitespace as text, which is how xml-rs writes it anyway.
#[verifier::external_body]
fn reader_event_of(e: Event) -> ReaderEvent {
    match e {
        Event::StartDocument => ReaderEvent::StartDocument { version: XmlVersion::Version10, encoding: "UTF-8".into(), standalone: None },
        Event::EndDocument => ReaderEvent::EndDocument,
        Event::ProcessingInstruction { name, data } => ReaderEvent::ProcessingInstruction { name, data },
        Event::StartElement { name, attributes, namespace } => ReaderEvent::StartElement {
            name: owned_name_of(name),
            attributes: attributes.into_iter().map(|(n, value)| OwnedAttribute { name: owned_name_of(n), value }).collect(),
            namespace: namespace.inner,
        },
        Event::EndElement { name } => ReaderEvent::EndElement { name: owned_name_of(name) },
        Event::CData(s) => ReaderEvent::CData(s),
        Event::Comment(s) => ReaderEvent::Comment(s),
        Event::Characters(s) | Event::Whitespace(s) => ReaderEvent::Characters(s),
    }
}

/// Relies on xml::writer::EventWriter: the text it writes into an empty buffer for `events`, each
/// converted, under `config`, or its error.
#[verifier::external_body]
pub(crate) fn write_events(events: Vec<Event>, config: EmitterConfig) -> (r: Result<Vec<u8>, xml::writer::Error>)
    ensures
        r is Ok <==> xml_writing(events_model(events@), config) is Some,
        r is Ok ==> r->Ok_0@ == xml_writing(events_model(events@), config)->0,
{
    let c = config;
    let xc = xml::writer::EmitterConfig { perform_indent: c.perform_indent, perform_escaping: c.perform_escaping, write_document_declaration: c.write_document_declaration,
        normalize_empty_elements: c.normalize_empty_elements, cdata_to_characters: c.cdata_to_characters, keep_element_names_stack: c.keep_element_names_stack,
        autopad_comments: c.autopad_comments, pad_self_closing: c.pad_self_closing, ..xml::writer::EmitterConfig::new() };
    let mut w = xml::writer::EventWriter::new_with_config(Vec::new(), xc);
    for e in events {
        let owned = reader_event_of(e);
        if let Some(we) = owned.as_writer_event() {
            w.write(we)?;
        }
    }
    Ok(w.into_inner())
}

} // verus!
