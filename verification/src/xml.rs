//! XML output through `quick_xml`'s indenting writer. The document is
//! described as the sequence of events handed to the writer; what the
//! writer makes of that sequence is `quick_xml`'s business and is named,
//! not restated.

use vstd::prelude::*;
use vstd::utf8::{decode_utf8, encode_utf8, valid_utf8};
use quick_xml::Writer;
use quick_xml::events::{BytesDecl, BytesEnd, BytesStart, BytesText, Event};

verus! {

#[verifier::external_type_specification]
#[verifier::external_body]
#[verifier::reject_recursive_types(W)]
pub struct ExXmlWriter<W>(quick_xml::Writer<W>);

#[verifier::external_type_specification]
#[verifier::external_body]
pub struct ExIoError(std::io::Error);

/// One event handed to the XML writer, by the text it carries.
pub enum XmlEvent {
    /// `<?xml version=".." encoding=".."?>`
    Declaration { version: Seq<char>, encoding: Seq<char> },
    /// An opening tag with its attributes (name and unescaped value), in order.
    Start { name: Seq<char>, attributes: Seq<(Seq<char>, Seq<char>)> },
    /// Character data, unescaped.
    Text { content: Seq<char> },
    /// A closing tag.
    End { name: Seq<char> },
}

/// The events the writer has been handed, in order.
pub uninterp spec fn xml_writer_events(w: Writer<Vec<u8>>) -> Seq<XmlEvent>;

/// The indentation character and width the writer was made with.
pub uninterp spec fn xml_writer_indent(w: Writer<Vec<u8>>) -> (u8, usize);

/// The bytes an indenting `quick_xml` writer produces for a sequence of events.
pub uninterp spec fn xml_output_bytes(indent_char: u8, indent_size: usize, events: Seq<XmlEvent>) -> Seq<u8>;

/// Why an XML document could not be produced.
#[derive(Debug)]
pub enum XmlExportError {
    /// The writer reported an I/O error.
    Write(std::io::Error),
    /// The written bytes were not UTF-8.
    NotUtf8,
}

/// A new `quick_xml::Writer` over an empty byte vector that indents nested
/// tags with `indent_size` copies of `indent_char` (`Writer::new_with_indent`).
#[verifier::external_body]
pub(crate) fn xml_writer_new(indent_char: u8, indent_size: usize) -> (w: Writer<Vec<u8>>)
    ensures
        xml_writer_events(w) == Seq::<XmlEvent>::empty(),
        xml_writer_indent(w) == (indent_char, indent_size),
{
    Writer::new_with_indent(Vec::new(), indent_char, indent_size)
}

/// Writes an XML declaration with a version and an encoding and no
/// standalone part (`Event::Decl(BytesDecl::new(..))`). `write_event` fails
/// only when the underlying writer does, and a `Vec<u8>` takes every write.
#[verifier::external_body]
pub(crate) fn xml_write_declaration(w: &mut Writer<Vec<u8>>, version: &str, encoding: &str) -> (r: Result<(), std::io::Error>)
    ensures
        xml_writer_indent(*final(w)) == xml_writer_indent(*old(w)),
        r is Ok,
        xml_writer_events(*final(w)) == xml_writer_events(*old(w)).push(
            XmlEvent::Declaration { version: version@, encoding: encoding@ },
        ),
{
    w.write_event(Event::Decl(BytesDecl::new(version, Some(encoding), None)))
}

/// Writes an opening tag carrying the given attributes in order
/// (`BytesStart::new` and `push_attribute` for each pair, values escaped by
/// quick_xml); into a `Vec<u8>` the write succeeds.
#[verifier::external_body]
pub(crate) fn xml_write_start(w: &mut Writer<Vec<u8>>, name: &str, attributes: &Vec<(String, String)>) -> (r: Result<(), std::io::Error>)
    ensures
        xml_writer_indent(*final(w)) == xml_writer_indent(*old(w)),
        r is Ok,
        xml_writer_events(*final(w)) == xml_writer_events(*old(w)).push(
            XmlEvent::Start { name: name@, attributes: attributes@.map_values(|a: (String, String)| (a.0@, a.1@)) },
        ),
{
    let mut start = BytesStart::new(name);
    start.extend_attributes(attributes.iter().map(|a| (a.0.as_str(), a.1.as_str())));
    w.write_event(Event::Start(start))
}

/// Writes character data, escaped by quick_xml (`BytesText::new`); into a
/// `Vec<u8>` the write succeeds.
#[verifier::external_body]
pub(crate) fn xml_write_text(w: &mut Writer<Vec<u8>>, content: &str) -> (r: Result<(), std::io::Error>)
    ensures
        xml_writer_indent(*final(w)) == xml_writer_indent(*old(w)),
        r is Ok,
        xml_writer_events(*final(w)) == xml_writer_events(*old(w)).push(
            XmlEvent::Text { content: content@ },
        ),
{
    w.write_event(Event::Text(BytesText::new(content)))
}

/// Writes a closing tag (`BytesEnd::new`); into a `Vec<u8>` the write succeeds.
#[verifier::external_body]
pub(crate) fn xml_write_end(w: &mut Writer<Vec<u8>>, name: &str) -> (r: Result<(), std::io::Error>)
    ensures
        xml_writer_indent(*final(w)) == xml_writer_indent(*old(w)),
        r is Ok,
        xml_writer_events(*final(w)) == xml_writer_events(*old(w)).push(
            XmlEvent::End { name: name@ },
        ),
{
    w.write_event(Event::End(BytesEnd::new(name)))
}

/// The bytes the writer has produced (`Writer::into_inner`). Every writer of
/// this crate starts over an empty vector (`xml_writer_new`) and is handed
/// only `&str` text, which quick_xml copies or escapes with ASCII entities;
/// with an ASCII indentation character the bytes are therefore UTF-8.
#[verifier::external_body]
pub(crate) fn xml_writer_into_bytes(w: Writer<Vec<u8>>) -> (bytes: Vec<u8>)
    ensures
        bytes@ == xml_output_bytes(xml_writer_indent(w).0, xml_writer_indent(w).1, xml_writer_events(w)),
        xml_writer_indent(w).0 < 128 ==> valid_utf8(bytes@),
{
    w.into_inner()
}

/// The bytes as a string when they are valid UTF-8 (`String::from_utf8`).
#[verifier::external_body]
pub(crate) fn utf8_string(bytes: Vec<u8>) -> (r: Option<String>)
    ensures
        r is Some <==> valid_utf8(bytes@),
        r matches Some(s) ==> s@ == decode_utf8(bytes@),
{
    String::from_utf8(bytes).ok()
}

/// The three events of an element that holds only text.
pub open spec fn text_element(name: Seq<char>, value: Seq<char>) -> Seq<XmlEvent> {
    seq![
        XmlEvent::Start { name: name, attributes: Seq::empty() },
        XmlEvent::Text { content: value },
        XmlEvent::End { name: name },
    ]
}

/// Writes `<name>value</name>`.
pub(crate) fn write_text_element(w: &mut Writer<Vec<u8>>, name: &str, value: &str) -> (r: Result<(), XmlExportError>)
    ensures
        xml_writer_indent(*final(w)) == xml_writer_indent(*old(w)),
        r is Ok,
        xml_writer_events(*final(w)) == xml_writer_events(*old(w)) + text_element(name@, value@),
{
    let no_attributes: Vec<(String, String)> = Vec::new();
    if let Err(e) = xml_write_start(w, name, &no_attributes) {
        return Err(XmlExportError::Write(e));
    }
    assert(no_attributes@.map_values(|a: (String, String)| (a.0@, a.1@)) == Seq::<(Seq<char>, Seq<char>)>::empty());
    if let Err(e) = xml_write_text(w, value) {
        return Err(XmlExportError::Write(e));
    }
    if let Err(e) = xml_write_end(w, name) {
        return Err(XmlExportError::Write(e));
    }
    Ok(())
}

/// The document text for the events, when the writer's output is UTF-8.
pub(crate) fn finish_document(w: Writer<Vec<u8>>) -> (r: Result<String, XmlExportError>)
    ensures
        r matches Ok(s) ==> encode_utf8(s@) == xml_output_bytes(
            xml_writer_indent(w).0,
            xml_writer_indent(w).1,
            xml_writer_events(w),
        ),
        xml_writer_indent(w).0 < 128 ==> r is Ok,
        r is Err ==> (r matches Err(XmlExportError::NotUtf8)),
        r is Err ==> !valid_utf8(xml_output_bytes(
            xml_writer_indent(w).0,
            xml_writer_indent(w).1,
            xml_writer_events(w),
        )),
{
    let bytes = xml_writer_into_bytes(w);
    let ghost b = bytes@;
    match utf8_string(bytes) {
        Some(s) => {
            proof {
                vstd::utf8::decode_utf8_encode_utf8(b);
            }
            Ok(s)
        },
        None => Err(XmlExportError::NotUtf8),
    }
}

} // verus!
