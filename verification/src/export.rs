//! The exported XML document: its metadata and the exact sequence of XML
//! events that makes up the document.

use vstd::prelude::*;
use vstd::utf8::encode_utf8;
use quick_xml::Writer;
use crate::domain::{EventRecord, ExportSettings, LogSource, log_source_name};
use crate::event_log::PreviewSnapshot;
use crate::text::{decimal, decimal_string, decimals, join, join_decimals, join_strings, string_views};
use crate::timestamp::{Timestamp, rfc3339, rfc3339_text};
use crate::xml::{
    XmlEvent, XmlExportError, text_element, xml_output_bytes, xml_writer_events, xml_writer_indent,
    xml_writer_new, xml_write_declaration, xml_write_start, xml_write_end, write_text_element,
    finish_document,
};

verus! {

/// Summary figures written into an export's metadata.
#[derive(Clone, Debug, PartialEq, Eq)]
pub struct ExportMetadata {
    pub machine_names: Vec<String>,
    pub providers: Vec<String>,
    pub record_count: usize,
    pub filter_ids: Vec<u32>,
    pub export_duration_ms: u128,
    pub scanned_records: usize,
}

impl Default for ExportMetadata {
    fn default() -> (m: Self)
        ensures
            m.machine_names@.len() == 0,
            m.providers@.len() == 0,
            m.record_count == 0,
            m.filter_ids@.len() == 0,
            m.export_duration_ms == 0,
            m.scanned_records == 0,
    {
        ExportMetadata {
            machine_names: Vec::new(),
            providers: Vec::new(),
            record_count: 0,
            filter_ids: Vec::new(),
            export_duration_ms: 0,
            scanned_records: 0,
        }
    }
}

fn copy_strings(v: &Vec<String>) -> (r: Vec<String>)
    ensures
        r@ == v@,
{
    let r = v.clone();
    assert(r@ =~= v@);
    r
}

/// The metadata of an export: the scan's machine and provider names, its
/// number of matches and of scanned records, the selected event IDs, and
/// how long the export took.
pub fn metadata_from_snapshot(settings: &ExportSettings, snapshot: &PreviewSnapshot, export_duration_ms: u128) -> (m: ExportMetadata)
    ensures
        m.machine_names@ == snapshot.machine_names@,
        m.providers@ == snapshot.providers@,
        m.record_count == snapshot.analytics.total_logs_found,
        m.filter_ids@ == settings.selected_event_ids@,
        m.export_duration_ms == export_duration_ms,
        m.scanned_records == snapshot.scanned_records,
{
    ExportMetadata {
        machine_names: copy_strings(&snapshot.machine_names),
        providers: copy_strings(&snapshot.providers),
        record_count: snapshot.analytics.total_logs_found,
        filter_ids: settings.selected_event_ids.clone(),
        export_duration_ms,
        scanned_records: snapshot.scanned_records,
    }
}

/// How the record limit is described: `all_matching` or `limited`.
pub open spec fn limit_mode_text(settings: ExportSettings) -> Seq<char> {
    if settings.export_all {
        "all_matching"@
    } else {
        "limited"@
    }
}

/// The limit as written: the number, or `unlimited`.
pub open spec fn max_events_text(settings: ExportSettings) -> Seq<char> {
    match settings.effective_limit() {
        Some(n) => decimal(n as nat),
        None => "unlimited"@,
    }
}

/// The elements of the `metadata` element, in order.
pub open spec fn metadata_events(settings: ExportSettings, metadata: ExportMetadata) -> Seq<XmlEvent> {
    text_element("selection_count"@, decimal(settings.selected_event_ids@.len()))
        + text_element("limit_mode"@, limit_mode_text(settings))
        + text_element("max_events"@, max_events_text(settings))
        + text_element("record_count"@, decimal(metadata.record_count as nat))
        + text_element("scanned_records"@, decimal(metadata.scanned_records as nat))
        + text_element("filter_ids"@, join(decimals(metadata.filter_ids@), ","@))
        + text_element("machine_names"@, join(string_views(metadata.machine_names@), ","@))
        + text_element("providers"@, join(string_views(metadata.providers@), ","@))
        + text_element("export_duration_ms"@, decimal(metadata.export_duration_ms as nat))
}

/// The events of one `event` element.
pub open spec fn record_events(r: EventRecord) -> Seq<XmlEvent> {
    seq![XmlEvent::Start { name: "event"@, attributes: seq![("id"@, decimal(r.event_id as nat))] }]
        + text_element("provider"@, r.provider@)
        + text_element("level"@, r.level@)
        + text_element("computer"@, r.computer@)
        + text_element("created_at"@, r.created_at@)
        + text_element("message"@, r.message@)
        + seq![XmlEvent::End { name: "event"@ }]
}

/// The `event` elements of the records, in order.
pub open spec fn records_events(records: Seq<EventRecord>) -> Seq<XmlEvent>
    decreases records.len(),
{
    if records.len() == 0 {
        Seq::empty()
    } else {
        records_events(records.drop_last()) + record_events(records.last())
    }
}

/// The whole document: the declaration, the `events` root with its `source`
/// and `exported_at` attributes, the `metadata` element and the `records`
/// element.
pub open spec fn document_events(settings: ExportSettings, records: Seq<EventRecord>, exported_at: Seq<char>, metadata: ExportMetadata) -> Seq<XmlEvent> {
    seq![
        XmlEvent::Declaration { version: "1.0"@, encoding: "UTF-8"@ },
        XmlEvent::Start { name: "events"@, attributes: seq![("source"@, log_source_name(settings.source)), ("exported_at"@, exported_at)] },
        XmlEvent::Start { name: "metadata"@, attributes: Seq::empty() },
    ] + metadata_events(settings, metadata)
        + seq![XmlEvent::End { name: "metadata"@ }, XmlEvent::Start { name: "records"@, attributes: Seq::empty() }]
        + records_events(records)
        + seq![XmlEvent::End { name: "records"@ }, XmlEvent::End { name: "events"@ }]
}

/// The indentation of the document: two spaces per level.
pub open spec fn document_indent() -> (u8, usize) {
    (32u8, 2usize)
}

/// The text of the document for these events, as `quick_xml` writes it.
pub open spec fn is_document_text(text: Seq<char>, events: Seq<XmlEvent>) -> bool {
    encode_utf8(text) == xml_output_bytes(document_indent().0, document_indent().1, events)
}

fn write_metadata(w: &mut Writer<Vec<u8>>, settings: &ExportSettings, metadata: &ExportMetadata) -> (r: Result<(), XmlExportError>)
    ensures
        xml_writer_indent(*final(w)) == xml_writer_indent(*old(w)),
        r is Ok,
        xml_writer_events(*final(w)) == xml_writer_events(*old(w)) + metadata_events(*settings, *metadata),
{
    let ghost e0 = xml_writer_events(*w);
    let count = decimal_string(settings.selected_event_ids.len() as u128);
    write_text_element(w, "selection_count", count.as_str())?;
    let mode = if settings.export_all { "all_matching" } else { "limited" };
    write_text_element(w, "limit_mode", mode)?;
    let max_text = match settings.effective_max_events() {
        Some(value) => decimal_string(value as u128),
        None => "unlimited".to_owned(),
    };
    write_text_element(w, "max_events", max_text.as_str())?;
    let record_count = decimal_string(metadata.record_count as u128);
    write_text_element(w, "record_count", record_count.as_str())?;
    let scanned = decimal_string(metadata.scanned_records as u128);
    write_text_element(w, "scanned_records", scanned.as_str())?;
    let ids = join_decimals(&metadata.filter_ids, ",");
    write_text_element(w, "filter_ids", ids.as_str())?;
    let machines = join_strings(&metadata.machine_names, ",");
    write_text_element(w, "machine_names", machines.as_str())?;
    let providers = join_strings(&metadata.providers, ",");
    write_text_element(w, "providers", providers.as_str())?;
    let duration = decimal_string(metadata.export_duration_ms);
    write_text_element(w, "export_duration_ms", duration.as_str())?;
    assert(xml_writer_events(*w) == e0 + metadata_events(*settings, *metadata));
    Ok(())
}

fn write_record(w: &mut Writer<Vec<u8>>, record: &EventRecord) -> (r: Result<(), XmlExportError>)
    ensures
        xml_writer_indent(*final(w)) == xml_writer_indent(*old(w)),
        r is Ok,
        xml_writer_events(*final(w)) == xml_writer_events(*old(w)) + record_events(*record),
{
    let ghost e0 = xml_writer_events(*w);
    let id_text = decimal_string(record.event_id as u128);
    let mut attributes: Vec<(String, String)> = Vec::new();
    attributes.push(("id".to_owned(), id_text));
    if let Err(e) = xml_write_start(w, "event", &attributes) {
        return Err(XmlExportError::Write(e));
    }
    assert(attributes@.map_values(|a: (String, String)| (a.0@, a.1@)) == seq![("id"@, decimal(record.event_id as nat))]);
    write_text_element(w, "provider", record.provider.as_str())?;
    write_text_element(w, "level", record.level.as_str())?;
    write_text_element(w, "computer", record.computer.as_str())?;
    write_text_element(w, "created_at", record.created_at.as_str())?;
    write_text_element(w, "message", record.message.as_str())?;
    if let Err(e) = xml_write_end(w, "event") {
        return Err(XmlExportError::Write(e));
    }
    assert(xml_writer_events(*w) == e0 + record_events(*record));
    Ok(())
}

/// The XML document of an export: the declaration, the root `events`
/// element with the log's name and the export time, the metadata, and one
/// `event` element per record, indented by two spaces per level. The text
/// is what `quick_xml` writes for `document_events`; building it always
/// succeeds.
pub fn build_xml_document(settings: &ExportSettings, records: &[EventRecord], exported_at: &Timestamp, metadata: &ExportMetadata) -> (r: Result<String, XmlExportError>)
    requires
        exported_at.wf(),
    ensures
        r is Ok,
        r matches Ok(text) ==> is_document_text(text@, document_events(*settings, records@, rfc3339_text(*exported_at), *metadata)),
{
    let mut w = xml_writer_new(32u8, 2usize);
    if let Err(e) = xml_write_declaration(&mut w, "1.0", "UTF-8") {
        return Err(XmlExportError::Write(e));
    }
    let exported_at_text = rfc3339(exported_at);
    let mut root_attributes: Vec<(String, String)> = Vec::new();
    root_attributes.push(("source".to_owned(), settings.source.as_str().to_owned()));
    root_attributes.push(("exported_at".to_owned(), exported_at_text));
    if let Err(e) = xml_write_start(&mut w, "events", &root_attributes) {
        return Err(XmlExportError::Write(e));
    }
    assert(root_attributes@.map_values(|a: (String, String)| (a.0@, a.1@)) == seq![("source"@, log_source_name(settings.source)), ("exported_at"@, rfc3339_text(*exported_at))]);
    let no_attributes: Vec<(String, String)> = Vec::new();
    assert(no_attributes@.map_values(|a: (String, String)| (a.0@, a.1@)) == Seq::<(Seq<char>, Seq<char>)>::empty());
    if let Err(e) = xml_write_start(&mut w, "metadata", &no_attributes) {
        return Err(XmlExportError::Write(e));
    }
    write_metadata(&mut w, settings, metadata)?;
    if let Err(e) = xml_write_end(&mut w, "metadata") {
        return Err(XmlExportError::Write(e));
    }
    if let Err(e) = xml_write_start(&mut w, "records", &no_attributes) {
        return Err(XmlExportError::Write(e));
    }
    let ghost head = xml_writer_events(w);
    let n = records.len();
    for i in 0..n
        invariant
            n == records@.len(),
            xml_writer_indent(w) == document_indent(),
            xml_writer_events(w) == head + records_events(records@.take(i as int)),
    {
        write_record(&mut w, &records[i])?;
        assert(records@.take(i + 1).drop_last() == records@.take(i as int));
    }
    assert(records@.take(n as int) == records@);
    if let Err(e) = xml_write_end(&mut w, "records") {
        return Err(XmlExportError::Write(e));
    }
    if let Err(e) = xml_write_end(&mut w, "events") {
        return Err(XmlExportError::Write(e));
    }
    assert(xml_writer_events(w) == document_events(*settings, records@, rfc3339_text(*exported_at), *metadata));
    finish_document(w)
}

/// How many records the live preview shows at most.
pub const PREVIEW_LIMIT: usize = 20;

/// Whether `m` is the metadata `metadata_from_snapshot` gives for these arguments.
pub open spec fn is_snapshot_metadata(m: ExportMetadata, settings: ExportSettings, snapshot: PreviewSnapshot, duration_ms: u128) -> bool {
    &&& m.machine_names@ == snapshot.machine_names@
    &&& m.providers@ == snapshot.providers@
    &&& m.record_count == snapshot.analytics.total_logs_found
    &&& m.filter_ids@ == settings.selected_event_ids@
    &&& m.export_duration_ms == duration_ms
    &&& m.scanned_records == snapshot.scanned_records
}

/// The number of records the preview shows.
pub open spec fn preview_count(snapshot: PreviewSnapshot) -> int {
    if snapshot.records@.len() < PREVIEW_LIMIT { snapshot.records@.len() as int } else { PREVIEW_LIMIT as int }
}

/// The live preview: the export document of the scan, limited to its first
/// `PREVIEW_LIMIT` records, with the scan's duration as the export time.
pub fn build_preview_xml(settings: &ExportSettings, snapshot: &PreviewSnapshot, now: &Timestamp) -> (r: Result<String, XmlExportError>)
    requires
        now.wf(),
    ensures
        r is Ok,
        r matches Ok(text) ==> exists|m: ExportMetadata|
            is_snapshot_metadata(m, *settings, *snapshot, snapshot.duration_ms)
            && is_document_text(text@, #[trigger] document_events(*settings, snapshot.records@.take(preview_count(*snapshot)), rfc3339_text(*now), m)),
{
    let all = snapshot.records.as_slice();
    let n = if all.len() < PREVIEW_LIMIT { all.len() } else { PREVIEW_LIMIT };
    let preview_records = &all[0..n];
    assert(preview_records@ == snapshot.records@.take(n as int));
    let metadata = metadata_from_snapshot(settings, snapshot, snapshot.duration_ms);
    assert(n as int == preview_count(*snapshot));
    let r = build_xml_document(settings, preview_records, now, &metadata);
    proof {
        if r is Ok {
            assert(is_snapshot_metadata(metadata, *settings, *snapshot, snapshot.duration_ms));
            assert(is_document_text(r->Ok_0@, document_events(*settings, snapshot.records@.take(preview_count(*snapshot)), rfc3339_text(*now), metadata)));
        }

    }
    r
}

/// The number of records the preview shows.
pub fn previewed_record_count(snapshot: &PreviewSnapshot) -> (n: usize)
    ensures
        n == preview_count(*snapshot),
{
    if snapshot.records.len() < PREVIEW_LIMIT { snapshot.records.len() } else { PREVIEW_LIMIT }
}

/// The document an export writes: every record of the scan, with the
/// scan's metadata and the time the export took.
pub fn export_document(settings: &ExportSettings, snapshot: &PreviewSnapshot, exported_at: &Timestamp, export_duration_ms: u128) -> (r: Result<String, XmlExportError>)
    requires
        exported_at.wf(),
    ensures
        r is Ok,
        r matches Ok(text) ==> exists|m: ExportMetadata|
            is_snapshot_metadata(m, *settings, *snapshot, export_duration_ms)
            && is_document_text(text@, #[trigger] document_events(*settings, snapshot.records@, rfc3339_text(*exported_at), m)),
{
    let metadata = metadata_from_snapshot(settings, snapshot, export_duration_ms);
    let r = build_xml_document(settings, snapshot.records.as_slice(), exported_at, &metadata);
    proof {
        assert(is_snapshot_metadata(metadata, *settings, *snapshot, export_duration_ms));
    }
    r
}

/// The `source` attribute of a document's root `events` element, when the
/// root carries `source` and `exported_at`.
pub open spec fn source_attribute(events: Seq<XmlEvent>) -> Option<Seq<char>> {
    if events.len() > 1 {
        match events[1] {
            XmlEvent::Start { name, attributes } => if name == "events"@ && attributes.len() == 2 && attributes[0].0 == "source"@ {
                Some(attributes[0].1)
            } else {
                None
            },
            _ => None,
        }
    } else {
        None
    }
}

/// An export names the log it was made from: the document's root element
/// is `events`, its `source` attribute is `System`, `Application` or
/// `Security` as the settings' log is, and its `exported_at` attribute is
/// the export time; documents of different logs differ there.
pub proof fn lemma_document_names_its_log(
    settings: ExportSettings,
    records: Seq<EventRecord>,
    exported_at: Seq<char>,
    metadata: ExportMetadata,
)
    ensures
        source_attribute(document_events(settings, records, exported_at, metadata)) == Some(match settings.source {
            LogSource::System => "System"@,
            LogSource::Application => "Application"@,
            LogSource::Security => "Security"@,
        }),
        document_events(settings, records, exported_at, metadata)[1] matches XmlEvent::Start { name, attributes }
            && attributes.len() == 2 && attributes[1] == ("exported_at"@, exported_at),
        forall|other: ExportSettings, r2: Seq<EventRecord>, at2: Seq<char>, m2: ExportMetadata|
            other.source != settings.source ==> #[trigger] source_attribute(document_events(other, r2, at2, m2))
                != source_attribute(document_events(settings, records, exported_at, metadata)),
{
    reveal_strlit("System");
    reveal_strlit("Application");
    reveal_strlit("Security");
    let d = document_events(settings, records, exported_at, metadata);
    assert(d[1] == XmlEvent::Start { name: "events"@, attributes: seq![("source"@, log_source_name(settings.source)), ("exported_at"@, exported_at)] });
    assert forall|other: ExportSettings, r2: Seq<EventRecord>, at2: Seq<char>, m2: ExportMetadata|
        other.source != settings.source implies #[trigger] source_attribute(document_events(other, r2, at2, m2))
            != source_attribute(d) by {
        let d2 = document_events(other, r2, at2, m2);
        assert(d2[1] == XmlEvent::Start { name: "events"@, attributes: seq![("source"@, log_source_name(other.source)), ("exported_at"@, at2)] });
        assert(log_source_name(other.source) != log_source_name(settings.source)) by {
            reveal_strlit("System");
            reveal_strlit("Application");
            reveal_strlit("Security");
            assert("System"@.len() == 6);
            assert("Security"@.len() == 8);
            assert("Application"@.len() == 11);
        }
    }
}

} // verus!
