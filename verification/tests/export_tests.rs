use chrono::{Datelike, Local, TimeZone, Timelike};
use event_xml_exporter::domain::{EventRecord, ExportSettings, LogSource};
use event_xml_exporter::event_log::PreviewSnapshot;
use event_xml_exporter::export::{build_preview_xml, build_xml_document, metadata_from_snapshot, ExportMetadata};
use event_xml_exporter::naming::{
    default_file_name, file_name_with_stem, refresh_timestamped_name, strip_timestamp_suffix,
    unique_file_name,
};
use event_xml_exporter::timestamp::{compact_stamp, rfc3339, Timestamp};
use std::collections::BTreeMap;

fn local_timestamp(dt: chrono::DateTime<Local>) -> Timestamp {
    Timestamp {
        year: dt.year(),
        month: dt.month(),
        day: dt.day(),
        hour: dt.hour(),
        minute: dt.minute(),
        second: dt.second(),
        nanosecond: dt.nanosecond(),
        utc_offset_seconds: dt.offset().local_minus_utc(),
    }
}

fn local(y: i32, mo: u32, d: u32, h: u32, mi: u32, s: u32) -> Timestamp {
    local_timestamp(Local.with_ymd_and_hms(y, mo, d, h, mi, s).unwrap())
}

fn fixed(y: i32, mo: u32, d: u32, h: u32, mi: u32, s: u32, nano: u32, offset: i32) -> Timestamp {
    Timestamp { year: y, month: mo, day: d, hour: h, minute: mi, second: s, nanosecond: nano, utc_offset_seconds: offset }
}

fn demo_settings() -> ExportSettings {
    ExportSettings {
        source: LogSource::System,
        max_events: Some(50),
        export_all: false,
        output_path: "demo.xml".to_owned(),
        selected_event_ids: vec![41, 55],
    }
}

fn demo_record() -> EventRecord {
    EventRecord {
        event_id: 41,
        provider: "Kernel-Power".to_owned(),
        level: "Error".to_owned(),
        computer: "LAB-PC".to_owned(),
        created_at: "2026-03-24T01:27:36+03:00".to_owned(),
        message: "Sistem beklenmedik bir şekilde kapandı.".to_owned(),
    }
}

#[test]
fn xml_document_contains_root_metadata() {
    let settings = demo_settings();
    let records = vec![demo_record()];
    let metadata = ExportMetadata {
        machine_names: vec!["LAB-PC".to_owned()],
        providers: vec!["Kernel-Power".to_owned()],
        record_count: 1,
        filter_ids: vec![41, 55],
        export_duration_ms: 145,
        scanned_records: 30,
    };

    let xml = build_xml_document(&settings, &records, &local(2026, 3, 24, 1, 27, 36), &metadata)
        .expect("xml should be created");

    assert!(xml.contains("source=\"System\""));
    assert!(xml.contains("exported_at=\"2026-03-24T01:27:36"));
    assert!(xml.contains("<record_count>1</record_count>"));
    assert!(xml.contains("<filter_ids>41,55</filter_ids>"));
}

#[test]
fn xml_document_has_the_expected_layout() {
    let settings = demo_settings();
    let records = vec![demo_record()];
    let metadata = ExportMetadata {
        machine_names: vec!["LAB-PC".to_owned(), "SRV".to_owned()],
        providers: vec!["Kernel-Power".to_owned()],
        record_count: 1,
        filter_ids: vec![41, 55],
        export_duration_ms: 145,
        scanned_records: 30,
    };
    let xml = build_xml_document(&settings, &records, &fixed(2026, 3, 24, 1, 27, 36, 0, 3 * 3600), &metadata).unwrap();
    let expected = "<?xml version=\"1.0\" encoding=\"UTF-8\"?>\n\
<events source=\"System\" exported_at=\"2026-03-24T01:27:36+03:00\">\n  \
<metadata>\n    \
<selection_count>2</selection_count>\n    \
<limit_mode>limited</limit_mode>\n    \
<max_events>50</max_events>\n    \
<record_count>1</record_count>\n    \
<scanned_records>30</scanned_records>\n    \
<filter_ids>41,55</filter_ids>\n    \
<machine_names>LAB-PC,SRV</machine_names>\n    \
<providers>Kernel-Power</providers>\n    \
<export_duration_ms>145</export_duration_ms>\n  \
</metadata>\n  \
<records>\n    \
<event id=\"41\">\n      \
<provider>Kernel-Power</provider>\n      \
<level>Error</level>\n      \
<computer>LAB-PC</computer>\n      \
<created_at>2026-03-24T01:27:36+03:00</created_at>\n      \
<message>Sistem beklenmedik bir şekilde kapandı.</message>\n    \
</event>\n  \
</records>\n\
</events>";
    assert_eq!(xml, expected);
}

#[test]
fn xml_document_for_all_records_without_limit() {
    let mut settings = demo_settings();
    settings.export_all = true;
    let mut record = demo_record();
    record.message = "a < b & \"c\"".to_owned();
    let xml = build_xml_document(&settings, &[record], &fixed(2026, 1, 2, 3, 4, 5, 0, 0), &ExportMetadata::default()).unwrap();
    assert!(xml.contains("<limit_mode>all_matching</limit_mode>"));
    assert!(xml.contains("<max_events>unlimited</max_events>"));
    assert!(xml.contains("<message>a &lt; b &amp; &quot;c&quot;</message>"));
    assert!(xml.contains("exported_at=\"2026-01-02T03:04:05+00:00\""));
    assert!(xml.contains("<filter_ids></filter_ids>"));
}

#[test]
fn xml_document_without_records() {
    let xml = build_xml_document(&demo_settings(), &[], &fixed(2026, 1, 2, 3, 4, 5, 0, 0), &ExportMetadata::default()).unwrap();
    assert!(xml.contains("<records>\n  </records>"));
}

#[test]
fn metadata_from_snapshot_collects_summary_fields() {
    let settings = demo_settings();

    let snapshot = PreviewSnapshot {
        records: vec![],
        analytics: Default::default(),
        scanned_records: 90,
        event_id_counts: BTreeMap::new(),
        providers: vec!["Kernel-Power".to_owned()],
        machine_names: vec!["LAB-PC".to_owned()],
        duration_ms: 33,
    };

    let metadata = metadata_from_snapshot(&settings, &snapshot, 88);
    assert_eq!(metadata.scanned_records, 90);
    assert_eq!(metadata.providers, vec!["Kernel-Power"]);
    assert_eq!(metadata.filter_ids, vec![41, 55]);
    assert_eq!(metadata.export_duration_ms, 88);
}

#[test]
fn preview_is_limited_to_twenty_records() {
    let mut snapshot = PreviewSnapshot::default();
    for i in 0..25u32 {
        let mut r = demo_record();
        r.event_id = 1000 + i;
        snapshot.records.push(r);
    }
    snapshot.duration_ms = 12;
    let xml = build_preview_xml(&demo_settings(), &snapshot, &fixed(2026, 3, 24, 1, 27, 36, 0, 0)).unwrap();
    assert_eq!(xml.matches("<event id=").count(), 20);
    assert!(xml.contains("<event id=\"1019\">"));
    assert!(!xml.contains("<event id=\"1020\">"));
    assert!(xml.contains("<export_duration_ms>12</export_duration_ms>"));
}

#[test]
fn default_file_name_uses_expected_timestamp_pattern() {
    let timestamp = local(2026, 3, 24, 1, 27, 36);
    assert_eq!(default_file_name(&timestamp), "GNN_Export_20260324_012736.xml");
}

#[test]
fn unique_output_path_adds_suffix_when_file_exists() {
    let now = local(2026, 3, 24, 1, 27, 36);
    assert_eq!(unique_file_name(Some("demo"), Some("xml"), &now), "demo_20260324_012736.xml");
}

#[test]
fn unique_file_name_falls_back_to_defaults() {
    let now = fixed(2026, 3, 24, 1, 27, 36, 0, 0);
    assert_eq!(unique_file_name(None, None, &now), "GNN_Export_20260324_012736.xml");
    assert_eq!(unique_file_name(Some("rapor"), None, &now), "rapor_20260324_012736.xml");
}

#[test]
fn resolve_export_path_refreshes_existing_timestamp_without_chaining() {
    let now = local(2026, 3, 24, 2, 48, 14);
    let refreshed = refresh_timestamped_name("GNN_Export_20260324_024734", Some("xml"), &now);
    assert_eq!(refreshed.as_deref(), Some("GNN_Export_20260324_024814.xml"));
}

#[test]
fn refreshing_twice_keeps_a_single_stamp() {
    let first = refresh_timestamped_name("kayit_20250101_000000", None, &fixed(2026, 3, 24, 2, 48, 14, 0, 0)).unwrap();
    assert_eq!(first, "kayit_20260324_024814");
    let second = refresh_timestamped_name(&first, None, &fixed(2027, 1, 1, 0, 0, 1, 0, 0)).unwrap();
    assert_eq!(second, "kayit_20270101_000001");
}

#[test]
fn stamps_are_recognised_only_in_full() {
    assert_eq!(strip_timestamp_suffix("GNN_Export_20260324_024734"), Some("GNN_Export"));
    assert_eq!(strip_timestamp_suffix("_20260324_024734"), None);
    assert_eq!(strip_timestamp_suffix("demo"), None);
    assert_eq!(strip_timestamp_suffix("demo_2026032a_024734"), None);
    assert_eq!(strip_timestamp_suffix("demo-20260324_024734"), None);
    assert_eq!(strip_timestamp_suffix("demo_20260324-024734"), None);
    assert_eq!(strip_timestamp_suffix("ğ_20260324_024734"), Some("ğ"));
    assert_eq!(refresh_timestamped_name("demo", Some("xml"), &fixed(2026, 1, 1, 0, 0, 0, 0, 0)), None);
}

#[test]
fn names_with_and_without_extension() {
    let now = fixed(2026, 3, 24, 1, 27, 36, 0, 0);
    assert_eq!(file_name_with_stem("a", Some("txt"), &now), "a_20260324_012736.txt");
    assert_eq!(file_name_with_stem("a", None, &now), "a_20260324_012736");
}

#[test]
fn compact_stamps_and_rfc3339() {
    assert_eq!(compact_stamp(&fixed(999, 1, 2, 3, 4, 5, 0, 0)), "09990102_030405");
    assert_eq!(compact_stamp(&fixed(12345, 12, 31, 23, 59, 59, 1_500_000_000, 0)), "+123451231_235960");
    assert_eq!(compact_stamp(&fixed(-44, 3, 15, 0, 0, 0, 0, 0)), "-00440315_000000");
    assert_eq!(rfc3339(&fixed(2026, 3, 24, 1, 27, 36, 0, -5 * 3600)), "2026-03-24T01:27:36-05:00");
    assert_eq!(rfc3339(&fixed(2026, 3, 24, 1, 27, 36, 250_000_000, 0)), "2026-03-24T01:27:36.250+00:00");
}

#[test]
fn stems_cut_inside_a_character_have_no_stamp() {
    assert_eq!(strip_timestamp_suffix("şablon_rapor_v23"), None);
    assert_eq!(refresh_timestamped_name("şablon_rapor_v23", Some("xml"), &fixed(2026, 1, 1, 0, 0, 0, 0, 0)), None);
}

#[test]
fn refreshing_replaces_any_old_stamp() {
    let now = fixed(2026, 3, 24, 2, 48, 14, 0, 0);
    let a = refresh_timestamped_name("rapor_20250101_000000", Some("xml"), &now);
    let b = refresh_timestamped_name("rapor_19991231_235959", Some("xml"), &now);
    assert_eq!(a, Some("rapor_20260324_024814.xml".to_owned()));
    assert_eq!(a, b);
}

#[test]
fn export_documents_hold_every_record() {
    let settings = demo_settings();
    let mut snapshot = PreviewSnapshot::default();
    for _ in 0..25 {
        snapshot.records.push(demo_record());
    }
    let doc = event_xml_exporter::export::export_document(&settings, &snapshot, &fixed(2026, 3, 24, 1, 27, 36, 0, 10800), 7)
        .expect("xml should be created");
    assert_eq!(doc.matches("<event id=").count(), 25);
    assert!(doc.contains("<export_duration_ms>7</export_duration_ms>"));
    assert_eq!(event_xml_exporter::export::previewed_record_count(&snapshot), 20);
    snapshot.records.truncate(3);
    assert_eq!(event_xml_exporter::export::previewed_record_count(&snapshot), 3);
}

#[test]
fn any_stamp_digits_are_replaced() {
    let now = fixed(2026, 3, 24, 2, 48, 14, 0, 0);
    let refreshed = refresh_timestamped_name("rapor_99999999_999999", None, &now);
    assert_eq!(refreshed, Some("rapor_20260324_024814".to_owned()));
}

#[test]
fn rfc3339_text_follows_chrono_rules() {
    assert_eq!(rfc3339(&fixed(2026, 3, 24, 1, 27, 36, 120_000, 0)), "2026-03-24T01:27:36.000120+00:00");
    assert_eq!(rfc3339(&fixed(2026, 3, 24, 1, 27, 36, 5, 0)), "2026-03-24T01:27:36.000000005+00:00");
    assert_eq!(rfc3339(&fixed(2016, 12, 31, 23, 59, 59, 1_500_000_000, 0)), "2016-12-31T23:59:60.500+00:00");
    assert_eq!(rfc3339(&fixed(2026, 1, 2, 3, 4, 5, 0, 19_800 + 45)), "2026-01-02T03:04:05+05:31");
    assert_eq!(rfc3339(&fixed(2026, 1, 2, 3, 4, 5, 0, -(3600 + 29))), "2026-01-02T03:04:05-01:00");
    assert_eq!(rfc3339(&fixed(-5, 1, 2, 3, 4, 5, 0, 0)), "-0005-01-02T03:04:05+00:00");
    assert_eq!(rfc3339(&fixed(12345, 1, 2, 3, 4, 5, 0, 0)), "+12345-01-02T03:04:05+00:00");
}
