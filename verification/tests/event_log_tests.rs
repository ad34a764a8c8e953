use event_xml_exporter::domain::{ExportSettings, LogSource};
use event_xml_exporter::event_log::{
    assemble_record, complete_scan, decode_utf16_lossy, level_name, next_record, parse_record,
    read_insertion_strings, read_record_header, read_utf16_c_string, recover_from_read_failure,
    scan_cancelled_message, scan_chunk, EventLogProgress, EventLogQuery, EventLogService, ProgressSink,
    ReadFailure, ReadRecovery, RecordHeader, ScanCancelled, ScanController, ScanState,
    StubEventLogService, RECORD_HEADER_LEN,
};
use std::sync::atomic::AtomicBool;
use std::sync::{Arc, Mutex};
use event_xml_exporter::timestamp::format_timestamp;

fn utf16z(s: &str) -> Vec<u8> {
    let mut out = Vec::new();
    for unit in s.encode_utf16() {
        out.extend_from_slice(&unit.to_le_bytes());
    }
    out.extend_from_slice(&[0, 0]);
    out
}

/// A raw event log record with the given fields and strings.
fn raw_record(event_id: u32, event_type: u16, provider: &str, computer: &str, strings: &[&str]) -> Vec<u8> {
    let mut body = Vec::new();
    body.extend(utf16z(provider));
    body.extend(utf16z(computer));
    let string_offset = (RECORD_HEADER_LEN + body.len()) as u32;
    for s in strings {
        body.extend(utf16z(s));
    }
    let length = (RECORD_HEADER_LEN + body.len()) as u32;
    let mut header = Vec::new();
    for v in [length, 0, 7, 1_711_234_567, 1_711_234_567, event_id] {
        header.extend_from_slice(&v.to_le_bytes());
    }
    for v in [event_type, strings.len() as u16, 0, 0] {
        header.extend_from_slice(&v.to_le_bytes());
    }
    for v in [0u32, string_offset, 0, 0, 0, 0] {
        header.extend_from_slice(&v.to_le_bytes());
    }
    assert_eq!(header.len(), RECORD_HEADER_LEN);
    header.extend(body);
    header
}

#[test]
fn utf16_string_reader_advances_to_next_string() {
    let bytes = [
        b'T', 0, b'e', 0, b's', 0, b't', 0, 0, 0, b'O', 0, b'K', 0, 0, 0,
    ];

    let (first, offset) = read_utf16_c_string(&bytes, 0);
    let (second, _) = read_utf16_c_string(&bytes, offset);

    assert_eq!(first, "Test");
    assert_eq!(second, "OK");
}

#[test]
fn utf16_reader_edges() {
    assert_eq!(read_utf16_c_string(&[b'A', 0, b'B'], 0), ("A".to_owned(), 2));
    assert_eq!(read_utf16_c_string(&[b'A', 0], 5), (String::new(), 5));
    assert_eq!(read_utf16_c_string(&[b'A'], 0), (String::new(), 0));
    assert_eq!(read_utf16_c_string(&[0, 0, b'A', 0], 0), (String::new(), 2));
}

#[test]
fn utf16_decoding_is_lossy_like_std() {
    let cases: Vec<Vec<u16>> = vec![
        vec![],
        vec![0x41, 0x11e, 0x20],
        vec![0xD83D, 0xDE00],
        vec![0xD83D],
        vec![0xDE00, 0x41],
        vec![0xD83D, 0x41, 0xDE00],
    ];
    for units in cases {
        assert_eq!(decode_utf16_lossy(&units), String::from_utf16_lossy(&units));
    }
}

#[test]
fn timestamp_is_rendered_as_rfc3339() {
    assert!(format_timestamp(1_711_234_567).contains('T'));
}

#[test]
fn record_header_can_be_read_from_unaligned_buffer() {
    let mut bytes = vec![0_u8; RECORD_HEADER_LEN + 1];
    bytes[1..5].copy_from_slice(&(56_u32).to_le_bytes());

    let header = read_record_header(&bytes, 1).expect("header should be readable");

    assert_eq!(header.length, 56);
}

#[test]
fn record_header_needs_the_whole_header() {
    let bytes = vec![0_u8; RECORD_HEADER_LEN];
    assert!(read_record_header(&bytes, 0).is_some());
    assert!(read_record_header(&bytes, 1).is_none());
    assert!(read_record_header(&bytes, usize::MAX).is_none());
}

#[test]
fn record_fields_are_read_little_endian() {
    let raw = raw_record(0x0001_1A2B, 4, "P", "C", &["x"]);
    let header = read_record_header(&raw, 0).unwrap();
    assert_eq!(header.event_id, 0x0001_1A2B);
    assert_eq!(header.event_type, 4);
    assert_eq!(header.num_strings, 1);
    assert_eq!(header.time_generated, 1_711_234_567);
    assert_eq!(header.length as usize, raw.len());
}

#[test]
fn levels_are_named() {
    assert_eq!(level_name(1), "Hata");
    assert_eq!(level_name(2), "Uyarı");
    assert_eq!(level_name(4), "Bilgi");
    assert_eq!(level_name(8), "Denetim Başarılı");
    assert_eq!(level_name(16), "Denetim Başarısız");
    assert_eq!(level_name(0), "Başarılı");
    assert_eq!(level_name(3), "Bilinmiyor");
}

#[test]
fn records_are_decoded() {
    let raw = raw_record(0x8000_0029, 1, "Kernel-Power", "LAB-PC", &["one", "", "two"]);
    let header = read_record_header(&raw, 0).unwrap();
    let strings = read_insertion_strings(&raw, &header);
    assert_eq!(strings, vec!["one", "two"]);
    let record = assemble_record(&raw, &header, "zaman".to_owned());
    assert_eq!(record.event_id, 41);
    assert_eq!(record.provider, "Kernel-Power");
    assert_eq!(record.computer, "LAB-PC");
    assert_eq!(record.level, "Hata");
    assert_eq!(record.created_at, "zaman");
    assert_eq!(record.message, "one | two");
    let parsed = parse_record(&raw, &header);
    assert!(parsed.created_at.contains('T'));
    let created = chrono::DateTime::parse_from_rfc3339(&parsed.created_at).unwrap();
    assert_eq!(created.timestamp(), i64::from(header.time_generated));
    assert_eq!(parsed.message, record.message);
}

#[test]
fn records_without_strings_get_a_note() {
    let raw = raw_record(6008, 2, "", "", &[]);
    let header = read_record_header(&raw, 0).unwrap();
    let record = assemble_record(&raw, &header, String::new());
    assert_eq!(record.provider, "Bilinmeyen");
    assert_eq!(record.computer, "Bilinmeyen");
    assert_eq!(record.message, "Bilinmeyen kaynağındaki Event ID 6008 için ileti çözümlenemedi.");
}

fn query(ids: Vec<u32>, max_events: Option<usize>) -> EventLogQuery {
    let settings = ExportSettings {
        source: LogSource::System,
        max_events,
        export_all: max_events.is_none(),
        output_path: "x.xml".to_owned(),
        selected_event_ids: ids,
    };
    EventLogQuery::from_settings(&settings)
}

#[test]
fn query_follows_settings() {
    let settings = ExportSettings {
        source: LogSource::Security,
        max_events: Some(5),
        export_all: true,
        output_path: "x.xml".to_owned(),
        selected_event_ids: vec![4625],
    };
    let q = EventLogQuery::from_settings(&settings);
    assert_eq!(q.source, LogSource::Security);
    assert_eq!(q.event_ids, vec![4625]);
    assert_eq!(q.max_events, None);
}

/// Collects the progress reports of a scan.
struct Recorder {
    reports: Mutex<Vec<(String, usize, usize)>>,
}

impl ProgressSink for Recorder {
    fn report(&self, progress: EventLogProgress) {
        self.reports
            .lock()
            .unwrap()
            .push((progress.current_log, progress.scanned_records, progress.matched_records));
    }
}

fn recording_controller(cancelled: bool) -> (ScanController, Arc<Recorder>) {
    let recorder = Arc::new(Recorder { reports: Mutex::new(Vec::new()) });
    let sink: Arc<dyn ProgressSink> = recorder.clone();
    (ScanController::new(Arc::new(AtomicBool::new(cancelled)), Some(sink)), recorder)
}

#[test]
fn scan_controller_starts_not_cancelled() {
    let controller = ScanController::new(Arc::new(AtomicBool::new(false)), None);
    assert!(!controller.is_cancelled());
}

#[test]
fn scan_controller_sees_the_shared_flag() {
    let flag = Arc::new(AtomicBool::new(false));
    let controller = ScanController::new(flag.clone(), None);
    flag.store(true, std::sync::atomic::Ordering::Relaxed);
    assert!(controller.is_cancelled());
    controller.report(EventLogProgress::default());
}

#[test]
fn scan_keeps_matches_up_to_the_limit() {
    let mut chunk = Vec::new();
    chunk.extend(raw_record(41, 1, "Kernel-Power", "PC-B", &["a"]));
    chunk.extend(raw_record(7, 4, "Other", "PC-Z", &["b"]));
    chunk.extend(raw_record(55, 1, "Ntfs", "PC-A", &["c"]));
    chunk.extend(raw_record(41, 1, "Kernel-Power", "PC-B", &["d"]));
    chunk.extend([1, 2, 3]);
    let q = query(vec![41, 55], Some(2));
    let mut state = ScanState::new();
    let (controller, recorder) = recording_controller(false);
    assert_eq!(scan_chunk(&mut state, &q, &chunk, &controller), Ok(()));
    assert!(recorder.reports.lock().unwrap().is_empty());
    let progress = state.progress(q.source);
    assert_eq!(progress.current_log, "Sistem");
    assert_eq!((progress.scanned_records, progress.matched_records), (4, 3));
    let snapshot = state.finish(&q, 9);
    assert_eq!(snapshot.scanned_records, 4);
    assert_eq!(snapshot.analytics.total_logs_found, 3);
    assert_eq!(snapshot.analytics.queue_size, 2);
    assert_eq!(snapshot.records.len(), snapshot.analytics.queue_size);
    assert_eq!(snapshot.records[0].message, "a");
    assert_eq!(snapshot.records[1].message, "c");
    assert_eq!(snapshot.event_id_counts.get(&41), Some(&2));
    assert_eq!(snapshot.event_id_counts.get(&55), Some(&1));
    assert_eq!(snapshot.event_id_counts.get(&7), None);
    assert_eq!(snapshot.providers, vec!["Kernel-Power", "Ntfs"]);
    assert_eq!(snapshot.machine_names, vec!["PC-A", "PC-B"]);
    assert_eq!(snapshot.duration_ms, 9);
}

#[test]
fn scan_reports_progress_every_250_records() {
    let mut chunk = Vec::new();
    for _ in 0..500 {
        chunk.extend(raw_record(1, 4, "P", "C", &[]));
    }
    let q = query(vec![41], None);
    let mut state = ScanState::new();
    let (controller, recorder) = recording_controller(false);
    assert_eq!(scan_chunk(&mut state, &q, &chunk, &controller), Ok(()));
    assert_eq!(
        *recorder.reports.lock().unwrap(),
        vec![("Sistem".to_owned(), 250, 0), ("Sistem".to_owned(), 500, 0)]
    );
    let snapshot = complete_scan(state, &q, &controller, 0);
    assert_eq!(recorder.reports.lock().unwrap().len(), 3);
    assert_eq!(recorder.reports.lock().unwrap()[2], ("Sistem".to_owned(), 500, 0));
    assert_eq!(snapshot.scanned_records, 500);
    assert_eq!(snapshot.analytics.queue_size, 0);
    assert!(snapshot.providers.is_empty());
}

#[test]
fn walking_stops_at_broken_records() {
    let mut raw = raw_record(41, 1, "P", "C", &[]);
    raw[0..4].copy_from_slice(&0u32.to_le_bytes());
    assert!(next_record(&raw, 0).is_none());
    let mut raw = raw_record(41, 1, "P", "C", &[]);
    let too_long = raw.len() as u32 + 1;
    raw[0..4].copy_from_slice(&too_long.to_le_bytes());
    assert!(next_record(&raw, 0).is_none());
}

#[test]
fn read_failures_are_recovered_as_documented() {
    assert_eq!(recover_from_read_failure(ReadFailure::EndOfLog, 0, 10), ReadRecovery::Finish);
    assert_eq!(recover_from_read_failure(ReadFailure::InsufficientBuffer, 100, 10), ReadRecovery::GrowBuffer(100));
    assert_eq!(recover_from_read_failure(ReadFailure::InsufficientBuffer, 10, 10), ReadRecovery::Fail);
    assert_eq!(recover_from_read_failure(ReadFailure::Other, 100, 10), ReadRecovery::Fail);
}

#[test]
fn header_struct_is_plain_data() {
    let h = RecordHeader {
        length: 1, reserved: 0, record_number: 0, time_generated: 0, time_written: 0, event_id: 0,
        event_type: 0, num_strings: 0, event_category: 0, reserved_flags: 0, closing_record_number: 0,
        string_offset: 0, user_sid_length: 0, user_sid_offset: 0, data_length: 0, data_offset: 0,
    };
    assert_eq!(h, h.clone());
}

#[test]
fn cancelled_scan_takes_in_nothing() {
    let mut chunk = Vec::new();
    chunk.extend(raw_record(41, 1, "P", "C", &[]));
    let q = query(vec![41], None);
    let mut state = ScanState::new();
    let (controller, recorder) = recording_controller(true);
    assert_eq!(scan_chunk(&mut state, &q, &chunk, &controller), Err(ScanCancelled));
    assert_eq!(state.scanned_total, 0);
    assert!(recorder.reports.lock().unwrap().is_empty());
    assert_eq!(scan_cancelled_message(), "Tarama kullanıcı tarafından iptal edildi");
}

#[test]
fn scanning_continues_over_chunks() {
    let q = query(vec![55], Some(10));
    let mut state = ScanState::new();
    let controller = ScanController::new(Arc::new(AtomicBool::new(false)), None);
    let first = raw_record(55, 2, "Ntfs", "PC-A", &["x"]);
    let mut second = raw_record(55, 2, "Ntfs", "PC-A", &["y"]);
    second.extend(raw_record(41, 2, "Other", "PC-A", &["z"]));
    assert_eq!(scan_chunk(&mut state, &q, &first, &controller), Ok(()));
    assert_eq!(scan_chunk(&mut state, &q, &second, &controller), Ok(()));
    assert_eq!(scan_chunk(&mut state, &q, &[], &controller), Ok(()));
    let snapshot = complete_scan(state, &q, &controller, 3);
    assert_eq!(snapshot.scanned_records, 3);
    assert_eq!(snapshot.analytics.total_logs_found, 2);
    assert_eq!(snapshot.records.len(), 2);
    assert_eq!(snapshot.records[1].level, "Uyarı");
    assert_eq!(snapshot.providers, vec!["Ntfs"]);
}

#[test]
fn stub_service_refuses_to_scan() {
    let controller = ScanController::new(Arc::new(AtomicBool::new(false)), None);
    let result = StubEventLogService.scan(&query(vec![41], None), controller);
    assert_eq!(
        result.err(),
        Some("Gerçek Event Log okuma yalnızca Windows üzerinde destekleniyor".to_owned())
    );
}

#[test]
fn rendered_timestamps_denote_the_given_instant() {
    for seconds in [0u32, 1_711_234_567, 951_782_400, u32::MAX] {
        let text = format_timestamp(seconds);
        let parsed = chrono::DateTime::parse_from_rfc3339(&text).unwrap();
        assert_eq!(parsed.timestamp(), i64::from(seconds));
    }
}

#[test]
fn encoded_strings_read_back() {
    for text in ["Test", "Ağ😀", ""] {
        let mut bytes = utf16z(text);
        bytes.extend([b'X', 0, 7]);
        let units = text.encode_utf16().count();
        assert_eq!(read_utf16_c_string(&bytes, 0), (text.to_owned(), 2 * units + 2));
    }
}

#[test]
fn reader_stays_within_the_buffer() {
    let bytes = [b'A', 0, b'B'];
    assert_eq!(read_utf16_c_string(&bytes, 2), (String::new(), 2));
    assert_eq!(read_utf16_c_string(&bytes, 9), (String::new(), 9));
    let (s, offset) = read_utf16_c_string(&bytes, 0);
    assert_eq!(s, "A");
    assert_eq!(offset, 2);
}

#[test]
fn short_chunks_are_taken_without_asking() {
    let q = query(vec![41], None);
    let mut state = ScanState::new();
    let (controller, _recorder) = recording_controller(true);
    assert_eq!(scan_chunk(&mut state, &q, &[1, 2, 3], &controller), Ok(()));
    assert_eq!(state.scanned_total, 0);
}

#[test]
fn distribution_lists_ids_in_order() {
    let mut counts = std::collections::BTreeMap::new();
    counts.insert(6008u32, 2usize);
    counts.insert(41, 7);
    counts.insert(55, 1);
    assert_eq!(event_xml_exporter::event_log::event_id_distribution(&counts), "41 (7), 55 (1), 6008 (2)");
    assert_eq!(event_xml_exporter::event_log::event_id_distribution(&std::collections::BTreeMap::new()), "");
}
