use event_xml_exporter::domain::{AnalyticsSnapshot, JobStatus, LogSource};
use event_xml_exporter::event_log::{EventLogProgress, PreviewSnapshot};
use event_xml_exporter::session::{
    format_list_preview, panic_message, parse_positive_usize, preview_placeholder_text, ActiveTask,
    EventXmlExporterApp, ExportTaskSuccess, FinishedTask, PreviewRequest, PreviewTaskSuccess,
};

fn session() -> EventXmlExporterApp {
    EventXmlExporterApp::new("C:\\Temp\\out.xml".to_owned())
}

fn ids(app: &EventXmlExporterApp) -> Vec<u32> {
    app.events.iter().map(|e| e.event_id).collect()
}

fn snapshot(scanned: usize, found: usize) -> PreviewSnapshot {
    let mut s = PreviewSnapshot::default();
    s.scanned_records = scanned;
    s.analytics = AnalyticsSnapshot { total_logs_found: found, queue_size: found };
    s
}

#[test]
fn a_new_session_is_ready_with_the_presets() {
    let app = session();
    assert_eq!(app.log_source, LogSource::System);
    assert_eq!(app.max_events_input, "1000");
    assert!(!app.export_all);
    assert_eq!(app.output_path_input, "C:\\Temp\\out.xml");
    assert_eq!(ids(&app), vec![41, 55, 6008, 6005, 6006, 1001]);
    assert!(app.events.iter().all(|e| e.selected));
    assert_eq!(app.preview_xml, preview_placeholder_text());
    assert!(app.preview_xml.contains("Önizleme hazırlanıyor..."));
    assert_eq!(app.active_task, None);
    assert_eq!(app.status, JobStatus::Ready);
    assert_eq!(app.status_message, "Hazır. Gerçek Windows günlükleri taranabilir.");
    assert_eq!(app.last_error, None);
    assert_eq!(app.active_log_name(), "Sistem");
}

#[test]
fn settings_are_collected_from_the_inputs() {
    let mut app = session();
    app.output_path_input = "  C:\\Temp\\x.xml ".to_owned();
    app.max_events_input = " 25 ".to_owned();
    app.events[1].selected = false;
    let settings = app.collect_settings().expect("settings should be valid");
    assert_eq!(settings.source, LogSource::System);
    assert_eq!(settings.max_events, Some(25));
    assert!(!settings.export_all);
    assert_eq!(settings.output_path, "C:\\Temp\\x.xml");
    assert_eq!(settings.selected_event_ids, vec![41, 6008, 6005, 6006, 1001]);
    assert_eq!(app.selected_event_ids(), vec![41, 6008, 6005, 6006, 1001]);
}

#[test]
fn settings_errors_come_in_order() {
    let mut app = session();
    app.output_path_input = "   ".to_owned();
    app.max_events_input = "abc".to_owned();
    assert_eq!(app.collect_settings().err(), Some("Hedef dosya yolu boş bırakılamaz.".to_owned()));
    app.output_path_input = "x.xml".to_owned();
    for e in app.events.iter_mut() {
        e.selected = false;
    }
    assert_eq!(app.collect_settings().err(), Some("En az bir Event ID seçmelisiniz.".to_owned()));
    app.events[0].selected = true;
    assert_eq!(
        app.collect_settings().err(),
        Some("Maksimum kayıt alanı yalnızca pozitif sayı kabul eder.".to_owned())
    );
    app.max_events_input = "0".to_owned();
    assert_eq!(app.collect_settings().err(), Some("Maksimum kayıt değeri sıfır olamaz.".to_owned()));
    app.export_all = true;
    let settings = app.collect_settings().expect("the limit is ignored when exporting all");
    assert_eq!(settings.max_events, None);
    assert!(settings.export_all);
}

#[test]
fn record_limits_are_positive_numbers() {
    assert_eq!(parse_positive_usize(" 25 "), Ok(25));
    assert_eq!(parse_positive_usize("+7"), Ok(7));
    assert_eq!(parse_positive_usize("0"), Err("Maksimum kayıt değeri sıfır olamaz.".to_owned()));
    assert_eq!(
        parse_positive_usize("-3"),
        Err("Maksimum kayıt alanı yalnızca pozitif sayı kabul eder.".to_owned())
    );
    assert_eq!(
        parse_positive_usize(""),
        Err("Maksimum kayıt alanı yalnızca pozitif sayı kabul eder.".to_owned())
    );
}

#[test]
fn an_idle_session_starts_a_preview() {
    let mut app = session();
    app.last_error = Some("old".to_owned());
    match app.start_preview_scan() {
        PreviewRequest::Start(settings) => assert_eq!(settings.max_events, Some(1000)),
        _ => panic!("a preview should start"),
    }
    assert_eq!(app.active_task, Some(ActiveTask::Preview));
    assert_eq!(app.status, JobStatus::Work);
    assert_eq!(app.status_message, "Canlı önizleme güncelleniyor.");
    assert_eq!(app.last_error, None);
    assert_eq!(app.task_progress.scanned_records, 0);
}

#[test]
fn a_preview_request_cancels_a_running_preview() {
    let mut app = session();
    assert!(matches!(app.start_preview_scan(), PreviewRequest::Start(_)));
    assert!(matches!(app.start_preview_scan(), PreviewRequest::CancelRunning));
    assert!(app.pending_preview_refresh);
    assert_eq!(app.status_message, "Çalışan işlem iptal ediliyor.");
    assert_eq!(app.active_task, Some(ActiveTask::Preview));
}

#[test]
fn a_preview_request_waits_for_a_running_export() {
    let mut app = session();
    assert!(app.begin_export().is_some());
    assert_eq!(app.status_message, "Gerçek günlük kayıtları XML olarak dışa aktarılıyor.");
    assert!(matches!(app.start_preview_scan(), PreviewRequest::Nothing));
    assert!(app.pending_preview_refresh);
    assert_eq!(app.active_task, Some(ActiveTask::Export));
}

#[test]
fn a_preview_with_bad_settings_reports_the_error() {
    let mut app = session();
    app.output_path_input.clear();
    assert!(matches!(app.start_preview_scan(), PreviewRequest::Nothing));
    assert_eq!(app.status, JobStatus::Error);
    assert_eq!(app.status_message, "Önizleme hazırlanamadı.");
    assert_eq!(app.last_error, Some("Hedef dosya yolu boş bırakılamaz.".to_owned()));
    assert_eq!(app.active_task, None);
}

#[test]
fn exports_start_only_when_idle_and_valid() {
    let mut app = session();
    assert!(matches!(app.start_preview_scan(), PreviewRequest::Start(_)));
    assert!(app.begin_export().is_none());
    assert_eq!(app.status_message, "Önce çalışan işlemi tamamlayın ya da iptal edin.");
    let mut app = session();
    app.max_events_input = "x".to_owned();
    assert!(app.begin_export().is_none());
    assert_eq!(app.status, JobStatus::Error);
    assert_eq!(app.status_message, "Dışa aktarma başlatılamadı.");
    let mut app = session();
    let settings = app.begin_export().expect("export should start");
    assert_eq!(settings.output_path, "C:\\Temp\\out.xml");
    assert_eq!(app.active_task, Some(ActiveTask::Export));
}

#[test]
fn cancelling_only_asks_a_running_task() {
    let mut app = session();
    assert!(!app.cancel_background_task());
    assert_eq!(app.status_message, "Hazır. Gerçek Windows günlükleri taranabilir.");
    assert!(app.begin_export().is_some());
    assert!(app.cancel_background_task());
    assert_eq!(app.status_message, "Çalışan işlem iptal ediliyor.");
}

#[test]
fn progress_is_recorded_and_displayed() {
    let mut app = session();
    app.preview_snapshot = snapshot(10, 4);
    assert_eq!(app.displayed_scanned_records(), 10);
    assert_eq!(app.displayed_matched_records(), 4);
    app.apply_progress(EventLogProgress {
        current_log: "Uygulama".to_owned(),
        scanned_records: 250,
        matched_records: 3,
    });
    assert_eq!(app.displayed_scanned_records(), 250);
    assert_eq!(app.displayed_matched_records(), 4);
    assert_eq!(app.active_log_name(), "Uygulama");
}

#[test]
fn a_finished_preview_is_shown() {
    let mut app = session();
    assert!(matches!(app.start_preview_scan(), PreviewRequest::Start(_)));
    let finished = FinishedTask::Preview(Ok(PreviewTaskSuccess { snapshot: snapshot(7, 2), xml: "<events/>".to_owned() }));
    assert!(matches!(app.finish_task(finished), PreviewRequest::Nothing));
    assert_eq!(app.active_task, None);
    assert_eq!(app.preview_xml, "<events/>");
    assert_eq!(app.preview_snapshot.scanned_records, 7);
    assert_eq!(app.status, JobStatus::Ready);
    assert_eq!(app.status_message, "Canlı önizleme güncel.");
}

#[test]
fn a_cancelled_task_returns_to_ready() {
    let mut app = session();
    assert!(matches!(app.start_preview_scan(), PreviewRequest::Start(_)));
    let finished = FinishedTask::Preview(Err("Tarama kullanıcı tarafından iptal edildi".to_owned()));
    assert!(matches!(app.finish_task(finished), PreviewRequest::Nothing));
    assert_eq!(app.status, JobStatus::Ready);
    assert_eq!(app.status_message, "İşlem iptal edildi.");
    assert_eq!(app.last_error, None);
}

#[test]
fn a_failed_task_is_an_error() {
    let mut app = session();
    assert!(app.begin_export().is_some());
    let finished = FinishedTask::Export(Err("disk dolu".to_owned()));
    assert!(matches!(app.finish_task(finished), PreviewRequest::Nothing));
    assert_eq!(app.status, JobStatus::Error);
    assert_eq!(app.status_message, "Dışa aktarma tamamlanamadı.");
    assert_eq!(app.last_error, Some("disk dolu".to_owned()));
    let mut app = session();
    assert!(matches!(app.finish_task(FinishedTask::Disconnected), PreviewRequest::Nothing));
    assert_eq!(app.status_message, "Arka plan görevi yanıt vermiyor.");
    assert_eq!(app.last_error, Some("Arka plan görevi beklenmedik şekilde sonlandı.".to_owned()));
}

#[test]
fn a_finished_export_is_remembered() {
    let mut app = session();
    assert!(app.begin_export().is_some());
    let finished = FinishedTask::Export(Ok(ExportTaskSuccess {
        path: "C:\\Temp\\out_20260324_012736.xml".to_owned(),
        snapshot: snapshot(5, 5),
        preview_xml: "<events/>".to_owned(),
    }));
    assert!(matches!(app.finish_task(finished), PreviewRequest::Nothing));
    assert_eq!(app.status, JobStatus::Done);
    assert_eq!(app.status_message, "XML dışa aktarma tamamlandı.");
    assert_eq!(app.output_path_input, "C:\\Temp\\out_20260324_012736.xml");
    assert_eq!(app.last_generated_file, Some("C:\\Temp\\out_20260324_012736.xml".to_owned()));
    assert_eq!(app.preview_snapshot.analytics.total_logs_found, 5);
}

#[test]
fn a_pending_preview_starts_when_the_task_ends() {
    let mut app = session();
    assert!(matches!(app.start_preview_scan(), PreviewRequest::Start(_)));
    assert!(matches!(app.start_preview_scan(), PreviewRequest::CancelRunning));
    let finished = FinishedTask::Preview(Err("Tarama kullanıcı tarafından iptal edildi".to_owned()));
    assert!(matches!(app.finish_task(finished), PreviewRequest::Start(_)));
    assert!(!app.pending_preview_refresh);
    assert_eq!(app.active_task, Some(ActiveTask::Preview));
    assert_eq!(app.status, JobStatus::Work);
}

#[test]
fn adding_a_new_event_id_keeps_the_list_sorted() {
    let mut app = session();
    assert!(app.begin_export().is_some());
    app.new_event_id_input = " 4625 ".to_owned();
    app.new_event_label_input = "  ".to_owned();
    assert!(matches!(app.add_event_id(), PreviewRequest::Nothing));
    assert_eq!(ids(&app), vec![41, 55, 1001, 4625, 6005, 6006, 6008]);
    let added = app.events.iter().find(|e| e.event_id == 4625).unwrap();
    assert_eq!(added.label, "Özel Kural");
    assert!(added.selected);
    assert_eq!(app.status, JobStatus::Done);
    assert_eq!(app.status_message, "Event ID 4625 eklendi.");
    assert!(app.new_event_id_input.is_empty());
    assert!(app.new_event_label_input.is_empty());
    assert!(app.pending_preview_refresh);
}

#[test]
fn adding_a_known_event_id_updates_it() {
    let mut app = session();
    assert!(app.begin_export().is_some());
    app.events[1].selected = false;
    app.new_event_id_input = "55".to_owned();
    app.new_event_label_input = " Disk ".to_owned();
    assert!(matches!(app.add_event_id(), PreviewRequest::Nothing));
    assert_eq!(ids(&app), vec![41, 55, 6008, 6005, 6006, 1001]);
    assert_eq!(app.events[1].label, "Disk");
    assert!(app.events[1].selected);
    assert_eq!(app.status_message, "Event ID 55 güncellendi.");
}

#[test]
fn adding_an_invalid_event_id_is_an_error() {
    for input in ["abc", "0", "", "-4", "4294967296"] {
        let mut app = session();
        app.new_event_id_input = input.to_owned();
        assert!(matches!(app.add_event_id(), PreviewRequest::Nothing));
        assert_eq!(app.status, JobStatus::Error);
        assert_eq!(app.status_message, "Geçerli bir Event ID girin.");
        assert_eq!(app.last_error, Some("Event ID alanı yalnızca pozitif sayı kabul eder.".to_owned()));
        assert_eq!(app.events.len(), 6);
        assert_eq!(app.new_event_id_input, input);
    }
}

#[test]
fn adding_when_idle_refreshes_the_preview() {
    let mut app = session();
    app.new_event_id_input = "7".to_owned();
    assert!(matches!(app.add_event_id(), PreviewRequest::Start(s) if s.selected_event_ids[0] == 7));
    assert_eq!(app.status_message, "Canlı önizleme güncelleniyor.");
}

#[test]
fn removing_selected_event_ids() {
    let mut app = session();
    for e in app.events.iter_mut() {
        e.selected = false;
    }
    assert!(matches!(app.remove_selected_event_ids(), PreviewRequest::Nothing));
    assert_eq!(app.status, JobStatus::Error);
    assert_eq!(app.status_message, "Silinecek seçili Event ID bulunamadı.");
    assert_eq!(app.last_error, Some("Listede kaldırılacak seçim yok.".to_owned()));
    assert_eq!(app.events.len(), 6);

    let mut app = session();
    assert!(app.begin_export().is_some());
    app.events[0].selected = false;
    app.events[3].selected = false;
    assert!(matches!(app.remove_selected_event_ids(), PreviewRequest::Nothing));
    assert_eq!(ids(&app), vec![41, 6005]);
    assert_eq!(app.status, JobStatus::Done);
    assert_eq!(app.status_message, "4 adet Event ID kaldırıldı.");
}

#[test]
fn selecting_and_clearing_everything() {
    let mut app = session();
    assert!(app.begin_export().is_some());
    assert!(matches!(app.clear_selected_event_ids(), PreviewRequest::Nothing));
    assert!(app.events.iter().all(|e| !e.selected));
    assert_eq!(app.status_message, "Tüm seçimler temizlendi.");
    assert!(matches!(app.select_all_event_ids(), PreviewRequest::Nothing));
    assert!(app.events.iter().all(|e| e.selected));
    assert_eq!(app.status_message, "Tüm Event ID kayıtları seçildi.");
    assert_eq!(app.status, JobStatus::Done);
}

#[test]
fn clearing_when_idle_fails_the_preview() {
    let mut app = session();
    assert!(matches!(app.clear_selected_event_ids(), PreviewRequest::Nothing));
    assert_eq!(app.status, JobStatus::Error);
    assert_eq!(app.last_error, Some("En az bir Event ID seçmelisiniz.".to_owned()));
}

#[test]
fn single_selections_and_the_shown_list() {
    let mut app = session();
    app.set_event_selected(2, false);
    app.set_event_selected(99, false);
    assert!(!app.events[2].selected);
    assert_eq!(app.filtered_event_indices(), vec![0, 1, 2, 3, 4, 5]);
    app.show_selected_only = true;
    assert_eq!(app.filtered_event_indices(), vec![0, 1, 3, 4, 5]);
}

#[test]
fn list_previews_are_short() {
    assert_eq!(format_list_preview(&vec![]), "Bulunamadı");
    assert_eq!(format_list_preview(&vec!["A".to_owned()]), "A");
    assert_eq!(format_list_preview(&vec!["A".to_owned(), "B".to_owned(), "C".to_owned()]), "A, B, C");
    let five: Vec<String> = ["A", "B", "C", "D", "E"].iter().map(|s| s.to_string()).collect();
    assert_eq!(format_list_preview(&five), "A, B, C +2");
}

#[test]
fn panic_messages_carry_the_detail() {
    assert_eq!(panic_message(Some("boom")), "Arka plan görevi panik ile sonlandı: boom");
    assert_eq!(panic_message(None), "Arka plan görevi panik ile sonlandı.");
}

#[test]
fn failures_to_open_outputs_are_errors() {
    let mut app = session();
    app.note_open_failure(false, "yok".to_owned());
    assert_eq!(app.status, JobStatus::Error);
    assert_eq!(app.status_message, "Dosya açılamadı.");
    assert_eq!(app.last_error, Some("yok".to_owned()));
    app.note_open_failure(true, "yok2".to_owned());
    assert_eq!(app.status_message, "Klasör açılamadı.");
    assert_eq!(app.last_error, Some("yok2".to_owned()));
}
