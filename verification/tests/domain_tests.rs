use event_xml_exporter::domain::{
    default_event_selections, EventSelection, ExportSettings, JobStatus, LogSource,
};

#[test]
fn default_presets_match_expected_ids() {
    let ids: Vec<u32> = default_event_selections()
        .into_iter()
        .map(|item| item.event_id)
        .collect();

    assert_eq!(ids, vec![41, 55, 6008, 6005, 6006, 1001]);
}

#[test]
fn effective_max_events_ignores_limit_when_export_all_is_enabled() {
    let settings = ExportSettings {
        source: LogSource::System,
        max_events: Some(200),
        export_all: true,
        output_path: "output.xml".to_owned(),
        selected_event_ids: vec![41],
    };

    assert_eq!(settings.effective_max_events(), None);
}

#[test]
fn effective_max_events_keeps_limit_when_export_all_is_disabled() {
    let settings = ExportSettings {
        source: LogSource::Application,
        max_events: Some(200),
        export_all: false,
        output_path: "output.xml".to_owned(),
        selected_event_ids: vec![41],
    };
    assert_eq!(settings.effective_max_events(), Some(200));
}

#[test]
fn default_presets_are_selected_and_labelled() {
    let presets = default_event_selections();
    assert!(presets.iter().all(|item| item.selected));
    assert_eq!(presets[0].label, "Kernel Power");
    assert_eq!(presets[1].label, "NTFS Hatası");
    assert_eq!(presets[5].label, "Hata Denetimi");
}

#[test]
fn display_label_joins_id_and_label() {
    let entry = EventSelection { event_id: 6008, label: "Beklenmeyen Kapanma".to_owned(), selected: false };
    assert_eq!(entry.display_label(), "6008 Beklenmeyen Kapanma");
    let zero = EventSelection { event_id: 0, label: String::new(), selected: true };
    assert_eq!(zero.display_label(), "0 ");
}

#[test]
fn log_sources_have_system_and_display_names() {
    assert_eq!(LogSource::System.as_str(), "System");
    assert_eq!(LogSource::Application.as_str(), "Application");
    assert_eq!(LogSource::Security.as_str(), "Security");
    assert_eq!(LogSource::System.display_name(), "Sistem");
    assert_eq!(LogSource::Application.display_name(), "Uygulama");
    assert_eq!(LogSource::Security.display_name(), "Güvenlik");
    assert_eq!(LogSource::default(), LogSource::System);
}

#[test]
fn job_states_have_labels() {
    assert_eq!(JobStatus::Ready.display_name(), "HAZIR");
    assert_eq!(JobStatus::Work.display_name(), "ÇALIŞIYOR");
    assert_eq!(JobStatus::Done.display_name(), "TAMAMLANDI");
    assert_eq!(JobStatus::Error.display_name(), "HATA");
}
