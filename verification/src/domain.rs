//! The exporter's domain model: selectable event IDs, log sources, job
//! states, export settings and the records that an export carries.

use vstd::prelude::*;
use crate::text::{decimal, decimal_string, push_char};

verus! {

/// An event ID that the user can select for export, with its label.
#[derive(Clone, Debug, PartialEq, Eq)]
pub struct EventSelection {
    pub event_id: u32,
    pub label: String,
    pub selected: bool,
}

impl EventSelection {
    /// The text shown for this entry: the event ID, a space, then the label.
    pub open spec fn display_label_text(&self) -> Seq<char> {
        decimal(self.event_id as nat) + seq![' '] + self.label@
    }

    /// The event ID followed by a space and the label.
    pub fn display_label(&self) -> (s: String)
        ensures
            s@ == self.display_label_text(),
    {
        let mut s = decimal_string(self.event_id as u128);
        push_char(&mut s, ' ');
        s.append(self.label.as_str());
        s
    }
}

/// The Windows event log that is scanned.
#[derive(Clone, Copy, Debug, PartialEq, Eq, Default)]
pub enum LogSource {
    #[default]
    System,
    Application,
    Security,
}

/// The name under which the operating system knows the log.
pub open spec fn log_source_name(source: LogSource) -> Seq<char> {
    match source {
        LogSource::System => "System"@,
        LogSource::Application => "Application"@,
        LogSource::Security => "Security"@,
    }
}

/// The name under which the user interface shows the log.
pub open spec fn log_source_display_name(source: LogSource) -> Seq<char> {
    match source {
        LogSource::System => "Sistem"@,
        LogSource::Application => "Uygulama"@,
        LogSource::Security => "Güvenlik"@,
    }
}

impl LogSource {
    /// Every log that can be scanned, in the order the user interface lists them.
    pub const ALL: [LogSource; 3] = [LogSource::System, LogSource::Application, LogSource::Security];

    /// The log's name as the event log service knows it.
    pub fn as_str(self) -> (s: &'static str)
        ensures
            s@ == log_source_name(self),
    {
        match self {
            LogSource::System => "System",
            LogSource::Application => "Application",
            LogSource::Security => "Security",
        }
    }

    /// The log's name as the user interface shows it.
    pub fn display_name(self) -> (s: &'static str)
        ensures
            s@ == log_source_display_name(self),
    {
        match self {
            LogSource::System => "Sistem",
            LogSource::Application => "Uygulama",
            LogSource::Security => "Güvenlik",
        }
    }
}

/// The state of the exporter's background work.
#[derive(Clone, Copy, Debug, PartialEq, Eq)]
pub enum JobStatus {
    Ready,
    Work,
    Done,
    Error,
}

/// The label that the user interface shows for a job state.
pub open spec fn job_status_display_name(status: JobStatus) -> Seq<char> {
    match status {
        JobStatus::Ready => "HAZIR"@,
        JobStatus::Work => "ÇALIŞIYOR"@,
        JobStatus::Done => "TAMAMLANDI"@,
        JobStatus::Error => "HATA"@,
    }
}

impl JobStatus {
    /// The label of this state.
    pub fn display_name(self) -> (s: &'static str)
        ensures
            s@ == job_status_display_name(self),
    {
        match self {
            JobStatus::Ready => "HAZIR",
            JobStatus::Work => "ÇALIŞIYOR",
            JobStatus::Done => "TAMAMLANDI",
            JobStatus::Error => "HATA",
        }
    }
}

/// What the user asked to export.
#[derive(Clone, Debug, PartialEq, Eq)]
pub struct ExportSettings {
    pub source: LogSource,
    pub max_events: Option<usize>,
    pub export_all: bool,
    pub output_path: String,
    pub selected_event_ids: Vec<u32>,
}

impl ExportSettings {
    /// The record limit in force: none when every matching record is exported.
    pub open spec fn effective_limit(&self) -> Option<usize> {
        if self.export_all {
            None
        } else {
            self.max_events
        }
    }

    /// The record limit in force: `None` when `export_all` is set, the
    /// configured limit otherwise.
    pub fn effective_max_events(&self) -> (r: Option<usize>)
        ensures
            r == self.effective_limit(),
    {
        if self.export_all {
            None
        } else {
            self.max_events
        }
    }
}

/// One event log record as it is exported.
#[derive(Clone, Debug, PartialEq, Eq)]
pub struct EventRecord {
    pub event_id: u32,
    pub provider: String,
    pub level: String,
    pub computer: String,
    pub created_at: String,
    pub message: String,
}

/// Counts shown in the analytics panel.
#[derive(Clone, Debug, PartialEq, Eq)]
pub struct AnalyticsSnapshot {
    pub total_logs_found: usize,
    pub queue_size: usize,
}

impl Default for AnalyticsSnapshot {
    fn default() -> (r: Self)
        ensures
            r.total_logs_found == 0,
            r.queue_size == 0,
    {
        AnalyticsSnapshot { total_logs_found: 0, queue_size: 0 }
    }
}

/// The event IDs offered before the user adds any, in the order shown.
pub open spec fn default_event_ids() -> Seq<u32> {
    seq![41u32, 55, 6008, 6005, 6006, 1001]
}

/// The labels of the default event IDs, in the same order.
pub open spec fn default_event_labels() -> Seq<Seq<char>> {
    seq![
        "Kernel Power"@,
        "NTFS Hatası"@,
        "Beklenmeyen Kapanma"@,
        "Günlük Başladı"@,
        "Günlük Durduruldu"@,
        "Hata Denetimi"@,
    ]
}

fn selection(event_id: u32, label: &str) -> (s: EventSelection)
    ensures
        s.event_id == event_id,
        s.label@ == label@,
        s.selected,
{
    EventSelection { event_id, label: label.to_owned(), selected: true }
}

/// The preset event IDs, all selected.
pub fn default_event_selections() -> (v: Vec<EventSelection>)
    ensures
        v@.len() == 6,
        forall|i: int|
            0 <= i < 6 ==> {
                &&& #[trigger] v@[i].event_id == default_event_ids()[i]
                &&& v@[i].label@ == default_event_labels()[i]
                &&& v@[i].selected
            },
{
    let mut v: Vec<EventSelection> = Vec::new();
    v.push(selection(41, "Kernel Power"));
    v.push(selection(55, "NTFS Hatası"));
    v.push(selection(6008, "Beklenmeyen Kapanma"));
    v.push(selection(6005, "Günlük Başladı"));
    v.push(selection(6006, "Günlük Durduruldu"));
    v.push(selection(1001, "Hata Denetimi"));
    v
}

} // verus!
