//! The exporter session: what the user has entered and selected, the
//! background task in flight, and the status shown. Every user action and
//! every task outcome is a function from the session to the next session,
//! together with the work (if any) that the caller must start.

use vstd::prelude::*;
use crate::domain::{EventSelection, ExportSettings, JobStatus, LogSource, default_event_selections};
use crate::event_log::{EventLogProgress, PreviewSnapshot};
use crate::domain::log_source_display_name;
use crate::text::{
    trim, trim_string, parse_unsigned, parse_usize, parse_u32, decimal, decimal_string, contains_seq,
    contains_text, join, join_strings, string_views,
};

verus! {

/// The kind of background work in flight.
#[derive(Clone, Copy, Debug, PartialEq, Eq)]
pub enum ActiveTask {
    Preview,
    Export,
}

/// Progress of the background work, as last reported.
#[derive(Clone, Debug)]
pub struct TaskProgressState {
    pub current_log: String,
    pub scanned_records: usize,
    pub matched_records: usize,
}

/// An event selection by its values.
pub struct SelectionView {
    pub event_id: u32,
    pub label: Seq<char>,
    pub selected: bool,
}

/// The view of an event selection.
pub open spec fn selection_view(e: EventSelection) -> SelectionView {
    SelectionView { event_id: e.event_id, label: e.label@, selected: e.selected }
}

/// The views of a list of event selections.
pub open spec fn selection_views(v: Seq<EventSelection>) -> Seq<SelectionView> {
    v.map_values(|e: EventSelection| selection_view(e))
}

/// The session by its values.
pub struct ExporterView {
    pub log_source: LogSource,
    pub max_events_input: Seq<char>,
    pub export_all: bool,
    pub output_path_input: Seq<char>,
    pub new_event_id_input: Seq<char>,
    pub new_event_label_input: Seq<char>,
    pub show_selected_only: bool,
    pub events: Seq<SelectionView>,
    pub preview_xml: Seq<char>,
    pub preview_snapshot: PreviewSnapshot,
    pub progress_log: Seq<char>,
    pub progress_scanned: usize,
    pub progress_matched: usize,
    pub active_task: Option<ActiveTask>,
    pub pending_preview_refresh: bool,
    pub status: JobStatus,
    pub status_message: Seq<char>,
    pub last_error: Option<Seq<char>>,
    pub last_generated_file: Option<Seq<char>>,
}

/// The view of an optional string.
pub open spec fn opt_string_view(o: Option<String>) -> Option<Seq<char>> {
    match o {
        Some(s) => Some(s@),
        None => None,
    }
}

/// The state of the exporter window, apart from its widgets and the
/// channels to the background work.
pub struct EventXmlExporterApp {
    pub log_source: LogSource,
    pub max_events_input: String,
    pub export_all: bool,
    pub output_path_input: String,
    pub new_event_id_input: String,
    pub new_event_label_input: String,
    pub show_selected_only: bool,
    pub events: Vec<EventSelection>,
    pub preview_xml: String,
    pub preview_snapshot: PreviewSnapshot,
    pub task_progress: TaskProgressState,
    pub active_task: Option<ActiveTask>,
    pub pending_preview_refresh: bool,
    pub status: JobStatus,
    pub status_message: String,
    pub last_error: Option<String>,
    pub last_generated_file: Option<String>,
}

impl View for EventXmlExporterApp {
    type V = ExporterView;

    open spec fn view(&self) -> ExporterView {
        ExporterView {
            log_source: self.log_source,
            max_events_input: self.max_events_input@,
            export_all: self.export_all,
            output_path_input: self.output_path_input@,
            new_event_id_input: self.new_event_id_input@,
            new_event_label_input: self.new_event_label_input@,
            show_selected_only: self.show_selected_only,
            events: selection_views(self.events@),
            preview_xml: self.preview_xml@,
            preview_snapshot: self.preview_snapshot,
            progress_log: self.task_progress.current_log@,
            progress_scanned: self.task_progress.scanned_records,
            progress_matched: self.task_progress.matched_records,
            active_task: self.active_task,
            pending_preview_refresh: self.pending_preview_refresh,
            status: self.status,
            status_message: self.status_message@,
            last_error: opt_string_view(self.last_error),
            last_generated_file: opt_string_view(self.last_generated_file),
        }
    }
}

/// The IDs of the selected entries, in list order.
pub open spec fn selected_ids(events: Seq<SelectionView>) -> Seq<u32>
    decreases events.len(),
{
    if events.len() == 0 {
        Seq::empty()
    } else if events.last().selected {
        selected_ids(events.drop_last()).push(events.last().event_id)
    } else {
        selected_ids(events.drop_last())
    }
}

/// The record limit typed by the user: a positive number, or the message
/// that explains why the input is not one.
pub open spec fn positive_limit(input: Seq<char>) -> Result<usize, Seq<char>> {
    match parse_unsigned(trim(input), usize::MAX as nat) {
        None => Err("Maksimum kayıt alanı yalnızca pozitif sayı kabul eder."@),
        Some(v) => if v == 0 {
            Err("Maksimum kayıt değeri sıfır olamaz."@)
        } else {
            Ok(v as usize)
        },
    }
}

/// Reads a positive record limit from user input (surrounding white space
/// is ignored).
pub fn parse_positive_usize(input: &str) -> (r: Result<usize, String>)
    ensures
        match positive_limit(input@) {
            Ok(v) => r == Ok::<usize, String>(v),
            Err(m) => r matches Err(e) && e@ == m,
        },
{
    let trimmed = trim_string(input);
    match parse_usize(trimmed.as_str()) {
        None => Err("Maksimum kayıt alanı yalnızca pozitif sayı kabul eder.".to_owned()),
        Some(value) => {
            if value == 0 {
                Err("Maksimum kayıt değeri sıfır olamaz.".to_owned())
            } else {
                Ok(value)
            }
        },
    }
}

impl ExporterView {
    /// Why the entered settings cannot be used, if they cannot.
    pub open spec fn settings_error(self) -> Option<Seq<char>> {
        if trim(self.output_path_input).len() == 0 {
            Some("Hedef dosya yolu boş bırakılamaz."@)
        } else if selected_ids(self.events).len() == 0 {
            Some("En az bir Event ID seçmelisiniz."@)
        } else if self.export_all {
            None
        } else {
            match positive_limit(self.max_events_input) {
                Err(m) => Some(m),
                Ok(_) => None,
            }
        }
    }

    /// Whether `s` holds exactly the entered settings.
    pub open spec fn settings_match(self, s: ExportSettings) -> bool {
        &&& s.source == self.log_source
        &&& s.export_all == self.export_all
        &&& s.output_path@ == trim(self.output_path_input)
        &&& s.selected_event_ids@ == selected_ids(self.events)
        &&& s.max_events == (if self.export_all {
            None
        } else {
            match positive_limit(self.max_events_input) {
                Ok(v) => Some(v),
                Err(_) => None,
            }
        })
    }
}

impl EventXmlExporterApp {
    /// The IDs of the selected entries, in list order.
    pub fn selected_event_ids(&self) -> (ids: Vec<u32>)
        ensures
            ids@ == selected_ids(self@.events),
    {
        let mut ids: Vec<u32> = Vec::new();
        let n = self.events.len();
        for i in 0..n
            invariant
                n == self.events@.len(),
                ids@ == selected_ids(selection_views(self.events@.take(i as int))),
        {
            let ghost before = selection_views(self.events@.take(i as int));
            let ghost after = selection_views(self.events@.take(i + 1));
            assert(after.drop_last() == before);
            if self.events[i].selected {
                ids.push(self.events[i].event_id);
            }
        }
        assert(self.events@.take(n as int) == self.events@);
        ids
    }

    /// The export settings the user has entered, or why they cannot be used.
    pub fn collect_settings(&self) -> (r: Result<ExportSettings, String>)
        ensures
            match self@.settings_error() {
                Some(m) => r matches Err(e) && e@ == m,
                None => r matches Ok(s) && self@.settings_match(s),
            },
            r matches Ok(s) ==> s.source == self.log_source && s.export_all == self.export_all,
            r matches Ok(s) ==> s.selected_event_ids@ == selected_ids(self@.events),
            r matches Ok(s) ==> s.output_path@ == trim(self.output_path_input@) && s.output_path@.len() > 0,
            r matches Ok(s) ==> (!self.export_all ==> (s.max_events matches Some(l) && l > 0)),
            r matches Ok(s) ==> (self.export_all ==> s.max_events is None),
    {
        let output_path = trim_string(self.output_path_input.as_str());
        if output_path.as_str().is_empty() {
            return Err("Hedef dosya yolu boş bırakılamaz.".to_owned());
        }
        let selected_event_ids = self.selected_event_ids();
        if selected_event_ids.len() == 0 {
            return Err("En az bir Event ID seçmelisiniz.".to_owned());
        }
        let max_events = if self.export_all {
            None
        } else {
            match parse_positive_usize(self.max_events_input.as_str()) {
                Ok(v) => Some(v),
                Err(e) => return Err(e),
            }
        };
        Ok(ExportSettings {
            source: self.log_source,
            max_events,
            export_all: self.export_all,
            output_path,
            selected_event_ids,
        })
    }
}

/// What the caller must do after a fresh preview was asked for.
pub enum PreviewRequest {
    /// Nothing needs to start.
    Nothing,
    /// Tell the running preview to stop; a fresh one follows when it ends.
    CancelRunning,
    /// Start a preview scan with these settings.
    Start(ExportSettings),
}

/// What a background task delivered.
pub struct PreviewTaskSuccess {
    pub snapshot: PreviewSnapshot,
    pub xml: String,
}

/// What a finished export delivered: the written file, the scan and the
/// preview of the document.
pub struct ExportTaskSuccess {
    pub path: String,
    pub snapshot: PreviewSnapshot,
    pub preview_xml: String,
}

/// How a background task ended.
pub enum FinishedTask {
    Preview(Result<PreviewTaskSuccess, String>),
    Export(Result<ExportTaskSuccess, String>),
    /// The task went away without a word.
    Disconnected,
}

impl ExporterView {
    /// The session with another status message.
    pub open spec fn with_message(self, message: Seq<char>) -> ExporterView {
        ExporterView { status_message: message, ..self }
    }

    /// The session with reported progress recorded.
    pub open spec fn with_progress(self, log: Seq<char>, scanned: usize, matched: usize) -> ExporterView {
        ExporterView { progress_log: log, progress_scanned: scanned, progress_matched: matched, ..self }
    }

    /// The session showing a fresh preview.
    pub open spec fn with_preview(self, snapshot: PreviewSnapshot, xml: Seq<char>) -> ExporterView {
        ExporterView { preview_snapshot: snapshot, preview_xml: xml, ..self }
    }

    /// The session after an export was written to `path`.
    pub open spec fn with_export(self, snapshot: PreviewSnapshot, xml: Seq<char>, path: Seq<char>) -> ExporterView {
        ExporterView {
            preview_snapshot: snapshot,
            preview_xml: xml,
            output_path_input: path,
            last_generated_file: Some(path),
            ..self
        }
    }

    /// The session with the status, its message and the last error set.
    pub open spec fn with_status(self, status: JobStatus, message: Seq<char>, last_error: Option<Seq<char>>) -> ExporterView {
        ExporterView { status: status, status_message: message, last_error: last_error, ..self }
    }

    /// The session once background work of the given kind has started.
    pub open spec fn with_task_started(self, task: ActiveTask, message: Seq<char>) -> ExporterView {
        ExporterView {
            active_task: Some(task),
            progress_log: Seq::empty(),
            progress_scanned: 0,
            progress_matched: 0,
            status: JobStatus::Work,
            status_message: message,
            last_error: None,
            ..self
        }
    }

    /// The session after a fresh preview was asked for: a running preview
    /// is asked to stop and a fresh one is noted as pending; a running
    /// export only notes the pending preview; otherwise the preview starts,
    /// unless the settings cannot be used.
    pub open spec fn after_preview_request(self) -> ExporterView {
        match self.active_task {
            Some(ActiveTask::Preview) => ExporterView {
                pending_preview_refresh: true,
                status_message: "Çalışan işlem iptal ediliyor."@,
                ..self
            },
            Some(ActiveTask::Export) => ExporterView { pending_preview_refresh: true, ..self },
            None => match self.settings_error() {
                Some(m) => self.with_status(JobStatus::Error, "Önizleme hazırlanamadı."@, Some(m)),
                None => self.with_task_started(ActiveTask::Preview, "Canlı önizleme güncelleniyor."@),
            },
        }
    }

    /// Whether `r` is what the caller must do after a fresh preview was asked for.
    pub open spec fn is_preview_request(self, r: PreviewRequest) -> bool {
        match self.active_task {
            Some(ActiveTask::Preview) => r is CancelRunning,
            Some(ActiveTask::Export) => r is Nothing,
            None => match self.settings_error() {
                Some(_) => r is Nothing,
                None => r matches PreviewRequest::Start(s) && self.settings_match(s),
            },
        }
    }

    /// The session after an export was asked for.
    pub open spec fn after_export_request(self) -> ExporterView {
        if self.active_task is Some {
            ExporterView { status_message: "Önce çalışan işlemi tamamlayın ya da iptal edin."@, ..self }
        } else {
            match self.settings_error() {
                Some(m) => self.with_status(JobStatus::Error, "Dışa aktarma başlatılamadı."@, Some(m)),
                None => self.with_task_started(ActiveTask::Export, "Gerçek günlük kayıtları XML olarak dışa aktarılıyor."@),
            }
        }
    }

    /// The session after a task failed with `error`: a cancellation returns
    /// to ready; anything else is an error shown with `fallback`.
    pub open spec fn after_task_error(self, error: Seq<char>, fallback: Seq<char>) -> ExporterView {
        if contains_seq(error, "iptal edildi"@) {
            self.with_status(JobStatus::Ready, "İşlem iptal edildi."@, None)
        } else {
            self.with_status(JobStatus::Error, fallback, Some(error))
        }
    }

    /// The session after a task's outcome was applied (before a pending
    /// preview is started).
    pub open spec fn after_outcome(self, finished: FinishedTask) -> ExporterView {
        let idle = ExporterView { active_task: None, ..self };
        match finished {
            FinishedTask::Preview(Ok(success)) => idle.with_preview(success.snapshot, success.xml@).with_status(
                JobStatus::Ready,
                "Canlı önizleme güncel."@,
                None,
            ),
            FinishedTask::Preview(Err(e)) => idle.after_task_error(e@, "Önizleme güncellenemedi."@),
            FinishedTask::Export(Ok(success)) => idle.with_export(success.snapshot, success.preview_xml@, success.path@).with_status(
                JobStatus::Done,
                "XML dışa aktarma tamamlandı."@,
                None,
            ),
            FinishedTask::Export(Err(e)) => idle.after_task_error(e@, "Dışa aktarma tamamlanamadı."@),
            FinishedTask::Disconnected => idle.after_task_error(
                "Arka plan görevi beklenmedik şekilde sonlandı."@,
                "Arka plan görevi yanıt vermiyor."@,
            ),
        }
    }

    /// The session after a task ended: its outcome applied, then a pending
    /// preview asked for.
    pub open spec fn after_finish(self, finished: FinishedTask) -> ExporterView {
        let applied = self.after_outcome(finished);
        if applied.pending_preview_refresh {
            ExporterView { pending_preview_refresh: false, ..applied }.after_preview_request()
        } else {
            applied
        }
    }

    /// Whether `r` is what the caller must do after a task ended.
    pub open spec fn is_finish_request(self, finished: FinishedTask, r: PreviewRequest) -> bool {
        let applied = self.after_outcome(finished);
        if applied.pending_preview_refresh {
            ExporterView { pending_preview_refresh: false, ..applied }.is_preview_request(r)
        } else {
            r is Nothing
        }
    }
}

impl EventXmlExporterApp {
    /// Asks the running task, if any, to stop.
    pub fn cancel_background_task(&mut self) -> (cancel: bool)
        ensures
            cancel == (old(self)@.active_task is Some),
            cancel ==> final(self)@ == old(self)@.with_message("Çalışan işlem iptal ediliyor."@),
            !cancel ==> final(self)@ == old(self)@,
    {
        if self.active_task.is_some() {
            self.status_message = "Çalışan işlem iptal ediliyor.".to_owned();
            true
        } else {
            false
        }
    }

    fn start_task(&mut self, task: ActiveTask, message: &str)
        ensures
            final(self)@ == old(self)@.with_task_started(task, message@),
    {
        self.active_task = Some(task);
        self.task_progress = TaskProgressState { current_log: String::new(), scanned_records: 0, matched_records: 0 };
        self.status = JobStatus::Work;
        self.status_message = message.to_owned();
        self.last_error = None;
    }

    fn set_status(&mut self, status: JobStatus, message: &str, last_error: Option<String>)
        ensures
            final(self)@ == old(self)@.with_status(status, message@, opt_string_view(last_error)),
    {
        self.status = status;
        self.status_message = message.to_owned();
        self.last_error = last_error;
    }

    /// Asks for a fresh preview of the document.
    pub fn start_preview_scan(&mut self) -> (r: PreviewRequest)
        ensures
            final(self)@ == old(self)@.after_preview_request(),
            old(self)@.is_preview_request(r),
    {
        match self.active_task {
            Some(ActiveTask::Preview) => {
                self.pending_preview_refresh = true;
                let cancel = self.cancel_background_task();
                return PreviewRequest::CancelRunning;
            },
            Some(ActiveTask::Export) => {
                self.pending_preview_refresh = true;
                return PreviewRequest::Nothing;
            },
            None => {},
        }
        match self.collect_settings() {
            Err(e) => {
                self.set_status(JobStatus::Error, "Önizleme hazırlanamadı.", Some(e));
                PreviewRequest::Nothing
            },
            Ok(settings) => {
                self.start_task(ActiveTask::Preview, "Canlı önizleme güncelleniyor.");
                PreviewRequest::Start(settings)
            },
        }
    }

    /// Asks for an export; returns the settings to export with when it starts.
    pub fn begin_export(&mut self) -> (r: Option<ExportSettings>)
        ensures
            final(self)@ == old(self)@.after_export_request(),
            r is Some <==> (old(self)@.active_task is None && old(self)@.settings_error() is None),
            r matches Some(s) ==> old(self)@.settings_match(s),
    {
        if self.active_task.is_some() {
            self.status_message = "Önce çalışan işlemi tamamlayın ya da iptal edin.".to_owned();
            return None;
        }
        match self.collect_settings() {
            Err(e) => {
                self.set_status(JobStatus::Error, "Dışa aktarma başlatılamadı.", Some(e));
                None
            },
            Ok(settings) => {
                self.start_task(ActiveTask::Export, "Gerçek günlük kayıtları XML olarak dışa aktarılıyor.");
                Some(settings)
            },
        }
    }

    /// Records reported progress.
    pub fn apply_progress(&mut self, progress: EventLogProgress)
        ensures
            final(self)@ == old(self)@.with_progress(progress.current_log@, progress.scanned_records, progress.matched_records),
    {
        self.task_progress.current_log = progress.current_log;
        self.task_progress.scanned_records = progress.scanned_records;
        self.task_progress.matched_records = progress.matched_records;
    }

    fn handle_task_error(&mut self, error: String, fallback_message: &str)
        ensures
            final(self)@ == old(self)@.after_task_error(error@, fallback_message@),
    {
        if contains_text(error.as_str(), "iptal edildi") {
            self.set_status(JobStatus::Ready, "İşlem iptal edildi.", None);
        } else {
            self.set_status(JobStatus::Error, fallback_message, Some(error));
        }
    }

    fn apply_preview_success(&mut self, success: PreviewTaskSuccess)
        ensures
            final(self)@ == old(self)@.with_preview(success.snapshot, success.xml@).with_status(JobStatus::Ready, "Canlı önizleme güncel."@, None),
    {
        self.preview_snapshot = success.snapshot;
        self.preview_xml = success.xml;
        self.set_status(JobStatus::Ready, "Canlı önizleme güncel.", None);
    }

    fn apply_export_success(&mut self, success: ExportTaskSuccess)
        ensures
            final(self)@ == old(self)@.with_export(success.snapshot, success.preview_xml@, success.path@).with_status(JobStatus::Done, "XML dışa aktarma tamamlandı."@, None),
    {
        self.preview_snapshot = success.snapshot;
        self.preview_xml = success.preview_xml;
        self.output_path_input = success.path.clone();
        self.last_generated_file = Some(success.path);
        self.set_status(JobStatus::Done, "XML dışa aktarma tamamlandı.", None);
    }

    /// Applies how the background task ended, then starts a preview that
    /// was asked for meanwhile.
    pub fn finish_task(&mut self, finished: FinishedTask) -> (r: PreviewRequest)
        ensures
            final(self)@ == old(self)@.after_finish(finished),
            old(self)@.is_finish_request(finished, r),
    {
        self.active_task = None;
        match finished {
            FinishedTask::Preview(Ok(success)) => self.apply_preview_success(success),
            FinishedTask::Preview(Err(error)) => self.handle_task_error(error, "Önizleme güncellenemedi."),
            FinishedTask::Export(Ok(success)) => self.apply_export_success(success),
            FinishedTask::Export(Err(error)) => self.handle_task_error(error, "Dışa aktarma tamamlanamadı."),
            FinishedTask::Disconnected => self.handle_task_error(
                "Arka plan görevi beklenmedik şekilde sonlandı.".to_owned(),
                "Arka plan görevi yanıt vermiyor.",
            ),
        }
        if self.pending_preview_refresh {
            self.pending_preview_refresh = false;
            self.start_preview_scan()
        } else {
            PreviewRequest::Nothing
        }
    }
}

/// Whether no event ID occurs twice in the list.
pub open spec fn ids_distinct(events: Seq<SelectionView>) -> bool {
    forall|i: int, j: int| 0 <= i < j < events.len() ==> #[trigger] events[i].event_id != #[trigger] events[j].event_id
}

/// Whether the list is in ascending order of event ID.
pub open spec fn sorted_by_id(events: Seq<SelectionView>) -> bool {
    forall|i: int, j: int| 0 <= i < j < events.len() ==> #[trigger] events[i].event_id <= #[trigger] events[j].event_id
}

/// `x` placed after the last entry whose ID is not greater than its own,
/// counting from the end (one step of a stable insertion sort).
pub open spec fn insert_by_id(sorted: Seq<SelectionView>, x: SelectionView) -> Seq<SelectionView>
    decreases sorted.len(),
{
    if sorted.len() == 0 {
        seq![x]
    } else if sorted.last().event_id <= x.event_id {
        sorted.push(x)
    } else {
        insert_by_id(sorted.drop_last(), x).push(sorted.last())
    }
}

/// The list stably sorted by event ID (what `sort_by_key` on the ID gives).
pub open spec fn sort_by_id(s: Seq<SelectionView>) -> Seq<SelectionView>
    decreases s.len(),
{
    if s.len() == 0 {
        s
    } else {
        insert_by_id(sort_by_id(s.drop_last()), s.last())
    }
}

/// The position of the first entry with the given ID.
pub open spec fn first_index_of_id(events: Seq<SelectionView>, id: u32) -> Option<int>
    decreases events.len(),
{
    if events.len() == 0 {
        None
    } else {
        match first_index_of_id(events.drop_last(), id) {
            Some(i) => Some(i),
            None => if events.last().event_id == id {
                Some(events.len() - 1)
            } else {
                None
            },
        }
    }
}

/// The entries that are not selected, in order.
pub open spec fn unselected(events: Seq<SelectionView>) -> Seq<SelectionView>
    decreases events.len(),
{
    if events.len() == 0 {
        Seq::empty()
    } else if events.last().selected {
        unselected(events.drop_last())
    } else {
        unselected(events.drop_last()).push(events.last())
    }
}

/// The entry with its selection set to `selected`.
pub open spec fn with_selected(e: SelectionView, selected: bool) -> SelectionView {
    SelectionView { selected: selected, ..e }
}

/// Every entry with its selection set to `selected`.
pub open spec fn all_set(events: Seq<SelectionView>, selected: bool) -> Seq<SelectionView> {
    events.map_values(|e: SelectionView| with_selected(e, selected))
}

proof fn lemma_insert_at(s: Seq<SelectionView>, x: SelectionView, p: int)
    requires
        0 <= p <= s.len(),
        forall|k: int| p <= k < s.len() ==> #[trigger] s[k].event_id > x.event_id,
        p == 0 || s[p - 1].event_id <= x.event_id,
    ensures
        insert_by_id(s, x) == s.insert(p, x),
    decreases s.len() - p,
{
    if p == s.len() {
        if s.len() > 0 {
            assert(s.last().event_id <= x.event_id);
        }
        assert(s.push(x) == s.insert(p, x));
    } else {
        let d = s.drop_last();
        assert(s.last().event_id > x.event_id);
        assert forall|k: int| p <= k < d.len() implies #[trigger] d[k].event_id > x.event_id by {
            assert(d[k] == s[k]);
        }
        if p > 0 {
            assert(d[p - 1] == s[p - 1]);
        }
        lemma_insert_at(d, x, p);
        assert(d.insert(p, x).push(s.last()) == s.insert(p, x));
    }
}

proof fn lemma_insert_by_id_members(s: Seq<SelectionView>, x: SelectionView)
    ensures
        insert_by_id(s, x).len() == s.len() + 1,
        forall|k: int| 0 <= k < insert_by_id(s, x).len() ==> (#[trigger] insert_by_id(s, x)[k] == x || s.contains(insert_by_id(s, x)[k])),
        insert_by_id(s, x).contains(x),
        sorted_by_id(s) ==> sorted_by_id(insert_by_id(s, x)),
    decreases s.len(),
{
    let r = insert_by_id(s, x);
    if s.len() == 0 {
        assert(r[0] == x);
    } else if s.last().event_id <= x.event_id {
        assert forall|k: int| 0 <= k < r.len() implies (#[trigger] r[k] == x || s.contains(r[k])) by {
            if k < s.len() {
                assert(r[k] == s[k]);
            }
        }
        assert(r[s.len() as int] == x);
    } else {
        let d = s.drop_last();
        lemma_insert_by_id_members(d, x);
        let inner = insert_by_id(d, x);
        assert forall|k: int| 0 <= k < r.len() implies (#[trigger] r[k] == x || s.contains(r[k])) by {
            if k < inner.len() {
                assert(r[k] == inner[k]);
                if inner[k] != x {
                    let m = choose|m: int| 0 <= m < d.len() && d[m] == inner[k];
                    assert(s[m] == d[m]);
                }
            } else {
                assert(r[k] == s.last());
                assert(s[s.len() - 1] == s.last());
            }
        }
        let w = choose|m: int| 0 <= m < inner.len() && inner[m] == x;
        assert(r[w] == x);
        if sorted_by_id(s) {
            assert forall|i: int, j: int| 0 <= i < j < d.len() implies #[trigger] d[i].event_id <= #[trigger] d[j].event_id by {
                assert(d[i] == s[i] && d[j] == s[j]);
            }
            assert forall|i: int, j: int| 0 <= i < j < r.len() implies #[trigger] r[i].event_id <= #[trigger] r[j].event_id by {
                if j == r.len() - 1 {
                    assert(r[j] == s.last());
                    assert(r[i] == inner[i]);
                    if inner[i] != x {
                        let m = choose|m: int| 0 <= m < d.len() && d[m] == inner[i];
                        assert(s[m] == d[m]);
                        assert(s[m].event_id <= s[s.len() - 1].event_id);
                    }
                } else {
                    assert(r[i] == inner[i] && r[j] == inner[j]);
                }
            }
        }
    }
}

proof fn lemma_insert_keeps_distinct(s: Seq<SelectionView>, x: SelectionView)
    requires
        ids_distinct(s),
        forall|k: int| 0 <= k < s.len() ==> #[trigger] s[k].event_id != x.event_id,
    ensures
        ids_distinct(insert_by_id(s, x)),
    decreases s.len(),
{
    let r = insert_by_id(s, x);
    if s.len() == 0 {
    } else if s.last().event_id <= x.event_id {
        assert forall|i: int, j: int| 0 <= i < j < r.len() implies #[trigger] r[i].event_id != #[trigger] r[j].event_id by {
            assert(r[i] == s[i]);
            if j < s.len() {
                assert(r[j] == s[j]);
            }
        }
    } else {
        let d = s.drop_last();
        assert forall|i: int, j: int| 0 <= i < j < d.len() implies #[trigger] d[i].event_id != #[trigger] d[j].event_id by {
            assert(d[i] == s[i] && d[j] == s[j]);
        }
        assert forall|k: int| 0 <= k < d.len() implies #[trigger] d[k].event_id != x.event_id by {
            assert(d[k] == s[k]);
        }
        lemma_insert_keeps_distinct(d, x);
        lemma_insert_by_id_members(d, x);
        let inner = insert_by_id(d, x);
        assert forall|i: int, j: int| 0 <= i < j < r.len() implies #[trigger] r[i].event_id != #[trigger] r[j].event_id by {
            if j == r.len() - 1 {
                assert(r[j] == s[s.len() - 1]);
                assert(r[i] == inner[i]);
                if inner[i] == x {
                } else {
                    let m = choose|m: int| 0 <= m < d.len() && d[m] == inner[i];
                    assert(s[m] == d[m]);
                }
            } else {
                assert(r[i] == inner[i] && r[j] == inner[j]);
            }
        }
    }
}

proof fn lemma_sort_by_id_facts(s: Seq<SelectionView>)
    ensures
        sort_by_id(s).len() == s.len(),
        forall|k: int| 0 <= k < sort_by_id(s).len() ==> s.contains(#[trigger] sort_by_id(s)[k]),
        sorted_by_id(sort_by_id(s)),
        ids_distinct(s) ==> ids_distinct(sort_by_id(s)),
    decreases s.len(),
{
    if s.len() > 0 {
        let d = s.drop_last();
        lemma_sort_by_id_facts(d);
        let sd = sort_by_id(d);
        lemma_insert_by_id_members(sd, s.last());
        let r = sort_by_id(s);
        assert forall|k: int| 0 <= k < r.len() implies s.contains(#[trigger] r[k]) by {
            if r[k] == s.last() {
                assert(s[s.len() - 1] == s.last());
            } else {
                let m = choose|m: int| 0 <= m < sd.len() && sd[m] == r[k];
                let q = choose|q: int| 0 <= q < d.len() && d[q] == sd[m];
                assert(s[q] == d[q]);
            }
        }
        if ids_distinct(s) {
            assert forall|i: int, j: int| 0 <= i < j < d.len() implies #[trigger] d[i].event_id != #[trigger] d[j].event_id by {
                assert(d[i] == s[i] && d[j] == s[j]);
            }
            assert forall|k: int| 0 <= k < sd.len() implies #[trigger] sd[k].event_id != s.last().event_id by {
                let q = choose|q: int| 0 <= q < d.len() && d[q] == sd[k];
                assert(s[q] == d[q]);
                assert(s[s.len() - 1] == s.last());
            }
            lemma_insert_keeps_distinct(sd, s.last());
        }
    }
}

proof fn lemma_unselected_facts(s: Seq<SelectionView>)
    ensures
        unselected(s).len() <= s.len(),
        forall|k: int| 0 <= k < unselected(s).len() ==> s.contains(#[trigger] unselected(s)[k]),
        ids_distinct(s) ==> ids_distinct(unselected(s)),
        unselected(s).len() == s.len() ==> unselected(s) == s,
    decreases s.len(),
{
    if s.len() > 0 {
        let d = s.drop_last();
        lemma_unselected_facts(d);
        let u = unselected(d);
        let r = unselected(s);
        assert forall|k: int| 0 <= k < r.len() implies s.contains(#[trigger] r[k]) by {
            if k < u.len() {
                assert(r[k] == u[k]);
                let q = choose|q: int| 0 <= q < d.len() && d[q] == u[k];
                assert(s[q] == d[q]);
            } else {
                assert(r[k] == s[s.len() - 1]);
            }
        }
        if ids_distinct(s) {
            assert forall|i: int, j: int| 0 <= i < j < d.len() implies #[trigger] d[i].event_id != #[trigger] d[j].event_id by {
                assert(d[i] == s[i] && d[j] == s[j]);
            }
            if !s.last().selected {
                assert forall|i: int, j: int| 0 <= i < j < r.len() implies #[trigger] r[i].event_id != #[trigger] r[j].event_id by {
                    assert(r[i] == u[i]);
                    if j < u.len() {
                        assert(r[j] == u[j]);
                    } else {
                        let q = choose|q: int| 0 <= q < d.len() && d[q] == u[i];
                        assert(s[q] == d[q]);
                        assert(r[j] == s[s.len() - 1]);
                    }
                }
            }
        }
        if r.len() == s.len() {
            assert(!s.last().selected);
            assert(r == u.push(s.last()));
            assert(u == d);
            assert(s == d.push(s.last()));
        }
    }
}

impl ExporterView {
    /// The event ID the user typed, if it is a positive number.
    pub open spec fn typed_event_id(self) -> Option<u32> {
        match parse_unsigned(trim(self.new_event_id_input), u32::MAX as nat) {
            Some(v) => if v > 0 { Some(v as u32) } else { None },
            None => None,
        }
    }

    /// The label the user typed, or `Özel Kural` when it is blank.
    pub open spec fn typed_label(self) -> Seq<char> {
        if trim(self.new_event_label_input).len() == 0 {
            "Özel Kural"@
        } else {
            trim(self.new_event_label_input)
        }
    }

    /// The session with the event ID added: an entry with that ID gets the
    /// label and is selected; otherwise a selected entry is appended and the
    /// list sorted by ID. The inputs are cleared.
    pub open spec fn with_event_added(self, id: u32, label: Seq<char>) -> ExporterView {
        let entry = SelectionView { event_id: id, label: label, selected: true };
        let cleared = ExporterView { new_event_id_input: Seq::empty(), new_event_label_input: Seq::empty(), ..self };
        match first_index_of_id(self.events, id) {
            Some(i) => ExporterView { events: self.events.update(i, entry), ..cleared }.with_status(
                JobStatus::Done,
                "Event ID "@ + decimal(id as nat) + " güncellendi."@,
                None,
            ),
            None => ExporterView { events: sort_by_id(self.events.push(entry)), ..cleared }.with_status(
                JobStatus::Done,
                "Event ID "@ + decimal(id as nat) + " eklendi."@,
                None,
            ),
        }
    }

    /// The session after the user asked to add the typed event ID.
    pub open spec fn after_add_event_id(self) -> ExporterView {
        match self.typed_event_id() {
            None => self.with_status(
                JobStatus::Error,
                "Geçerli bir Event ID girin."@,
                Some("Event ID alanı yalnızca pozitif sayı kabul eder."@),
            ),
            Some(id) => self.with_event_added(id, self.typed_label()).after_preview_request(),
        }
    }

    /// Whether `r` is what the caller must do after the add.
    pub open spec fn is_add_request(self, r: PreviewRequest) -> bool {
        match self.typed_event_id() {
            None => r is Nothing,
            Some(id) => self.with_event_added(id, self.typed_label()).is_preview_request(r),
        }
    }

    /// The session after the user asked to remove the selected entries.
    pub open spec fn after_remove_selected(self) -> ExporterView {
        let kept = unselected(self.events);
        let removed = self.events.len() - kept.len();
        let trimmed = ExporterView { events: kept, ..self };
        if removed == 0 {
            trimmed.with_status(
                JobStatus::Error,
                "Silinecek seçili Event ID bulunamadı."@,
                Some("Listede kaldırılacak seçim yok."@),
            )
        } else {
            trimmed.with_status(JobStatus::Done, decimal(removed as nat) + " adet Event ID kaldırıldı."@, None).after_preview_request()
        }
    }

    /// Whether `r` is what the caller must do after the removal.
    pub open spec fn is_remove_request(self, r: PreviewRequest) -> bool {
        let kept = unselected(self.events);
        let removed = self.events.len() - kept.len();
        if removed == 0 {
            r is Nothing
        } else {
            ExporterView { events: kept, ..self }.with_status(
                JobStatus::Done,
                decimal(removed as nat) + " adet Event ID kaldırıldı."@,
                None,
            ).is_preview_request(r)
        }
    }

    /// The session with the selection of the entry at `index` set.
    pub open spec fn with_selection_at(self, index: int, selected: bool) -> ExporterView {
        ExporterView { events: self.events.update(index, with_selected(self.events[index], selected)), ..self }
    }

    /// The session with every entry's selection set, before the preview is asked for.
    pub open spec fn with_all_set(self, selected: bool) -> ExporterView {
        ExporterView { events: all_set(self.events, selected), ..self }.with_status(
            JobStatus::Done,
            if selected { "Tüm Event ID kayıtları seçildi."@ } else { "Tüm seçimler temizlendi."@ },
            None,
        )
    }
}

fn sort_events_by_id(events: &mut Vec<EventSelection>)
    ensures
        selection_views(final(events)@) == sort_by_id(selection_views(old(events)@)),
{
    let mut rest: Vec<EventSelection> = Vec::new();
    std::mem::swap(&mut rest, events);
    let ghost initial = rest@;
    let n = rest.len();
    let mut i: usize = 0;
    while i < n
        invariant
            n == initial.len(),
            i <= n,
            rest@ == initial.subrange(i as int, n as int),
            selection_views(events@) == sort_by_id(selection_views(initial.take(i as int))),
        decreases n - i,
    {
        let x = rest.remove(0);
        assert(x == initial[i as int]);
        assert(rest@ == initial.subrange(i + 1, n as int));
        let ghost sorted_views = selection_views(events@);
        let mut p = events.len();
        while p > 0 && events[p - 1].event_id > x.event_id
            invariant
                p <= events@.len(),
                sorted_views == selection_views(events@),
                forall|k: int| p <= k < events@.len() ==> #[trigger] events@[k].event_id > x.event_id,
            decreases p,
        {
            p = p - 1;
        }
        proof {
            assert forall|k: int| p <= k < sorted_views.len() implies #[trigger] sorted_views[k].event_id > x.event_id by {
                assert(sorted_views[k] == selection_view(events@[k]));
            }
            if p > 0 {
                assert(sorted_views[p - 1] == selection_view(events@[p - 1]));
            }
            lemma_insert_at(sorted_views, selection_view(x), p as int);
            let views = selection_views(initial.take(i as int));
            assert(selection_views(initial.take(i + 1)).drop_last() == views);
            assert(selection_views(initial.take(i + 1)).last() == selection_view(x));
        }
        events.insert(p, x);
        assert(selection_views(events@) == sorted_views.insert(p as int, selection_view(x)));
        i = i + 1;
    }
    assert(initial.take(n as int) == initial);
}

impl EventXmlExporterApp {
    /// Adds the typed event ID with the typed label (or updates the entry
    /// that has it), then asks for a fresh preview.
    pub fn add_event_id(&mut self) -> (r: PreviewRequest)
        ensures
            final(self)@ == old(self)@.after_add_event_id(),
            old(self)@.is_add_request(r),
            ids_distinct(old(self)@.events) ==> ids_distinct(final(self)@.events),
            (old(self)@.typed_event_id() matches Some(id) && first_index_of_id(old(self)@.events, id) is None)
                ==> sorted_by_id(final(self)@.events),
    {
        let typed = trim_string(self.new_event_id_input.as_str());
        let event_id = match parse_u32(typed.as_str()) {
            Some(value) => {
                if value > 0 {
                    value
                } else {
                    self.set_status(
                        JobStatus::Error,
                        "Geçerli bir Event ID girin.",
                        Some("Event ID alanı yalnızca pozitif sayı kabul eder.".to_owned()),
                    );
                    return PreviewRequest::Nothing;
                }
            },
            None => {
                self.set_status(
                    JobStatus::Error,
                    "Geçerli bir Event ID girin.",
                    Some("Event ID alanı yalnızca pozitif sayı kabul eder.".to_owned()),
                );
                return PreviewRequest::Nothing;
            },
        };
        let typed_label = trim_string(self.new_event_label_input.as_str());
        let label = if typed_label.as_str().is_empty() {
            "Özel Kural".to_owned()
        } else {
            typed_label
        };
        let ghost before = self@;
        let ghost entry = SelectionView { event_id: event_id, label: label@, selected: true };
        let n = self.events.len();
        let mut found: Option<usize> = None;
        let mut i: usize = 0;
        while i < n
            invariant_except_break
                found is None,
            invariant
                n == self.events@.len(),
                i <= n,
                before == self@,
                first_index_of_id(selection_views(self.events@.take(i as int)), event_id) is None,
            ensures
                before == self@,
                found matches Some(k) ==> (k == i && k < n && self.events@[k as int].event_id == event_id),
                found is None ==> i == n,
                first_index_of_id(selection_views(self.events@.take(i as int)), event_id) is None,
            decreases n - i,
        {
            assert(selection_views(self.events@.take(i + 1)).drop_last() == selection_views(self.events@.take(i as int)));
            if self.events[i].event_id == event_id {
                found = Some(i);
                break;
            }
            i = i + 1;
        }
        let id_text = decimal_string(event_id as u128);
        let mut message = "Event ID ".to_owned();
        message.append(id_text.as_str());
        match found {
            Some(idx) => {
                proof {
                    assert(selection_views(self.events@).take(idx as int) == selection_views(self.events@.take(idx as int)));
                    lemma_first_index_prefix(selection_views(self.events@), idx as int + 1, event_id);
                }
                let mut e = self.events.remove(idx);
                e.label = label;
                e.selected = true;
                self.events.insert(idx, e);
                assert(selection_views(self.events@) == before.events.update(idx as int, entry));
                message.append(" güncellendi.");
                proof {
                    assert forall|a: int, b: int| ids_distinct(before.events) && 0 <= a < b < self@.events.len() implies
                        #[trigger] self@.events[a].event_id != #[trigger] self@.events[b].event_id by {
                        assert(self@.events[a].event_id == before.events[a].event_id);
                        assert(self@.events[b].event_id == before.events[b].event_id);
                    }
                    assert(ids_distinct(before.events) ==> ids_distinct(self@.events));
                }
            },
            None => {
                proof {
                    assert(self.events@.take(n as int) == self.events@);
                }
                self.events.push(EventSelection { event_id, label, selected: true });
                assert(selection_views(self.events@) == before.events.push(entry));
                proof {
                    lemma_first_index_none(before.events, event_id);
                    lemma_sort_by_id_facts(before.events.push(entry));
                    if ids_distinct(before.events) {
                        let pushed = before.events.push(entry);
                        assert forall|a: int, b: int| 0 <= a < b < pushed.len() implies
                            #[trigger] pushed[a].event_id != #[trigger] pushed[b].event_id by {
                            if b == pushed.len() - 1 {
                                assert(before.events[a].event_id != event_id);
                            } else {
                                assert(pushed[a] == before.events[a] && pushed[b] == before.events[b]);
                            }
                        }
                    }
                }
                sort_events_by_id(&mut self.events);
                assert(self@.events == sort_by_id(before.events.push(entry)));
                assert(sorted_by_id(self@.events));
                assert(ids_distinct(before.events) ==> ids_distinct(self@.events));
                message.append(" eklendi.");
            },
        }
        let ghost placed = self@.events;
        assert(ids_distinct(before.events) ==> ids_distinct(placed));
        self.new_event_id_input = String::new();
        self.new_event_label_input = String::new();
        self.set_status(JobStatus::Done, message.as_str(), None);
        assert(self@.events == placed);
        assert(ids_distinct(before.events) ==> ids_distinct(self@.events));
        let ghost mid = self@;
        let r = self.start_preview_scan();
        assert(self@.events == mid.events);
        r
    }
}

proof fn lemma_first_index_prefix(events: Seq<SelectionView>, k: int, id: u32)
    requires
        0 < k <= events.len(),
        first_index_of_id(events.take(k - 1), id) is None,
        events[k - 1].event_id == id,
    ensures
        first_index_of_id(events, id) == Some(k - 1),
    decreases events.len() - k,
{
    if k == events.len() {
        assert(events.take(k - 1) == events.drop_last());
    } else {
        let d = events.drop_last();
        assert(d.take(k - 1) == events.take(k - 1));
        assert(d[k - 1] == events[k - 1]);
        lemma_first_index_prefix(d, k, id);
    }
}

proof fn lemma_first_index_some(events: Seq<SelectionView>, id: u32)
    requires
        first_index_of_id(events, id) is Some,
    ensures
        0 <= first_index_of_id(events, id)->0 < events.len(),
        events[first_index_of_id(events, id)->0].event_id == id,
    decreases events.len(),
{
    let d = events.drop_last();
    if first_index_of_id(d, id) is Some {
        lemma_first_index_some(d, id);
        assert(events[first_index_of_id(d, id)->0] == d[first_index_of_id(d, id)->0]);
    }
}

proof fn lemma_first_index_none(events: Seq<SelectionView>, id: u32)
    requires
        first_index_of_id(events, id) is None,
    ensures
        forall|k: int| 0 <= k < events.len() ==> #[trigger] events[k].event_id != id,
    decreases events.len(),
{
    if events.len() > 0 {
        let d = events.drop_last();
        lemma_first_index_none(d, id);
        assert forall|k: int| 0 <= k < events.len() implies #[trigger] events[k].event_id != id by {
            if k < d.len() {
                assert(events[k] == d[k]);
            }
        }
    }
}

fn set_selected_at(events: &mut Vec<EventSelection>, index: usize, selected: bool)
    requires
        index < old(events)@.len(),
    ensures
        final(events)@.len() == old(events)@.len(),
        selection_views(final(events)@) == selection_views(old(events)@).update(
            index as int,
            with_selected(selection_view(old(events)@[index as int]), selected),
        ),
{
    let mut e = events.remove(index);
    e.selected = selected;
    events.insert(index, e);
    assert(selection_views(events@) =~= selection_views(old(events)@).update(
        index as int,
        with_selected(selection_view(old(events)@[index as int]), selected),
    ));
}

fn set_all_selected(events: &mut Vec<EventSelection>, selected: bool)
    ensures
        selection_views(final(events)@) == all_set(selection_views(old(events)@), selected),
{
    let n = events.len();
    let ghost initial = selection_views(events@);
    for i in 0..n
        invariant
            n == events@.len(),
            n == initial.len(),
            forall|k: int| 0 <= k < i ==> #[trigger] selection_views(events@)[k] == with_selected(initial[k], selected),
            forall|k: int| i <= k < n ==> #[trigger] selection_views(events@)[k] == initial[k],
    {
        let ghost prev = selection_views(events@);
        set_selected_at(events, i, selected);
        assert forall|k: int| 0 <= k < i + 1 implies #[trigger] selection_views(events@)[k] == with_selected(initial[k], selected) by {
            if k < i {
                assert(selection_views(events@)[k] == prev[k]);
            } else {
                assert(prev[k] == initial[k]);
            }
        }
        assert forall|k: int| i + 1 <= k < n implies #[trigger] selection_views(events@)[k] == initial[k] by {
            assert(selection_views(events@)[k] == prev[k]);
        }
    }
    assert(selection_views(events@) =~= all_set(initial, selected));
}

impl EventXmlExporterApp {
    /// Removes the selected entries, then asks for a fresh preview; an
    /// error when none is selected.
    pub fn remove_selected_event_ids(&mut self) -> (r: PreviewRequest)
        ensures
            final(self)@ == old(self)@.after_remove_selected(),
            old(self)@.is_remove_request(r),
            ids_distinct(old(self)@.events) ==> ids_distinct(final(self)@.events),
    {
        let ghost before = self@;
        let before_len = self.events.len();
        let mut rest: Vec<EventSelection> = Vec::new();
        std::mem::swap(&mut rest, &mut self.events);
        let ghost initial = rest@;
        let mut kept: Vec<EventSelection> = Vec::new();
        let mut i: usize = 0;
        while i < before_len
            invariant
                before_len == initial.len(),
                i <= before_len,
                rest@ == initial.subrange(i as int, before_len as int),
                selection_views(kept@) == unselected(selection_views(initial.take(i as int))),
            decreases before_len - i,
        {
            let e = rest.remove(0);
            assert(e == initial[i as int]);
            assert(rest@ == initial.subrange(i + 1, before_len as int));
            assert(selection_views(initial.take(i + 1)).drop_last() == selection_views(initial.take(i as int)));
            assert(selection_views(initial.take(i + 1)).last() == selection_view(e));
            if !e.selected {
                kept.push(e);
                assert(selection_views(kept@) == selection_views(kept@).drop_last().push(selection_view(e)));
            }
            i = i + 1;
        }
        proof {
            assert(initial.take(before_len as int) == initial);
            lemma_unselected_facts(before.events);
        }
        self.events = kept;
        let removed = before_len - self.events.len();
        if removed == 0 {
            self.set_status(
                JobStatus::Error,
                "Silinecek seçili Event ID bulunamadı.",
                Some("Listede kaldırılacak seçim yok.".to_owned()),
            );
            return PreviewRequest::Nothing;
        }
        let mut message = decimal_string(removed as u128);
        message.append(" adet Event ID kaldırıldı.");
        self.set_status(JobStatus::Done, message.as_str(), None);
        let ghost mid = self@;
        let r = self.start_preview_scan();
        assert(self@.events == mid.events);
        r
    }

    /// Selects every entry, then asks for a fresh preview.
    pub fn select_all_event_ids(&mut self) -> (r: PreviewRequest)
        ensures
            final(self)@ == old(self)@.with_all_set(true).after_preview_request(),
            old(self)@.with_all_set(true).is_preview_request(r),
            ids_distinct(old(self)@.events) ==> ids_distinct(final(self)@.events),
    {
        set_all_selected(&mut self.events, true);
        self.set_status(JobStatus::Done, "Tüm Event ID kayıtları seçildi.", None);
        let ghost mid = self@;
        let r = self.start_preview_scan();
        assert(self@.events == mid.events);
        r
    }

    /// Clears every selection, then asks for a fresh preview.
    pub fn clear_selected_event_ids(&mut self) -> (r: PreviewRequest)
        ensures
            final(self)@ == old(self)@.with_all_set(false).after_preview_request(),
            old(self)@.with_all_set(false).is_preview_request(r),
            ids_distinct(old(self)@.events) ==> ids_distinct(final(self)@.events),
    {
        set_all_selected(&mut self.events, false);
        self.set_status(JobStatus::Done, "Tüm seçimler temizlendi.", None);
        let ghost mid = self@;
        let r = self.start_preview_scan();
        assert(self@.events == mid.events);
        r
    }

    /// Sets the selection of the entry at `index` (nothing happens for an
    /// index past the end).
    pub fn set_event_selected(&mut self, index: usize, selected: bool)
        ensures
            index < old(self)@.events.len() ==> final(self)@ == old(self)@.with_selection_at(index as int, selected),
            index < old(self)@.events.len() ==> final(self).events@[index as int].selected == selected
                && final(self).events@[index as int].event_id == old(self).events@[index as int].event_id
                && final(self).events@[index as int].label@ == old(self).events@[index as int].label@,
            final(self).events@.len() == old(self).events@.len(),
            forall|j: int| 0 <= j < old(self).events@.len() && j != index ==> #[trigger] selection_view(final(self).events@[j])
                == selection_view(old(self).events@[j]),
            index >= old(self)@.events.len() ==> final(self)@ == old(self)@,
            ids_distinct(old(self)@.events) ==> ids_distinct(final(self)@.events),
    {
        if index < self.events.len() {
            set_selected_at(&mut self.events, index, selected);
            proof {
                let before = selection_views(old(self).events@);
                let after = selection_views(self.events@);
                assert(after[index as int] == selection_view(self.events@[index as int]));
                assert(before[index as int] == selection_view(old(self).events@[index as int]));
                assert forall|j: int| 0 <= j < old(self).events@.len() && j != index implies #[trigger] selection_view(self.events@[j])
                    == selection_view(old(self).events@[j]) by {
                    assert(after[j] == selection_view(self.events@[j]));
                    assert(before[j] == selection_view(old(self).events@[j]));
                }
            }
        }
    }

    /// The positions of the entries the list shows: every entry, or only
    /// the selected ones when the user asked for that.
    pub fn filtered_event_indices(&self) -> (v: Vec<usize>)
        ensures
            v@ == shown_indices(self@.events, self@.show_selected_only),
    {
        let n = self.events.len();
        let mut v: Vec<usize> = Vec::new();
        for i in 0..n
            invariant
                n == self.events@.len(),
                v@ == shown_indices(selection_views(self.events@.take(i as int)), self.show_selected_only),
        {
            let ghost before = selection_views(self.events@.take(i as int));
            let ghost after = selection_views(self.events@.take(i + 1));
            assert(after.drop_last() == before);
            assert(after.len() == i + 1);
            if !self.show_selected_only || self.events[i].selected {
                v.push(i);
            }
        }
        assert(self.events@.take(n as int) == self.events@);
        v
    }
}

/// The positions of the entries shown: all of them, or only the selected
/// ones, in order.
pub open spec fn shown_indices(events: Seq<SelectionView>, only_selected: bool) -> Seq<usize>
    decreases events.len(),
{
    if events.len() == 0 {
        Seq::empty()
    } else if !only_selected || events.last().selected {
        shown_indices(events.drop_last(), only_selected).push((events.len() - 1) as usize)
    } else {
        shown_indices(events.drop_last(), only_selected)
    }
}

/// The text shown in the preview before the first scan has finished.
pub open spec fn placeholder_text() -> Seq<char> {
    "<?xml version=\"1.0\" encoding=\"UTF-8\"?>\n<events source=\"System\" exported_at=\"hazırlanıyor\">\n  <metadata>\n    <status>Önizleme hazırlanıyor...</status>\n  </metadata>\n</events>\n"@
}

/// The text shown in the preview before the first scan has finished.
pub fn preview_placeholder_text() -> (s: String)
    ensures
        s@ == placeholder_text(),
{
    "<?xml version=\"1.0\" encoding=\"UTF-8\"?>\n<events source=\"System\" exported_at=\"hazırlanıyor\">\n  <metadata>\n    <status>Önizleme hazırlanıyor...</status>\n  </metadata>\n</events>\n".to_owned()
}

/// A short list for display: `Bulunamadı` when empty, otherwise the first
/// three values joined by `, `, followed by ` +N` when N more are left out.
pub open spec fn list_preview_text(values: Seq<Seq<char>>) -> Seq<char> {
    if values.len() == 0 {
        "Bulunamadı"@
    } else if values.len() > 3 {
        join(values.take(3), ", "@) + " +"@ + decimal((values.len() - 3) as nat)
    } else {
        join(values, ", "@)
    }
}

/// A short display of a list of names.
pub fn format_list_preview(values: &Vec<String>) -> (s: String)
    ensures
        s@ == list_preview_text(string_views(values@)),
{
    let n = values.len();
    if n == 0 {
        return "Bulunamadı".to_owned();
    }
    let shown = if n > 3 { 3 } else { n };
    let mut first: Vec<String> = Vec::new();
    for i in 0..shown
        invariant
            shown <= n == values@.len(),
            first@.len() == i,
            forall|k: int| 0 <= k < i ==> #[trigger] first@[k]@ == values@[k]@,
    {
        first.push(values[i].clone());
    }
    assert(string_views(first@) == string_views(values@).take(shown as int));
    let mut preview = join_strings(&first, ", ");
    if n > 3 {
        preview.append(" +");
        let rest = decimal_string((n - 3) as u128);
        preview.append(rest.as_str());
    } else {
        assert(string_views(values@).take(shown as int) == string_views(values@));
    }
    preview
}

/// The error text for a background task that panicked, with the panic's
/// message when it carried text.
pub fn panic_message(detail: Option<&str>) -> (s: String)
    ensures
        detail matches Some(m) ==> s@ == "Arka plan görevi panik ile sonlandı: "@ + m@,
        detail is None ==> s@ == "Arka plan görevi panik ile sonlandı."@,
{
    match detail {
        Some(m) => {
            let mut s = "Arka plan görevi panik ile sonlandı: ".to_owned();
            s.append(m);
            s
        },
        None => "Arka plan görevi panik ile sonlandı.".to_owned(),
    }
}

impl EventXmlExporterApp {
    /// A fresh session: the system log, a limit of 1000 records, the preset
    /// event IDs, the given output path and the preview placeholder, ready
    /// and with nothing running.
    pub fn new(output_path: String) -> (app: Self)
        ensures
            app@.log_source == LogSource::System,
            app@.max_events_input == "1000"@,
            !app@.export_all,
            app@.output_path_input == output_path@,
            app@.new_event_id_input.len() == 0,
            app@.new_event_label_input.len() == 0,
            !app@.show_selected_only,
            app.events@.len() == 6,
            forall|i: int| 0 <= i < 6 ==> {
                &&& #[trigger] app.events@[i].event_id == crate::domain::default_event_ids()[i]
                &&& app.events@[i].label@ == crate::domain::default_event_labels()[i]
                &&& app.events@[i].selected
            },
            app@.preview_xml == placeholder_text(),
            app@.preview_snapshot.records@.len() == 0,
            app@.preview_snapshot.analytics.total_logs_found == 0,
            app@.preview_snapshot.analytics.queue_size == 0,
            app@.preview_snapshot.scanned_records == 0,
            app@.preview_snapshot.event_id_counts@ == Map::<u32, usize>::empty(),
            app@.preview_snapshot.providers@.len() == 0,
            app@.preview_snapshot.machine_names@.len() == 0,
            app@.preview_snapshot.duration_ms == 0,
            app@.progress_log.len() == 0,
            app@.progress_scanned == 0,
            app@.progress_matched == 0,
            app@.active_task is None,
            !app@.pending_preview_refresh,
            app@.status == JobStatus::Ready,
            app@.status_message == "Hazır. Gerçek Windows günlükleri taranabilir."@,
            app@.last_error is None,
            app@.last_generated_file is None,
            ids_distinct(app@.events),
    {
        let events = default_event_selections();
        proof {
            let v = selection_views(events@);
            assert forall|i: int, j: int| 0 <= i < j < v.len() implies #[trigger] v[i].event_id != #[trigger] v[j].event_id by {
                assert(v[i].event_id == crate::domain::default_event_ids()[i]);
                assert(v[j].event_id == crate::domain::default_event_ids()[j]);
            }
        }
        EventXmlExporterApp {
            log_source: LogSource::System,
            max_events_input: "1000".to_owned(),
            export_all: false,
            output_path_input: output_path,
            new_event_id_input: String::new(),
            new_event_label_input: String::new(),
            show_selected_only: false,
            events,
            preview_xml: preview_placeholder_text(),
            preview_snapshot: PreviewSnapshot::default(),
            task_progress: TaskProgressState { current_log: String::new(), scanned_records: 0, matched_records: 0 },
            active_task: None,
            pending_preview_refresh: false,
            status: JobStatus::Ready,
            status_message: "Hazır. Gerçek Windows günlükleri taranabilir.".to_owned(),
            last_error: None,
            last_generated_file: None,
        }
    }

    /// The number of scanned records to show: the larger of the running
    /// task's count and the last scan's.
    pub fn displayed_scanned_records(&self) -> (n: usize)
        ensures
            n == if self@.progress_scanned > self@.preview_snapshot.scanned_records {
                self@.progress_scanned
            } else {
                self@.preview_snapshot.scanned_records
            },
    {
        if self.task_progress.scanned_records > self.preview_snapshot.scanned_records {
            self.task_progress.scanned_records
        } else {
            self.preview_snapshot.scanned_records
        }
    }

    /// The number of matches to show: the larger of the running task's
    /// count and the last scan's.
    pub fn displayed_matched_records(&self) -> (n: usize)
        ensures
            n == if self@.progress_matched > self@.preview_snapshot.analytics.total_logs_found {
                self@.progress_matched
            } else {
                self@.preview_snapshot.analytics.total_logs_found
            },
    {
        if self.task_progress.matched_records > self.preview_snapshot.analytics.total_logs_found {
            self.task_progress.matched_records
        } else {
            self.preview_snapshot.analytics.total_logs_found
        }
    }

    /// The log to name as active: the one the running task reports, or the
    /// selected one while nothing was reported.
    pub fn active_log_name(&self) -> (s: String)
        ensures
            s@ == if self@.progress_log.len() == 0 {
                log_source_display_name(self@.log_source)
            } else {
                self@.progress_log
            },
    {
        if self.task_progress.current_log.as_str().is_empty() {
            self.log_source.display_name().to_owned()
        } else {
            self.task_progress.current_log.clone()
        }
    }
}

/// One background task at a time: while a task runs, neither a preview
/// request nor an export request starts another one; the running task
/// stays the one in flight and no preview is handed out to start.
pub proof fn lemma_one_task_at_a_time(v: ExporterView, r: PreviewRequest)
    requires
        v.active_task is Some,
    ensures
        v.after_preview_request().active_task == v.active_task,
        v.after_export_request().active_task == v.active_task,
        v.is_preview_request(r) ==> !(r is Start),
{
}

/// A task that ends leaves the session idle, unless a preview was asked
/// for while it ran and can start now; then that preview is the task in
/// flight and no further preview is pending.
pub proof fn lemma_finish_leaves_session_idle(v: ExporterView, finished: FinishedTask)
    ensures
        v.after_finish(finished).active_task is None
            || v.after_finish(finished).active_task == Some(ActiveTask::Preview),
        v.after_finish(finished).active_task == Some(ActiveTask::Preview) ==> v.pending_preview_refresh,
        !v.after_finish(finished).pending_preview_refresh,
{
}

/// A preview request made while nothing runs either starts a preview
/// with exactly the entered settings or, when they cannot be used, sets
/// the error status with the reason; it never leaves the request pending.
pub proof fn lemma_idle_preview_request(v: ExporterView, r: PreviewRequest)
    requires
        v.active_task is None,
        v.is_preview_request(r),
    ensures
        v.settings_error() is None <==> r is Start,
        r matches PreviewRequest::Start(s) ==> v.settings_match(s) && v.after_preview_request().active_task == Some(ActiveTask::Preview),
        v.settings_error() matches Some(m) ==> v.after_preview_request().status == JobStatus::Error
            && v.after_preview_request().last_error == Some(m),
        v.after_preview_request().pending_preview_refresh == v.pending_preview_refresh,
{
}

/// The entry an add of the typed event ID leaves in the list.
pub open spec fn added_entry(v: ExporterView, id: u32) -> SelectionView {
    SelectionView { event_id: id, label: v.typed_label(), selected: true }
}

/// Adding a valid event ID leaves it in the list exactly once, selected and
/// with the typed label (or `Özel Kural`), and clears both inputs; an
/// invalid one leaves the list as it was.
pub proof fn lemma_added_id_is_listed(v: ExporterView)
    requires
        ids_distinct(v.events),
    ensures
        v.typed_event_id() matches Some(id) ==> {
            &&& v.after_add_event_id().events.contains(added_entry(v, id))
            &&& ids_distinct(v.after_add_event_id().events)
            &&& v.after_add_event_id().new_event_id_input.len() == 0
            &&& v.after_add_event_id().new_event_label_input.len() == 0
        },
        v.typed_event_id() is None ==> v.after_add_event_id().events == v.events,
{
    if let Some(id) = v.typed_event_id() {
        let entry = added_entry(v, id);
        match first_index_of_id(v.events, id) {
            Some(i) => {
                lemma_first_index_some(v.events, id);
                let e2 = v.events.update(i, entry);
                assert(e2[i] == entry);
                assert forall|a: int, b: int| 0 <= a < b < e2.len() implies #[trigger] e2[a].event_id != #[trigger] e2[b].event_id by {
                    if a != i && b != i {
                        assert(e2[a] == v.events[a] && e2[b] == v.events[b]);
                    } else if a == i {
                        assert(e2[b] == v.events[b]);
                    } else {
                        assert(e2[a] == v.events[a]);
                    }
                }
            },
            None => {
                lemma_first_index_none(v.events, id);
                let pushed = v.events.push(entry);
                assert(pushed.drop_last() == v.events);
                assert(pushed.last() == entry);
                lemma_sort_by_id_facts(v.events);
                lemma_insert_by_id_members(sort_by_id(v.events), entry);
                assert forall|a: int, b: int| 0 <= a < b < pushed.len() implies #[trigger] pushed[a].event_id != #[trigger] pushed[b].event_id by {
                    if b == pushed.len() - 1 {
                        assert(pushed[a] == v.events[a]);
                    } else {
                        assert(pushed[a] == v.events[a] && pushed[b] == v.events[b]);
                    }
                }
                lemma_sort_by_id_facts(pushed);
            },
        }
    }
}

impl EventXmlExporterApp {
    /// Records that opening the last export (or its folder, when `folder`)
    /// failed with `error`.
    pub fn note_open_failure(&mut self, folder: bool, error: String)
        ensures
            final(self)@ == old(self)@.with_status(
                JobStatus::Error,
                if folder { "Klasör açılamadı."@ } else { "Dosya açılamadı."@ },
                Some(error@),
            ),
    {
        if folder {
            self.set_status(JobStatus::Error, "Klasör açılamadı.", Some(error));
        } else {
            self.set_status(JobStatus::Error, "Dosya açılamadı.", Some(error));
        }
    }
}

/// Settings collected from a session carry what the user entered: the
/// selected log, the export-all choice, the selected IDs in list order, and
/// a positive limit exactly when not everything is exported.
pub proof fn lemma_settings_carry_the_inputs(v: ExporterView, s: ExportSettings)
    requires
        v.settings_match(s),
        v.settings_error() is None,
    ensures
        s.source == v.log_source,
        s.export_all == v.export_all,
        s.selected_event_ids@ == selected_ids(v.events),
        s.selected_event_ids@.len() > 0,
        s.output_path@ == trim(v.output_path_input),
        s.output_path@.len() > 0,
        !v.export_all ==> (s.max_events matches Some(l) && l > 0),
        v.export_all ==> s.max_events is None,
{
}

/// Ticking or unticking one entry sets exactly that entry's selection to
/// the given value and leaves its ID, its label and every other entry as
/// they were.
pub proof fn lemma_selection_sets_one_entry(v: ExporterView, index: int, selected: bool)
    requires
        0 <= index < v.events.len(),
    ensures
        v.with_selection_at(index, selected).events.len() == v.events.len(),
        v.with_selection_at(index, selected).events[index].selected == selected,
        v.with_selection_at(index, selected).events[index].event_id == v.events[index].event_id,
        v.with_selection_at(index, selected).events[index].label == v.events[index].label,
        forall|j: int| 0 <= j < v.events.len() && j != index ==> #[trigger] v.with_selection_at(index, selected).events[j] == v.events[j],
        selected ==> selected_ids(v.with_selection_at(index, selected).events).contains(v.events[index].event_id),
{
    if selected {
        lemma_selected_ids_contains(v.with_selection_at(index, selected).events, index);
    }
}

proof fn lemma_selected_ids_contains(events: Seq<SelectionView>, index: int)
    requires
        0 <= index < events.len(),
        events[index].selected,
    ensures
        selected_ids(events).contains(events[index].event_id),
    decreases events.len(),
{
    if index == events.len() - 1 {
        let ids = selected_ids(events);
        assert(ids[ids.len() - 1] == events[index].event_id);
    } else {
        let d = events.drop_last();
        assert(d[index] == events[index]);
        lemma_selected_ids_contains(d, index);
        let inner = selected_ids(d);
        let k = choose|k: int| 0 <= k < inner.len() && inner[k] == events[index].event_id;
        if events.last().selected {
            assert(selected_ids(events)[k] == inner[k]);
        }
    }
}

} // verus!
