# Event XML Exporter

A desktop tool that scans the Windows event log for selected event IDs and
exports the matching records as an XML document, with a live preview of the
document while the selection is edited.

## Layout

- `src/` — the library, specified and proved with Verus:
  - `text.rs`: decimal rendering and parsing, trimming, joining, ordering of strings;
  - `domain.rs`: event selections, log sources, job states, export settings, records;
  - `timestamp.rs`: local times as plain values and their renderings through `chrono`;
  - `naming.rs`: export file names (default name, unique name, timestamp refresh);
  - `xml.rs`: the `quick_xml` writer as a sequence of XML events;
  - `export.rs`: the exported document, its metadata and the live preview;
  - `event_log.rs`: the raw record layout, record decoding, and the scan of a log;
  - `session.rs`: the exporter session as a state machine driven by user actions
    and background-task outcomes.
- `app/` — the desktop program around the library: the `eframe` window, the
  background threads, file system access and the Win32 event log reader.
- `tests/` — tests of the library on concrete values.
