//! Verified core of the event log XML exporter: the domain model, the XML
//! document layout, export file naming, event log record decoding and the
//! exporter session's decisions.

pub mod text;
pub mod domain;
pub mod timestamp;
pub mod naming;
pub mod xml;
pub mod event_log;
pub mod export;
pub mod session;
