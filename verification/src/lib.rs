//! Time-travel and attribution for a filesystem.
pub mod text;
pub mod order;
pub mod calendar;
pub mod time_expr;
pub mod time_laws;
pub mod number;
pub mod text_laws;
pub mod json;
pub mod audit;
pub mod path;
pub mod path_laws;
pub mod graph;
pub mod history;
pub mod history_laws;
pub mod lineage;
pub mod retention;
pub mod graph_laws;
pub mod recording_laws;
pub mod proctree;
pub mod bytes;
pub mod fanotify;
pub mod connector;
pub mod watch_laws;
pub mod daemon;
pub mod daemon_laws;
pub mod report;
pub mod report_laws;
pub mod args;
pub mod mount;
pub mod mount_laws;
pub mod revert;
pub mod revert_laws;
pub mod audit_laws;
pub mod trace;
pub mod undo;
pub mod tool_laws;
