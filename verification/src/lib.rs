//! Core of a named capture tool: a child process is launched under a name,
//! its output streams are duplicated line by line to log files and to the
//! terminal, and the capture is later listed, read or stopped by that name.
//!
//! The crate holds the decisions and the text handling. Everything that
//! touches the file system, the process table or the terminal is left to the
//! caller, which hands in plain values and carries out what comes back.
//!
//! - [`meta`]: the metadata record and the paths of the registry.
//! - [`start`]: the launcher's steps and the duplication of a stream.
//! - [`logs`]: selecting lines of a log, and following it.
//! - [`list`]: the listing of the registered captures.
//! - [`stop`]: what a stop signals, removes and reports.
//! - [`lines`], [`text`]: bytes cut into lines, and small text helpers.

pub mod lines;
pub mod list;
pub mod logs;
pub mod meta;
pub mod start;
pub mod stop;
pub mod text;
