//! Logging subsystem of a service supervisor: an append-only binary log
//! format, a streaming decoder that recovers entries from a live and possibly
//! corrupted byte stream, and the decisions of a tailer that follows a
//! rotating log file.
//!
//! Logs are stored in `/var/log/sv/{unit}/current` for system services and
//! `/var/log/sv/{user}/{unit}/current` for user services.

pub mod config;
pub mod log;
pub mod tag;
pub mod tailer;
