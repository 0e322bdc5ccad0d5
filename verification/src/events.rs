//! Payloads of the log events the shell emits to its frontend.  Building the
//! payload is plain data handling; stamping it with an id and a time, and
//! emitting it, are the shell's business.

use vstd::prelude::*;

verus! {

/// One log line shown in the frontend.
#[derive(Clone, Debug)]
pub struct LogEventPayload {
    /// Unique id of this log line.
    pub id: String,
    /// The message text.
    pub message: String,
    /// Severity label.
    pub level: String,
    /// When the line was emitted.
    pub timestamp: String,
    /// Which component emitted it.
    pub source: String,
    /// Optional further detail.
    pub details: Option<String>,
}

/// The event carrying one log payload.
#[derive(Clone, Debug)]
pub struct LogEvent(pub LogEventPayload);

impl LogEventPayload {
    /// Assemble a payload from its parts, unchanged.
    pub fn new(
        id: String,
        message: String,
        level: String,
        timestamp: String,
        source: String,
        details: Option<String>,
    ) -> (r: Self)
        ensures
            r.id == id,
            r.message == message,
            r.level == level,
            r.timestamp == timestamp,
            r.source == source,
            r.details == details,
    {
        LogEventPayload { id, message, level, timestamp, source, details }
    }
}

} // verus!
