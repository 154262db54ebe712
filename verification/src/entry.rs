//! The feed's data: one `DisplayEntry` per tool call, and the updates that
//! complete it.
use vstd::prelude::*;

verus! {

/// One tool call in an agent's timeline.
#[derive(Debug, Clone)]
pub struct DisplayEntry {
    pub agent_key: String,
    pub tool_use_id: String,
    pub tool: String,
    /// When the entry was rendered, in milliseconds since the Unix epoch
    /// (the unit the wire format carries).
    pub timestamp: u64,
    pub headline: String,
    pub body: EntryBody,
    pub status: EntryStatus,
}

/// What an entry shows under its headline.
#[derive(Debug, Clone)]
pub enum EntryBody {
    /// No body (the wire name is `none`).
    Empty,
    Text { text: String },
    /// Live byte stream; the wrapper binds it to the matching `oby-tee`
    /// connection by tool_use_id.
    LiveStream { tool_use_id: String },
    /// Pre-rendered structured diff (for Edit/Write).
    Diff { hunks: Vec<DiffHunk> },
}

#[derive(Debug, Clone)]
pub struct DiffHunk {
    pub old_start: u32,
    pub old_lines: Vec<String>,
    pub new_start: u32,
    pub new_lines: Vec<String>,
}

#[derive(Debug, Clone, Copy, PartialEq, Eq, Structural)]
pub enum EntryStatus {
    Pending,
    /// The tool call succeeded (the wire name is `ok`).
    Success,
    Error,
}

/// Completes an entry, found by its tool_use_id.
#[derive(Debug, Clone)]
pub struct DisplayEntryUpdate {
    pub tool_use_id: String,
    pub status: EntryStatus,
    pub append_body: Option<EntryBody>,
}

} // verus!
