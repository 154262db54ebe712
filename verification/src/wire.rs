//! What travels over the sockets: control messages from the hook and the
//! header line each `oby-tee` connection opens with.
use vstd::prelude::*;
use crate::entry::{DisplayEntry, DisplayEntryUpdate};
use crate::text::{decimal, push_decimal};
use crate::clock::unix_now_secs;

verus! {

/// Sent from oby-hook to the wrapper's control socket, one JSON line each.
#[derive(Debug, Clone)]
pub enum ControlMessage {
    /// A new entry to add to the agent's timeline.
    Entry { v: u8, entry: DisplayEntry },
    /// Update to an existing entry (correlated by tool_use_id).
    Update { v: u8, update: DisplayEntryUpdate },
    /// A subagent's `SubagentStop` hook fired.
    AgentStopped { v: u8, agent_key: String },
}

impl ControlMessage {
    /// A version-1 entry message.
    pub fn entry(entry: DisplayEntry) -> (res: Self)
        ensures
            res == (ControlMessage::Entry { v: 1, entry }),
    {
        ControlMessage::Entry { v: 1, entry }
    }

    /// A version-1 update message.
    pub fn update(update: DisplayEntryUpdate) -> (res: Self)
        ensures
            res == (ControlMessage::Update { v: 1, update }),
    {
        ControlMessage::Update { v: 1, update }
    }

    /// The version-1 message for a `SubagentStop` payload with the given
    /// `agent_id`: the agent stopped; `None` without an `agent_id` (the main
    /// agent's stop, which the picker never shows).
    pub fn subagent_stop(agent_id: Option<String>) -> (res: Option<Self>)
        ensures
            match agent_id {
                Some(id) => res == Some(ControlMessage::AgentStopped { v: 1, agent_key: id }),
                None => res is None,
            },
    {
        match agent_id {
            Some(id) => Some(ControlMessage::AgentStopped { v: 1, agent_key: id }),
            None => None,
        }
    }
}

/// Sent by oby-tee on connection open, before any bytes.
#[derive(Debug, Clone)]
pub struct HeaderLine {
    pub v: u8,
    pub tool_use_id: String,
    /// Sub-stream name: "stdout", "stderr", "stderr-discarded", etc.
    pub stream: String,
    /// Unix timestamp (seconds since epoch), prefixed with "@".
    pub started_at: String,
}

impl HeaderLine {
    /// A version-1 header stamped with the current time.
    pub fn new(tool_use_id: &str, stream: &str) -> (res: Self)
        ensures
            res.v == 1,
            res.tool_use_id@ == tool_use_id@,
            res.stream@ == stream@,
            exists|secs: nat| res.started_at@ == seq!['@'] + decimal(secs),
    {
        let secs = unix_now_secs();
        Self::at(tool_use_id, stream, secs)
    }

    /// A version-1 header stamped `@SECS`.
    pub fn at(tool_use_id: &str, stream: &str, secs: u64) -> (res: Self)
        ensures
            res.v == 1,
            res.tool_use_id@ == tool_use_id@,
            res.stream@ == stream@,
            res.started_at@ == seq!['@'] + decimal(secs as nat),
    {
        let mut started_at = String::from_str("@");
        push_decimal(&mut started_at, secs);
        proof {
            reveal_strlit("@");
        }
        HeaderLine {
            v: 1,
            tool_use_id: String::from_str(tool_use_id),
            stream: String::from_str(stream),
            started_at,
        }
    }
}

} // verus!
