//! The hook payload the agent CLI sends on stdin, as far as the logic reads it.
use vstd::prelude::*;

verus! {

/// Mirrors the PreToolUse / PostToolUse payload. Paths are kept as the
/// strings the payload carries.
#[derive(Debug, Clone)]
pub struct HookContext {
    pub session_id: String,
    pub transcript_path: String,
    pub cwd: String,
    pub hook_event_name: HookEvent,
    pub tool_name: String,
    pub tool_use_id: String,
    pub permission_mode: Option<String>,
    pub effort: Option<EffortLevel>,
    /// Present iff the call came from inside a subagent. This is the routing
    /// key.
    pub agent_id: Option<String>,
    /// Subagent type name (e.g. "general-purpose"). Present iff `agent_id` is.
    pub agent_type: Option<String>,
}

/// The routing key of a payload: its `agent_id`, or `main` without one.
pub open spec fn spec_agent_key(agent_id: Option<String>) -> Seq<char> {
    match agent_id {
        Some(id) => id@,
        None => "main"@,
    }
}

impl HookContext {
    /// `"main"` for the main agent, the `agent_id` otherwise. Stable
    /// per-agent routing key.
    pub fn agent_key(&self) -> (res: &str)
        ensures
            res@ == spec_agent_key(self.agent_id),
    {
        match &self.agent_id {
            Some(id) => id.as_str(),
            None => "main",
        }
    }
}

#[derive(Debug, Clone, Copy, PartialEq, Eq, Structural)]
pub enum HookEvent {
    Pre,
    Post,
    /// Fires when a tool call returned an error; routed like `Post`.
    PostFailure,
}

#[derive(Debug, Clone)]
pub struct EffortLevel {
    pub level: String,
}

} // verus!
