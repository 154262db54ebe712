//! The built-in capturers and how a tool call finds its capturer.
use vstd::prelude::*;
use crate::text::str_eq;

verus! {

/// The capturers that ship, in registry order.
#[derive(Debug, Clone, Copy, PartialEq, Eq, Structural)]
pub enum CapturerKind {
    Bash,
    Read,
}

/// The agent CLI's tool each capturer renders.
pub open spec fn spec_tool_name(k: CapturerKind) -> Seq<char> {
    match k {
        CapturerKind::Bash => "Bash"@,
        CapturerKind::Read => "Read"@,
    }
}

/// The capturer for a tool name: the first in registry order whose tool it
/// is, `None` for a tool no capturer renders.
pub open spec fn spec_find_capturer(tool_name: Seq<char>) -> Option<CapturerKind> {
    if tool_name == "Bash"@ {
        Some(CapturerKind::Bash)
    } else if tool_name == "Read"@ {
        Some(CapturerKind::Read)
    } else {
        None
    }
}

/// Look up the capturer for a tool call.
pub fn find_capturer(tool_name: &str) -> (res: Option<CapturerKind>)
    ensures
        res == spec_find_capturer(tool_name@),
{
    if str_eq(tool_name, "Bash") {
        Some(CapturerKind::Bash)
    } else if str_eq(tool_name, "Read") {
        Some(CapturerKind::Read)
    } else {
        None
    }
}

/// The capturers' stable identifiers.
pub open spec fn spec_capturer_name(k: CapturerKind) -> Seq<char> {
    match k {
        CapturerKind::Bash => "bash"@,
        CapturerKind::Read => "read"@,
    }
}

impl CapturerKind {
    /// Stable identifier of the capturer.
    pub fn name(&self) -> (res: &'static str)
        ensures
            res@ == spec_capturer_name(*self),
    {
        match self {
            CapturerKind::Bash => "bash",
            CapturerKind::Read => "read",
        }
    }

    /// The agent CLI's tool the capturer renders.
    pub fn tool_name(&self) -> (res: &'static str)
        ensures
            res@ == spec_tool_name(*self),
    {
        match self {
            CapturerKind::Bash => "Bash",
            CapturerKind::Read => "Read",
        }
    }
}

/// The built-in capturers, in registry order.
pub fn builtin_capturers() -> (res: Vec<CapturerKind>)
    ensures
        res@ == seq![CapturerKind::Bash, CapturerKind::Read],
{
    let v: Vec<CapturerKind> = vec![CapturerKind::Bash, CapturerKind::Read];
    v
}

/// Law: a tool call finds the first built-in capturer whose tool it is, and
/// only the tools of built-in capturers find one.
pub proof fn law_find_capturer_matches_registry(tool_name: Seq<char>)
    ensures
        spec_find_capturer(tool_name) matches Some(k) ==> spec_tool_name(k) == tool_name,
        spec_find_capturer(tool_name) is None ==> tool_name != spec_tool_name(CapturerKind::Bash) && tool_name
            != spec_tool_name(CapturerKind::Read),
        spec_find_capturer(spec_tool_name(CapturerKind::Bash)) == Some(CapturerKind::Bash),
        spec_find_capturer(spec_tool_name(CapturerKind::Read)) == Some(CapturerKind::Read),
{
    reveal_strlit("Bash");
    reveal_strlit("Read");
    assert("Read"@[0] != "Bash"@[0]);
}

} // verus!
