//! `oby-tee`'s arguments, and where its per-agent socket lives.
use vstd::prelude::*;
use crate::text::{chars_of, push_char};

verus! {

broadcast use vstd::seq::group_seq_axioms;

/// What `oby-tee` is told on its command line.
#[derive(Debug, Clone)]
pub struct Args {
    /// Agent routing key (typically agent_id, or `main` for the main agent).
    pub agent: String,
    /// Correlation id provided by the rewriter (the tool_use_id).
    pub tool_use_id: String,
    /// Sub-stream label: stdout, stderr, stderr-discarded, stdout-piped, etc.
    pub stream: String,
    /// Socket directory (defaults to `$OBS_SOCKET_DIR`).
    pub socket_dir: Option<String>,
}

/// `dir` joined with `name` as a Unix path join does it: an absolute
/// `name` replaces `dir`, an empty `dir` adds nothing, and one `/` separates
/// the two unless `dir` already ends with one.
pub open spec fn spec_path_join(dir: Seq<char>, name: Seq<char>) -> Seq<char> {
    if name.len() > 0 && name[0] == '/' {
        name
    } else if dir.len() == 0 {
        name
    } else if dir.last() == '/' {
        dir + name
    } else {
        dir + seq!['/'] + name
    }
}

/// The socket of an agent in the session's socket directory:
/// `<dir>/<agent_key>.sock`.
pub open spec fn spec_agent_socket_path(dir: Seq<char>, agent_key: Seq<char>) -> Seq<char> {
    spec_path_join(dir, agent_key + ".sock"@)
}

/// The path of `agent_key`'s socket in `dir`.
pub fn agent_socket_path(dir: &str, agent_key: &str) -> (res: String)
    ensures
        res@ == spec_agent_socket_path(dir@, agent_key@),
{
    let mut name = String::from_str(agent_key);
    name.append(".sock");
    let d = chars_of(dir);
    let n = chars_of(name.as_str());
    if n.len() > 0 && n[0] == '/' {
        return name;
    }
    if d.len() == 0 {
        return name;
    }
    let mut out = String::from_str(dir);
    if d[d.len() - 1] != '/' {
        push_char(&mut out, '/');
    }
    out.append(name.as_str());
    out
}

impl Args {
    /// Where this `oby-tee` streams to: its agent's socket in the socket
    /// directory, or nowhere without one.
    pub fn socket_path(&self) -> (res: Option<String>)
        ensures
            match self.socket_dir {
                Some(d) => res matches Some(p) && p@ == spec_agent_socket_path(d@, self.agent@),
                None => res is None,
            },
    {
        match &self.socket_dir {
            Some(d) => Some(agent_socket_path(d.as_str(), self.agent.as_str())),
            None => None,
        }
    }
}

} // verus!
