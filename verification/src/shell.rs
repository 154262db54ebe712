//! The shell that the agent CLI's Bash tool runs a command in, and the
//! per-shell pieces of the xtrace wrap.
use vstd::prelude::*;
use crate::text::{utf8, ends_with};

verus! {

/// The shells the rewrite knows how to target.
#[derive(Clone, Copy, Debug, PartialEq, Eq, Structural)]
pub enum Shell {
    Bash,
    Zsh,
    Other,
}

/// Which shell the environment describes: `BASH_VERSION` set means bash,
/// then `ZSH_VERSION` set means zsh, then a `SHELL` path ending in `/bash`
/// or `/zsh`; anything else is `Other`.
pub open spec fn spec_shell_from_env(bash_version_set: bool, zsh_version_set: bool, shell: Option<Seq<char>>) -> Shell {
    if bash_version_set {
        Shell::Bash
    } else if zsh_version_set {
        Shell::Zsh
    } else {
        match shell {
            Some(s) => if ends_with(utf8(s), utf8("/bash"@)) {
                Shell::Bash
            } else if ends_with(utf8(s), utf8("/zsh"@)) {
                Shell::Zsh
            } else {
                Shell::Other
            },
            None => Shell::Other,
        }
    }
}

/// `bash -c` and `zsh -c` understand `>(…)`; other shells get no rewrite.
pub open spec fn spec_supports_process_substitution(shell: Shell) -> bool {
    shell is Bash || shell is Zsh
}

/// The `2> >(tee >(SINK >/dev/null) >&2)` redirect that copies stderr to a
/// sink while passing it through.
pub open spec fn spec_tee_stderr_redirect(stderr_sink: Seq<char>) -> Seq<char> {
    "2> >(tee >("@ + stderr_sink + " >/dev/null) >&2)"@
}

/// The zsh awk demuxer: lines carrying the `__OBYXT__` sentinel go (without
/// it) to the xtrace sink, every other line to the stderr sink and back to
/// stderr.
pub open spec fn spec_zsh_demuxer(stderr_sink: Seq<char>, xtrace_sink: Seq<char>) -> Seq<char> {
    "awk -v xt=\""@ + xtrace_sink + " >/dev/null\" -v err=\""@ + stderr_sink
        + " >/dev/null\" '/^__OBYXT__/{sub(/^__OBYXT__/, \"\"); print | xt; next} {print | err; print > \"/dev/stderr\"}'"@
}

/// Per-shell wrap blueprint for the outer xtrace + stdout/stderr layer,
/// spliced as `{ <prefix><inner>\n} > >(tee stdout) <stderr_redirect> <xtrace_fds>`.
pub struct XtraceWrap {
    /// Inserted at the top of the brace block, before the inner command;
    /// empty when no xtrace is wanted.
    pub prefix: String,
    /// The full `2> >(...)` redirect on the brace block.
    pub stderr_redirect: String,
    /// Trailing FD redirects on the brace block (bash only).
    pub xtrace_fds: String,
}

impl Shell {
    /// Which shell the environment describes, from whether `BASH_VERSION`
    /// and `ZSH_VERSION` are set and from the value of `SHELL`.
    pub fn from_environment(bash_version_set: bool, zsh_version_set: bool, shell: Option<&str>) -> (res: Shell)
        ensures
            res == spec_shell_from_env(
                bash_version_set,
                zsh_version_set,
                match shell {
                    Some(s) => Some(s@),
                    None => None,
                },
            ),
    {
        if bash_version_set {
            return Shell::Bash;
        }
        if zsh_version_set {
            return Shell::Zsh;
        }
        match shell {
            Some(s) => {
                if crate::text::str_ends_with(s, "/bash") {
                    Shell::Bash
                } else if crate::text::str_ends_with(s, "/zsh") {
                    Shell::Zsh
                } else {
                    Shell::Other
                }
            },
            None => Shell::Other,
        }
    }

    pub fn supports_process_substitution(&self) -> (res: bool)
        ensures
            res == spec_supports_process_substitution(*self),
    {
        match self {
            Shell::Bash | Shell::Zsh => true,
            Shell::Other => false,
        }
    }

    /// Build the per-shell xtrace wrap blueprint from the already-formatted
    /// `oby-tee` sink invocations.
    pub fn xtrace_wrap(&self, stderr_sink: &str, xtrace_sink: &str) -> (res: XtraceWrap)
        ensures
            *self is Bash ==> {
                &&& res.prefix@ == "BASH_XTRACEFD=9\nset -x\n"@
                &&& res.stderr_redirect@ == spec_tee_stderr_redirect(stderr_sink@)
                &&& res.xtrace_fds@ == "9> >("@ + xtrace_sink@ + " >/dev/null)"@
            },
            *self is Zsh ==> {
                &&& res.prefix@ == "PS4='__OBYXT__+(%N):%i> '\nset -x\n"@
                &&& res.stderr_redirect@ == "2> >("@ + spec_zsh_demuxer(stderr_sink@, xtrace_sink@) + ")"@
                &&& res.xtrace_fds@ == Seq::<char>::empty()
            },
            *self is Other ==> {
                &&& res.prefix@ == Seq::<char>::empty()
                &&& res.stderr_redirect@ == spec_tee_stderr_redirect(stderr_sink@)
                &&& res.xtrace_fds@ == Seq::<char>::empty()
            },
    {
        match self {
            Shell::Bash => {
                let mut xtrace_fds = String::from_str("9> >(");
                xtrace_fds.append(xtrace_sink);
                xtrace_fds.append(" >/dev/null)");
                XtraceWrap {
                    prefix: String::from_str("BASH_XTRACEFD=9\nset -x\n"),
                    stderr_redirect: tee_stderr_redirect(stderr_sink),
                    xtrace_fds,
                }
            },
            Shell::Zsh => {
                let mut redirect = String::from_str("2> >(");
                redirect.append("awk -v xt=\"");
                redirect.append(xtrace_sink);
                redirect.append(" >/dev/null\" -v err=\"");
                redirect.append(stderr_sink);
                redirect.append(
                    " >/dev/null\" '/^__OBYXT__/{sub(/^__OBYXT__/, \"\"); print | xt; next} {print | err; print > \"/dev/stderr\"}'",
                );
                redirect.append(")");
                assert(redirect@ =~= "2> >("@ + spec_zsh_demuxer(stderr_sink@, xtrace_sink@) + ")"@);
                XtraceWrap {
                    prefix: String::from_str("PS4='__OBYXT__+(%N):%i> '\nset -x\n"),
                    stderr_redirect: redirect,
                    xtrace_fds: String::new(),
                }
            },
            Shell::Other => XtraceWrap {
                prefix: String::new(),
                stderr_redirect: tee_stderr_redirect(stderr_sink),
                xtrace_fds: String::new(),
            },
        }
    }
}

fn tee_stderr_redirect(stderr_sink: &str) -> (res: String)
    ensures
        res@ == spec_tee_stderr_redirect(stderr_sink@),
{
    let mut out = String::from_str("2> >(tee >(");
    out.append(stderr_sink);
    out.append(" >/dev/null) >&2)");
    out
}

} // verus!
