use oby::shell::Shell;

#[test]
fn bash_supports_process_sub() {
    assert!(Shell::Bash.supports_process_substitution());
}

#[test]
fn zsh_supports_process_sub() {
    assert!(Shell::Zsh.supports_process_substitution());
}

#[test]
fn other_does_not() {
    assert!(!Shell::Other.supports_process_substitution());
}

#[test]
fn bash_xtrace_wrap_uses_bash_xtracefd() {
    let w = Shell::Bash.xtrace_wrap("STDERR_SINK", "XTRACE_SINK");
    assert!(w.prefix.contains("BASH_XTRACEFD=9"));
    assert!(w.prefix.contains("set -x"));
    assert!(w.stderr_redirect.contains("2> >(tee"));
    assert!(w.stderr_redirect.contains(">&2"));
    assert!(w.xtrace_fds.contains("9> >("));
}

#[test]
fn zsh_xtrace_wrap_uses_ps4_sentinel_and_awk_demuxer() {
    let w = Shell::Zsh.xtrace_wrap("STDERR_SINK", "XTRACE_SINK");
    assert!(
        w.prefix.contains("PS4='__OBYXT__"),
        "zsh prefix must set PS4 with __OBYXT__ sentinel; got: {}",
        w.prefix
    );
    assert!(w.prefix.contains("set -x"));
    assert!(
        w.stderr_redirect.contains("awk"),
        "zsh stderr redirect must use awk demuxer; got: {}",
        w.stderr_redirect
    );
    assert!(w.stderr_redirect.contains("XTRACE_SINK"));
    assert!(w.stderr_redirect.contains("STDERR_SINK"));
    assert!(w.xtrace_fds.is_empty());
}

#[test]
fn other_xtrace_wrap_skips_xtrace_entirely() {
    let w = Shell::Other.xtrace_wrap("STDERR_SINK", "XTRACE_SINK");
    assert!(!w.prefix.contains("set -x"));
    assert!(!w.prefix.contains("BASH_XTRACEFD"));
    assert!(w.stderr_redirect.contains("2> >(tee"));
    assert!(w.xtrace_fds.is_empty());
}

#[test]
fn xtrace_wrap_exact_pieces() {
    let w = Shell::Bash.xtrace_wrap("E", "X");
    assert_eq!(w.prefix, "BASH_XTRACEFD=9\nset -x\n");
    assert_eq!(w.stderr_redirect, "2> >(tee >(E >/dev/null) >&2)");
    assert_eq!(w.xtrace_fds, "9> >(X >/dev/null)");
    let z = Shell::Zsh.xtrace_wrap("E", "X");
    assert_eq!(
        z.stderr_redirect,
        "2> >(awk -v xt=\"X >/dev/null\" -v err=\"E >/dev/null\" '/^__OBYXT__/{sub(/^__OBYXT__/, \"\"); print | xt; next} {print | err; print > \"/dev/stderr\"}')"
    );
    assert_eq!(z.prefix, "PS4='__OBYXT__+(%N):%i> '\nset -x\n");
}

#[test]
fn shell_from_environment_order() {
    assert_eq!(Shell::from_environment(true, true, Some("/bin/zsh")), Shell::Bash);
    assert_eq!(Shell::from_environment(false, true, Some("/bin/bash")), Shell::Zsh);
    assert_eq!(Shell::from_environment(false, false, Some("/usr/local/bin/bash")), Shell::Bash);
    assert_eq!(Shell::from_environment(false, false, Some("/bin/zsh")), Shell::Zsh);
    assert_eq!(Shell::from_environment(false, false, Some("/bin/fish")), Shell::Other);
    assert_eq!(Shell::from_environment(false, false, Some("bash")), Shell::Other);
    assert_eq!(Shell::from_environment(false, false, None), Shell::Other);
}
