use oby::rewrite::{
    apply_inserts, hook_rewrite, inject_pre_filter_tees, neutralize_dev_null_stderr, obi_tee_invocation, rewrite,
    tee_file_redirects, traced_rewrite,
    shell_escape,
};
use oby::shell::Shell;

#[test]
fn shell_escape_basic() {
    assert_eq!(shell_escape("main"), "'main'");
    assert_eq!(shell_escape("a'b"), "'a'\\''b'");
}

#[test]
fn dev_null_inside_quotes_is_not_rewritten() {
    let cmd = "echo 'leave 2>/dev/null alone' && ls 2>/dev/null";
    let out = neutralize_dev_null_stderr(cmd, "main", "t1");
    assert!(out.contains("'leave 2>/dev/null alone'"), "quoted region must be preserved");
    assert!(out.contains("2> >(oby-tee"), "unquoted 2>/dev/null must be rewritten");
}

#[test]
fn outer_wrap_form() {
    let out = rewrite("ls -la", "main", "t1", Shell::Bash).expect("bash/zsh expected in test env");
    assert!(out.starts_with("{ ls -la\n} > >(tee >(oby-tee"));
    assert!(out.contains("--agent 'main'"));
    assert!(out.contains("--tool-use-id 't1'"));
    assert!(out.contains("--stream 'stdout'"));
    assert!(out.contains("--stream 'stderr'"));
}

#[test]
fn rewrite_includes_dev_null_neutralization() {
    let out = rewrite("cmd 2>/dev/null", "main", "t1", Shell::Bash).unwrap();
    assert!(out.contains("--stream stderr-discarded"));
}

#[test]
fn trailing_comment_does_not_break_outer_wrap() {
    let out = rewrite("echo ok # 2>/dev/null trailing comment", "main", "t1", Shell::Bash).unwrap();
    assert!(
        out.contains("trailing comment\n}"),
        "newline must follow the inner so a trailing # comment is terminated; got: {out}"
    );
    assert!(
        !out.contains("# 2> >(oby-tee"),
        "the 2>/dev/null inside a # comment must not be rewritten; got: {out}"
    );
}

#[test]
fn rewrite_grep_injects_pre_grep_tee() {
    let out = rewrite("ls | grep foo", "main", "t1", Shell::Bash).unwrap();
    assert!(
        out.contains("tee >(oby-tee --agent 'main' --tool-use-id 't1' --stream 'stdout-pre-grep'"),
        "expected stdout-pre-grep tee; got: {out}"
    );
    assert!(out.contains("| grep foo"), "the command's own | grep must be preserved; got: {out}");
}

#[test]
fn rewrite_head_injects_pre_head_tee() {
    let out = rewrite("cat /etc/passwd | head -n 5", "main", "t1", Shell::Bash).unwrap();
    assert!(out.contains("--stream 'stdout-pre-head'"), "expected stdout-pre-head tee; got: {out}");
    assert!(out.contains("| head -n 5"));
}

#[test]
fn rewrite_tail_injects_pre_tail_tee() {
    let out = rewrite("cat /etc/passwd | tail -n 3", "main", "t1", Shell::Bash).unwrap();
    assert!(out.contains("--stream 'stdout-pre-tail'"));
    assert!(out.contains("| tail -n 3"));
}

#[test]
fn rewrite_first_pipe_stage_not_tee_d() {
    let out = rewrite("grep foo /etc/passwd", "main", "t1", Shell::Bash).unwrap();
    assert!(
        !out.contains("--stream 'stdout-pre-grep'"),
        "a bare `grep` (not piped) must not get a pre-grep tee; got: {out}"
    );
}

#[test]
fn rewrite_grep_inside_quoted_string_not_rewritten() {
    let out = rewrite(r#"echo "ls | grep foo""#, "main", "t1", Shell::Bash).unwrap();
    assert!(
        !out.contains("--stream 'stdout-pre-grep'"),
        "the quoted `| grep` is text, not a real pipe; got: {out}"
    );
}

#[test]
fn rewrite_grep_in_comment_not_rewritten() {
    let out = rewrite("echo ok # | grep foo", "main", "t1", Shell::Bash).unwrap();
    assert!(!out.contains("--stream 'stdout-pre-grep'"));
}

#[test]
fn rewrite_grep_inside_subshell_not_rewritten() {
    let out = rewrite("(cat foo | grep bar)", "main", "t1", Shell::Bash).unwrap();
    assert!(
        !out.contains("--stream 'stdout-pre-grep'"),
        "the pipe inside (...) belongs to the subshell, not the outer pipeline"
    );
}

// Exact outputs and the cases around them.

#[test]
fn rewrite_exact_plain_command() {
    let out = rewrite("ls", "main", "t1", Shell::Zsh).unwrap();
    assert_eq!(
        out,
        "{ ls\n} > >(tee >(oby-tee --agent 'main' --tool-use-id 't1' --stream 'stdout' >/dev/null)) \
         2> >(tee >(oby-tee --agent 'main' --tool-use-id 't1' --stream 'stderr' >/dev/null) >&2)"
    );
}

#[test]
fn rewrite_passes_through_for_other_shells() {
    assert_eq!(rewrite("ls | grep foo", "main", "t1", Shell::Other), None);
}

#[test]
fn neutralize_exact() {
    assert_eq!(
        neutralize_dev_null_stderr("ls 2>/dev/null; x 2>/dev/null", "a", "t"),
        "ls 2> >(oby-tee --agent 'a' --tool-use-id 't' --stream stderr-discarded >/dev/null); \
         x 2> >(oby-tee --agent 'a' --tool-use-id 't' --stream stderr-discarded >/dev/null)"
    );
}

#[test]
fn neutralize_leaves_plain_command() {
    assert_eq!(neutralize_dev_null_stderr("echo 'x 2>/dev/null'", "a", "t"), "echo 'x 2>/dev/null'");
}

#[test]
fn inject_exact_and_every_filter() {
    assert_eq!(
        inject_pre_filter_tees("a | grep x | head", "m", "t"),
        "a | tee >(oby-tee --agent 'm' --tool-use-id 't' --stream 'stdout-pre-grep' >/dev/null) | grep x \
         | tee >(oby-tee --agent 'm' --tool-use-id 't' --stream 'stdout-pre-head' >/dev/null) | head"
    );
}

#[test]
fn inject_ignores_words_that_only_start_with_a_filter_name() {
    assert_eq!(inject_pre_filter_tees("a | grepx y", "m", "t"), "a | grepx y");
}

#[test]
fn obi_tee_invocation_quotes_each_value() {
    assert_eq!(
        obi_tee_invocation("a'b", "t", "s"),
        "oby-tee --agent 'a'\\''b' --tool-use-id 't' --stream 's'"
    );
}

#[test]
fn apply_inserts_right_to_left_and_ties_in_given_order() {
    let out = apply_inserts("abc", vec![(1, "X".to_string()), (3, "Y".to_string()), (1, "Z".to_string())]);
    assert_eq!(out, "aZXbcY");
}

#[test]
fn apply_inserts_without_edits_is_identity() {
    assert_eq!(apply_inserts("héllo", Vec::new()), "héllo");
}

#[test]
fn shell_escape_unicode_and_empty() {
    assert_eq!(shell_escape(""), "''");
    assert_eq!(shell_escape("é'"), "'é'\\'''");
}

fn is_subsequence(a: &[u8], c: &[u8]) -> bool {
    let mut it = c.iter();
    a.iter().all(|x| it.any(|y| y == x))
}

#[test]
fn rewrite_keeps_every_command_byte_in_order() {
    let cmd = "cat 'a b' 2>/dev/null | grep -v x | head -3 # done";
    let neutral = neutralize_dev_null_stderr(cmd, "main", "t1");
    assert!(is_subsequence(cmd.as_bytes(), neutral.as_bytes()));
    let inner = inject_pre_filter_tees(&neutral, "main", "t1");
    assert!(is_subsequence(neutral.as_bytes(), inner.as_bytes()));
    let out = rewrite(cmd, "main", "t1", Shell::Bash).unwrap();
    assert!(is_subsequence(cmd.as_bytes(), out.as_bytes()));
    assert!(!is_subsequence(b"zzz", out.as_bytes()));
}

#[test]
fn traced_rewrite_bash_sends_trace_to_xtrace_stream() {
    let out = traced_rewrite("echo hello", "main", "t1", Shell::Bash).unwrap();
    let sink = |s: &str| format!("oby-tee --agent 'main' --tool-use-id 't1' --stream '{s}'");
    let expected = format!(
        "{{ BASH_XTRACEFD=9\nset -x\necho hello\n}} > >(tee >({} >/dev/null)) 2> >(tee >({} >/dev/null) >&2) 9> >({} >/dev/null)",
        sink("stdout"),
        sink("stderr"),
        sink("xtrace")
    );
    assert_eq!(out, expected);
}

#[test]
fn traced_rewrite_zsh_demuxes_trace_and_other_shells_pass_through() {
    let out = traced_rewrite("echo hello", "main", "t1", Shell::Zsh).unwrap();
    assert!(out.starts_with("{ PS4='__OBYXT__+(%N):%i> '\nset -x\necho hello\n} > >(tee >(oby-tee"));
    assert!(out.contains("2> >(awk -v xt=\"oby-tee --agent 'main' --tool-use-id 't1' --stream 'xtrace' >/dev/null\""));
    assert!(!out.contains("9> >("));
    assert!(traced_rewrite("echo hello", "main", "t1", Shell::Other).is_none());
}

#[test]
fn hook_rewrite_neutralizes_and_traces() {
    let out = hook_rewrite("ls 2>/dev/null", "main", "tu_b", Shell::Bash).unwrap();
    assert!(out.contains("--stream stderr-discarded"));
    assert!(out.contains("--stream 'xtrace'"));
    assert_eq!(out, traced_rewrite("ls 2>/dev/null", "main", "tu_b", Shell::Bash).unwrap());
    assert!(hook_rewrite("ls", "main", "t1", Shell::Other).is_none());
}

#[test]
fn file_redirects_are_teed_to_stdout_to_file() {
    let sink = "oby-tee --agent 'main' --tool-use-id 't1' --stream 'stdout-to-file'";
    assert_eq!(
        tee_file_redirects("ls > out.txt", "main", "t1"),
        format!("ls  1> >(tee  out.txt >({sink} >/dev/null) >/dev/null)")
    );
    assert_eq!(
        tee_file_redirects("echo x >>log", "main", "t1"),
        format!("echo x  1> >(tee -a log >({sink} >/dev/null) >/dev/null)")
    );
    assert_eq!(
        tee_file_redirects(r#"ls > "a b.txt" 2> err.txt"#, "main", "t1"),
        format!(r#"ls  1> >(tee  "a b.txt" >({sink} >/dev/null) >/dev/null) 2> err.txt"#)
    );
    // FD-prefixed, quoted, commented and process-substitution redirects stay.
    for cmd in ["ls 2> err.txt", "ls &> all.txt", "echo 'a > b'", "ls # > x", "ls > >(cat)"] {
        assert_eq!(tee_file_redirects(cmd, "main", "t1"), cmd);
    }
}

#[test]
fn rewrite_tees_file_redirects_and_keeps_the_command() {
    let cmd = "ls > out.txt 2>/dev/null";
    let out = rewrite(cmd, "main", "t1", Shell::Bash).unwrap();
    assert!(out.contains("tee  out.txt >(oby-tee --agent 'main' --tool-use-id 't1' --stream 'stdout-to-file'"));
    assert!(out.contains("--stream stderr-discarded"));
    assert!(is_subsequence(cmd.as_bytes(), out.as_bytes()));
}
