use oby::scanner::{code_contains, code_spans, pipe_segments, redirects, RedirectKind};

fn spans_text(s: &str) -> Vec<&str> {
    code_spans(s).into_iter().map(|sp| &s[sp.start..sp.end]).collect()
}

fn first_words(s: &str) -> Vec<&str> {
    pipe_segments(s)
        .into_iter()
        .map(|seg| &s[seg.first_word_start..seg.first_word_end])
        .collect()
}

#[test]
fn no_quotes_one_span() {
    assert_eq!(spans_text("ls -la /tmp"), vec!["ls -la /tmp"]);
}

#[test]
fn single_quotes_excluded() {
    assert_eq!(spans_text("echo 'hi 2>/dev/null there'"), vec!["echo "]);
}

#[test]
fn double_quotes_excluded() {
    assert_eq!(spans_text(r#"echo "in here 2>/dev/null" out"#), vec!["echo ", " out"]);
}

#[test]
fn comment_excluded_after_whitespace() {
    assert_eq!(spans_text("ls # but not 2>/dev/null"), vec!["ls "]);
}

#[test]
fn hash_in_word_is_kept() {
    assert_eq!(spans_text("echo a#b"), vec!["echo a#b"]);
}

#[test]
fn code_contains_ignores_quoted_matches() {
    assert!(!code_contains("echo 'foo 2>/dev/null bar'", "2>/dev/null"));
    assert!(code_contains("ls 2>/dev/null", "2>/dev/null"));
}

#[test]
fn pipe_segments_single_command_one_segment() {
    let segs = pipe_segments("ls -la /tmp");
    assert_eq!(segs.len(), 1);
    assert_eq!(first_words("ls -la /tmp"), vec!["ls"]);
}

#[test]
fn pipe_segments_two_stage_pipeline() {
    let segs = pipe_segments("ls | grep foo");
    assert_eq!(segs.len(), 2);
    assert_eq!(first_words("ls | grep foo"), vec!["ls", "grep"]);
}

#[test]
fn pipe_segments_three_stage_pipeline() {
    assert_eq!(
        first_words("cat /etc/hosts | grep 127 | head -n 5"),
        vec!["cat", "grep", "head"]
    );
}

#[test]
fn pipe_segments_logical_or_is_one_segment() {
    let segs = pipe_segments("ls /nope || echo fallback");
    assert_eq!(segs.len(), 1);
}

#[test]
fn pipe_segments_pipe_in_single_quote_excluded() {
    let segs = pipe_segments("echo 'a | b' | grep foo");
    assert_eq!(segs.len(), 2);
    assert_eq!(first_words("echo 'a | b' | grep foo"), vec!["echo", "grep"]);
}

#[test]
fn pipe_segments_pipe_in_double_quote_excluded() {
    let segs = pipe_segments(r#"echo "a | b" | grep foo"#);
    assert_eq!(segs.len(), 2);
}

#[test]
fn pipe_segments_pipe_in_comment_excluded() {
    let segs = pipe_segments("echo ok # a | b");
    assert_eq!(segs.len(), 1);
}

#[test]
fn pipe_segments_pipe_in_parens_excluded() {
    let segs = pipe_segments("(echo a | grep b)");
    assert_eq!(segs.len(), 1);
}

#[test]
fn pipe_segments_pipe_in_command_substitution_excluded() {
    let segs = pipe_segments("echo $(cat foo | wc -l)");
    assert_eq!(segs.len(), 1);
}

#[test]
fn pipe_segments_pipe_in_backticks_excluded() {
    let segs = pipe_segments("echo `cat foo | wc -l`");
    assert_eq!(segs.len(), 1);
}

#[test]
fn pipe_segments_fd_prefixed_pipe_still_pipe() {
    assert_eq!(first_words("cmd 2>err | grep foo"), vec!["cmd", "grep"]);
}

#[test]
fn pipe_segments_first_word_skips_leading_whitespace() {
    let segs = pipe_segments("ls |    grep foo");
    assert_eq!(segs.len(), 2);
    let s = "ls |    grep foo";
    assert_eq!(&s[segs[1].first_word_start..segs[1].first_word_end], "grep");
}

#[test]
fn redirects_simple_out() {
    let r = redirects("ls > out.txt");
    assert_eq!(r.len(), 1);
    assert_eq!(r[0].kind, RedirectKind::Out);
    let s = "ls > out.txt";
    assert_eq!(&s[r[0].target_start..r[0].target_end], "out.txt");
}

#[test]
fn redirects_simple_append() {
    let r = redirects("ls >> out.txt");
    assert_eq!(r.len(), 1);
    assert_eq!(r[0].kind, RedirectKind::Append);
    let s = "ls >> out.txt";
    assert_eq!(&s[r[0].target_start..r[0].target_end], "out.txt");
}

#[test]
fn redirects_quoted_target_double() {
    let r = redirects(r#"ls > "foo bar.txt""#);
    assert_eq!(r.len(), 1);
    let s = r#"ls > "foo bar.txt""#;
    assert_eq!(&s[r[0].target_start..r[0].target_end], r#""foo bar.txt""#);
}

#[test]
fn redirects_quoted_target_single() {
    let r = redirects("ls > 'a b c'");
    assert_eq!(r.len(), 1);
    let s = "ls > 'a b c'";
    assert_eq!(&s[r[0].target_start..r[0].target_end], "'a b c'");
}

#[test]
fn redirects_fd_prefixed_redirect_excluded() {
    let r = redirects("ls 2> err.txt");
    assert!(r.is_empty());
}

#[test]
fn redirects_process_substitution_excluded() {
    let r = redirects("ls > >(tee /tmp/x >/dev/null)");
    assert!(r.is_empty());
}

#[test]
fn redirects_quoted_metachar_excluded() {
    let r = redirects(r#"echo "a > b""#);
    assert!(r.is_empty());
}

#[test]
fn redirects_comment_excluded() {
    let r = redirects("ls # > out.txt");
    assert!(r.is_empty());
}

#[test]
fn redirects_multiple() {
    let r = redirects("cmd > a >> b");
    assert_eq!(r.len(), 2);
    assert_eq!(r[0].kind, RedirectKind::Out);
    assert_eq!(r[1].kind, RedirectKind::Append);
}

#[test]
fn redirects_inside_command_substitution_excluded() {
    let r = redirects("echo $(cat > /tmp/x)");
    assert!(r.is_empty());
}

// Edge cases of the scanner beyond the cases above.

#[test]
fn code_spans_of_empty_command() {
    assert!(code_spans("").is_empty());
}

#[test]
fn unterminated_quote_runs_to_end() {
    assert_eq!(spans_text("echo 'open 2>/dev/null"), vec!["echo "]);
}

#[test]
fn comment_ends_at_newline() {
    assert_eq!(spans_text("ls # c\necho hi"), vec!["ls ", "\necho hi"]);
}

#[test]
fn escaped_quote_inside_double_quotes() {
    assert_eq!(spans_text(r#"echo "a \" b" c"#), vec!["echo ", " c"]);
}

#[test]
fn pipe_segments_cover_the_command() {
    let s = "a | b|c";
    let segs = pipe_segments(s);
    assert_eq!(segs.len(), 3);
    assert_eq!(segs[0].start, 0);
    assert_eq!(segs[2].end, s.len());
    assert_eq!(&s[segs[0].start..segs[0].end], "a ");
    assert_eq!(&s[segs[1].start..segs[1].end], "b");
    assert_eq!(&s[segs[2].start..segs[2].end], "c");
}

#[test]
fn pipe_in_double_bracket_is_not_a_pipe() {
    assert_eq!(pipe_segments("[[ a | b ]] | grep x").len(), 2);
}

#[test]
fn redirect_target_ends_at_semicolon() {
    let s = "ls > out;echo";
    let r = redirects(s);
    assert_eq!(r.len(), 1);
    assert_eq!(&s[r[0].target_start..r[0].target_end], "out");
}

#[test]
fn fd_prefixed_redirects_are_skipped_whole() {
    assert!(redirects("ls &> out.txt").is_empty());
    assert!(redirects("ls &>> out.txt").is_empty());
    assert!(redirects("ls 2>> err.txt").is_empty());
    assert!(redirects("ls 2>&1").is_empty());
    let r = redirects("ls 2>> err.txt > out.txt");
    assert_eq!(r.len(), 1);
    assert_eq!(r[0].kind, RedirectKind::Out);
    assert_eq!((r[0].op_start, r[0].op_end), (15, 16));
}

#[test]
fn code_spans_end_where_a_quote_or_comment_begins() {
    let s = "ls 'a b' | grep x # note";
    let spans = code_spans(s);
    let bytes = s.as_bytes();
    for sp in &spans {
        assert!(sp.start < sp.end);
        if sp.end < s.len() {
            assert!(matches!(bytes[sp.end], b'\'' | b'"' | b'#'), "span ends at {}", sp.end);
        }
    }
    let plain = code_spans("ls -la /tmp");
    assert_eq!(plain.len(), 1);
    assert_eq!((plain[0].start, plain[0].end), (0, 11));
    assert!(code_spans("").is_empty());
}

#[test]
fn pipe_separators_lie_in_code_spans() {
    let s = "cat 'a|b' | grep \"x|y\" | head -3 # a | b";
    let segs = pipe_segments(s);
    let spans = code_spans(s);
    assert_eq!(segs.len(), 3);
    for seg in &segs[..segs.len() - 1] {
        assert_eq!(s.as_bytes()[seg.end], b'|');
        assert!(spans.iter().any(|sp| sp.start <= seg.end && seg.end < sp.end));
    }
}
