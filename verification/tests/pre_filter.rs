use oby::pre_filter::{grep_is_invert_match, window_from_value, PreFilterConfig};

#[test]
fn defaults_when_unset() {
    let cfg = PreFilterConfig::from_env(None, None, None, None);
    assert_eq!(cfg.grep_before, 3);
    assert_eq!(cfg.grep_after, 3);
    assert_eq!(cfg.head_peek, 3);
    assert_eq!(cfg.tail_peek, 3);
}

#[test]
fn parses_valid_values() {
    let cfg = PreFilterConfig::from_env(Some("5"), Some("7"), Some("10"), Some("0"));
    assert_eq!(cfg.grep_before, 5);
    assert_eq!(cfg.grep_after, 7);
    assert_eq!(cfg.head_peek, 10);
    assert_eq!(cfg.tail_peek, 0);
}

#[test]
fn clamps_above_max() {
    let cfg = PreFilterConfig::from_env(Some("9999"), None, None, None);
    assert_eq!(cfg.grep_before, 1000);
}

#[test]
fn falls_back_on_garbage() {
    let cfg = PreFilterConfig::from_env(None, Some("garbage"), None, None);
    assert_eq!(cfg.grep_after, 3);
}

#[test]
fn falls_back_on_empty() {
    let cfg = PreFilterConfig::from_env(None, None, Some(""), None);
    assert_eq!(cfg.head_peek, 3);
}

#[test]
fn trims_whitespace_before_parse() {
    let cfg = PreFilterConfig::from_env(None, None, None, Some("  4  "));
    assert_eq!(cfg.tail_peek, 4);
}

#[test]
fn window_parse_edge_cases() {
    assert_eq!(window_from_value(Some("+7")), 7);
    assert_eq!(window_from_value(Some("+")), 3);
    assert_eq!(window_from_value(Some("-1")), 3);
    assert_eq!(window_from_value(Some("1000")), 1000);
    assert_eq!(window_from_value(Some("1001")), 1000);
    assert_eq!(window_from_value(Some("99999999999999999999999")), 3);
    assert_eq!(window_from_value(Some("\u{a0}12\t")), 12);
    assert_eq!(window_from_value(Some("1 2")), 3);
}

#[test]
fn grep_invert_false_for_plain_pattern() {
    assert!(!grep_is_invert_match("foo"));
}

#[test]
fn grep_invert_false_for_other_flags() {
    assert!(!grep_is_invert_match("-i foo"));
    assert!(!grep_is_invert_match("-E '^[a-z]+$'"));
    assert!(!grep_is_invert_match("-rn foo dir/"));
}

#[test]
fn grep_invert_true_for_standalone_v() {
    assert!(grep_is_invert_match("-v foo"));
}

#[test]
fn grep_invert_true_for_v_at_end_of_args() {
    assert!(grep_is_invert_match("foo -v"));
}

#[test]
fn grep_invert_true_for_combined_short_flags_with_v() {
    assert!(grep_is_invert_match("-vi foo"));
    assert!(grep_is_invert_match("-vE foo"));
    assert!(grep_is_invert_match("-vIn foo"));
    assert!(grep_is_invert_match("-iv foo"));
}

#[test]
fn grep_invert_true_for_long_form() {
    assert!(grep_is_invert_match("--invert-match foo"));
    assert!(grep_is_invert_match("foo --invert-match"));
}

#[test]
fn grep_invert_false_for_other_long_flags() {
    assert!(!grep_is_invert_match("--color=always foo"));
    assert!(!grep_is_invert_match("--include='*.rs' foo"));
}

#[test]
fn grep_invert_false_for_long_form_substring_in_other_flag() {
    assert!(!grep_is_invert_match("--invert-something foo"));
}

#[test]
fn grep_invert_edge_cases() {
    assert!(!grep_is_invert_match(""));
    assert!(!grep_is_invert_match("-"));
    assert!(!grep_is_invert_match("-v1"));
    assert!(grep_is_invert_match("foo\u{3000}-v"));
    assert!(!grep_is_invert_match("x-v"));
}
