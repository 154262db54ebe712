use oby::capturers::{first_line, BashCapturer, BashInput, ReadCapturer, ReadInput, ToolResponse};
use oby::entry::{EntryBody, EntryStatus};
use oby::hook::{HookContext, HookEvent};

fn ctx(tool: &str) -> HookContext {
    HookContext {
        session_id: "s".into(),
        transcript_path: "/t".into(),
        cwd: "/c".into(),
        hook_event_name: HookEvent::Pre,
        tool_name: tool.into(),
        tool_use_id: "t1".into(),
        permission_mode: None,
        effort: None,
        agent_id: None,
        agent_type: None,
    }
}

#[test]
fn render_pre_uses_first_line_of_command() {
    let c = BashCapturer;
    let input = BashInput { command: "echo hi\necho bye".into(), description: None };
    let entry = c.render_pre(&ctx("Bash"), &input);
    assert_eq!(entry.headline, "Bash  echo hi");
    match entry.body {
        EntryBody::LiveStream { tool_use_id } => assert_eq!(tool_use_id, "t1"),
        _ => panic!("expected LiveStream body"),
    }
}

#[test]
fn render_pre_appends_description() {
    let c = BashCapturer;
    let input = BashInput { command: "ls".into(), description: Some("list files".into()) };
    let entry = c.render_pre(&ctx("Bash"), &input);
    assert_eq!(entry.headline, "Bash  ls  (list files)");
}

#[test]
fn render_post_status_ok_when_no_error() {
    let c = BashCapturer;
    let upd = c.render_post(&ctx("Bash"), &ToolResponse { has_error: false, output: Some("x".into()) });
    assert_eq!(upd.tool_use_id, "t1");
    assert_eq!(upd.status, EntryStatus::Success);
}

#[test]
fn render_post_status_error_when_error_field_present() {
    let c = BashCapturer;
    let upd = c.render_post(&ctx("Bash"), &ToolResponse { has_error: true, output: None });
    assert_eq!(upd.status, EntryStatus::Error);
}

#[test]
fn render_pre_emits_headline() {
    let c = ReadCapturer;
    let input = ReadInput { file_path: "/a/b/foo.ts".into(), offset: None, limit: None };
    let entry = c.render_pre(&ctx("Read"), &input);
    assert_eq!(entry.headline, "Read  /a/b/foo.ts");
    assert_eq!(entry.tool, "read");
    assert_eq!(entry.status, EntryStatus::Pending);
}

#[test]
fn render_pre_with_offset_and_limit() {
    let c = ReadCapturer;
    let input = ReadInput { file_path: "/a/b/foo.ts".into(), offset: Some(100), limit: Some(50) };
    let entry = c.render_pre(&ctx("Read"), &input);
    assert_eq!(entry.headline, "Read  /a/b/foo.ts  [100..150]");
}

#[test]
fn render_post_uses_ctx_tool_use_id_and_byte_count() {
    let c = ReadCapturer;
    let response = ToolResponse { has_error: false, output: Some("hello world\nbye".into()) };
    let upd = c.render_post(&ctx("Read"), &response);
    assert_eq!(upd.tool_use_id, "t1");
    assert_eq!(upd.status, EntryStatus::Success);
    match upd.append_body {
        Some(EntryBody::Text { text }) => assert!(text.contains("bytes")),
        _ => panic!("expected Text body"),
    }
}

#[test]
fn render_post_falls_back_to_ok_summary_when_no_output() {
    let c = ReadCapturer;
    let upd = c.render_post(&ctx("Read"), &ToolResponse { has_error: false, output: None });
    assert_eq!(upd.tool_use_id, "t1");
    match upd.append_body {
        Some(EntryBody::Text { text }) => assert_eq!(text, "ok"),
        _ => panic!("expected Text body"),
    }
}

#[test]
fn read_summary_counts_utf8_bytes() {
    let upd = ReadCapturer.render_post(&ctx("Read"), &ToolResponse { has_error: false, output: Some("héllo".into()) });
    match upd.append_body {
        Some(EntryBody::Text { text }) => assert_eq!(text, "6 bytes"),
        _ => panic!("expected Text body"),
    }
    let empty = ReadCapturer.render_post(&ctx("Read"), &ToolResponse { has_error: false, output: Some(String::new()) });
    match empty.append_body {
        Some(EntryBody::Text { text }) => assert_eq!(text, "ok"),
        _ => panic!("expected Text body"),
    }
}

#[test]
fn render_pre_at_is_exact() {
    let mut c = ctx("Bash");
    c.agent_id = Some("a56e70ccdc442bf74".into());
    let e = BashCapturer.render_pre_at(&c, &BashInput { command: "ls".into(), description: None }, 42);
    assert_eq!(e.agent_key, "a56e70ccdc442bf74");
    assert_eq!(e.timestamp, 42);
    assert_eq!(e.tool, "bash");
    let r = ReadCapturer.render_pre_at(&ctx("Read"), &ReadInput { file_path: "p".into(), offset: Some(1), limit: None }, 7);
    assert_eq!(r.headline, "Read  p");
    assert!(matches!(r.body, EntryBody::Empty));
}

#[test]
fn first_line_cases() {
    assert_eq!(first_line(""), "");
    assert_eq!(first_line("abc"), "abc");
    assert_eq!(first_line("a\r\nb"), "a");
    assert_eq!(first_line("a\rb"), "a\rb");
    assert_eq!(first_line("abc\r"), "abc\r");
    assert_eq!(first_line("\nx"), "");
}

#[test]
fn capturer_names() {
    assert_eq!(BashCapturer.name(), "bash");
    assert_eq!(BashCapturer.tool_name(), "Bash");
    assert_eq!(ReadCapturer.name(), "read");
    assert_eq!(ReadCapturer.tool_name(), "Read");
}
