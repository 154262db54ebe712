use oby::env_gate::is_active;
use oby::hook::{EffortLevel, HookContext, HookEvent};
use oby::registry::{builtin_capturers, find_capturer};
use serde_json::Value;

const MAIN_AGENT_PAYLOAD: &str = r#"{
    "session_id": "a9db5455-5a02-44b1-b807-0bf79d80e6b1",
    "transcript_path": "/Users/brandon/.c/projects/-private-tmp-ccprobe/a9db5455-5a02-44b1-b807-0bf79d80e6b1.jsonl",
    "cwd": "/private/tmp/ccprobe",
    "hook_event_name": "PreToolUse",
    "tool_name": "Bash",
    "tool_use_id": "toolu_01",
    "permission_mode": "bypassPermissions",
    "effort": {"level": "medium"}
}"#;

const SUBAGENT_PAYLOAD: &str = r#"{
    "session_id": "a9db5455-5a02-44b1-b807-0bf79d80e6b1",
    "transcript_path": "/Users/brandon/.c/projects/-private-tmp-ccprobe/a9db5455-5a02-44b1-b807-0bf79d80e6b1.jsonl",
    "cwd": "/private/tmp/ccprobe",
    "hook_event_name": "PreToolUse",
    "tool_name": "Bash",
    "tool_use_id": "toolu_02",
    "agent_id": "a56e70ccdc442bf74",
    "agent_type": "general-purpose"
}"#;

fn text(v: &Value, key: &str) -> Option<String> {
    v.get(key).and_then(|x| x.as_str()).map(String::from)
}

/// The payload's fields, read as the hook reads them.
fn context(payload: &str) -> HookContext {
    let v: Value = serde_json::from_str(payload).unwrap();
    let event = match v.get("hook_event_name").and_then(|x| x.as_str()) {
        Some("PreToolUse") => HookEvent::Pre,
        Some("PostToolUse") => HookEvent::Post,
        Some("PostToolUseFailure") => HookEvent::PostFailure,
        other => panic!("unexpected event {other:?}"),
    };
    HookContext {
        session_id: text(&v, "session_id").unwrap(),
        transcript_path: text(&v, "transcript_path").unwrap(),
        cwd: text(&v, "cwd").unwrap(),
        hook_event_name: event,
        tool_name: text(&v, "tool_name").unwrap(),
        tool_use_id: text(&v, "tool_use_id").unwrap(),
        permission_mode: text(&v, "permission_mode"),
        effort: v.get("effort").and_then(|e| text(e, "level")).map(|level| EffortLevel { level }),
        agent_id: text(&v, "agent_id"),
        agent_type: text(&v, "agent_type"),
    }
}

#[test]
fn deserializes_main_agent_payload() {
    let ctx = context(MAIN_AGENT_PAYLOAD);
    assert_eq!(ctx.tool_name, "Bash");
    assert_eq!(ctx.hook_event_name, HookEvent::Pre);
    assert!(ctx.agent_id.is_none());
    assert!(ctx.agent_type.is_none());
    assert_eq!(ctx.agent_key(), "main");
}

#[test]
fn deserializes_subagent_payload() {
    let ctx = context(SUBAGENT_PAYLOAD);
    assert_eq!(ctx.agent_id.as_deref(), Some("a56e70ccdc442bf74"));
    assert_eq!(ctx.agent_type.as_deref(), Some("general-purpose"));
    assert_eq!(ctx.agent_key(), "a56e70ccdc442bf74");
}

#[test]
fn unset_is_inactive() {
    assert!(!is_active(None));
}

#[test]
fn one_is_active() {
    assert!(is_active(Some("1")));
}

#[test]
fn other_value_is_inactive() {
    assert!(!is_active(Some("no")));
}

#[test]
fn registry_contains_bash_and_read() {
    let caps = builtin_capturers();
    let names: Vec<&str> = caps.iter().map(|c| c.name()).collect();
    assert!(names.contains(&"bash"));
    assert!(names.contains(&"read"));
}

#[test]
fn lookup_by_tool_name() {
    let caps = builtin_capturers();
    let bash = caps.iter().find(|c| c.tool_name() == "Bash");
    assert!(bash.is_some());
    assert_eq!(bash.unwrap().name(), "bash");
    assert_eq!(find_capturer("Bash").map(|k| k.name()), Some("bash"));
}
