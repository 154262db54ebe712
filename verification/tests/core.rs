use oby::composer::{compose_delay_ms, is_self_command, peer_commands, HookEntry};
use oby::entry::{DisplayEntry, DisplayEntryUpdate, EntryBody, EntryStatus};
use oby::env_gate::is_active;
use oby::hook::{HookContext, HookEvent};
use oby::install::tools_to_install;
use oby::registry::{find_capturer, CapturerKind};
use oby::tee::{agent_socket_path, Args};
use oby::wire::{ControlMessage, HeaderLine};

fn ctx(agent_id: Option<&str>) -> HookContext {
    HookContext {
        session_id: "s".into(),
        transcript_path: "/t".into(),
        cwd: "/c".into(),
        hook_event_name: HookEvent::Pre,
        tool_name: "Bash".into(),
        tool_use_id: "toolu_01".into(),
        permission_mode: None,
        effort: None,
        agent_id: agent_id.map(|s| s.to_string()),
        agent_type: None,
    }
}

#[test]
fn agent_key_is_main_without_agent_id() {
    assert_eq!(ctx(None).agent_key(), "main");
    assert_eq!(ctx(Some("a56e70ccdc442bf74")).agent_key(), "a56e70ccdc442bf74");
}

#[test]
fn control_messages_are_version_one() {
    let e = DisplayEntry {
        agent_key: "main".into(),
        tool_use_id: "t1".into(),
        tool: "bash".into(),
        timestamp: 0,
        headline: "ls".into(),
        body: EntryBody::Empty,
        status: EntryStatus::Pending,
    };
    match ControlMessage::entry(e) {
        ControlMessage::Entry { v, entry } => {
            assert_eq!(v, 1);
            assert_eq!(entry.tool_use_id, "t1");
        },
        _ => panic!("expected Entry"),
    }
    let u = DisplayEntryUpdate { tool_use_id: "t1".into(), status: EntryStatus::Success, append_body: None };
    assert!(matches!(ControlMessage::update(u), ControlMessage::Update { v: 1, .. }));
}

#[test]
fn header_line_fields() {
    let h = HeaderLine::new("t1", "stderr-discarded");
    assert_eq!(h.v, 1);
    assert_eq!(h.tool_use_id, "t1");
    assert_eq!(h.stream, "stderr-discarded");
    assert!(h.started_at.starts_with('@'));
    assert!(h.started_at[1..].chars().all(|c| c.is_ascii_digit()));
    assert_eq!(HeaderLine::at("t", "s", 1716840000).started_at, "@1716840000");
    assert_eq!(HeaderLine::at("t", "s", 0).started_at, "@0");
}

#[test]
fn env_gate_values() {
    assert!(!is_active(None));
    assert!(is_active(Some("1")));
    assert!(is_active(Some("true")));
    assert!(!is_active(Some("no")));
    assert!(!is_active(Some("TRUE")));
    assert!(!is_active(Some(" 1")));
}

#[test]
fn self_command_is_first_word() {
    assert!(is_self_command("/usr/bin/oby-hook", "/usr/bin/oby-hook"));
    assert!(is_self_command("  /usr/bin/oby-hook --x", "/usr/bin/oby-hook"));
    assert!(!is_self_command("rtk hook /usr/bin/oby-hook", "/usr/bin/oby-hook"));
    assert!(!is_self_command("", "/usr/bin/oby-hook"));
    assert!(!is_self_command("/usr/bin/oby-hook2", "/usr/bin/oby-hook"));
}

fn hook(matcher: &str, cmds: Vec<Option<&str>>) -> HookEntry {
    HookEntry { matcher: matcher.into(), commands: Some(cmds.into_iter().map(|c| c.map(String::from)).collect()) }
}

#[test]
fn peers_in_settings_order_without_self() {
    let entries = vec![
        hook("Bash", vec![Some("rtk hook"), Some("/bin/oby-hook"), None]),
        hook("Read", vec![Some("other")]),
        HookEntry { matcher: "Bash".into(), commands: None },
        hook("Bash", vec![Some("second peer --flag")]),
    ];
    assert_eq!(peer_commands(&entries, "Bash", "/bin/oby-hook"), vec!["rtk hook", "second peer --flag"]);
    assert_eq!(peer_commands(&entries, "Read", "/bin/oby-hook"), vec!["other"]);
    assert!(peer_commands(&entries, "Edit", "/bin/oby-hook").is_empty());
}

#[test]
fn install_adds_only_missing_tools() {
    let none: Vec<HookEntry> = Vec::new();
    assert_eq!(tools_to_install(&none, "/bin/oby-hook"), vec!["Bash", "Read"]);
    let some = vec![hook("Read", vec![Some("/bin/oby-hook")]), hook("Bash", vec![Some("rtk")])];
    assert_eq!(tools_to_install(&some, "/bin/oby-hook"), vec!["Bash"]);
    let all = vec![hook("Bash", vec![Some("/bin/oby-hook")]), hook("Read", vec![None, Some("/bin/oby-hook")])];
    assert!(tools_to_install(&all, "/bin/oby-hook").is_empty());
}

#[test]
fn registry_lookup_by_tool_name() {
    assert_eq!(find_capturer("Bash"), Some(CapturerKind::Bash));
    assert_eq!(find_capturer("Read"), Some(CapturerKind::Read));
    assert_eq!(find_capturer("bash"), None);
    assert_eq!(find_capturer("Edit"), None);
}

#[test]
fn tee_socket_paths() {
    assert_eq!(agent_socket_path("/tmp/obs", "main"), "/tmp/obs/main.sock");
    assert_eq!(agent_socket_path("/tmp/obs/", "main"), "/tmp/obs/main.sock");
    assert_eq!(agent_socket_path("", "main"), "main.sock");
    assert_eq!(agent_socket_path("/tmp/obs", "/abs"), "/abs.sock");
    let args = Args {
        agent: "main".into(),
        tool_use_id: "toolu_01".into(),
        stream: "stderr-discarded".into(),
        socket_dir: Some("/tmp/obs".into()),
    };
    assert_eq!(args.socket_path().as_deref(), Some("/tmp/obs/main.sock"));
    let no_dir = Args { socket_dir: None, ..args };
    assert_eq!(no_dir.socket_path(), None);
}

#[test]
fn tee_socket_path_agrees_with_std_join() {
    for dir in ["/tmp/obs", "/tmp/obs/", "", "rel", "/", "a//"] {
        for agent in ["main", "/abs", "a b", "x/y"] {
            let expected = std::path::Path::new(dir).join(format!("{agent}.sock"));
            assert_eq!(oby::tee::agent_socket_path(dir, agent), expected.to_str().unwrap(), "{dir:?} {agent:?}");
        }
    }
}

#[test]
fn compose_delay_defaults_to_200_and_takes_an_override() {
    assert_eq!(compose_delay_ms(None), 200);
    assert_eq!(compose_delay_ms(Some(" 50 ")), 50);
    assert_eq!(compose_delay_ms(Some("0")), 0);
    assert_eq!(compose_delay_ms(Some("soon")), 200);
}

#[test]
fn peers_present_exactly_when_an_entry_has_a_foreign_command() {
    let only_self = vec![HookEntry { matcher: "Bash".into(), commands: Some(vec![Some("/bin/oby-hook".into()), None]) }];
    assert!(peer_commands(&only_self, "Bash", "/bin/oby-hook").is_empty());
    let other_tool = vec![HookEntry { matcher: "Read".into(), commands: Some(vec![Some("rtk hook".into())]) }];
    assert!(peer_commands(&other_tool, "Bash", "/bin/oby-hook").is_empty());
    let with_peer = vec![
        HookEntry { matcher: "Bash".into(), commands: None },
        HookEntry { matcher: "Bash".into(), commands: Some(vec![Some("rtk hook".into())]) },
    ];
    assert_eq!(peer_commands(&with_peer, "Bash", "/bin/oby-hook"), vec!["rtk hook".to_string()]);
}

#[test]
fn install_registers_failure_events_and_one_subagent_stop_entry() {
    assert_eq!(oby::install::install_events(), vec!["PreToolUse", "PostToolUse", "PostToolUseFailure"]);
    let none: Vec<HookEntry> = vec![];
    assert!(oby::install::needs_subagent_stop_entry(&none, "/bin/oby-hook"));
    let done = vec![HookEntry { matcher: "".into(), commands: Some(vec![Some("/bin/oby-hook".into())]) }];
    assert!(!oby::install::needs_subagent_stop_entry(&done, "/bin/oby-hook"));
    let other = vec![HookEntry { matcher: "".into(), commands: Some(vec![Some("other".into())]) }];
    assert!(oby::install::needs_subagent_stop_entry(&other, "/bin/oby-hook"));
}
