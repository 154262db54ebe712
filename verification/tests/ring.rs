use oby::entry::{DisplayEntry, DisplayEntryUpdate, EntryBody, EntryStatus};
use oby::ring::{AllAgentBuffers, DEFAULT_CAPACITY};
use oby::wire::ControlMessage;

fn entry(agent: &str, tuid: &str, body: EntryBody) -> DisplayEntry {
    DisplayEntry {
        agent_key: agent.into(),
        tool_use_id: tuid.into(),
        tool: "bash".into(),
        timestamp: 0,
        headline: "h".into(),
        body,
        status: EntryStatus::Pending,
    }
}

#[test]
fn push_routes_by_agent_key() {
    let mut b = AllAgentBuffers::default();
    b.push_entry(entry("main", "t1", EntryBody::Empty));
    b.push_entry(entry("agent_a", "t2", EntryBody::Empty));
    assert_eq!(b.get("main").unwrap().entries.len(), 1);
    assert_eq!(b.get("agent_a").unwrap().entries.len(), 1);
}

#[test]
fn update_marks_status() {
    let mut b = AllAgentBuffers::default();
    b.push_entry(entry("main", "t1", EntryBody::Empty));
    b.apply_update(DisplayEntryUpdate {
        tool_use_id: "t1".into(),
        status: EntryStatus::Success,
        append_body: Some(EntryBody::Text { text: "done".into() }),
    });
    let ring = b.get("main").unwrap();
    let rec = ring.entries.front().unwrap();
    assert_eq!(rec.entry.status, EntryStatus::Success);
}

#[test]
fn append_live_attaches_chunks_to_matching_entry() {
    let mut b = AllAgentBuffers::default();
    b.push_entry(entry("main", "t1", EntryBody::LiveStream { tool_use_id: "t1".into() }));
    b.append_live("main", "t1", "stderr-discarded", b"oh no\n".to_vec());
    let rec = &b.get("main").unwrap().entries[0];
    assert_eq!(rec.live.len(), 1);
    assert_eq!(rec.live[0].stream, "stderr-discarded");
    assert_eq!(rec.live[0].bytes, b"oh no\n");
}

// The ring's laws on concrete values.

#[test]
fn ring_keeps_the_newest_capacity_entries() {
    let mut b = AllAgentBuffers::default();
    for i in 0..(DEFAULT_CAPACITY + 7) {
        b.push_entry(entry("main", &format!("t{i}"), EntryBody::Empty));
    }
    let ring = b.get("main").unwrap();
    assert_eq!(ring.entries.len(), DEFAULT_CAPACITY);
    assert_eq!(ring.entries.front().unwrap().entry.tool_use_id, "t7");
    assert_eq!(ring.entries.back().unwrap().entry.tool_use_id, format!("t{}", DEFAULT_CAPACITY + 6));
    assert_eq!(ring.capacity, 500);
}

#[test]
fn push_then_get_returns_the_entry_and_leaves_others() {
    let mut b = AllAgentBuffers::default();
    b.push_entry(entry("agent_a", "a1", EntryBody::Empty));
    b.push_entry(entry("main", "m1", EntryBody::Empty));
    b.push_entry(entry("agent_a", "a2", EntryBody::Empty));
    assert_eq!(b.get("agent_a").unwrap().entries.back().unwrap().entry.tool_use_id, "a2");
    assert_eq!(b.get("main").unwrap().entries.len(), 1);
    let keys: Vec<&str> = b.agents().iter().map(|r| r.agent_key.as_str()).collect();
    assert_eq!(keys, vec!["agent_a", "main"]);
    assert!(b.get("nobody").is_none());
}

#[test]
fn orphan_update_and_unknown_live_bytes_change_nothing() {
    let mut b = AllAgentBuffers::default();
    b.push_entry(entry("main", "t1", EntryBody::Empty));
    b.apply_update(DisplayEntryUpdate { tool_use_id: "zz".into(), status: EntryStatus::Error, append_body: None });
    b.append_live("ghost", "t1", "stdout", vec![1]);
    b.append_live("main", "zz", "stdout", vec![1]);
    let rec = &b.get("main").unwrap().entries[0];
    assert_eq!(rec.entry.status, EntryStatus::Pending);
    assert!(rec.live.is_empty());
    assert_eq!(b.agents().len(), 1);
}

#[test]
fn update_targets_the_newest_matching_entry() {
    let mut b = AllAgentBuffers::default();
    b.push_entry(entry("main", "t1", EntryBody::Empty));
    b.push_entry(entry("main", "t1", EntryBody::Empty));
    b.apply_update(DisplayEntryUpdate { tool_use_id: "t1".into(), status: EntryStatus::Error, append_body: None });
    let ring = b.get("main").unwrap();
    assert_eq!(ring.entries[0].entry.status, EntryStatus::Pending);
    assert_eq!(ring.entries[1].entry.status, EntryStatus::Error);
}

#[test]
fn text_update_on_live_stream_becomes_post_summary_chunk() {
    let mut b = AllAgentBuffers::default();
    b.push_entry(entry("main", "t1", EntryBody::LiveStream { tool_use_id: "t1".into() }));
    b.apply_update(DisplayEntryUpdate {
        tool_use_id: "t1".into(),
        status: EntryStatus::Success,
        append_body: Some(EntryBody::Text { text: "exit 0".into() }),
    });
    let rec = &b.get("main").unwrap().entries[0];
    assert!(matches!(rec.entry.body, EntryBody::LiveStream { .. }));
    assert_eq!(rec.live.len(), 1);
    assert_eq!(rec.live[0].stream, "post-summary");
    assert_eq!(rec.live[0].bytes, b"exit 0");
}

#[test]
fn text_update_replaces_a_plain_body() {
    let mut b = AllAgentBuffers::default();
    b.push_entry(entry("main", "t1", EntryBody::Empty));
    b.apply_update(DisplayEntryUpdate {
        tool_use_id: "t1".into(),
        status: EntryStatus::Success,
        append_body: Some(EntryBody::Text { text: "13 bytes".into() }),
    });
    let rec = &b.get("main").unwrap().entries[0];
    match &rec.entry.body {
        EntryBody::Text { text } => assert_eq!(text, "13 bytes"),
        _ => panic!("expected Text body"),
    }
}

#[test]
fn control_messages_route_to_push_and_update() {
    let mut b = AllAgentBuffers::default();
    let key = b.apply_control_message(ControlMessage::entry(entry("agent_a", "t1", EntryBody::Empty)));
    assert_eq!(key.as_deref(), Some("agent_a"));
    let none = b.apply_control_message(ControlMessage::update(DisplayEntryUpdate {
        tool_use_id: "t1".into(),
        status: EntryStatus::Error,
        append_body: None,
    }));
    assert!(none.is_none());
    assert_eq!(b.get("agent_a").unwrap().entries[0].entry.status, EntryStatus::Error);
}

#[test]
fn agent_keys_follow_pushes_and_get_reads_back_the_pushed_ring() {
    let mut b = AllAgentBuffers::default();
    b.push_entry(entry("main", "t1", EntryBody::Empty));
    b.push_entry(entry("a1", "t2", EntryBody::Empty));
    b.push_entry(entry("main", "t3", EntryBody::Empty));
    b.apply_update(DisplayEntryUpdate { tool_use_id: "t2".into(), status: EntryStatus::Error, append_body: None });
    b.append_live("a1", "t2", "stdout", b"x".to_vec());
    let keys: Vec<&str> = b.agents().iter().map(|r| r.agent_key.as_str()).collect();
    assert_eq!(keys, vec!["main", "a1"]);
    assert!(b.get("zz").is_none());
    let main = b.get("main").unwrap();
    assert_eq!(main.agent_key, "main");
    assert_eq!(main.capacity, DEFAULT_CAPACITY);
    assert_eq!(main.agent_type, None);
    let ids: Vec<&str> = main.entries.iter().map(|r| r.entry.tool_use_id.as_str()).collect();
    assert_eq!(ids, vec!["t1", "t3"]);
}

#[test]
fn stopped_agents_show_dead_but_main_stays_alive() {
    let mut b = AllAgentBuffers::default();
    b.push_entry(entry("main", "t1", EntryBody::Empty));
    b.push_entry(entry("a1", "t2", EntryBody::Empty));
    assert!(b.is_alive("a1"));
    assert_eq!(b.apply_control_message(ControlMessage::subagent_stop(Some("a1".into())).unwrap()), None);
    assert!(!b.is_alive("a1"));
    b.mark_stopped("main");
    assert!(b.is_alive("main"));
    assert!(ControlMessage::subagent_stop(None).is_none());
    // A stop changes no ring.
    assert_eq!(b.agents().len(), 2);
}

#[test]
fn remove_agent_refuses_main_and_drops_the_ring() {
    let mut b = AllAgentBuffers::default();
    b.push_entry(entry("main", "t1", EntryBody::Empty));
    b.push_entry(entry("a1", "t2", EntryBody::Empty));
    b.push_entry(entry("a2", "t3", EntryBody::Empty));
    assert_eq!(b.remove_agent("main"), None);
    assert_eq!(b.remove_agent("nobody"), None);
    assert_eq!(b.remove_agent("a1"), Some(1));
    let keys: Vec<&str> = b.agents().iter().map(|r| r.agent_key.as_str()).collect();
    assert_eq!(keys, vec!["main", "a2"]);
}
