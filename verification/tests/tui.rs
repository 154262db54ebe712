use oby::text::text_lines;
use oby::entry::{DisplayEntry, EntryBody, EntryStatus};
use oby::ring::AllAgentBuffers;
use oby::tui::{agent_label, entries_title, selected_row, status_glyph, FeedView};

fn entry(agent: &str, tuid: &str) -> DisplayEntry {
    DisplayEntry {
        agent_key: agent.into(),
        tool_use_id: tuid.into(),
        tool: "bash".into(),
        timestamp: 0,
        headline: "ls".into(),
        body: EntryBody::Empty,
        status: EntryStatus::Pending,
    }
}

#[test]
fn cycle_agent_wraps_around() {
    let mut b = AllAgentBuffers::default();
    b.push_entry(entry("main", "t1"));
    b.push_entry(entry("agent_a", "t2"));
    let first_key = b.agents().iter().next().unwrap().agent_key.clone();
    let mut v = FeedView { selected_agent: first_key, ..FeedView::default() };
    v.cycle_agent(&b, 1);
    assert_ne!(v.selected_agent, "");
    v.cycle_agent(&b, 1);
    v.cycle_agent(&b, 1); // wraps
}

#[test]
fn scroll_clamps_at_top_and_bottom() {
    let mut b = AllAgentBuffers::default();
    for i in 0..5 {
        b.push_entry(entry("main", &format!("t{i}")));
    }
    let mut v = FeedView::default();
    assert_eq!(v.scroll_offset, 0);
    v.scroll_down(3);
    assert_eq!(v.scroll_offset, 0);
    v.scroll_up(&b, 100);
    assert_eq!(v.scroll_offset, 4);
    v.scroll_down(2);
    assert_eq!(v.scroll_offset, 2);
    v.scroll_to_bottom();
    assert_eq!(v.scroll_offset, 0);
    v.scroll_to_top(&b);
    assert_eq!(v.scroll_offset, 4);
}

#[test]
fn switching_agent_returns_to_tail() {
    let mut b = AllAgentBuffers::default();
    for i in 0..3 {
        b.push_entry(entry("main", &format!("t{i}")));
        b.push_entry(entry("agent_a", &format!("a{i}")));
    }
    let mut v = FeedView { selected_agent: "main".into(), ..FeedView::default() };
    v.scroll_up(&b, 2);
    assert_eq!(v.scroll_offset, 2);
    v.cycle_agent(&b, 1);
    assert_eq!(v.scroll_offset, 0);
}

#[test]
fn cycle_agent_visits_in_order_and_back() {
    let mut b = AllAgentBuffers::default();
    b.push_entry(entry("main", "t1"));
    b.push_entry(entry("agent_a", "t2"));
    b.push_entry(entry("agent_b", "t3"));
    let mut v = FeedView::default();
    v.cycle_agent(&b, 1);
    assert_eq!((v.agent_index, v.selected_agent.as_str()), (1, "agent_a"));
    v.cycle_agent(&b, 1);
    v.cycle_agent(&b, 1);
    assert_eq!((v.agent_index, v.selected_agent.as_str()), (0, "main"));
    v.cycle_agent(&b, -1);
    assert_eq!((v.agent_index, v.selected_agent.as_str()), (2, "agent_b"));
}

#[test]
fn cycle_agent_without_agents_changes_nothing() {
    let b = AllAgentBuffers::default();
    let mut v = FeedView { scroll_offset: 3, ..FeedView::default() };
    v.cycle_agent(&b, 1);
    assert_eq!(v.scroll_offset, 3);
    assert_eq!(v.selected_agent, "main");
}

#[test]
fn scroll_on_unknown_agent_stays_at_tail() {
    let b = AllAgentBuffers::default();
    let mut v = FeedView::default();
    v.scroll_up(&b, 10);
    assert_eq!(v.scroll_offset, 0);
    assert_eq!(v.ring_len(&b), 0);
}

#[test]
fn render_text_pieces() {
    assert_eq!(entries_title(0), "activity");
    assert_eq!(entries_title(3), "activity  [scrolled +3 · End/G to tail]");
    assert_eq!(selected_row(0, 0), None);
    assert_eq!(selected_row(5, 0), Some(4));
    assert_eq!(selected_row(5, 2), Some(2));
    assert_eq!(selected_row(5, 9), Some(0));
    assert_eq!(status_glyph(EntryStatus::Pending), "▸");
    assert_eq!(status_glyph(EntryStatus::Success), "✓");
    assert_eq!(status_glyph(EntryStatus::Error), "✗");
    let mut b = AllAgentBuffers::default();
    b.push_entry(entry("main", "t1"));
    assert_eq!(agent_label(&b.agents()[0]), "main");
}

#[test]
fn live_chunk_lines_match_std_lines() {
    for s in ["", "a", "a\n", "\n", "a\nb", "a\r\nb\r\n", "a\rb", "x\r", "\n\n", "é\nü\r\n\r"] {
        let expected: Vec<String> = s.lines().map(String::from).collect();
        assert_eq!(text_lines(s), expected, "{s:?}");
    }
    assert_eq!(oby::tui::live_lines(b"oh no\nbye\n"), vec!["oh no", "bye"]);
    assert_eq!(oby::tui::live_lines(&[0x61, 0xff, 0x0a]), vec!["a\u{fffd}"]);
    assert_eq!(oby::tui::chunk_tag("stderr-discarded"), "  [stderr-discarded] ");
}

#[test]
fn delete_selected_picks_the_agent_to_the_right_and_refuses_main() {
    let mut b = AllAgentBuffers::default();
    b.push_entry(entry("main", "t1"));
    b.push_entry(entry("a1", "t2"));
    b.push_entry(entry("a2", "t3"));
    let mut v = FeedView::default();
    assert!(!v.delete_selected(&mut b));
    assert_eq!(b.agents().len(), 3);
    v.cycle_agent(&b, 1);
    v.scroll_offset = 0;
    assert_eq!(v.selected_agent, "a1");
    assert!(v.delete_selected(&mut b));
    assert_eq!((v.selected_agent.as_str(), v.agent_index), ("a2", 1));
    assert!(v.delete_selected(&mut b));
    // a2 was the last: selection wraps to the first agent.
    assert_eq!((v.selected_agent.as_str(), v.agent_index, v.scroll_offset), ("main", 0, 0));
    assert_eq!(b.agents().len(), 1);
}
