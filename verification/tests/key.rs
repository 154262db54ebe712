use oby::key::{decide, is_toggle, serialize_key_for_pty, step, FeedNav, InputDecision, Key, KeyPress, ViewState, WrapperAction};

fn key(c: char, ctrl: bool) -> KeyPress {
    KeyPress { key: Key::Char(c), ctrl }
}

#[test]
fn toggle_state() {
    assert_eq!(ViewState::Claude.toggle(), ViewState::Feed);
    assert_eq!(ViewState::Feed.toggle(), ViewState::Claude);
}

#[test]
fn ctrl_g_is_toggle() {
    assert!(is_toggle(&key('g', true)));
    assert!(!is_toggle(&key('g', false)));
    assert!(!is_toggle(&key('f', true)));
}

#[test]
fn ctrl_a_serializes_to_0x01() {
    let bytes = serialize_key_for_pty(key('a', true));
    assert_eq!(bytes, vec![0x01]);
}

#[test]
fn enter_is_cr() {
    let ev = KeyPress { key: Key::Enter, ctrl: false };
    assert_eq!(serialize_key_for_pty(ev), vec![b'\r']);
}

#[test]
fn ctrl_g_decides_toggle_in_either_state() {
    let ev = key('g', true);
    assert!(matches!(decide(ev, ViewState::Claude), InputDecision::ToggleView));
    assert!(matches!(decide(ev, ViewState::Feed), InputDecision::ToggleView));
}

#[test]
fn serialize_other_keys() {
    assert_eq!(serialize_key_for_pty(key('Z', true)), vec![0x1a]);
    assert_eq!(serialize_key_for_pty(key('1', true)), vec![b'1']);
    assert_eq!(serialize_key_for_pty(key('é', false)), "é".as_bytes().to_vec());
    assert_eq!(serialize_key_for_pty(KeyPress { key: Key::Up, ctrl: false }), b"\x1b[A".to_vec());
    assert_eq!(serialize_key_for_pty(KeyPress { key: Key::Left, ctrl: false }), b"\x1b[D".to_vec());
    assert_eq!(serialize_key_for_pty(KeyPress { key: Key::Backspace, ctrl: false }), vec![0x7f]);
    assert_eq!(serialize_key_for_pty(KeyPress { key: Key::Other, ctrl: false }), Vec::<u8>::new());
}

#[test]
fn decide_in_feed_view() {
    assert!(matches!(
        decide(KeyPress { key: Key::Up, ctrl: false }, ViewState::Feed),
        InputDecision::NavigateFeed(FeedNav::ScrollUp)
    ));
    assert!(matches!(
        decide(KeyPress { key: Key::Right, ctrl: false }, ViewState::Feed),
        InputDecision::NavigateFeed(FeedNav::AgentNext)
    ));
    assert!(matches!(decide(key('q', false), ViewState::Feed), InputDecision::NavigateFeed(FeedNav::Quit)));
    match decide(key('z', false), ViewState::Feed) {
        InputDecision::Forward(b) => assert!(b.is_empty()),
        _ => panic!("expected an empty forward"),
    }
    match decide(key('x', false), ViewState::Claude) {
        InputDecision::Forward(b) => assert_eq!(b, vec![b'x']),
        _ => panic!("expected a forward"),
    }
}

fn press(key: Key) -> KeyPress {
    KeyPress { key, ctrl: false }
}

#[test]
fn feed_scroll_keys_navigate() {
    let nav = |k: KeyPress| match decide(k, ViewState::Feed) {
        InputDecision::NavigateFeed(n) => Some(n),
        _ => None,
    };
    assert_eq!(nav(press(Key::PageUp)), Some(FeedNav::PageUp));
    assert_eq!(nav(press(Key::PageDown)), Some(FeedNav::PageDown));
    assert_eq!(nav(press(Key::Home)), Some(FeedNav::Top));
    assert_eq!(nav(key('g', false)), Some(FeedNav::Top));
    assert_eq!(nav(press(Key::End)), Some(FeedNav::Bottom));
    assert_eq!(nav(key('G', false)), Some(FeedNav::Bottom));
    assert_eq!(nav(press(Key::WheelUp)), Some(FeedNav::WheelUp));
    assert_eq!(nav(key('z', false)), None);
    // In the agent's view these keys are forwarded, as nothing.
    assert!(matches!(decide(press(Key::PageUp), ViewState::Claude), InputDecision::Forward(b) if b.is_empty()));
    // Ctrl-G still toggles rather than jumping to the top.
    assert!(matches!(decide(key('g', true), ViewState::Feed), InputDecision::ToggleView));
}

#[test]
fn feed_scroll_keys_step_to_scroll_actions() {
    let act = |k: KeyPress| step(ViewState::Feed, k).1;
    assert!(matches!(act(press(Key::Up)), WrapperAction::ScrollUp(1)));
    assert!(matches!(act(press(Key::Down)), WrapperAction::ScrollDown(1)));
    assert!(matches!(act(press(Key::PageUp)), WrapperAction::ScrollUp(10)));
    assert!(matches!(act(press(Key::PageDown)), WrapperAction::ScrollDown(10)));
    assert!(matches!(act(press(Key::WheelUp)), WrapperAction::ScrollUp(3)));
    assert!(matches!(act(press(Key::WheelDown)), WrapperAction::ScrollDown(3)));
    assert!(matches!(act(key('g', false)), WrapperAction::ScrollToTop));
    assert!(matches!(act(press(Key::End)), WrapperAction::ScrollToBottom));
    assert!(matches!(step(ViewState::Claude, press(Key::PageUp)).1, WrapperAction::Nothing));
}

#[test]
fn d_and_x_delete_the_selected_agent_in_the_feed() {
    assert!(matches!(decide(key('d', false), ViewState::Feed), InputDecision::NavigateFeed(FeedNav::DeleteAgent)));
    assert!(matches!(step(ViewState::Feed, key('x', false)).1, WrapperAction::DeleteAgent));
    assert!(matches!(step(ViewState::Claude, key('d', false)).1, WrapperAction::WriteToPty(b) if b == b"d"));
}
