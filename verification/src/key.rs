//! What the wrapper does with each key press: toggle between the agent's
//! screen and the feed, forward the key to the agent's pty, or navigate the
//! feed.
use vstd::prelude::*;
use crate::text::{utf8, push_char, push_str};

verus! {

#[derive(Debug, Copy, Clone, PartialEq, Eq, Structural)]
pub enum ViewState {
    Claude,
    Feed,
}

/// The keys the wrapper tells apart.
#[derive(Debug, Copy, Clone, PartialEq, Eq, Structural)]
pub enum Key {
    Char(char),
    Enter,
    Tab,
    Backspace,
    Esc,
    Up,
    Down,
    Left,
    Right,
    PageUp,
    PageDown,
    Home,
    End,
    /// One tick of the mouse wheel away from the user.
    WheelUp,
    /// One tick of the mouse wheel towards the user.
    WheelDown,
    /// Any other key.
    Other,
}

/// A key press from the real terminal: the key and whether Control was
/// held.
#[derive(Debug, Copy, Clone, PartialEq, Eq, Structural)]
pub struct KeyPress {
    pub key: Key,
    pub ctrl: bool,
}

/// Decision the input loop makes per keystroke.
pub enum InputDecision {
    /// Toggle the view state.
    ToggleView,
    /// Forward this raw byte sequence to the agent's pty.
    Forward(Vec<u8>),
    /// Consume: navigation in the feed view.
    NavigateFeed(FeedNav),
}

#[derive(Debug, Copy, Clone, PartialEq, Eq, Structural)]
pub enum FeedNav {
    AgentPrev,
    AgentNext,
    /// One line towards older entries.
    ScrollUp,
    /// One line towards the live tail.
    ScrollDown,
    /// A page (10 lines) towards older entries.
    PageUp,
    /// A page (10 lines) towards the live tail.
    PageDown,
    /// A mouse-wheel tick (3 lines) towards older entries.
    WheelUp,
    /// A mouse-wheel tick (3 lines) towards the live tail.
    WheelDown,
    /// Jump to the oldest entry.
    Top,
    /// Back to the live tail (auto-follow).
    Bottom,
    /// Delete the selected agent from the picker.
    DeleteAgent,
    Quit,
}

/// The feed navigation a key press means in the feed view, if any: the
/// arrows, PgUp/PgDn, Home/`g`, End/`G`, the mouse wheel, `d`/`x` and `q`.
pub open spec fn spec_feed_nav(ev: KeyPress) -> Option<FeedNav> {
    match ev.key {
        Key::Up => Some(FeedNav::ScrollUp),
        Key::Down => Some(FeedNav::ScrollDown),
        Key::Left => Some(FeedNav::AgentPrev),
        Key::Right => Some(FeedNav::AgentNext),
        Key::PageUp => Some(FeedNav::PageUp),
        Key::PageDown => Some(FeedNav::PageDown),
        Key::WheelUp => Some(FeedNav::WheelUp),
        Key::WheelDown => Some(FeedNav::WheelDown),
        Key::Home => Some(FeedNav::Top),
        Key::End => Some(FeedNav::Bottom),
        Key::Char(c) => if c == 'q' {
            Some(FeedNav::Quit)
        } else if c == 'g' {
            Some(FeedNav::Top)
        } else if c == 'G' {
            Some(FeedNav::Bottom)
        } else if c == 'd' || c == 'x' {
            Some(FeedNav::DeleteAgent)
        } else {
            None
        },
        _ => None,
    }
}

pub open spec fn spec_toggle(s: ViewState) -> ViewState {
    match s {
        ViewState::Claude => ViewState::Feed,
        ViewState::Feed => ViewState::Claude,
    }
}

impl ViewState {
    /// The other view.
    pub fn toggle(self) -> (res: Self)
        ensures
            res == spec_toggle(self),
    {
        match self {
            ViewState::Claude => ViewState::Feed,
            ViewState::Feed => ViewState::Claude,
        }
    }
}

/// The reserved toggle key: Ctrl-G.
pub open spec fn spec_is_toggle(ev: KeyPress) -> bool {
    ev.key == Key::Char('g') && ev.ctrl
}

/// Is this the reserved toggle key (Ctrl-G)?
pub fn is_toggle(ev: &KeyPress) -> (res: bool)
    ensures
        res == spec_is_toggle(*ev),
{
    match ev.key {
        Key::Char(c) => c == 'g' && ev.ctrl,
        _ => false,
    }
}

/// `char::to_ascii_lowercase`.
pub open spec fn ascii_lower(c: char) -> char {
    if 'A' <= c && c <= 'Z' {
        ((c as u32) + 32) as char
    } else {
        c
    }
}

/// The bytes a pty expects for a key press: Ctrl-letter as its ASCII
/// control code (Ctrl-A = 0x01 … Ctrl-Z = 0x1A), other characters as their
/// UTF-8 bytes, Enter `\r`, Tab `\t`, Backspace 0x7f, Esc 0x1b, the arrows
/// as ANSI cursor sequences, and nothing for any other key (PgUp, PgDn,
/// Home, End and the mouse wheel included).
pub open spec fn spec_key_bytes(ev: KeyPress) -> Seq<u8> {
    match ev.key {
        Key::Char(c) => if ev.ctrl && 'a' <= ascii_lower(c) && ascii_lower(c) <= 'z' {
            seq![((ascii_lower(c) as u32) - 0x61 + 1) as u8]
        } else {
            utf8(seq![c])
        },
        Key::Enter => seq![0x0du8],
        Key::Tab => seq![0x09u8],
        Key::Backspace => seq![0x7fu8],
        Key::Esc => seq![0x1bu8],
        Key::Up => seq![0x1bu8, 0x5b, 0x41],
        Key::Down => seq![0x1bu8, 0x5b, 0x42],
        Key::Right => seq![0x1bu8, 0x5b, 0x43],
        Key::Left => seq![0x1bu8, 0x5b, 0x44],
        _ => Seq::empty(),
    }
}

/// Serialize a key press into bytes a pty understands.
pub fn serialize_key_for_pty(ev: KeyPress) -> (res: Vec<u8>)
    ensures
        res@ == spec_key_bytes(ev),
{
    match ev.key {
        Key::Char(c) => {
            if ev.ctrl {
                // ASCII control: Ctrl-A = 0x01, Ctrl-Z = 0x1A, etc.
                let lo = if 'A' <= c && c <= 'Z' {
                    ((c as u32) + 32) as u8 as char
                } else {
                    c
                };
                if 'a' <= lo && lo <= 'z' {
                    let v: Vec<u8> = vec![((lo as u32) - 0x61 + 1) as u8];
                    return v;
                }
            }
            let mut s = String::new();
            push_char(&mut s, c);
            let mut out: Vec<u8> = Vec::new();
            push_str(&mut out, s.as_str());
            assert(s@ =~= seq![c]);
            assert(out@ =~= utf8(seq![c]));
            out
        },
        Key::Enter => vec![0x0du8],
        Key::Tab => vec![0x09u8],
        Key::Backspace => vec![0x7fu8],
        Key::Esc => vec![0x1bu8],
        Key::Up => vec![0x1bu8, 0x5b, 0x41],
        Key::Down => vec![0x1bu8, 0x5b, 0x42],
        Key::Right => vec![0x1bu8, 0x5b, 0x43],
        Key::Left => vec![0x1bu8, 0x5b, 0x44],
        _ => Vec::new(),
    }
}

/// Decide what to do with a key press given the current view: Ctrl-G
/// toggles in either view; in the agent's view every other key is forwarded;
/// in the feed view the arrows, PgUp/PgDn, Home/`g`, End/`G`, the mouse
/// wheel and `d`/`x` (delete the selected agent) navigate, `q` quits and anything else is swallowed (forwarded as
/// nothing).
pub fn decide(ev: KeyPress, state: ViewState) -> (res: InputDecision)
    ensures
        spec_is_toggle(ev) ==> res is ToggleView,
        !spec_is_toggle(ev) && state == ViewState::Claude ==> (res matches InputDecision::Forward(b) && b@
            == spec_key_bytes(ev)),
        !spec_is_toggle(ev) && state == ViewState::Feed ==> match spec_feed_nav(ev) {
            Some(nav) => res == InputDecision::NavigateFeed(nav),
            None => res matches InputDecision::Forward(b) && b@.len() == 0,
        },
{
    if is_toggle(&ev) {
        return InputDecision::ToggleView;
    }
    match state {
        ViewState::Claude => InputDecision::Forward(serialize_key_for_pty(ev)),
        ViewState::Feed => match ev.key {
            Key::Up => InputDecision::NavigateFeed(FeedNav::ScrollUp),
            Key::Down => InputDecision::NavigateFeed(FeedNav::ScrollDown),
            Key::Left => InputDecision::NavigateFeed(FeedNav::AgentPrev),
            Key::Right => InputDecision::NavigateFeed(FeedNav::AgentNext),
            Key::PageUp => InputDecision::NavigateFeed(FeedNav::PageUp),
            Key::PageDown => InputDecision::NavigateFeed(FeedNav::PageDown),
            Key::WheelUp => InputDecision::NavigateFeed(FeedNav::WheelUp),
            Key::WheelDown => InputDecision::NavigateFeed(FeedNav::WheelDown),
            Key::Home => InputDecision::NavigateFeed(FeedNav::Top),
            Key::End => InputDecision::NavigateFeed(FeedNav::Bottom),
            Key::Char(c) => {
                if c == 'q' {
                    InputDecision::NavigateFeed(FeedNav::Quit)
                } else if c == 'g' {
                    InputDecision::NavigateFeed(FeedNav::Top)
                } else if c == 'G' {
                    InputDecision::NavigateFeed(FeedNav::Bottom)
                } else if c == 'd' || c == 'x' {
                    InputDecision::NavigateFeed(FeedNav::DeleteAgent)
                } else {
                    InputDecision::Forward(Vec::new())
                }
            },
            _ => InputDecision::Forward(Vec::new()),
        },
    }
}

/// Law: toggling twice returns to the same view, and Ctrl-G toggles from
/// either view.
pub proof fn law_toggle_involution(s: ViewState)
    ensures
        spec_toggle(spec_toggle(s)) == s,
        spec_toggle(s) != s,
        spec_is_toggle(KeyPress { key: Key::Char('g'), ctrl: true }),
{
}

/// Law: Ctrl plus a letter, upper or lower case, is the letter's ASCII
/// control code, one byte from 0x01 (A) to 0x1A (Z).
pub proof fn law_ctrl_letters(c: char)
    requires
        ('a' <= c && c <= 'z') || ('A' <= c && c <= 'Z'),
    ensures
        spec_key_bytes(KeyPress { key: Key::Char(c), ctrl: true }).len() == 1,
        0x01 <= spec_key_bytes(KeyPress { key: Key::Char(c), ctrl: true })[0] <= 0x1a,
{
}

/// What the wrapper's input loop does after a key press.
pub enum WrapperAction {
    /// The view went back to the agent: make it repaint and clear the screen.
    RepaintAgent,
    /// Write these bytes to the agent's pty.
    WriteToPty(Vec<u8>),
    /// Move the feed's agent picker by this many steps.
    CycleAgent(i32),
    /// Scroll the feed this many lines towards older entries.
    ScrollUp(usize),
    /// Scroll the feed this many lines towards the live tail.
    ScrollDown(usize),
    /// Jump to the oldest entry.
    ScrollToTop,
    /// Return to the live tail.
    ScrollToBottom,
    /// Delete the selected agent from the picker.
    DeleteAgent,
    /// Leave the wrapper.
    Quit,
    /// Nothing to do.
    Nothing,
}

/// One step of the input loop: the next view and the action for a key
/// press. A toggle switches the view (asking the agent to repaint when it
/// becomes visible again); forwarded bytes reach the pty only while the
/// agent's view shows and only when there are some; in the feed, ←/→ move
/// the agent picker, ↑/↓ scroll one line, PgUp/PgDn ten, a wheel tick
/// three, Home/`g` jump to the oldest entry, End/`G` back to the tail,
/// `d`/`x` delete the selected agent, and `q` quits.
pub fn step(state: ViewState, ev: KeyPress) -> (res: (ViewState, WrapperAction))
    ensures
        spec_is_toggle(ev) ==> res.0 == spec_toggle(state) && (if spec_toggle(state) == ViewState::Claude {
            res.1 is RepaintAgent
        } else {
            res.1 is Nothing
        }),
        !spec_is_toggle(ev) ==> res.0 == state,
        !spec_is_toggle(ev) && state == ViewState::Claude ==> if spec_key_bytes(ev).len() > 0 {
            res.1 matches WrapperAction::WriteToPty(b) && b@ == spec_key_bytes(ev)
        } else {
            res.1 is Nothing
        },
        !spec_is_toggle(ev) && state == ViewState::Feed ==> match spec_feed_nav(ev) {
            Some(FeedNav::AgentPrev) => res.1 matches WrapperAction::CycleAgent(d) && d == -1,
            Some(FeedNav::AgentNext) => res.1 matches WrapperAction::CycleAgent(d) && d == 1,
            Some(FeedNav::ScrollUp) => res.1 matches WrapperAction::ScrollUp(n) && n == 1,
            Some(FeedNav::ScrollDown) => res.1 matches WrapperAction::ScrollDown(n) && n == 1,
            Some(FeedNav::PageUp) => res.1 matches WrapperAction::ScrollUp(n) && n == 10,
            Some(FeedNav::PageDown) => res.1 matches WrapperAction::ScrollDown(n) && n == 10,
            Some(FeedNav::WheelUp) => res.1 matches WrapperAction::ScrollUp(n) && n == 3,
            Some(FeedNav::WheelDown) => res.1 matches WrapperAction::ScrollDown(n) && n == 3,
            Some(FeedNav::Top) => res.1 is ScrollToTop,
            Some(FeedNav::Bottom) => res.1 is ScrollToBottom,
            Some(FeedNav::DeleteAgent) => res.1 is DeleteAgent,
            Some(FeedNav::Quit) => res.1 is Quit,
            None => res.1 is Nothing,
        },
{
    match decide(ev, state) {
        InputDecision::ToggleView => {
            let next = state.toggle();
            let action = match next {
                ViewState::Claude => WrapperAction::RepaintAgent,
                ViewState::Feed => WrapperAction::Nothing,
            };
            (next, action)
        },
        InputDecision::Forward(bytes) => {
            let is_agent_view = match state {
                ViewState::Claude => true,
                ViewState::Feed => false,
            };
            if is_agent_view && bytes.len() > 0 {
                (state, WrapperAction::WriteToPty(bytes))
            } else {
                (state, WrapperAction::Nothing)
            }
        },
        InputDecision::NavigateFeed(nav) => {
            let action = match nav {
                FeedNav::AgentPrev => WrapperAction::CycleAgent(-1),
                FeedNav::AgentNext => WrapperAction::CycleAgent(1),
                FeedNav::Quit => WrapperAction::Quit,
                FeedNav::ScrollUp => WrapperAction::ScrollUp(1),
                FeedNav::ScrollDown => WrapperAction::ScrollDown(1),
                FeedNav::PageUp => WrapperAction::ScrollUp(10),
                FeedNav::PageDown => WrapperAction::ScrollDown(10),
                FeedNav::WheelUp => WrapperAction::ScrollUp(3),
                FeedNav::WheelDown => WrapperAction::ScrollDown(3),
                FeedNav::Top => WrapperAction::ScrollToTop,
                FeedNav::Bottom => WrapperAction::ScrollToBottom,
                FeedNav::DeleteAgent => WrapperAction::DeleteAgent,
            };
            (state, action)
        },
    }
}


/// Law: the arrow keys reach the agent's pty as the ANSI cursor sequences
/// `ESC [ A` (up), `ESC [ B` (down), `ESC [ C` (right) and `ESC [ D`
/// (left), with or without Control held; so the four are pairwise
/// different, and in the agent's view the wrapper writes exactly these.
pub proof fn law_arrow_keys_are_cursor_sequences(ctrl: bool)
    ensures
        spec_key_bytes(KeyPress { key: Key::Up, ctrl }) == seq![0x1bu8, 0x5bu8, 0x41u8],
        spec_key_bytes(KeyPress { key: Key::Down, ctrl }) == seq![0x1bu8, 0x5bu8, 0x42u8],
        spec_key_bytes(KeyPress { key: Key::Right, ctrl }) == seq![0x1bu8, 0x5bu8, 0x43u8],
        spec_key_bytes(KeyPress { key: Key::Left, ctrl }) == seq![0x1bu8, 0x5bu8, 0x44u8],
{
}

} // verus!
