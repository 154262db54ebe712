//! The feed view's navigation state: which agent is shown and how far the
//! list is scrolled back from its live tail.
use vstd::prelude::*;
use crate::ring::{AllAgentBuffers, AgentRing, ring_index};
use crate::entry::EntryStatus;
use crate::text::{decimal, push_decimal, opt_chars, utf8, utf8_lossy, lossy_text, text_lines, lines_from, string_views};
use vstd::utf8::{decode_utf8, encode_utf8_decode_utf8};
use vstd::utf8::valid_utf8;
use vstd::arithmetic::div_mod::{lemma_small_mod, lemma_mod_self_0, lemma_mod_multiples_vanish};

verus! {

pub struct FeedView {
    pub selected_agent: String,
    pub agent_index: usize,
    /// How many entries up from the bottom (tail) the user has scrolled.
    /// 0 == auto-tail (latest entry visible).
    pub scroll_offset: usize,
}

/// The position `dir` steps from `idx` among `n` agents, wrapping around.
pub open spec fn cycle_index(idx: int, dir: int, n: int) -> int {
    (idx + dir) % n
}

/// The number of entries in the ring of `key` (0 if it has none).
pub open spec fn spec_ring_len(rings: Seq<AgentRing>, key: Seq<char>) -> nat {
    match ring_index(rings, key) {
        Some(i) => rings[i].entries@.len(),
        None => 0,
    }
}

/// The furthest the view can scroll back: to the oldest entry.
pub open spec fn max_scroll(rings: Seq<AgentRing>, key: Seq<char>) -> nat {
    if spec_ring_len(rings, key) > 0 {
        (spec_ring_len(rings, key) - 1) as nat
    } else {
        0
    }
}

impl Default for FeedView {
    /// The main agent's feed, at its live tail.
    fn default() -> (res: Self)
        ensures
            res.selected_agent@ == "main"@,
            res.agent_index == 0,
            res.scroll_offset == 0,
    {
        FeedView { selected_agent: String::from_str("main"), agent_index: 0, scroll_offset: 0 }
    }
}

/// The picker position selected after deleting the agent at `i`, with `n`
/// agents left: the agent that was to its right, or the first when it was
/// the last.
pub open spec fn index_after_delete(i: int, n: int) -> int {
    if i < n {
        i
    } else {
        0
    }
}

impl FeedView {
    /// Delete the selected agent from the picker (`d` or `x`), refusing
    /// `main`: its ring goes, the agent that was to its right is selected
    /// (the first one when it was the last; `main` when none is left) and
    /// the view returns to the live tail. Returns whether an agent was
    /// deleted; when none was, nothing changes.
    pub fn delete_selected(&mut self, buffers: &mut AllAgentBuffers) -> (res: bool)
        requires
            old(buffers).wf(),
        ensures
            final(buffers).wf(),
            final(buffers).stopped_keys() == old(buffers).stopped_keys(),
            res == (old(self).selected_agent@ != "main"@ && ring_index(
                old(buffers).rings(),
                old(self).selected_agent@,
            ) is Some),
            !res ==> *final(self) == *old(self) && final(buffers).rings() == old(buffers).rings(),
            res ==> {
                let i = ring_index(old(buffers).rings(), old(self).selected_agent@)->0;
                let rest = final(buffers).rings();
                &&& rest == old(buffers).rings().remove(i)
                &&& final(self).agent_index == index_after_delete(i, rest.len() as int)
                &&& final(self).selected_agent@ == if rest.len() == 0 {
                    "main"@
                } else {
                    rest[final(self).agent_index as int].agent_key@
                }
                &&& final(self).scroll_offset == 0
            },
    {
        match buffers.remove_agent(self.selected_agent.as_str()) {
            None => false,
            Some(i) => {
                let agents = buffers.agents();
                let n = agents.len();
                if n == 0 {
                    self.agent_index = 0;
                    self.selected_agent = String::from_str("main");
                } else {
                    let idx = if i < n {
                        i
                    } else {
                        0
                    };
                    self.agent_index = idx;
                    self.selected_agent = agents[idx].agent_key.clone();
                }
                self.scroll_offset = 0;
                true
            },
        }
    }

    /// Move `dir` agents along the picker (wrapping) and return to the live
    /// tail; nothing changes while there are no agents.
    pub fn cycle_agent(&mut self, buffers: &AllAgentBuffers, dir: i32)
        requires
            buffers.rings().len() <= i32::MAX,
            i32::MIN <= (old(self).agent_index as i32) + dir <= i32::MAX,
        ensures
            buffers.rings().len() == 0 ==> *final(self) == *old(self),
            buffers.rings().len() > 0 ==> {
                &&& final(self).agent_index == cycle_index(
                    (old(self).agent_index as i32) as int,
                    dir as int,
                    buffers.rings().len() as int,
                )
                &&& final(self).selected_agent == buffers.rings()[final(self).agent_index as int].agent_key
                &&& final(self).scroll_offset == 0
            },
    {
        let agents = buffers.agents();
        if agents.len() == 0 {
            return;
        }
        let x: i32 = (self.agent_index as i32) + dir;
        let n: i32 = agents.len() as i32;
        let new = match x.checked_rem_euclid(n) {
            Some(r) => r as usize,
            None => {
                proof {
                    assert(false);
                }
                return;
            },
        };
        self.agent_index = new;
        self.selected_agent = agents[new].agent_key.clone();
        // Switching agents implies "show me what's happening": back to tail.
        self.scroll_offset = 0;
    }

    /// The number of entries in the selected agent's ring.
    pub fn ring_len(&self, buffers: &AllAgentBuffers) -> (res: usize)
        requires
            buffers.wf(),
        ensures
            res == spec_ring_len(buffers.rings(), self.selected_agent@),
    {
        match buffers.get(self.selected_agent.as_str()) {
            Some(r) => r.entries.len(),
            None => 0,
        }
    }

    /// Scroll `by` entries towards the oldest, stopping at the oldest.
    pub fn scroll_up(&mut self, buffers: &AllAgentBuffers, by: usize)
        requires
            buffers.wf(),
            old(self).scroll_offset + by <= usize::MAX,
        ensures
            final(self).scroll_offset == if old(self).scroll_offset + by <= max_scroll(
                buffers.rings(),
                old(self).selected_agent@,
            ) {
                old(self).scroll_offset + by
            } else {
                max_scroll(buffers.rings(), old(self).selected_agent@) as int
            },
            final(self).selected_agent == old(self).selected_agent,
            final(self).agent_index == old(self).agent_index,
    {
        let max = self.ring_len(buffers).saturating_sub(1);
        let want = self.scroll_offset + by;
        self.scroll_offset = if want <= max {
            want
        } else {
            max
        };
    }

    /// Scroll `by` entries towards the live tail, stopping at it.
    pub fn scroll_down(&mut self, by: usize)
        ensures
            final(self).scroll_offset == if old(self).scroll_offset >= by {
                old(self).scroll_offset - by
            } else {
                0
            },
            final(self).selected_agent == old(self).selected_agent,
            final(self).agent_index == old(self).agent_index,
    {
        self.scroll_offset = self.scroll_offset.saturating_sub(by);
    }

    /// Jump to the oldest entry.
    pub fn scroll_to_top(&mut self, buffers: &AllAgentBuffers)
        requires
            buffers.wf(),
        ensures
            final(self).scroll_offset == max_scroll(buffers.rings(), old(self).selected_agent@),
            final(self).selected_agent == old(self).selected_agent,
            final(self).agent_index == old(self).agent_index,
    {
        self.scroll_offset = self.ring_len(buffers).saturating_sub(1);
    }

    /// Return to the live tail.
    pub fn scroll_to_bottom(&mut self)
        ensures
            final(self).scroll_offset == 0,
            final(self).selected_agent == old(self).selected_agent,
            final(self).agent_index == old(self).agent_index,
    {
        self.scroll_offset = 0;
    }
}

/// Law: cycling lands on a valid agent, and one step back undoes one step
/// forward (in either direction), so repeated steps wrap around the picker.
pub proof fn law_cycle_wraps(idx: int, n: int)
    requires
        0 <= idx < n,
    ensures
        0 <= cycle_index(idx, 1, n) < n,
        0 <= cycle_index(idx, -1, n) < n,
        cycle_index(cycle_index(idx, 1, n), -1, n) == idx,
        cycle_index(cycle_index(idx, -1, n), 1, n) == idx,
        cycle_index(n - 1, 1, n) == 0,
        cycle_index(0, -1, n) == n - 1,
{
    if idx + 1 < n {
        lemma_small_mod((idx + 1) as nat, n as nat);
    } else {
        lemma_mod_self_0(n);
    }
    if idx >= 1 {
        lemma_small_mod((idx - 1) as nat, n as nat);
    }
    lemma_mod_multiples_vanish(-1, n - 1, n);
    assert(n * -1 + (n - 1) == -1) by (nonlinear_arith);
    lemma_small_mod((n - 1) as nat, n as nat);
    assert((0 - 1) % n == n - 1);
    lemma_small_mod(idx as nat, n as nat);
    lemma_mod_self_0(n);
    lemma_small_mod(0, n as nat);
    if n - 1 >= 1 {
        lemma_small_mod((n - 2) as nat, n as nat);
    }
}

/// Law: the scroll position never passes the oldest entry: after any
/// upward scroll or a jump to the top it is at most `max_scroll`, and a
/// scroll back down by the same amount returns to the tail when it started
/// there.
pub proof fn law_scroll_clamped(before: usize, by: usize, len: nat)
    requires
        before + by <= usize::MAX,
    ensures
        ({
            let max: int = if len > 0 { len - 1 } else { 0 };
            let up: int = if before + by <= max { before + by } else { max };
            &&& up <= max
            &&& (before == 0 ==> (if up >= by { up - by } else { 0 }) == 0)
        }),
{
}

/// The entry list's title: `activity`, and how far it is scrolled back.
pub open spec fn spec_entries_title(scroll_offset: nat) -> Seq<char> {
    if scroll_offset > 0 {
        "activity  [scrolled +"@ + decimal(scroll_offset) + " · End/G to tail]"@
    } else {
        "activity"@
    }
}

/// The entry list's title for a scroll offset.
pub fn entries_title(scroll_offset: usize) -> (res: String)
    ensures
        res@ == spec_entries_title(scroll_offset as nat),
{
    if scroll_offset > 0 {
        let mut s = String::from_str("activity  [scrolled +");
        push_decimal(&mut s, scroll_offset as u64);
        s.append(" · End/G to tail]");
        s
    } else {
        String::from_str("activity")
    }
}

/// The highlighted row of a list of `item_count` rows scrolled back
/// `scroll_offset` from its last row (none for an empty list).
pub open spec fn spec_selected_row(item_count: nat, scroll_offset: nat) -> Option<nat> {
    if item_count == 0 {
        None
    } else if item_count - 1 >= scroll_offset {
        Some((item_count - 1 - scroll_offset) as nat)
    } else {
        Some(0)
    }
}

/// The row to highlight so the scrolled-to entry is in view.
pub fn selected_row(item_count: usize, scroll_offset: usize) -> (res: Option<usize>)
    ensures
        match res {
            Some(r) => spec_selected_row(item_count as nat, scroll_offset as nat) == Some(r as nat),
            None => spec_selected_row(item_count as nat, scroll_offset as nat) is None,
        },
{
    if item_count == 0 {
        None
    } else {
        Some((item_count - 1).saturating_sub(scroll_offset))
    }
}

/// The glyph in front of an entry: pending, succeeded or failed.
pub fn status_glyph(status: EntryStatus) -> (res: &'static str)
    ensures
        res@ == match status {
            EntryStatus::Pending => "▸"@,
            EntryStatus::Success => "✓"@,
            EntryStatus::Error => "✗"@,
        },
{
    match status {
        EntryStatus::Pending => "▸",
        EntryStatus::Success => "✓",
        EntryStatus::Error => "✗",
    }
}

/// An agent's picker label: its key, with its type in brackets when known.
pub open spec fn spec_agent_label(key: Seq<char>, agent_type: Option<Seq<char>>) -> Seq<char> {
    match agent_type {
        Some(t) => key + " ["@ + t + "]"@,
        None => key,
    }
}

/// The picker label for a ring.
pub fn agent_label(ring: &AgentRing) -> (res: String)
    ensures
        res@ == spec_agent_label(ring.agent_key@, opt_chars(ring.agent_type)),
{
    match &ring.agent_type {
        Some(t) => {
            let mut s = String::from_str(ring.agent_key.as_str());
            s.append(" [");
            s.append(t.as_str());
            s.append("]");
            s
        },
        None => String::from_str(ring.agent_key.as_str()),
    }
}

/// The tag in front of each line of a live chunk: `  [<stream>] `.
pub open spec fn spec_chunk_tag(stream: Seq<char>) -> Seq<char> {
    "  ["@ + stream + "] "@
}

/// The tag for a live chunk's lines.
pub fn chunk_tag(stream: &str) -> (res: String)
    ensures
        res@ == spec_chunk_tag(stream@),
{
    let mut s = String::from_str("  [");
    s.append(stream);
    s.append("] ");
    s
}

/// The lines a live chunk shows: its bytes decoded as UTF-8 (invalid
/// sequences replaced) and split as `str::lines` splits.
pub fn live_lines(bytes: &[u8]) -> (res: Vec<String>)
    ensures
        string_views(res@) == lines_from(lossy_text(bytes@), 0),
        valid_utf8(bytes@) ==> string_views(res@) == lines_from(decode_utf8(bytes@), 0),
{
    let text = utf8_lossy(bytes);
    proof {
        if valid_utf8(bytes@) {
            encode_utf8_decode_utf8(text@);
        }
    }
    text_lines(text.as_str())
}

} // verus!
