//! Per-agent ring buffers of feed entries, with the live bytes `oby-tee`
//! streams attached to them.
//!
//! Rings are kept in the order their agents first appeared; each holds at
//! most `DEFAULT_CAPACITY` entries, dropping the oldest when full.
use vstd::prelude::*;
use std::collections::VecDeque;
use crate::entry::{DisplayEntry, DisplayEntryUpdate, EntryBody};
use crate::wire::ControlMessage;
use crate::text::{utf8, push_str};

verus! {

broadcast use vstd::seq::group_seq_axioms;

/// How many entries each agent's ring keeps.
pub const DEFAULT_CAPACITY: usize = 500;

/// All agents' rings, one per agent key.
pub struct AllAgentBuffers {
    inner: Vec<AgentRing>,
    /// The agents whose `SubagentStop` hook has fired, in order.
    stopped: Vec<String>,
}

/// One agent's timeline.
pub struct AgentRing {
    pub agent_key: String,
    pub agent_type: Option<String>,
    pub entries: VecDeque<EntryRecord>,
    pub capacity: usize,
}

/// An entry + any live bytes attached to its LiveStream.
pub struct EntryRecord {
    pub entry: DisplayEntry,
    /// For LiveStream entries, raw bytes accumulated from oby-tee, with
    /// stream-name tags.
    pub live: Vec<LiveChunk>,
}

pub struct LiveChunk {
    /// "stdout" | "stderr" | "stderr-discarded" | ...
    pub stream: String,
    pub bytes: Vec<u8>,
}

/// A ring is sound when it has the default capacity, holds no more than
/// that, and every entry in it belongs to its agent.
pub open spec fn ring_wf(r: AgentRing) -> bool {
    &&& r.capacity == DEFAULT_CAPACITY
    &&& r.entries@.len() <= r.capacity
    &&& forall|k: int| 0 <= k < r.entries@.len() ==> (#[trigger] r.entries@[k]).entry.agent_key@ == r.agent_key@
}

/// No two rings share an agent key.
pub open spec fn keys_unique(rs: Seq<AgentRing>) -> bool {
    forall|i: int, j: int| 0 <= i < rs.len() && 0 <= j < rs.len() && i != j ==> rs[i].agent_key@ != rs[j].agent_key@
}

pub open spec fn rings_wf(rs: Seq<AgentRing>) -> bool {
    &&& keys_unique(rs)
    &&& forall|i: int| 0 <= i < rs.len() ==> ring_wf(#[trigger] rs[i])
}

/// The position of the ring for `key`, if there is one.
pub open spec fn ring_index(rs: Seq<AgentRing>, key: Seq<char>) -> Option<int> {
    if exists|i: int| 0 <= i < rs.len() && rs[i].agent_key@ == key {
        Some(choose|i: int| 0 <= i < rs.len() && rs[i].agent_key@ == key)
    } else {
        None
    }
}

/// The position of the newest record whose entry has the tool_use_id `id`.
pub open spec fn last_match(es: Seq<EntryRecord>, id: Seq<char>) -> Option<int>
    decreases es.len(),
{
    if es.len() == 0 {
        None
    } else if es.last().entry.tool_use_id@ == id {
        Some(es.len() - 1)
    } else {
        last_match(es.drop_last(), id)
    }
}

/// The first ring, from position `i` on, that holds an entry with the
/// tool_use_id `id`.
pub open spec fn ring_with_from(rs: Seq<AgentRing>, id: Seq<char>, i: int) -> Option<int>
    decreases rs.len() - i,
{
    if i < 0 || i >= rs.len() {
        None
    } else if last_match(rs[i].entries@, id) is Some {
        Some(i)
    } else {
        ring_with_from(rs, id, i + 1)
    }
}

/// `after` is `before` with `entry` appended, the oldest entry dropped first
/// when the ring was full.
pub open spec fn pushed_ring(before: AgentRing, after: AgentRing, entry: DisplayEntry) -> bool {
    &&& after.agent_key == before.agent_key
    &&& after.agent_type == before.agent_type
    &&& after.capacity == before.capacity
    &&& after.entries@.len() >= 1
    &&& after.entries@.drop_last() == (if before.entries@.len() >= before.capacity {
        before.entries@.drop_first()
    } else {
        before.entries@
    })
    &&& after.entries@.last().entry == entry
    &&& after.entries@.last().live@.len() == 0
}

/// What `push_entry` does: the entry goes to the back of its agent's ring,
/// which is created (untyped, default capacity) at the end if the agent is
/// new; every other ring is unchanged.
pub open spec fn spec_pushed(before: Seq<AgentRing>, after: Seq<AgentRing>, entry: DisplayEntry) -> bool {
    match ring_index(before, entry.agent_key@) {
        Some(i) => {
            &&& after.len() == before.len()
            &&& forall|j: int| 0 <= j < before.len() && j != i ==> after[j] == before[j]
            &&& pushed_ring(before[i], after[i], entry)
        },
        None => {
            &&& after.len() == before.len() + 1
            &&& after.drop_last() == before
            &&& after.last().agent_key@ == entry.agent_key@
            &&& after.last().agent_type is None
            &&& after.last().capacity == DEFAULT_CAPACITY
            &&& after.last().entries@.len() == 1
            &&& after.last().entries@[0].entry == entry
            &&& after.last().entries@[0].live@.len() == 0
        },
    }
}

/// `after` is the record `before` completed by `upd`: the status is
/// replaced; an appended body replaces the body, except on a live-stream
/// entry, where a text body is attached as a `post-summary` chunk and any
/// other body is dropped.
pub open spec fn updated_record(before: EntryRecord, after: EntryRecord, upd: DisplayEntryUpdate) -> bool {
    &&& after.entry.agent_key == before.entry.agent_key
    &&& after.entry.tool_use_id == before.entry.tool_use_id
    &&& after.entry.tool == before.entry.tool
    &&& after.entry.timestamp == before.entry.timestamp
    &&& after.entry.headline == before.entry.headline
    &&& after.entry.status == upd.status
    &&& match upd.append_body {
        Some(body) => if !(before.entry.body is LiveStream) {
            &&& after.entry.body == body
            &&& after.live == before.live
        } else {
            &&& after.entry.body == before.entry.body
            &&& match body {
                EntryBody::Text { text } => {
                    &&& after.live@.len() == before.live@.len() + 1
                    &&& after.live@.drop_last() == before.live@
                    &&& after.live@.last().stream@ == "post-summary"@
                    &&& after.live@.last().bytes@ == utf8(text@)
                },
                _ => after.live == before.live,
            }
        },
        None => {
            &&& after.entry.body == before.entry.body
            &&& after.live == before.live
        },
    }
}

/// `after` is `before` with the record at `k` replaced by one for which
/// `changed` holds; the ring's identity and every other record stay.
pub open spec fn ring_record_changed(before: AgentRing, after: AgentRing, k: int) -> bool {
    &&& after.agent_key == before.agent_key
    &&& after.agent_type == before.agent_type
    &&& after.capacity == before.capacity
    &&& after.entries@.len() == before.entries@.len()
    &&& 0 <= k < before.entries@.len()
    &&& forall|m: int| 0 <= m < before.entries@.len() && m != k ==> after.entries@[m] == before.entries@[m]
}

/// What `apply_update` does: in the first ring holding an entry with the
/// update's tool_use_id, the newest such record is completed; when no ring
/// holds one (an orphaned update), nothing changes.
pub open spec fn spec_updated(before: Seq<AgentRing>, after: Seq<AgentRing>, upd: DisplayEntryUpdate) -> bool {
    match ring_with_from(before, upd.tool_use_id@, 0) {
        Some(i) => {
            let k = last_match(before[i].entries@, upd.tool_use_id@)->0;
            &&& after.len() == before.len()
            &&& forall|j: int| 0 <= j < before.len() && j != i ==> after[j] == before[j]
            &&& ring_record_changed(before[i], after[i], k)
            &&& updated_record(before[i].entries@[k], after[i].entries@[k], upd)
        },
        None => after == before,
    }
}

/// What `append_live` does: in the ring for `key`, the newest record whose
/// entry has the tool_use_id `id` gets a chunk tagged `stream` holding
/// `bytes`; without such a ring or record nothing changes.
pub open spec fn spec_appended(
    before: Seq<AgentRing>,
    after: Seq<AgentRing>,
    key: Seq<char>,
    id: Seq<char>,
    stream: Seq<char>,
    bytes: Seq<u8>,
) -> bool {
    match ring_index(before, key) {
        Some(i) => match last_match(before[i].entries@, id) {
            Some(k) => {
                &&& after.len() == before.len()
                &&& forall|j: int| 0 <= j < before.len() && j != i ==> after[j] == before[j]
                &&& ring_record_changed(before[i], after[i], k)
                &&& after[i].entries@[k].entry == before[i].entries@[k].entry
                &&& after[i].entries@[k].live@.len() == before[i].entries@[k].live@.len() + 1
                &&& after[i].entries@[k].live@.drop_last() == before[i].entries@[k].live@
                &&& after[i].entries@[k].live@.last().stream@ == stream
                &&& after[i].entries@[k].live@.last().bytes@ == bytes
            },
            None => after == before,
        },
        None => after == before,
    }
}

proof fn lemma_ring_index(rs: Seq<AgentRing>, key: Seq<char>, i: int)
    requires
        keys_unique(rs),
        0 <= i < rs.len(),
        rs[i].agent_key@ == key,
    ensures
        ring_index(rs, key) == Some(i),
{
}

proof fn lemma_last_match_bounds(es: Seq<EntryRecord>, id: Seq<char>)
    ensures
        last_match(es, id) matches Some(k) ==> 0 <= k < es.len() && es[k].entry.tool_use_id@ == id,
    decreases es.len(),
{
    if es.len() > 0 && es.last().entry.tool_use_id@ != id {
        lemma_last_match_bounds(es.drop_last(), id);
    }
}

proof fn lemma_ring_with_from_skip(rs: Seq<AgentRing>, id: Seq<char>, i: int)
    requires
        0 <= i,
        forall|j: int| 0 <= j < i && j < rs.len() ==> last_match(#[trigger] rs[j].entries@, id) is None,
    ensures
        ring_with_from(rs, id, 0) == ring_with_from(rs, id, i),
    decreases i,
{
    if i > 0 {
        lemma_ring_with_from_skip(rs, id, i - 1);
        if i - 1 < rs.len() {
            assert(last_match(rs[i - 1].entries@, id) is None);
        }
    }
}

/// The newest record in `es` whose entry has the tool_use_id `id`.
fn find_last_match(es: &VecDeque<EntryRecord>, id: &str) -> (res: Option<usize>)
    ensures
        match res {
            Some(k) => last_match(es@, id@) == Some(k as int),
            None => last_match(es@, id@) is None,
        },
{
    let mut k = es.len();
    assert(es@.take(k as int) =~= es@);
    while k > 0
        invariant
            k <= es@.len(),
            last_match(es@, id@) == last_match(es@.take(k as int), id@),
        decreases k,
    {
        let ghost t = es@.take(k as int);
        assert(t.last() == es@[k - 1]);
        assert(t.drop_last() =~= es@.take(k - 1));
        if crate::text::str_eq(es[k - 1].entry.tool_use_id.as_str(), id) {
            return Some(k - 1);
        }
        k -= 1;
    }
    None
}

impl AllAgentBuffers {
    /// The rings, in the order their agents first appeared.
    pub closed spec fn rings(self) -> Seq<AgentRing> {
        self.inner@
    }

    /// The agents whose `SubagentStop` hook has fired, in the order it did.
    pub closed spec fn stopped_keys(self) -> Seq<Seq<char>> {
        Seq::new(self.stopped@.len(), |k: int| self.stopped@[k]@)
    }

    /// The buffers are sound: keys are unique and every ring is sound.
    pub closed spec fn wf(self) -> bool {
        rings_wf(self.inner@)
    }

    /// The position of the ring for `key`.
    fn find(&self, key: &str) -> (res: Option<usize>)
        requires
            self.wf(),
        ensures
            match res {
                Some(i) => ring_index(self.rings(), key@) == Some(i as int),
                None => ring_index(self.rings(), key@) is None,
            },
    {
        let mut i: usize = 0;
        while i < self.inner.len()
            invariant
                rings_wf(self.inner@),
                i <= self.inner@.len(),
                forall|j: int| 0 <= j < i ==> self.inner@[j].agent_key@ != key@,
            decreases self.inner.len() - i,
        {
            if crate::text::str_eq(self.inner[i].agent_key.as_str(), key) {
                proof {
                    lemma_ring_index(self.inner@, key@, i as int);
                }
                return Some(i);
            }
            i += 1;
        }
        None
    }

    /// Append an entry to its agent's ring, creating the ring on the
    /// agent's first entry and dropping the oldest entry of a full ring.
    pub fn push_entry(&mut self, entry: DisplayEntry)
        requires
            old(self).wf(),
        ensures
            final(self).wf(),
            spec_pushed(old(self).rings(), final(self).rings(), entry),
            final(self).stopped_keys() == old(self).stopped_keys(),
            ring_index(final(self).rings(), entry.agent_key@) == Some(
                match ring_index(old(self).rings(), entry.agent_key@) {
                    Some(i) => i,
                    None => old(self).rings().len() as int,
                },
            ),
    {
        let ghost before = self.inner@;
        let key = entry.agent_key.clone();
        match self.find(key.as_str()) {
            Some(i) => {
                let mut ring = self.inner.remove(i);
                let ghost r0 = ring;
                assert(ring_wf(r0));
                if ring.entries.len() >= ring.capacity {
                    ring.entries.pop_front();
                }
                ring.entries.push_back(EntryRecord { entry, live: Vec::new() });
                proof {
                    let trimmed = if r0.entries@.len() >= r0.capacity {
                        r0.entries@.drop_first()
                    } else {
                        r0.entries@
                    };
                    assert(ring.entries@.drop_last() =~= trimmed);
                    assert forall|k: int| 0 <= k < ring.entries@.len() implies (#[trigger] ring.entries@[k]).entry.agent_key@
                        == ring.agent_key@ by {
                        if k < ring.entries@.len() - 1 {
                            if r0.entries@.len() >= r0.capacity {
                                assert(ring.entries@[k] == r0.entries@[k + 1]);
                            } else {
                                assert(ring.entries@[k] == r0.entries@[k]);
                            }
                        }
                    }
                }
                self.inner.insert(i, ring);
                proof {
                    assert forall|j: int| 0 <= j < before.len() && j != i implies self.inner@[j] == before[j] by {
                    }
                    assert forall|a: int| 0 <= a < self.inner@.len() implies ring_wf(#[trigger] self.inner@[a]) by {
                        if a != i {
                            assert(self.inner@[a] == before[a]);
                        }
                    }
                    assert forall|a: int, c: int|
                        0 <= a < self.inner@.len() && 0 <= c < self.inner@.len() && a != c implies self.inner@[a].agent_key@
                        != self.inner@[c].agent_key@ by {
                        assert(self.inner@[a].agent_key@ == before[a].agent_key@);
                        assert(self.inner@[c].agent_key@ == before[c].agent_key@);
                    }
                    lemma_ring_index(self.inner@, entry.agent_key@, i as int);
                }
            },
            None => {
                let mut entries: VecDeque<EntryRecord> = VecDeque::with_capacity(DEFAULT_CAPACITY);
                entries.push_back(EntryRecord { entry, live: Vec::new() });
                self.inner.push(AgentRing { agent_key: key, agent_type: None, entries, capacity: DEFAULT_CAPACITY });
                proof {
                    assert(self.inner@.drop_last() =~= before);
                    assert forall|a: int| 0 <= a < self.inner@.len() implies ring_wf(#[trigger] self.inner@[a]) by {
                        if a < before.len() {
                            assert(self.inner@[a] == before[a]);
                        }
                    }
                    assert forall|a: int, c: int|
                        0 <= a < self.inner@.len() && 0 <= c < self.inner@.len() && a != c implies self.inner@[a].agent_key@
                        != self.inner@[c].agent_key@ by {
                        if a < before.len() {
                            assert(self.inner@[a] == before[a]);
                        }
                        if c < before.len() {
                            assert(self.inner@[c] == before[c]);
                        }
                    }
                    lemma_ring_index(self.inner@, entry.agent_key@, before.len() as int);
                }
            },
        }
    }
    /// Complete the newest entry with the update's tool_use_id, searching
    /// the rings in order; an update whose entry is in no ring is dropped.
    pub fn apply_update(&mut self, upd: DisplayEntryUpdate)
        requires
            old(self).wf(),
        ensures
            final(self).wf(),
            spec_updated(old(self).rings(), final(self).rings(), upd),
            final(self).stopped_keys() == old(self).stopped_keys(),
    {
        let ghost before = self.inner@;
        let ghost id = upd.tool_use_id@;
        let mut i: usize = 0;
        while i < self.inner.len()
            invariant
                self.inner@ == before,
                self.stopped@ == old(self).stopped@,
                before == old(self).rings(),
                rings_wf(before),
                id == upd.tool_use_id@,
                i <= before.len(),
                forall|j: int| 0 <= j < i ==> last_match(#[trigger] before[j].entries@, id) is None,
            decreases self.inner.len() - i,
        {
            match find_last_match(&self.inner[i].entries, upd.tool_use_id.as_str()) {
                Some(k) => {
                    proof {
                        lemma_ring_with_from_skip(before, id, i as int);
                        lemma_last_match_bounds(before[i as int].entries@, id);
                    }
                    let mut ring = self.inner.remove(i);
                    let ghost r0 = ring;
                    let mut rec = match ring.entries.remove(k) {
                        Some(r) => r,
                        None => {
                            proof {
                                assert(false);
                            }
                            return;
                        },
                    };
                    let ghost rec0 = rec;
                    rec.entry.status = upd.status;
                    match upd.append_body {
                        Some(body) => {
                            let is_live = match rec.entry.body {
                                EntryBody::LiveStream { .. } => true,
                                _ => false,
                            };
                            if !is_live {
                                rec.entry.body = body;
                            } else {
                                match body {
                                    EntryBody::Text { text } => {
                                        let mut bytes: Vec<u8> = Vec::new();
                                        push_str(&mut bytes, text.as_str());
                                        assert(bytes@ =~= utf8(text@));
                                        rec.live.push(LiveChunk { stream: String::from_str("post-summary"), bytes });
                                        proof {
                                            assert(rec.live@.drop_last() =~= rec0.live@);
                                        }
                                    },
                                    _ => {},
                                }
                            }
                        },
                        None => {},
                    }
                    ring.entries.insert(k, rec);
                    proof {
                        assert forall|m: int| 0 <= m < r0.entries@.len() && m != k implies ring.entries@[m]
                            == r0.entries@[m] by {
                        }
                        assert(ring.entries@[k as int] == rec);
                        assert forall|m: int| 0 <= m < ring.entries@.len() implies (#[trigger] ring.entries@[m]).entry.agent_key@
                            == ring.agent_key@ by {
                            if m != k {
                                assert(ring.entries@[m] == r0.entries@[m]);
                            }
                        }
                    }
                    self.inner.insert(i, ring);
                    proof {
                        assert forall|j: int| 0 <= j < before.len() && j != i implies self.inner@[j] == before[j] by {
                        }
                        assert forall|a: int| 0 <= a < self.inner@.len() implies ring_wf(#[trigger] self.inner@[a]) by {
                            if a != i {
                                assert(self.inner@[a] == before[a]);
                            }
                        }
                        assert forall|a: int, c: int|
                            0 <= a < self.inner@.len() && 0 <= c < self.inner@.len() && a != c implies self.inner@[a].agent_key@
                            != self.inner@[c].agent_key@ by {
                            assert(self.inner@[a].agent_key@ == before[a].agent_key@);
                            assert(self.inner@[c].agent_key@ == before[c].agent_key@);
                        }
                    }
                    return;
                },
                None => {},
            }
            i += 1;
        }
        proof {
            lemma_ring_with_from_skip(before, id, i as int);
        }
    }

    /// Attach live bytes to the newest entry with `tool_use_id` in the ring
    /// for `agent_key`; bytes for an unknown agent or entry are dropped.
    pub fn append_live(&mut self, agent_key: &str, tool_use_id: &str, stream: &str, bytes: Vec<u8>)
        requires
            old(self).wf(),
        ensures
            final(self).wf(),
            spec_appended(old(self).rings(), final(self).rings(), agent_key@, tool_use_id@, stream@, bytes@),
            final(self).stopped_keys() == old(self).stopped_keys(),
    {
        let ghost before = self.inner@;
        let i = match self.find(agent_key) {
            Some(i) => i,
            None => return,
        };
        let k = match find_last_match(&self.inner[i].entries, tool_use_id) {
            Some(k) => k,
            None => return,
        };
        proof {
            lemma_last_match_bounds(before[i as int].entries@, tool_use_id@);
        }
        let mut ring = self.inner.remove(i);
        let ghost r0 = ring;
        let mut rec = match ring.entries.remove(k) {
            Some(r) => r,
            None => {
                proof {
                    assert(false);
                }
                return;
            },
        };
        let ghost rec0 = rec;
        rec.live.push(LiveChunk { stream: String::from_str(stream), bytes });
        proof {
            assert(rec.live@.drop_last() =~= rec0.live@);
        }
        ring.entries.insert(k, rec);
        proof {
            assert forall|m: int| 0 <= m < r0.entries@.len() && m != k implies ring.entries@[m] == r0.entries@[m] by {
            }
            assert(ring.entries@[k as int] == rec);
            assert forall|m: int| 0 <= m < ring.entries@.len() implies (#[trigger] ring.entries@[m]).entry.agent_key@
                == ring.agent_key@ by {
                if m != k {
                    assert(ring.entries@[m] == r0.entries@[m]);
                }
            }
        }
        self.inner.insert(i, ring);
        proof {
            assert forall|j: int| 0 <= j < before.len() && j != i implies self.inner@[j] == before[j] by {
            }
            assert forall|a: int| 0 <= a < self.inner@.len() implies ring_wf(#[trigger] self.inner@[a]) by {
                if a != i {
                    assert(self.inner@[a] == before[a]);
                }
            }
            assert forall|a: int, c: int|
                0 <= a < self.inner@.len() && 0 <= c < self.inner@.len() && a != c implies self.inner@[a].agent_key@
                != self.inner@[c].agent_key@ by {
                assert(self.inner@[a].agent_key@ == before[a].agent_key@);
                assert(self.inner@[c].agent_key@ == before[c].agent_key@);
            }
        }
    }

    /// The rings, in the order their agents first appeared.
    pub fn agents(&self) -> (res: &[AgentRing])
        ensures
            res@ == self.rings(),
    {
        self.inner.as_slice()
    }

    /// The ring for `agent_key`, if that agent has had an entry.
    pub fn get(&self, agent_key: &str) -> (res: Option<&AgentRing>)
        requires
            self.wf(),
        ensures
            match ring_index(self.rings(), agent_key@) {
                Some(i) => res matches Some(r) && *r == self.rings()[i],
                None => res is None,
            },
    {
        match self.find(agent_key) {
            Some(i) => Some(&self.inner[i]),
            None => None,
        }
    }
}

impl Default for AllAgentBuffers {
    /// No rings yet.
    fn default() -> (res: Self)
        ensures
            res.wf(),
            res.rings() == Seq::<AgentRing>::empty(),
            res.stopped_keys() == Seq::<Seq<char>>::empty(),
    {
        AllAgentBuffers { inner: Vec::new(), stopped: Vec::new() }
    }
}

/// The agent keys that have a ring.
pub open spec fn agent_keys(rs: Seq<AgentRing>) -> Set<Seq<char>> {
    Set::new(|k: Seq<char>| exists|i: int| 0 <= i < rs.len() && rs[i].agent_key@ == k)
}

/// Law: sound buffers hold one ring per agent key, and every ring has
/// capacity `DEFAULT_CAPACITY`, at most that many entries, all of its own
/// agent; a key has a ring exactly when it is among the agent keys, and
/// the ring found for it carries that key.
pub proof fn law_buffers_sound(b: AllAgentBuffers, key: Seq<char>)
    requires
        b.wf(),
    ensures
        keys_unique(b.rings()),
        forall|i: int| 0 <= i < b.rings().len() ==> ring_wf(#[trigger] b.rings()[i]),
        ring_index(b.rings(), key) is Some <==> agent_keys(b.rings()).contains(key),
        ring_index(b.rings(), key) matches Some(i) ==> 0 <= i < b.rings().len() && b.rings()[i].agent_key@
            == key,
{
}

/// Law: the agents that have a ring are exactly those whose entries were
/// pushed: a push adds its entry's agent key, and an update or an append of
/// live bytes changes no key.
pub proof fn law_agent_keys_track_pushes(
    before: AllAgentBuffers,
    after_push: AllAgentBuffers,
    after_update: AllAgentBuffers,
    after_append: AllAgentBuffers,
    entry: DisplayEntry,
    upd: DisplayEntryUpdate,
    key: Seq<char>,
    id: Seq<char>,
    stream: Seq<char>,
    bytes: Seq<u8>,
)
    requires
        before.wf(),
        spec_pushed(before.rings(), after_push.rings(), entry),
        spec_updated(before.rings(), after_update.rings(), upd),
        spec_appended(before.rings(), after_append.rings(), key, id, stream, bytes),
    ensures
        agent_keys(after_push.rings()) == agent_keys(before.rings()).insert(entry.agent_key@),
        agent_keys(after_update.rings()) == agent_keys(before.rings()),
        agent_keys(after_append.rings()) == agent_keys(before.rings()),
{
    law_agents_persist(before, after_push, after_update, after_append, entry, upd, key, id, stream, bytes);
    let b = before.rings();
    let a = after_push.rings();
    let k = entry.agent_key@;
    assert forall|x: Seq<char>| agent_keys(a).contains(x) <==> agent_keys(b).insert(k).contains(x) by {
        match ring_index(b, k) {
            Some(i) => {
                assert(b[i].agent_key@ == k);
                if agent_keys(a).contains(x) {
                    let j = choose|j: int| 0 <= j < a.len() && a[j].agent_key@ == x;
                    assert(b[j].agent_key@ == x);
                }
                if agent_keys(b).contains(x) {
                    let j = choose|j: int| 0 <= j < b.len() && b[j].agent_key@ == x;
                    assert(a[j].agent_key@ == x);
                }
            },
            None => {
                let n = b.len() as int;
                assert(a[n].agent_key@ == k);
                if agent_keys(a).contains(x) {
                    let j = choose|j: int| 0 <= j < a.len() && a[j].agent_key@ == x;
                    if j < n {
                        assert(a[j] == a.drop_last()[j]);
                    }
                }
                if agent_keys(b).contains(x) {
                    let j = choose|j: int| 0 <= j < b.len() && b[j].agent_key@ == x;
                    assert(a[j] == a.drop_last()[j]);
                }
            },
        }
    }
    assert(agent_keys(a) =~= agent_keys(b).insert(k));
    let u = after_update.rings();
    assert forall|x: Seq<char>| agent_keys(u).contains(x) <==> agent_keys(b).contains(x) by {
        if agent_keys(u).contains(x) {
            let j = choose|j: int| 0 <= j < u.len() && u[j].agent_key@ == x;
            assert(u[j].agent_key == b[j].agent_key);
        }
        if agent_keys(b).contains(x) {
            let j = choose|j: int| 0 <= j < b.len() && b[j].agent_key@ == x;
            assert(u[j].agent_key == b[j].agent_key);
        }
    }
    assert(agent_keys(u) =~= agent_keys(b));
    let p = after_append.rings();
    assert forall|x: Seq<char>| agent_keys(p).contains(x) <==> agent_keys(b).contains(x) by {
        if agent_keys(p).contains(x) {
            let j = choose|j: int| 0 <= j < p.len() && p[j].agent_key@ == x;
            assert(p[j].agent_key == b[j].agent_key);
        }
        if agent_keys(b).contains(x) {
            let j = choose|j: int| 0 <= j < b.len() && b[j].agent_key@ == x;
            assert(p[j].agent_key == b[j].agent_key);
        }
    }
    assert(agent_keys(p) =~= agent_keys(b));
}

/// Law: after an entry is pushed, its agent's ring exists and its newest
/// entry is that entry.
pub proof fn law_push_then_get(before: AllAgentBuffers, after: AllAgentBuffers, entry: DisplayEntry)
    requires
        before.wf(),
        spec_pushed(before.rings(), after.rings(), entry),
    ensures
        ring_index(after.rings(), entry.agent_key@) matches Some(i) && after.rings()[i].entries@.last().entry
            == entry,
{
    let b = before.rings();
    let a = after.rings();
    let key = entry.agent_key@;
    match ring_index(b, key) {
        Some(i) => {
            assert(b[i].agent_key@ == key);
            assert forall|j: int| 0 <= j < a.len() && a[j].agent_key@ == key implies j == i by {
                if j != i {
                    assert(a[j] == b[j]);
                }
            }
            assert(a[i].agent_key@ == key);
        },
        None => {
            let n = b.len() as int;
            assert forall|j: int| 0 <= j < a.len() && a[j].agent_key@ == key implies j == n by {
                if j < n {
                    assert(a[j] == a.drop_last()[j]);
                }
            }
            assert(a[n].agent_key@ == key);
        },
    }
}

/// Law: pushing an entry leaves every other agent's ring, and where it
/// stands, unchanged.
pub proof fn law_push_isolates_agents(
    before: AllAgentBuffers,
    after: AllAgentBuffers,
    entry: DisplayEntry,
    key: Seq<char>,
)
    requires
        before.wf(),
        spec_pushed(before.rings(), after.rings(), entry),
        key != entry.agent_key@,
    ensures
        ring_index(after.rings(), key) == ring_index(before.rings(), key),
        ring_index(before.rings(), key) matches Some(j) ==> after.rings()[j] == before.rings()[j],
{
    let b = before.rings();
    let a = after.rings();
    let n = b.len() as int;
    assert forall|j: int| 0 <= j < n implies a[j].agent_key@ == b[j].agent_key@ by {
        match ring_index(b, entry.agent_key@) {
            Some(i) => {
                if j != i {
                    assert(a[j] == b[j]);
                }
            },
            None => {
                assert(a[j] == a.drop_last()[j]);
            },
        }
    }
    assert forall|j: int| 0 <= j < a.len() && a[j].agent_key@ == key implies j < n && b[j].agent_key@ == key by {
        if j >= n {
            assert(ring_index(b, entry.agent_key@) is None);
        }
    }
    match ring_index(b, key) {
        Some(j) => {
            assert(b[j].agent_key@ == key);
            lemma_ring_index(b, key, j);
            assert forall|x: int| 0 <= x < a.len() && a[x].agent_key@ == key implies x == j by {
                assert(b[x].agent_key@ == key);
            }
            assert(a[j].agent_key@ == key);
            match ring_index(b, entry.agent_key@) {
                Some(i) => {
                    assert(b[i].agent_key@ == entry.agent_key@);
                    assert(i != j);
                    assert(a[j] == b[j]);
                },
                None => {
                    assert(a[j] == a.drop_last()[j]);
                },
            }
        },
        None => {
            assert forall|x: int| 0 <= x < a.len() implies a[x].agent_key@ != key by {
                if a[x].agent_key@ == key {
                    assert(b[x].agent_key@ == key);
                }
            }
        },
    }
}

/// Law: no ring ever holds more than `DEFAULT_CAPACITY` entries, and every
/// entry sits in the ring of its own agent key.
pub proof fn law_rings_bounded_and_routed(b: AllAgentBuffers)
    requires
        b.wf(),
    ensures
        forall|i: int| 0 <= i < b.rings().len() ==> (#[trigger] b.rings()[i]).entries@.len() <= DEFAULT_CAPACITY,
        forall|i: int, k: int|
            0 <= i < b.rings().len() && 0 <= k < b.rings()[i].entries@.len() ==> (#[trigger] b.rings()[i].entries@[k]).entry.agent_key@
                == b.rings()[i].agent_key@,
{
    assert forall|i: int| 0 <= i < b.rings().len() implies (#[trigger] b.rings()[i]).entries@.len() <= DEFAULT_CAPACITY by {
        assert(ring_wf(b.rings()[i]));
    }
    assert forall|i: int, k: int|
        0 <= i < b.rings().len() && 0 <= k < b.rings()[i].entries@.len() implies (#[trigger] b.rings()[i].entries@[k]).entry.agent_key@
            == b.rings()[i].agent_key@ by {
        assert(ring_wf(b.rings()[i]));
    }
}

/// Law: agents are never forgotten; each operation keeps every ring where it
/// was, with its key and with as many entries as before (a push adds one
/// unless the ring was full).
pub proof fn law_agents_persist(
    before: AllAgentBuffers,
    after_push: AllAgentBuffers,
    after_update: AllAgentBuffers,
    after_append: AllAgentBuffers,
    entry: DisplayEntry,
    upd: DisplayEntryUpdate,
    key: Seq<char>,
    id: Seq<char>,
    stream: Seq<char>,
    bytes: Seq<u8>,
)
    requires
        before.wf(),
        spec_pushed(before.rings(), after_push.rings(), entry),
        spec_updated(before.rings(), after_update.rings(), upd),
        spec_appended(before.rings(), after_append.rings(), key, id, stream, bytes),
    ensures
        forall|i: int| 0 <= i < before.rings().len() ==> {
            &&& (#[trigger] after_push.rings()[i]).agent_key == before.rings()[i].agent_key
            &&& after_push.rings()[i].entries@.len() >= before.rings()[i].entries@.len()
        },
        after_update.rings().len() == before.rings().len(),
        forall|i: int| 0 <= i < before.rings().len() ==> {
            &&& (#[trigger] after_update.rings()[i]).agent_key == before.rings()[i].agent_key
            &&& after_update.rings()[i].entries@.len() == before.rings()[i].entries@.len()
        },
        after_append.rings().len() == before.rings().len(),
        forall|i: int| 0 <= i < before.rings().len() ==> {
            &&& (#[trigger] after_append.rings()[i]).agent_key == before.rings()[i].agent_key
            &&& after_append.rings()[i].entries@.len() == before.rings()[i].entries@.len()
        },
{
    let b = before.rings();
    assert forall|i: int| 0 <= i < b.len() implies {
        &&& (#[trigger] after_push.rings()[i]).agent_key == b[i].agent_key
        &&& after_push.rings()[i].entries@.len() >= b[i].entries@.len()
    } by {
        assert(ring_wf(b[i]));
        match ring_index(b, entry.agent_key@) {
            Some(j) => {
                if i != j {
                    assert(after_push.rings()[i] == b[i]);
                } else {
                    let e = after_push.rings()[i].entries@;
                    assert(e.len() == e.drop_last().len() + 1);
                }
            },
            None => {
                assert(after_push.rings()[i] == after_push.rings().drop_last()[i]);
            },
        }
    }
    assert forall|i: int| 0 <= i < b.len() implies {
        &&& (#[trigger] after_update.rings()[i]).agent_key == b[i].agent_key
        &&& after_update.rings()[i].entries@.len() == b[i].entries@.len()
    } by {
        match ring_with_from(b, upd.tool_use_id@, 0) {
            Some(j) => {
                if i != j {
                    assert(after_update.rings()[i] == b[i]);
                }
            },
            None => {},
        }
    }
    assert forall|i: int| 0 <= i < b.len() implies {
        &&& (#[trigger] after_append.rings()[i]).agent_key == b[i].agent_key
        &&& after_append.rings()[i].entries@.len() == b[i].entries@.len()
    } by {
        match ring_index(b, key) {
            Some(j) => match last_match(b[j].entries@, id) {
                Some(k) => {
                    if i != j {
                        assert(after_append.rings()[i] == b[i]);
                    }
                },
                None => {},
            },
            None => {},
        }
    }
}

/// Law: live bytes never alter an entry: after `append_live`, every record's
/// entry is the one it held before.
pub proof fn law_append_keeps_entries(
    before: AllAgentBuffers,
    after: AllAgentBuffers,
    key: Seq<char>,
    id: Seq<char>,
    stream: Seq<char>,
    bytes: Seq<u8>,
)
    requires
        before.wf(),
        spec_appended(before.rings(), after.rings(), key, id, stream, bytes),
    ensures
        after.rings().len() == before.rings().len(),
        forall|i: int, m: int|
            0 <= i < before.rings().len() && 0 <= m < before.rings()[i].entries@.len() ==> (#[trigger] after.rings()[i].entries@[m]).entry
                == before.rings()[i].entries@[m].entry,
{
    let b = before.rings();
    let a = after.rings();
    assert forall|i: int, m: int| 0 <= i < b.len() && 0 <= m < b[i].entries@.len() implies (#[trigger] a[i].entries@[m]).entry
        == b[i].entries@[m].entry by {
        match ring_index(b, key) {
            Some(j) => match last_match(b[j].entries@, id) {
                Some(k) => {
                    if i != j {
                        assert(a[i] == b[i]);
                    } else if m != k {
                        assert(a[i].entries@[m] == b[i].entries@[m]);
                    }
                },
                None => {},
            },
            None => {},
        }
    }
}

proof fn lemma_last_match_last(es: Seq<EntryRecord>, id: Seq<char>)
    requires
        es.len() > 0,
        es.last().entry.tool_use_id@ == id,
    ensures
        last_match(es, id) == Some(es.len() - 1),
{
}

/// Law: live bytes streamed for a just-pushed entry land on it: after
/// `push_entry(e)` and then `append_live` with `e`'s agent key and
/// tool_use_id, the newest record of `e`'s ring is `e` with the chunk
/// appended.
pub proof fn law_live_bytes_reach_pushed_entry(
    before: AllAgentBuffers,
    mid: AllAgentBuffers,
    after: AllAgentBuffers,
    e: DisplayEntry,
    stream: Seq<char>,
    bytes: Seq<u8>,
)
    requires
        before.wf(),
        mid.wf(),
        spec_pushed(before.rings(), mid.rings(), e),
        spec_appended(mid.rings(), after.rings(), e.agent_key@, e.tool_use_id@, stream, bytes),
    ensures
        ring_index(after.rings(), e.agent_key@) matches Some(i) && {
            let es = after.rings()[i].entries@;
            &&& es.len() > 0
            &&& es.last().entry == e
            &&& es.last().live@.len() == 1
            &&& es.last().live@[0].stream@ == stream
            &&& es.last().live@[0].bytes@ == bytes
        },
{
    law_push_then_get(before, mid, e);
    let m = mid.rings();
    let i = ring_index(m, e.agent_key@)->0;
    let es = m[i].entries@;
    assert(es.len() >= 1) by {
        match ring_index(before.rings(), e.agent_key@) {
            Some(j) => {
                assert(m[i].agent_key@ == e.agent_key@);
                assert(before.rings()[j].agent_key@ == e.agent_key@);
            },
            None => {},
        }
    }
    lemma_pushed_last_record(before, mid, e);
    lemma_last_match_last(es, e.tool_use_id@);
    let a = after.rings();
    assert(a[i].agent_key == m[i].agent_key);
    assert(ring_index(a, e.agent_key@) == Some(i)) by {
        assert(a[i].agent_key@ == e.agent_key@);
        assert forall|x: int| 0 <= x < a.len() && a[x].agent_key@ == e.agent_key@ implies x == i by {
            if x != i {
                assert(a[x] == m[x]);
                assert(keys_unique(m));
                assert(m[i].agent_key@ == e.agent_key@);
            }
        }
    }
    let k = es.len() - 1;
    assert(a[i].entries@.len() == es.len());
    assert(a[i].entries@.last() == a[i].entries@[k]);
}

/// The newest record of the pushed-to ring is the pushed entry, with no
/// live bytes yet.
proof fn lemma_pushed_last_record(before: AllAgentBuffers, after: AllAgentBuffers, e: DisplayEntry)
    requires
        before.wf(),
        spec_pushed(before.rings(), after.rings(), e),
    ensures
        ring_index(after.rings(), e.agent_key@) matches Some(i) && after.rings()[i].entries@.len() >= 1
            && after.rings()[i].entries@.last().entry == e && after.rings()[i].entries@.last().live@.len() == 0,
{
    law_push_then_get(before, after, e);
    let a = after.rings();
    let i = ring_index(a, e.agent_key@)->0;
    match ring_index(before.rings(), e.agent_key@) {
        Some(j) => {
            assert(a[j].agent_key@ == e.agent_key@);
            assert(i == j);
        },
        None => {
            let n = before.rings().len() as int;
            assert(a[n].agent_key@ == e.agent_key@);
            assert(0 <= i < a.len() && a[i].agent_key@ == e.agent_key@);
            if i < n {
                assert(a[i] == a.drop_last()[i]);
                assert(before.rings()[i].agent_key@ == e.agent_key@);
            }
            assert(i == n);
            assert(a[n].entries@.last() == a[n].entries@[0]);
        },
    }
}

/// Law: an update completes the entry it names: after `push_entry(e)` and
/// an update with `e`'s tool_use_id, the newest record of `e`'s ring has the
/// update's status, provided no other agent's ring holds an entry with that
/// tool_use_id (tool_use_ids are unique per call).
pub proof fn law_update_reaches_pushed_entry(
    before: AllAgentBuffers,
    mid: AllAgentBuffers,
    after: AllAgentBuffers,
    e: DisplayEntry,
    upd: DisplayEntryUpdate,
)
    requires
        before.wf(),
        mid.wf(),
        spec_pushed(before.rings(), mid.rings(), e),
        spec_updated(mid.rings(), after.rings(), upd),
        upd.tool_use_id@ == e.tool_use_id@,
        forall|j: int|
            0 <= j < before.rings().len() && before.rings()[j].agent_key@ != e.agent_key@ ==> last_match(
                #[trigger] before.rings()[j].entries@,
                e.tool_use_id@,
            ) is None,
    ensures
        ring_index(after.rings(), e.agent_key@) matches Some(i) && {
            let es = after.rings()[i].entries@;
            &&& es.len() > 0
            &&& es.last().entry.status == upd.status
            &&& es.last().entry.tool_use_id == e.tool_use_id
            &&& es.last().entry.headline == e.headline
        },
{
    lemma_pushed_last_record(before, mid, e);
    let m = mid.rings();
    let b = before.rings();
    let id = e.tool_use_id@;
    let i = ring_index(m, e.agent_key@)->0;
    let es = m[i].entries@;
    lemma_last_match_last(es, id);
    // Every ring before `i` holds no entry with the id.
    assert forall|j: int| 0 <= j < i implies last_match(#[trigger] m[j].entries@, id) is None by {
        assert(m[j].agent_key@ != e.agent_key@) by {
            if m[j].agent_key@ == e.agent_key@ {
                assert(ring_index(m, e.agent_key@) == Some(i));
                match ring_index(b, e.agent_key@) {
                    Some(x) => {
                        if j != x {
                            assert(m[j] == b[j]);
                            assert(b[x].agent_key@ == e.agent_key@);
                        }
                    },
                    None => {
                        assert(m[j] == m.drop_last()[j]);
                    },
                }
            }
        }
        match ring_index(b, e.agent_key@) {
            Some(x) => {
                assert(m[x].agent_key == b[x].agent_key);
                if j != x {
                    assert(m[j] == b[j]);
                }
            },
            None => {
                assert(m[j] == m.drop_last()[j]);
            },
        }
    }
    lemma_ring_with_from_skip(m, id, i);
    assert(ring_with_from(m, id, 0) == Some(i));
    let a = after.rings();
    let k = es.len() - 1;
    assert(a[i].agent_key == m[i].agent_key);
    assert(ring_index(a, e.agent_key@) == Some(i)) by {
        assert(a[i].agent_key@ == e.agent_key@);
        assert forall|x: int| 0 <= x < a.len() && a[x].agent_key@ == e.agent_key@ implies x == i by {
            if x != i {
                assert(a[x] == m[x]);
                assert(keys_unique(m));
                assert(m[i].agent_key@ == e.agent_key@);
            }
        }
    }
    assert(a[i].entries@.last() == a[i].entries@[k]);
}

impl AllAgentBuffers {
    /// Apply one control message from the hook: an entry is pushed to its
    /// agent's ring, and its agent key returned so the caller can make sure
    /// the agent's socket listens; an update completes its entry; a stop
    /// marks its agent stopped.
    pub fn apply_control_message(&mut self, msg: ControlMessage) -> (res: Option<String>)
        requires
            old(self).wf(),
        ensures
            final(self).wf(),
            match msg {
                ControlMessage::Entry { entry, .. } => {
                    &&& spec_pushed(old(self).rings(), final(self).rings(), entry)
                    &&& final(self).stopped_keys() == old(self).stopped_keys()
                    &&& res matches Some(k) && k@ == entry.agent_key@
                },
                ControlMessage::Update { update, .. } => {
                    &&& spec_updated(old(self).rings(), final(self).rings(), update)
                    &&& final(self).stopped_keys() == old(self).stopped_keys()
                    &&& res is None
                },
                ControlMessage::AgentStopped { agent_key, .. } => {
                    &&& final(self).rings() == old(self).rings()
                    &&& final(self).stopped_keys() == if spec_alive(old(self).stopped_keys(), agent_key@)
                        && agent_key@ != "main"@ {
                        old(self).stopped_keys().push(agent_key@)
                    } else {
                        old(self).stopped_keys()
                    }
                    &&& res is None
                },
            },
    {
        match msg {
            ControlMessage::Entry { entry, .. } => {
                let key = entry.agent_key.clone();
                self.push_entry(entry);
                Some(key)
            },
            ControlMessage::Update { update, .. } => {
                self.apply_update(update);
                None
            },
            ControlMessage::AgentStopped { agent_key, .. } => {
                self.mark_stopped(agent_key.as_str());
                None
            },
        }
    }
}


/// How the picker shows an agent: alive (green) unless its `SubagentStop`
/// has fired; `main` is the session itself and always alive.
pub open spec fn spec_alive(stopped: Seq<Seq<char>>, key: Seq<char>) -> bool {
    key == "main"@ || !stopped.contains(key)
}

impl AllAgentBuffers {
    /// Is the agent alive (a green dot in the picker)? `main` always is;
    /// another agent is until its `SubagentStop` fires.
    pub fn is_alive(&self, agent_key: &str) -> (res: bool)
        ensures
            res == spec_alive(self.stopped_keys(), agent_key@),
    {
        if crate::text::str_eq(agent_key, "main") {
            return true;
        }
        let mut i: usize = 0;
        while i < self.stopped.len()
            invariant
                i <= self.stopped@.len(),
                agent_key@ != "main"@,
                forall|j: int| 0 <= j < i ==> (#[trigger] self.stopped@[j])@ != agent_key@,
            decreases self.stopped.len() - i,
        {
            if crate::text::str_eq(self.stopped[i].as_str(), agent_key) {
                assert(self.stopped_keys()[i as int] == agent_key@);
                assert(self.stopped_keys().contains(agent_key@));
                return false;
            }
            i += 1;
        }
        assert forall|j: int| 0 <= j < self.stopped_keys().len() implies self.stopped_keys()[j] != agent_key@ by {
            assert(self.stopped_keys()[j] == self.stopped@[j]@);
        }
        true
    }

    /// Record that an agent's `SubagentStop` fired: it is listed as stopped
    /// (once); `main` never is. The rings are untouched.
    pub fn mark_stopped(&mut self, agent_key: &str)
        requires
            old(self).wf(),
        ensures
            final(self).wf(),
            final(self).rings() == old(self).rings(),
            final(self).stopped_keys() == if spec_alive(old(self).stopped_keys(), agent_key@) && agent_key@
                != "main"@ {
                old(self).stopped_keys().push(agent_key@)
            } else {
                old(self).stopped_keys()
            },
    {
        if self.is_alive(agent_key) && !crate::text::str_eq(agent_key, "main") {
            let ghost before = self.stopped_keys();
            self.stopped.push(String::from_str(agent_key));
            assert(self.stopped_keys() =~= before.push(agent_key@));
        }
    }

    /// Remove an agent's ring from the picker; `main` is never removed.
    /// Returns the position the ring had, or `None` when nothing was removed
    /// (`main`, or an agent without a ring).
    pub fn remove_agent(&mut self, agent_key: &str) -> (res: Option<usize>)
        requires
            old(self).wf(),
        ensures
            final(self).wf(),
            final(self).stopped_keys() == old(self).stopped_keys(),
            match res {
                Some(i) => {
                    &&& agent_key@ != "main"@
                    &&& ring_index(old(self).rings(), agent_key@) == Some(i as int)
                    &&& final(self).rings() == old(self).rings().remove(i as int)
                },
                None => {
                    &&& (agent_key@ == "main"@ || ring_index(old(self).rings(), agent_key@) is None)
                    &&& final(self).rings() == old(self).rings()
                },
            },
    {
        if crate::text::str_eq(agent_key, "main") {
            return None;
        }
        match self.find(agent_key) {
            Some(i) => {
                let ghost before = self.inner@;
                self.inner.remove(i);
                proof {
                    let after = self.inner@;
                    assert(after == before.remove(i as int));
                    assert forall|a: int| 0 <= a < after.len() implies ring_wf(#[trigger] after[a]) by {
                        if a < i {
                            assert(after[a] == before[a]);
                        } else {
                            assert(after[a] == before[a + 1]);
                        }
                    }
                    assert forall|a: int, c: int|
                        0 <= a < after.len() && 0 <= c < after.len() && a != c implies after[a].agent_key@
                        != after[c].agent_key@ by {
                        let a0 = if a < i {
                            a
                        } else {
                            a + 1
                        };
                        let c0 = if c < i {
                            c
                        } else {
                            c + 1
                        };
                        assert(after[a] == before[a0]);
                        assert(after[c] == before[c0]);
                    }
                }
                Some(i)
            },
            None => None,
        }
    }
}

} // verus!
