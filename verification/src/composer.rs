//! Composition with peer PreToolUse hooks: which commands configured in
//! `settings.json` are peers of `oby-hook` for a tool.
//!
//! The agent CLI runs a tool's PreToolUse hooks in parallel and the last to
//! finish wins; so `oby-hook` runs its peers itself, in order, feeding each
//! the running tool input, and wraps what they produce.
use vstd::prelude::*;
use crate::text::{first_token, first_token_is, str_eq, string_views};
use crate::pre_filter::{parse_trimmed_usize, spec_parse_usize, trim};

verus! {

/// One entry of a hook event's array in `settings.json`, as far as the
/// composer and the installer read it.
#[derive(Debug, Clone)]
pub struct HookEntry {
    /// The `matcher` string (empty when missing or not a string).
    pub matcher: String,
    /// The `command` of each object in `hooks` (`None` for one without a
    /// string command); `None` when `hooks` is missing or not an array.
    pub commands: Option<Vec<Option<String>>>,
}

/// A hook command invokes this very binary when its first word is our path.
pub open spec fn spec_is_self_command(cmd: Seq<char>, self_path: Seq<char>) -> bool {
    first_token(cmd) == Some(self_path)
}

/// Does the hook command run `self_path` (its first whitespace-separated
/// word)?
pub fn is_self_command(cmd: &str, self_path: &str) -> (res: bool)
    ensures
        res == spec_is_self_command(cmd@, self_path@),
{
    first_token_is(cmd, self_path)
}

/// The peer commands of one entry, in order: its string commands that do not
/// run this binary, when its matcher is the tool.
pub open spec fn entry_peers(e: HookEntry, tool_name: Seq<char>, self_path: Seq<char>) -> Seq<Seq<char>> {
    if e.matcher@ != tool_name {
        Seq::empty()
    } else {
        match e.commands {
            Some(cs) => command_peers(cs@, cs@.len() as int, self_path),
            None => Seq::empty(),
        }
    }
}

/// The peer commands among the first `n` commands, in order.
pub open spec fn command_peers(cs: Seq<Option<String>>, n: int, self_path: Seq<char>) -> Seq<Seq<char>>
    decreases n,
{
    if n <= 0 {
        Seq::empty()
    } else {
        command_peers(cs, n - 1, self_path) + match cs[n - 1] {
            Some(c) => if spec_is_self_command(c@, self_path) {
                Seq::empty()
            } else {
                seq![c@]
            },
            None => Seq::empty(),
        }
    }
}

/// The peer commands of the first `n` entries, in order.
pub open spec fn spec_peer_commands(es: Seq<HookEntry>, n: int, tool_name: Seq<char>, self_path: Seq<char>) -> Seq<
    Seq<char>,
>
    decreases n,
{
    if n <= 0 {
        Seq::empty()
    } else {
        spec_peer_commands(es, n - 1, tool_name, self_path) + entry_peers(es[n - 1], tool_name, self_path)
    }
}

/// The peer PreToolUse commands for `tool_name`, in the order the settings
/// list them: every string command of an entry whose matcher is the tool,
/// except those that run this binary (`self_path`).
pub fn peer_commands(entries: &Vec<HookEntry>, tool_name: &str, self_path: &str) -> (res: Vec<String>)
    ensures
        string_views(res@) == spec_peer_commands(entries@, entries@.len() as int, tool_name@, self_path@),
{
    let mut out: Vec<String> = Vec::new();
    let mut i: usize = 0;
    while i < entries.len()
        invariant
            i <= entries@.len(),
            string_views(out@) == spec_peer_commands(entries@, i as int, tool_name@, self_path@),
        decreases entries.len() - i,
    {
        let ghost before = string_views(out@);
        let e = &entries[i];
        if str_eq(e.matcher.as_str(), tool_name) {
            match &e.commands {
                Some(cs) => {
                    let mut j: usize = 0;
                    while j < cs.len()
                        invariant
                            j <= cs@.len(),
                            string_views(out@) == before + command_peers(cs@, j as int, self_path@),
                        decreases cs.len() - j,
                    {
                        let ghost mid = string_views(out@);
                        match &cs[j] {
                            Some(c) => {
                                if !is_self_command(c.as_str(), self_path) {
                                    out.push(c.clone());
                                    assert(string_views(out@) =~= mid + seq![c@]);
                                } else {
                                    assert(string_views(out@) =~= mid + Seq::<Seq<char>>::empty());
                                }
                            },
                            None => {
                                assert(string_views(out@) =~= mid + Seq::<Seq<char>>::empty());
                            },
                        }
                        j += 1;
                    }
                },
                None => {},
            }
        }
        i += 1;
        assert(string_views(out@) =~= spec_peer_commands(entries@, i as int, tool_name@, self_path@));
    }
    out
}

/// Law: a command whose first word is our own path is never a peer, so
/// `oby-hook` never invokes itself.
pub proof fn law_self_never_peer(es: Seq<HookEntry>, n: int, tool_name: Seq<char>, self_path: Seq<char>)
    ensures
        forall|k: int|
            0 <= k < spec_peer_commands(es, n, tool_name, self_path).len() ==> !spec_is_self_command(
                #[trigger] spec_peer_commands(es, n, tool_name, self_path)[k],
                self_path,
            ),
    decreases n,
{
    if n > 0 {
        law_self_never_peer(es, n - 1, tool_name, self_path);
        let e = es[n - 1];
        if e.matcher@ == tool_name {
            match e.commands {
                Some(cs) => lemma_command_peers_not_self(cs@, cs@.len() as int, self_path),
                None => {},
            }
        }
        let prev = spec_peer_commands(es, n - 1, tool_name, self_path);
        let piece = entry_peers(e, tool_name, self_path);
        let whole = spec_peer_commands(es, n, tool_name, self_path);
        assert forall|k: int| 0 <= k < whole.len() implies !spec_is_self_command(#[trigger] whole[k], self_path) by {
            if k < prev.len() {
                assert(whole[k] == prev[k]);
            } else {
                assert(whole[k] == piece[k - prev.len()]);
            }
        }
    }
}

proof fn lemma_command_peers_not_self(cs: Seq<Option<String>>, n: int, self_path: Seq<char>)
    ensures
        forall|k: int|
            0 <= k < command_peers(cs, n, self_path).len() ==> !spec_is_self_command(
                #[trigger] command_peers(cs, n, self_path)[k],
                self_path,
            ),
    decreases n,
{
    if n > 0 {
        lemma_command_peers_not_self(cs, n - 1, self_path);
        let prev = command_peers(cs, n - 1, self_path);
        let whole = command_peers(cs, n, self_path);
        assert forall|k: int| 0 <= k < whole.len() implies !spec_is_self_command(#[trigger] whole[k], self_path) by {
            if k < prev.len() {
                assert(whole[k] == prev[k]);
            }
        }
    }
}


/// A command of an entry that is a peer: a string that does not run this
/// binary.
pub open spec fn command_is_peer(c: Option<String>, self_path: Seq<char>) -> bool {
    c matches Some(x) && !spec_is_self_command(x@, self_path)
}

/// The entry is for the tool and has at least one peer command.
pub open spec fn entry_has_peer(e: HookEntry, tool_name: Seq<char>, self_path: Seq<char>) -> bool {
    &&& e.matcher@ == tool_name
    &&& e.commands matches Some(cs) && exists|j: int|
        0 <= j < cs@.len() && #[trigger] command_is_peer(cs@[j], self_path)
}

proof fn lemma_command_peers_nonempty(cs: Seq<Option<String>>, n: int, self_path: Seq<char>)
    requires
        0 <= n <= cs.len(),
    ensures
        command_peers(cs, n, self_path).len() > 0 <==> exists|j: int|
            0 <= j < n && #[trigger] command_is_peer(cs[j], self_path),
    decreases n,
{
    if n > 0 {
        lemma_command_peers_nonempty(cs, n - 1, self_path);
        if command_is_peer(cs[n - 1], self_path) {
            assert(command_peers(cs, n, self_path).len() > 0);
        } else {
            assert(command_peers(cs, n, self_path).len() == command_peers(cs, n - 1, self_path).len());
            assert forall|j: int| 0 <= j < n && #[trigger] command_is_peer(cs[j], self_path) implies j < n - 1 by {
            }
        }
    }
}

proof fn lemma_peer_commands_nonempty(es: Seq<HookEntry>, n: int, tool_name: Seq<char>, self_path: Seq<char>)
    requires
        0 <= n <= es.len(),
    ensures
        spec_peer_commands(es, n, tool_name, self_path).len() > 0 <==> exists|i: int|
            0 <= i < n && #[trigger] entry_has_peer(es[i], tool_name, self_path),
    decreases n,
{
    if n > 0 {
        lemma_peer_commands_nonempty(es, n - 1, tool_name, self_path);
        let e = es[n - 1];
        let piece = entry_peers(e, tool_name, self_path);
        if e.matcher@ == tool_name {
            match e.commands {
                Some(cs) => lemma_command_peers_nonempty(cs@, cs@.len() as int, self_path),
                None => {},
            }
        }
        assert(piece.len() > 0 <==> entry_has_peer(e, tool_name, self_path));
        assert(spec_peer_commands(es, n, tool_name, self_path).len() == spec_peer_commands(
            es,
            n - 1,
            tool_name,
            self_path,
        ).len() + piece.len());
        if !entry_has_peer(e, tool_name, self_path) {
            assert forall|i: int| 0 <= i < n && #[trigger] entry_has_peer(es[i], tool_name, self_path) implies i
                < n - 1 by {
            }
        }
    }
}

/// Law: some peer is run exactly when some entry for the tool has a string
/// command that does not run this binary.
pub proof fn law_peers_present(es: Seq<HookEntry>, tool_name: Seq<char>, self_path: Seq<char>)
    ensures
        spec_peer_commands(es, es.len() as int, tool_name, self_path).len() > 0 <==> exists|i: int|
            0 <= i < es.len() && #[trigger] entry_has_peer(es[i], tool_name, self_path),
{
    lemma_peer_commands_nonempty(es, es.len() as int, tool_name, self_path);
}

/// How long `oby-hook` waits after composing with peers before emitting its
/// own rewrite, so that it finishes last, when nothing overrides it.
pub const DEFAULT_COMPOSE_DELAY_MS: usize = 200;

/// The compose delay from the value of `OBS_COMPOSE_DELAY_MS`: the trimmed
/// value parsed as milliseconds; `DEFAULT_COMPOSE_DELAY_MS` when it is
/// missing or does not parse.
pub open spec fn spec_compose_delay_ms(value: Option<Seq<char>>) -> nat {
    match value {
        Some(v) => match spec_parse_usize(trim(v)) {
            Some(n) => n,
            None => DEFAULT_COMPOSE_DELAY_MS as nat,
        },
        None => DEFAULT_COMPOSE_DELAY_MS as nat,
    }
}

/// The compose delay in milliseconds (see `spec_compose_delay_ms`).
pub fn compose_delay_ms(value: Option<&str>) -> (res: usize)
    ensures
        res == spec_compose_delay_ms(
            match value {
                Some(v) => Some(v@),
                None => None,
            },
        ),
{
    match value {
        Some(s) => match parse_trimmed_usize(s) {
            Some(n) => n,
            None => DEFAULT_COMPOSE_DELAY_MS,
        },
        None => DEFAULT_COMPOSE_DELAY_MS,
    }
}


/// Every command of `cs` is a string that does not run this binary.
pub open spec fn all_foreign(cs: Seq<Option<String>>, self_path: Seq<char>) -> bool {
    forall|j: int| 0 <= j < cs.len() ==> #[trigger] command_is_peer(cs[j], self_path)
}

proof fn lemma_command_peers_all(cs: Seq<Option<String>>, n: int, self_path: Seq<char>)
    requires
        0 <= n <= cs.len(),
        all_foreign(cs, self_path),
    ensures
        command_peers(cs, n, self_path) == Seq::new(n as nat, |j: int| cs[j]->0@),
    decreases n,
{
    if n > 0 {
        lemma_command_peers_all(cs, n - 1, self_path);
        assert(command_is_peer(cs[n - 1], self_path));
        assert(command_peers(cs, n, self_path) =~= Seq::new(n as nat, |j: int| cs[j]->0@));
    }
}

/// Law: peers run in the order `settings.json` lists them. When every
/// command of an entry for the tool is a string that does not run this
/// binary, the entry's peers are exactly its commands, in the same order.
pub proof fn law_peers_keep_command_order(e: HookEntry, tool_name: Seq<char>, self_path: Seq<char>)
    requires
        e.matcher@ == tool_name,
        e.commands matches Some(cs) && all_foreign(cs@, self_path),
    ensures
        spec_peer_commands(seq![e], 1, tool_name, self_path) == Seq::new(
            e.commands->0@.len(),
            |j: int| e.commands->0@[j]->0@,
        ),
{
    let cs = e.commands->0@;
    lemma_command_peers_all(cs, cs.len() as int, self_path);
    assert(seq![e][0] == e);
    assert(spec_peer_commands(seq![e], 0, tool_name, self_path) == Seq::<Seq<char>>::empty());
    assert(spec_peer_commands(seq![e], 1, tool_name, self_path) =~= entry_peers(e, tool_name, self_path));
}

/// The entry is for the tool and holds exactly one command, a string that
/// does not run this binary.
pub open spec fn single_peer_entry(e: HookEntry, tool_name: Seq<char>, self_path: Seq<char>) -> bool {
    &&& e.matcher@ == tool_name
    &&& e.commands matches Some(cs) && cs@.len() == 1 && command_is_peer(cs@[0], self_path)
}

proof fn lemma_peer_commands_singles(es: Seq<HookEntry>, n: int, tool_name: Seq<char>, self_path: Seq<char>)
    requires
        0 <= n <= es.len(),
        forall|i: int| 0 <= i < es.len() ==> #[trigger] single_peer_entry(es[i], tool_name, self_path),
    ensures
        spec_peer_commands(es, n, tool_name, self_path) == Seq::new(
            n as nat,
            |i: int| es[i].commands->0@[0]->0@,
        ),
    decreases n,
{
    if n > 0 {
        lemma_peer_commands_singles(es, n - 1, tool_name, self_path);
        let e = es[n - 1];
        assert(single_peer_entry(e, tool_name, self_path));
        let cs = e.commands->0@;
        lemma_command_peers_all(cs, 1, self_path);
        assert(command_peers(cs, 1, self_path) =~= seq![cs[0]->0@]);
        assert(spec_peer_commands(es, n, tool_name, self_path) =~= Seq::new(
            n as nat,
            |i: int| es[i].commands->0@[0]->0@,
        ));
    }
}

/// Law: across entries too, peers keep the settings' order: when each
/// entry is for the tool with a single command that does not run this
/// binary, the peers are those commands, entry by entry, in order.
pub proof fn law_peers_keep_entry_order(es: Seq<HookEntry>, tool_name: Seq<char>, self_path: Seq<char>)
    requires
        forall|i: int| 0 <= i < es.len() ==> #[trigger] single_peer_entry(es[i], tool_name, self_path),
    ensures
        spec_peer_commands(es, es.len() as int, tool_name, self_path) == Seq::new(
            es.len(),
            |i: int| es[i].commands->0@[0]->0@,
        ),
{
    lemma_peer_commands_singles(es, es.len() as int, tool_name, self_path);
}

} // verus!
