//! Which `oby-hook` entries `oby install` adds to `settings.json`.
use vstd::prelude::*;
use crate::composer::HookEntry;
use crate::text::str_eq;

verus! {

/// The hook command is `cmd`.
pub open spec fn command_is(c: Option<String>, cmd: Seq<char>) -> bool {
    match c {
        Some(c) => c@ == cmd,
        None => false,
    }
}

/// The entry has a hook running `cmd`.
pub open spec fn entry_runs_cmd(e: HookEntry, cmd: Seq<char>) -> bool {
    match e.commands {
        Some(cs) => exists|j: int| 0 <= j < cs@.len() && command_is(#[trigger] cs@[j], cmd),
        None => false,
    }
}

/// An entry for `tool` already runs `cmd`.
pub open spec fn has_hook(es: Seq<HookEntry>, tool: Seq<char>, cmd: Seq<char>) -> bool {
    exists|i: int| 0 <= i < es.len() && (#[trigger] es[i]).matcher@ == tool && entry_runs_cmd(es[i], cmd)
}

/// The tools of `tools` (in order) that still need an entry running `cmd`.
pub open spec fn spec_tools_to_install(es: Seq<HookEntry>, tools: Seq<Seq<char>>, cmd: Seq<char>) -> Seq<Seq<char>> {
    tools.filter(|t: Seq<char>| !has_hook(es, t, cmd))
}

/// Does some entry for `tool` already run `cmd`?
fn entry_runs(es: &Vec<HookEntry>, tool: &str, cmd: &str) -> (res: bool)
    ensures
        res == has_hook(es@, tool@, cmd@),
{
    let mut i: usize = 0;
    while i < es.len()
        invariant
            i <= es@.len(),
            forall|a: int| 0 <= a < i && (#[trigger] es@[a]).matcher@ == tool@ ==> !entry_runs_cmd(es@[a], cmd@),
        decreases es.len() - i,
    {
        if str_eq(es[i].matcher.as_str(), tool) {
            match &es[i].commands {
                Some(cs) => {
                    let mut j: usize = 0;
                    while j < cs.len()
                        invariant
                            i < es@.len(),
                            j <= cs@.len(),
                            es@[i as int].matcher@ == tool@,
                            es@[i as int].commands == Some(*cs),
                            forall|m: int| 0 <= m < j ==> !command_is(#[trigger] cs@[m], cmd@),
                        decreases cs.len() - j,
                    {
                        match &cs[j] {
                            Some(c) => {
                                if str_eq(c.as_str(), cmd) {
                                    assert(command_is(cs@[j as int], cmd@));
                                    let ghost cs2 = es@[i as int].commands->0;
                                    assert(cs2@[j as int] == cs@[j as int]);
                                    assert(0 <= j < cs2@.len() && command_is(cs2@[j as int], cmd@));
                                    assert(entry_runs_cmd(es@[i as int], cmd@));
                                    return true;
                                }
                            },
                            None => {},
                        }
                        j += 1;
                    }
                },
                None => {},
            }
        }
        i += 1;
    }
    false
}

/// The observed tools, in order, that have no entry running `cmd` in one
/// hook event's array: `oby install` appends an entry for each, so running
/// it twice adds nothing the second time.
pub fn tools_to_install(entries: &Vec<HookEntry>, cmd: &str) -> (res: Vec<&'static str>)
    ensures
        ({
            let views = Seq::new(res@.len(), |k: int| res@[k]@);
            views == spec_tools_to_install(entries@, seq!["Bash"@, "Read"@], cmd@)
        }),
{
    let mut out: Vec<&'static str> = Vec::new();
    let bash_done = entry_runs(entries, "Bash", cmd);
    let read_done = entry_runs(entries, "Read", cmd);
    if !bash_done {
        out.push("Bash");
    }
    if !read_done {
        out.push("Read");
    }
    proof {
        let tools = seq!["Bash"@, "Read"@];
        let p = |t: Seq<char>| !has_hook(entries@, t, cmd@);
        reveal_with_fuel(Seq::filter, 3);
        assert(tools.drop_last() =~= seq!["Bash"@]);
        assert(seq!["Bash"@].drop_last() =~= Seq::<Seq<char>>::empty());
        let views = Seq::new(out@.len(), |k: int| out@[k]@);
        assert(views =~= tools.filter(p));
    }
    out
}

/// Law: installing is idempotent. Once each tool the installer reported has
/// an entry running `cmd` (the entries it appends), and the earlier entries
/// are kept, a second run reports nothing to add.
pub proof fn law_install_idempotent(es: Seq<HookEntry>, after: Seq<HookEntry>, cmd: Seq<char>)
    requires
        es.len() <= after.len(),
        forall|i: int| 0 <= i < es.len() ==> #[trigger] after[i] == es[i],
        forall|t: Seq<char>|
            spec_tools_to_install(es, seq!["Bash"@, "Read"@], cmd).contains(t) ==> #[trigger] has_hook(after, t, cmd),
    ensures
        spec_tools_to_install(after, seq!["Bash"@, "Read"@], cmd) == Seq::<Seq<char>>::empty(),
{
    let tools = seq!["Bash"@, "Read"@];
    reveal_with_fuel(Seq::filter, 3);
    assert(tools.drop_last() =~= seq!["Bash"@]);
    assert(seq!["Bash"@].drop_last() =~= Seq::<Seq<char>>::empty());
    assert forall|t: Seq<char>| tools.contains(t) implies has_hook(after, t, cmd) by {
        if has_hook(es, t, cmd) {
            let i = choose|i: int| 0 <= i < es.len() && (#[trigger] es[i]).matcher@ == t && entry_runs_cmd(es[i], cmd);
            assert(after[i] == es[i]);
        } else {
            let p = |u: Seq<char>| !has_hook(es, u, cmd);
            if t == "Bash"@ {
                assert(tools[0] == t);
            } else {
                assert(tools[1] == t);
            }
            assert(spec_tools_to_install(es, tools, cmd).contains(t));
        }
    }
    assert(tools[0] == "Bash"@ && tools[1] == "Read"@);
    assert(tools.contains(tools[0]));
    assert(tools.contains(tools[1]));
    assert(has_hook(after, "Bash"@, cmd));
    assert(has_hook(after, "Read"@, cmd));
    assert(spec_tools_to_install(after, tools, cmd) =~= Seq::<Seq<char>>::empty());
}


/// The tool hook events `oby install` registers `oby-hook` for, in order.
pub open spec fn spec_install_events() -> Seq<Seq<char>> {
    seq!["PreToolUse"@, "PostToolUse"@, "PostToolUseFailure"@]
}

/// The tool hook events `oby install` registers `oby-hook` for (each for
/// the observed tools): PreToolUse, PostToolUse and PostToolUseFailure.
pub fn install_events() -> (res: Vec<&'static str>)
    ensures
        Seq::new(res@.len(), |k: int| res@[k]@) == spec_install_events(),
{
    let res: Vec<&'static str> = vec!["PreToolUse", "PostToolUse", "PostToolUseFailure"];
    assert(Seq::new(res@.len(), |k: int| res@[k]@) =~= spec_install_events());
    res
}

/// Does the `SubagentStop` array still need an entry running `cmd`? Its
/// entries carry no matcher (read as the empty matcher); one is needed
/// exactly when no such entry runs `cmd`.
pub fn needs_subagent_stop_entry(entries: &Vec<HookEntry>, cmd: &str) -> (res: bool)
    ensures
        res == !has_hook(entries@, ""@, cmd@),
{
    !entry_runs(entries, "", cmd)
}

/// Law: registering for `SubagentStop` is idempotent too. Once the entry
/// the installer was asked for is there, and the earlier entries are kept,
/// a second run asks for none.
pub proof fn law_subagent_stop_idempotent(es: Seq<HookEntry>, after: Seq<HookEntry>, cmd: Seq<char>)
    requires
        es.len() <= after.len(),
        forall|i: int| 0 <= i < es.len() ==> #[trigger] after[i] == es[i],
        !has_hook(es, ""@, cmd) ==> has_hook(after, ""@, cmd),
    ensures
        has_hook(after, ""@, cmd),
{
    if has_hook(es, ""@, cmd) {
        let i = choose|i: int| 0 <= i < es.len() && (#[trigger] es[i]).matcher@ == ""@ && entry_runs_cmd(es[i], cmd);
        assert(after[i] == es[i]);
    }
}

} // verus!
