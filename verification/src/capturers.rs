//! The capturers: how a Bash or Read tool call is rendered into a feed
//! entry before it runs, and into an update after it returns.
use vstd::prelude::*;
use crate::entry::{DisplayEntry, DisplayEntryUpdate, EntryBody, EntryStatus};
use crate::hook::{HookContext, spec_agent_key};
use crate::text::{chars_of, push_char, push_decimal, decimal, utf8, opt_chars, line_end};
use crate::clock::unix_now_millis;

verus! {

broadcast use vstd::seq::group_seq_axioms;

/// The Bash tool's input, as far as the capturer reads it.
#[derive(Debug, Clone)]
pub struct BashInput {
    pub command: String,
    pub description: Option<String>,
}

/// The Read tool's input, as far as the capturer reads it.
#[derive(Debug, Clone)]
pub struct ReadInput {
    pub file_path: String,
    pub offset: Option<u32>,
    pub limit: Option<u32>,
}

/// What a capturer reads of a tool's response: whether it carries an
/// `error` field, and its `output` field when that is a string.
#[derive(Debug, Clone)]
pub struct ToolResponse {
    pub has_error: bool,
    pub output: Option<String>,
}

/// The Bash capturer.
#[derive(Debug, Clone, Copy, Default)]
pub struct BashCapturer;

/// The Read capturer.
#[derive(Debug, Clone, Copy, Default)]
pub struct ReadCapturer;

/// The first line of `s`, as `str::lines` yields it: the text before the
/// first `\n` without a `\r` that ends it, or all of `s` when there is no
/// `\n`.
pub open spec fn spec_first_line(s: Seq<char>) -> Seq<char> {
    let e = line_end(s, 0);
    let l = s.take(e);
    if e < s.len() && l.len() > 0 && l.last() == '\r' {
        l.drop_last()
    } else {
        l
    }
}

/// The first line of a command.
pub fn first_line(s: &str) -> (res: String)
    ensures
        res@ == spec_first_line(s@),
{
    let cs = chars_of(s);
    let n = cs.len();
    let mut e: usize = 0;
    while e < n && cs[e] != '\n'
        invariant
            cs@ == s@,
            n == cs@.len(),
            e <= n,
            line_end(s@, 0) == line_end(s@, e as int),
        decreases n - e,
    {
        e += 1;
    }
    let mut stop = e;
    if e < n && e > 0 && cs[e - 1] == '\r' {
        stop = e - 1;
    }
    let mut out = String::new();
    let mut k: usize = 0;
    while k < stop
        invariant
            cs@ == s@,
            stop <= e <= n,
            n == cs@.len(),
            k <= stop,
            out@ == cs@.take(k as int),
        decreases stop - k,
    {
        push_char(&mut out, cs[k]);
        k += 1;
        assert(out@ =~= cs@.take(k as int));
    }
    proof {
        let l = s@.take(e as int);
        if e < n && e > 0 && cs@[e - 1] == '\r' {
            assert(l.drop_last() =~= cs@.take(stop as int));
        } else {
            assert(l =~= cs@.take(stop as int));
        }
    }
    out
}

/// `Bash  <first line>`, then `  (<description>)` when there is one.
pub open spec fn bash_headline(command: Seq<char>, description: Option<Seq<char>>) -> Seq<char> {
    "Bash  "@ + spec_first_line(command) + match description {
        Some(d) => "  ("@ + d + ")"@,
        None => Seq::empty(),
    }
}

/// `Read  <path>`, then `  [<offset>..<offset + limit>]` when both are given.
pub open spec fn read_headline(file_path: Seq<char>, offset: Option<u32>, limit: Option<u32>) -> Seq<char> {
    "Read  "@ + file_path + match (offset, limit) {
        (Some(o), Some(l)) => "  ["@ + decimal(o as nat) + ".."@ + decimal((o + l) as nat) + "]"@,
        _ => Seq::empty(),
    }
}

/// A pending entry for the context's agent and tool call.
pub open spec fn pending_entry(e: DisplayEntry, ctx: HookContext, tool: Seq<char>, headline: Seq<char>, timestamp: u64) -> bool {
    &&& e.agent_key@ == spec_agent_key(ctx.agent_id)
    &&& e.tool_use_id@ == ctx.tool_use_id@
    &&& e.tool@ == tool
    &&& e.timestamp == timestamp
    &&& e.headline@ == headline
    &&& e.status == EntryStatus::Pending
}

/// The Read summary: `<n> bytes` for a non-empty string output of `n`
/// UTF-8 bytes, `ok` otherwise.
pub open spec fn read_summary(output: Option<Seq<char>>) -> Seq<char> {
    match output {
        Some(o) => if utf8(o).len() > 0 {
            decimal(utf8(o).len()) + " bytes"@
        } else {
            "ok"@
        },
        None => "ok"@,
    }
}

impl BashCapturer {
    /// Stable identifier of the capturer.
    pub fn name(&self) -> (res: &'static str)
        ensures
            res@ == "bash"@,
    {
        "bash"
    }

    /// The agent CLI's tool it renders.
    pub fn tool_name(&self) -> (res: &'static str)
        ensures
            res@ == "Bash"@,
    {
        "Bash"
    }

    /// The pending entry for a Bash call, stamped with the current time: the
    /// command's first line as headline, the description in parentheses
    /// after it, and a live-stream body bound to the call's tool_use_id.
    pub fn render_pre(&self, ctx: &HookContext, input: &BashInput) -> (res: DisplayEntry)
        ensures
            exists|t: u64| pending_entry(res, *ctx, "bash"@, bash_headline(input.command@, opt_chars(input.description)), t),
            res.body matches EntryBody::LiveStream { tool_use_id } && tool_use_id@ == ctx.tool_use_id@,
    {
        let now = unix_now_millis();
        self.render_pre_at(ctx, input, now)
    }

    /// `render_pre` stamped with `timestamp` (milliseconds since the epoch).
    pub fn render_pre_at(&self, ctx: &HookContext, input: &BashInput, timestamp: u64) -> (res: DisplayEntry)
        ensures
            pending_entry(res, *ctx, "bash"@, bash_headline(input.command@, opt_chars(input.description)), timestamp),
            res.body matches EntryBody::LiveStream { tool_use_id } && tool_use_id@ == ctx.tool_use_id@,
    {
        let mut headline = String::from_str("Bash  ");
        headline.append(first_line(input.command.as_str()).as_str());
        match &input.description {
            Some(desc) => {
                headline.append("  (");
                headline.append(desc.as_str());
                headline.append(")");
            },
            None => {},
        }
        assert(headline@ =~= bash_headline(input.command@, opt_chars(input.description)));
        DisplayEntry {
            agent_key: String::from_str(ctx.agent_key()),
            tool_use_id: ctx.tool_use_id.clone(),
            tool: String::from_str("bash"),
            timestamp,
            headline,
            body: EntryBody::LiveStream { tool_use_id: ctx.tool_use_id.clone() },
            status: EntryStatus::Pending,
        }
    }

    /// The update after a Bash call: `Error` when the response carries an
    /// `error` field, `Success` otherwise; no body.
    pub fn render_post(&self, ctx: &HookContext, response: &ToolResponse) -> (res: DisplayEntryUpdate)
        ensures
            res.tool_use_id@ == ctx.tool_use_id@,
            res.status == (if response.has_error {
                EntryStatus::Error
            } else {
                EntryStatus::Success
            }),
            res.append_body is None,
    {
        let status = if response.has_error {
            EntryStatus::Error
        } else {
            EntryStatus::Success
        };
        DisplayEntryUpdate { tool_use_id: ctx.tool_use_id.clone(), status, append_body: None }
    }
}

impl ReadCapturer {
    /// Stable identifier of the capturer.
    pub fn name(&self) -> (res: &'static str)
        ensures
            res@ == "read"@,
    {
        "read"
    }

    /// The agent CLI's tool it renders.
    pub fn tool_name(&self) -> (res: &'static str)
        ensures
            res@ == "Read"@,
    {
        "Read"
    }

    /// The pending entry for a Read call, stamped with the current time:
    /// `Read  <path>`, with the line range when offset and limit are given.
    pub fn render_pre(&self, ctx: &HookContext, input: &ReadInput) -> (res: DisplayEntry)
        requires
            (input.offset, input.limit) matches (Some(o), Some(l)) ==> o + l <= u32::MAX,
        ensures
            exists|t: u64| pending_entry(res, *ctx, "read"@, read_headline(input.file_path@, input.offset, input.limit), t),
            res.body is Empty,
    {
        let now = unix_now_millis();
        self.render_pre_at(ctx, input, now)
    }

    /// `render_pre` stamped with `timestamp` (milliseconds since the epoch).
    pub fn render_pre_at(&self, ctx: &HookContext, input: &ReadInput, timestamp: u64) -> (res: DisplayEntry)
        requires
            (input.offset, input.limit) matches (Some(o), Some(l)) ==> o + l <= u32::MAX,
        ensures
            pending_entry(res, *ctx, "read"@, read_headline(input.file_path@, input.offset, input.limit), timestamp),
            res.body is Empty,
    {
        let mut headline = String::from_str("Read  ");
        headline.append(input.file_path.as_str());
        match (input.offset, input.limit) {
            (Some(o), Some(l)) => {
                headline.append("  [");
                push_decimal(&mut headline, o as u64);
                headline.append("..");
                push_decimal(&mut headline, (o + l) as u64);
                headline.append("]");
            },
            _ => {},
        }
        proof {
            assert(headline@ =~= read_headline(input.file_path@, input.offset, input.limit));
        }
        DisplayEntry {
            agent_key: String::from_str(ctx.agent_key()),
            tool_use_id: ctx.tool_use_id.clone(),
            tool: String::from_str("read"),
            timestamp,
            headline,
            body: EntryBody::Empty,
            status: EntryStatus::Pending,
        }
    }

    /// The update after a Read call: `Success`, with a text body giving the
    /// output's size in bytes, or `ok` when there is no string output.
    pub fn render_post(&self, ctx: &HookContext, response: &ToolResponse) -> (res: DisplayEntryUpdate)
        ensures
            res.tool_use_id@ == ctx.tool_use_id@,
            res.status == EntryStatus::Success,
            res.append_body matches Some(EntryBody::Text { text }) && text@ == read_summary(opt_chars(response.output)),
    {
        let text_len: usize = match &response.output {
            Some(o) => o.as_str().as_bytes().len(),
            None => 0,
        };
        let summary = if text_len > 0 {
            let mut s = String::new();
            push_decimal(&mut s, text_len as u64);
            s.append(" bytes");
            s
        } else {
            String::from_str("ok")
        };
        assert(summary@ =~= read_summary(opt_chars(response.output)));
        DisplayEntryUpdate {
            tool_use_id: ctx.tool_use_id.clone(),
            status: EntryStatus::Success,
            append_body: Some(EntryBody::Text { text: summary }),
        }
    }
}

} // verus!
