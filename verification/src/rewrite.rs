//! The Bash rewrite: wraps an agent's command so that the bytes it would
//! discard (`2>/dev/null`, the input of `grep`/`head`/`tail`) and its
//! stdout/stderr are teed to `oby-tee`, while the command's own output stays
//! as it was.
use vstd::prelude::*;
use vstd::utf8::*;
use crate::scanner::{
    code_spans, spec_code_spans, span_pairs, spans_within, spans_at_cuts, lemma_code_spans_cuts,
    lemma_code_spans_in_bounds, pipe_segments, spec_pipe_segments, segment_tuples, segments_chain,
    law_pipe_segments_chain, PipeSegment, blank_end, lemma_blank_end, is_blank, spec_code_contains,
    law_code_spans_well_formed, spans_ordered, law_short_commands_fit, redirects, spec_redirects,
    redirect_tuples, redirects_well_formed, law_redirects_well_formed, redirects_at_cuts, law_redirects_at_cuts,
    RedirectKind, RedirectTuple,
};
use crate::shell::{Shell, spec_supports_process_substitution, spec_tee_stderr_redirect, spec_zsh_demuxer};
use crate::text::{
    utf8, is_ascii_byte, all_ascii, ascii_chars, is_cut, lemma_utf8_concat, lemma_utf8_injective,
    lemma_encode_char, lemma_utf8_single, lemma_utf8_ascii, lemma_utf8_valid, lemma_ascii_valid,
    lemma_concat_valid, lemma_valid_between_cuts, lemma_valid_between_boundaries, lemma_cut_is_boundary, bytes_to_string, push_str, push_range, occurs_at,
    find_bytes, matches_at,
};

verus! {

broadcast use vstd::seq::group_seq_axioms;

/// What a character becomes inside single quotes: `'` closes the quote,
/// emits an escaped quote and reopens it.
pub open spec fn escape_piece(c: char) -> Seq<char> {
    if c == '\'' {
        seq!['\'', '\\', '\'', '\'']
    } else {
        seq![c]
    }
}

pub open spec fn escape_chars(s: Seq<char>) -> Seq<char>
    decreases s.len(),
{
    if s.len() == 0 {
        seq![]
    } else {
        escape_chars(s.drop_last()) + escape_piece(s.last())
    }
}

/// `s` in single quotes, with every `'` written as `'\''`.
pub open spec fn spec_shell_escape(s: Seq<char>) -> Seq<char> {
    seq!['\''] + escape_chars(s) + seq!['\'']
}

pub open spec fn escape_byte(c: u8) -> Seq<u8> {
    if c == 0x27 {
        seq![0x27u8, 0x5c, 0x27, 0x27]
    } else {
        seq![c]
    }
}

pub open spec fn escape_bytes(b: Seq<u8>) -> Seq<u8>
    decreases b.len(),
{
    if b.len() == 0 {
        seq![]
    } else {
        escape_bytes(b.drop_last()) + escape_byte(b.last())
    }
}

proof fn lemma_escape_bytes_concat(x: Seq<u8>, y: Seq<u8>)
    ensures
        escape_bytes(x + y) == escape_bytes(x) + escape_bytes(y),
    decreases y.len(),
{
    if y.len() == 0 {
        assert(x + y =~= x);
        assert(escape_bytes(x) + escape_bytes(y) =~= escape_bytes(x));
    } else {
        lemma_escape_bytes_concat(x, y.drop_last());
        assert((x + y).drop_last() =~= x + y.drop_last());
        assert((x + y).last() == y.last());
        assert(escape_bytes(x + y) =~= escape_bytes(x) + escape_bytes(y));
    }
}

proof fn lemma_escape_bytes_plain(x: Seq<u8>)
    requires
        forall|k: int| 0 <= k < x.len() ==> #[trigger] x[k] != 0x27,
    ensures
        escape_bytes(x) == x,
    decreases x.len(),
{
    if x.len() > 0 {
        lemma_escape_bytes_plain(x.drop_last());
        assert(escape_bytes(x) =~= x);
    }
}

proof fn lemma_escape_one(c: char)
    ensures
        escape_bytes(encode_scalar(c as u32)) == utf8(escape_piece(c)),
{
    lemma_encode_char(c);
    lemma_utf8_single(c);
    let e = encode_scalar(c as u32);
    let empty = Seq::<u8>::empty();
    assert(escape_bytes(empty) =~= empty);
    if c == '\'' {
        assert((c as u32) == 0x27);
        assert(e == seq![c as u8]);
        assert(e.last() == 0x27);
        let q = seq!['\'', '\\', '\'', '\''];
        assert(ascii_chars(q));
        lemma_utf8_ascii(q);
        assert(utf8(q) =~= seq![0x27u8, 0x5c, 0x27, 0x27]);
        assert(e.drop_last() =~= Seq::<u8>::empty());
        assert(escape_bytes(e) =~= escape_byte(0x27));
    } else if (c as u32) <= 0x7f {
        assert(e == seq![c as u8]);
        assert(e.last() == c as u8);
        assert(c as u8 != 0x27);
        assert(e.drop_last() =~= Seq::<u8>::empty());
        assert(escape_bytes(e) =~= escape_byte(c as u8));
    } else {
        lemma_escape_bytes_plain(e);
    }
}

/// Escaping the UTF-8 bytes of a string gives the UTF-8 bytes of the escaped
/// string.
proof fn lemma_escape_utf8(s: Seq<char>)
    ensures
        escape_bytes(utf8(s)) == utf8(escape_chars(s)),
    decreases s.len(),
{
    if s.len() > 0 {
        let init = s.drop_last();
        let c = s.last();
        lemma_escape_utf8(init);
        assert(s =~= init + seq![c]);
        lemma_utf8_concat(init, seq![c]);
        lemma_utf8_single(c);
        lemma_escape_bytes_concat(utf8(init), encode_scalar(c as u32));
        lemma_escape_one(c);
        lemma_utf8_concat(escape_chars(init), escape_piece(c));
    }
}

/// Minimal shell-safe quoting for the values the rewrite embeds (agent id,
/// tool-use id, stream name): the string in single quotes, with each `'`
/// replaced by `'\''`.
pub fn shell_escape(s: &str) -> (res: String)
    ensures
        res@ == spec_shell_escape(s@),
{
    let b = s.as_bytes();
    let mut out: Vec<u8> = Vec::new();
    out.push(0x27);
    let mut i: usize = 0;
    while i < b.len()
        invariant
            b@ == utf8(s@),
            i <= b@.len(),
            out@ == seq![0x27u8] + escape_bytes(b@.subrange(0, i as int)),
        decreases b.len() - i,
    {
        let ghost prev = b@.subrange(0, i as int);
        if b[i] == 0x27 {
            out.push(0x27);
            out.push(0x5c);
            out.push(0x27);
            out.push(0x27);
        } else {
            out.push(b[i]);
        }
        i += 1;
        assert(b@.subrange(0, i as int).drop_last() =~= prev);
        assert(out@ =~= seq![0x27u8] + escape_bytes(b@.subrange(0, i as int)));
    }
    out.push(0x27);
    proof {
        assert(b@.subrange(0, b@.len() as int) =~= b@);
        lemma_escape_utf8(s@);
        let q = seq!['\''];
        assert(ascii_chars(q));
        lemma_utf8_ascii(q);
        lemma_utf8_concat(q, escape_chars(s@));
        lemma_utf8_concat(q + escape_chars(s@), q);
        assert(out@ =~= utf8(spec_shell_escape(s@)));
        lemma_utf8_valid(spec_shell_escape(s@));
    }
    let res = bytes_to_string(out);
    proof {
        lemma_utf8_injective(res@, spec_shell_escape(s@));
    }
    res
}

/// The `oby-tee` command line that streams into the given agent's socket.
pub open spec fn spec_obi_tee_invocation(agent_key: Seq<char>, tool_use_id: Seq<char>, stream: Seq<char>) -> Seq<char> {
    "oby-tee --agent "@ + spec_shell_escape(agent_key) + " --tool-use-id "@ + spec_shell_escape(
        tool_use_id,
    ) + " --stream "@ + spec_shell_escape(stream)
}

/// `oby-tee --agent 'A' --tool-use-id 'T' --stream 'S'`, each value quoted
/// with `shell_escape`.
pub fn obi_tee_invocation(agent_key: &str, tool_use_id: &str, stream: &str) -> (res: String)
    ensures
        res@ == spec_obi_tee_invocation(agent_key@, tool_use_id@, stream@),
{
    let mut out = String::from_str("oby-tee --agent ");
    out.append(shell_escape(agent_key).as_str());
    out.append(" --tool-use-id ");
    out.append(shell_escape(tool_use_id).as_str());
    out.append(" --stream ");
    out.append(shell_escape(stream).as_str());
    out
}

/// The bytes of `2>/dev/null`.
pub open spec fn dev_null_stderr() -> Seq<u8> {
    utf8("2>/dev/null"@)
}

proof fn lemma_dev_null_stderr()
    ensures
        dev_null_stderr() == seq![0x32u8, 0x3e, 0x2f, 0x64, 0x65, 0x76, 0x2f, 0x6e, 0x75, 0x6c, 0x6c],
{
    reveal_strlit("2>/dev/null");
    let s = "2>/dev/null"@;
    assert(s =~= seq!['2', '>', '/', 'd', 'e', 'v', '/', 'n', 'u', 'l', 'l']);
    assert(ascii_chars(s));
    lemma_utf8_ascii(s);
    assert(dev_null_stderr() =~= seq![0x32u8, 0x3e, 0x2f, 0x64, 0x65, 0x76, 0x2f, 0x6e, 0x75, 0x6c, 0x6c]);
}

/// The first occurrence of `n` in `b` that starts at or after `from` and
/// ends by `to`.
pub open spec fn first_occ(b: Seq<u8>, from: int, to: int, n: Seq<u8>) -> Option<int>
    decreases to - from,
{
    if n.len() == 0 || from < 0 || from + n.len() > to {
        None
    } else if occurs_at(b, from, n) {
        Some(from)
    } else {
        first_occ(b, from + 1, to, n)
    }
}

proof fn lemma_first_occ_found(b: Seq<u8>, from: int, to: int, n: Seq<u8>, j: int)
    requires
        n.len() > 0,
        0 <= from <= j,
        j + n.len() <= to,
        occurs_at(b, j, n),
        forall|k: int| from <= k < j && k + n.len() <= to ==> !occurs_at(b, k, n),
    ensures
        first_occ(b, from, to, n) == Some(j),
    decreases j - from,
{
    if from < j {
        lemma_first_occ_found(b, from + 1, to, n, j);
    }
}

proof fn lemma_first_occ_none(b: Seq<u8>, from: int, to: int, n: Seq<u8>)
    requires
        n.len() > 0,
        0 <= from,
        forall|k: int| from <= k && k + n.len() <= to ==> !occurs_at(b, k, n),
    ensures
        first_occ(b, from, to, n) is None,
    decreases to - from,
{
    if from + n.len() <= to {
        lemma_first_occ_none(b, from + 1, to, n);
    }
}

pub proof fn lemma_first_occ_bounds(b: Seq<u8>, from: int, to: int, n: Seq<u8>)
    requires
        n.len() > 0,
    ensures
        first_occ(b, from, to, n) matches Some(j) ==> from <= j && j + n.len() <= to && occurs_at(
            b,
            j,
            n,
        ),
    decreases to - from,
{
    if from >= 0 && from + n.len() <= to && !occurs_at(b, from, n) {
        lemma_first_occ_bounds(b, from + 1, to, n);
    }
}

/// `b[from..to]` with each leftmost, non-overlapping occurrence of `n`
/// replaced by `rep`.
pub open spec fn replace_in(b: Seq<u8>, from: int, to: int, n: Seq<u8>, rep: Seq<u8>) -> Seq<u8>
    decreases to - from,
{
    if n.len() == 0 {
        b.subrange(from, to)
    } else {
        match first_occ(b, from, to, n) {
            Some(j) => {
                proof {
                    lemma_first_occ_bounds(b, from, to, n);
                }
                b.subrange(from, j) + rep + replace_in(b, j + n.len(), to, n, rep)
            },
            None => b.subrange(from, to),
        }
    }
}

/// The command's bytes with each code span's occurrences of `n` replaced by
/// `rep`, scanning spans from index `k` with the text before `cursor`
/// already written.
pub open spec fn replace_in_spans(
    b: Seq<u8>,
    sp: Seq<(int, int)>,
    k: int,
    cursor: int,
    n: Seq<u8>,
    rep: Seq<u8>,
) -> Seq<u8>
    decreases sp.len() - k,
{
    if k >= sp.len() || k < 0 {
        if cursor < b.len() {
            b.subrange(cursor, b.len() as int)
        } else {
            seq![]
        }
    } else {
        (if cursor < sp[k].0 {
            b.subrange(cursor, sp[k].0)
        } else {
            seq![]
        }) + replace_in(b, sp[k].0, sp[k].1, n, rep) + replace_in_spans(b, sp, k + 1, sp[k].1, n, rep)
    }
}

/// The process substitution that receives what `2>/dev/null` discarded.
pub open spec fn spec_discard_sink(agent_key: Seq<char>, tool_use_id: Seq<char>) -> Seq<char> {
    ">(oby-tee --agent "@ + spec_shell_escape(agent_key) + " --tool-use-id "@ + spec_shell_escape(
        tool_use_id,
    ) + " --stream stderr-discarded >/dev/null)"@
}

/// The command with each unquoted, uncommented `2>/dev/null` replaced by
/// `2> >(oby-tee … --stream stderr-discarded >/dev/null)`.
pub open spec fn spec_neutralize(b: Seq<u8>, agent_key: Seq<char>, tool_use_id: Seq<char>) -> Seq<u8> {
    replace_in_spans(
        b,
        spec_code_spans(b),
        0,
        0,
        dev_null_stderr(),
        utf8("2> "@) + utf8(spec_discard_sink(agent_key, tool_use_id)),
    )
}

proof fn lemma_replace_in_valid(b: Seq<u8>, from: int, to: int, rep: Seq<u8>)
    requires
        valid_utf8(b),
        valid_utf8(rep),
        0 <= from <= to <= b.len(),
        is_cut(b, from),
        is_cut(b, to),
    ensures
        valid_utf8(replace_in(b, from, to, dev_null_stderr(), rep)),
    decreases to - from,
{
    let n = dev_null_stderr();
    lemma_dev_null_stderr();
    lemma_first_occ_bounds(b, from, to, n);
    match first_occ(b, from, to, n) {
        Some(j) => {
            assert(b.subrange(j, j + 11)[0] == 0x32);
            assert(b.subrange(j, j + 11)[10] == 0x6c);
            assert(is_cut(b, j));
            assert(is_cut(b, j + 11));
            lemma_valid_between_cuts(b, from, j);
            lemma_replace_in_valid(b, j + 11, to, rep);
            lemma_concat_valid(b.subrange(from, j), rep);
            lemma_concat_valid(b.subrange(from, j) + rep, replace_in(b, j + 11, to, n, rep));
        },
        None => {
            lemma_valid_between_cuts(b, from, to);
        },
    }
}

proof fn lemma_replace_in_spans_valid(b: Seq<u8>, sp: Seq<(int, int)>, k: int, cursor: int, rep: Seq<u8>)
    requires
        valid_utf8(b),
        valid_utf8(rep),
        spans_within(sp, 0, b.len() as int),
        spans_at_cuts(b, sp),
        0 <= k,
        0 <= cursor <= b.len(),
        is_cut(b, cursor),
    ensures
        valid_utf8(replace_in_spans(b, sp, k, cursor, dev_null_stderr(), rep)),
    decreases sp.len() - k,
{
    let n = dev_null_stderr();
    if k >= sp.len() {
        if cursor < b.len() {
            lemma_valid_between_cuts(b, cursor, b.len() as int);
        } else {
            lemma_ascii_valid(Seq::<u8>::empty());
        }
    } else {
        let (st, en) = sp[k];
        assert(is_cut(b, st) && is_cut(b, en) && 0 <= st < en <= b.len());
        let pre = if cursor < st {
            lemma_valid_between_cuts(b, cursor, st);
            b.subrange(cursor, st)
        } else {
            lemma_ascii_valid(Seq::<u8>::empty());
            Seq::<u8>::empty()
        };
        lemma_replace_in_valid(b, st, en, rep);
        lemma_replace_in_spans_valid(b, sp, k + 1, en, rep);
        lemma_concat_valid(pre, replace_in(b, st, en, n, rep));
        lemma_concat_valid(pre + replace_in(b, st, en, n, rep), replace_in_spans(b, sp, k + 1, en, n, rep));
    }
}

/// Replace each unquoted, uncommented `2>/dev/null` with
/// `2> >(oby-tee … --stream stderr-discarded >/dev/null)`.
pub fn neutralize_dev_null_stderr(command: &str, agent_key: &str, tool_use_id: &str) -> (res: String)
    ensures
        utf8(res@) == spec_neutralize(utf8(command@), agent_key@, tool_use_id@),
{
    let needle = "2>/dev/null";
    let mut sink = String::from_str(">(oby-tee --agent ");
    sink.append(shell_escape(agent_key).as_str());
    sink.append(" --tool-use-id ");
    sink.append(shell_escape(tool_use_id).as_str());
    sink.append(" --stream stderr-discarded >/dev/null)");
    let spans = code_spans(command);
    let bytes = command.as_bytes();
    let nb = needle.as_bytes();
    let ghost b = bytes@;
    let ghost sp = spec_code_spans(b);
    let ghost rep = utf8("2> "@) + utf8(sink@);
    let ghost n = nb@;
    proof {
        lemma_dev_null_stderr();
        lemma_code_spans_in_bounds(b);
        assert(spans_within(sp, 0, b.len() as int));
    }
    let len = bytes.len();
    let mut out: Vec<u8> = Vec::new();
    let mut cursor: usize = 0;
    let mut k: usize = 0;
    while k < spans.len()
        invariant
            b == bytes@,
            b == utf8(command@),
            n == nb@,
            n == dev_null_stderr(),
            n.len() == 11,
            len == b.len(),
            sp == spec_code_spans(b),
            span_pairs(spans@) == sp,
            spans_within(sp, 0, b.len() as int),
            rep == utf8("2> "@) + utf8(sink@),
            sink@ == spec_discard_sink(agent_key@, tool_use_id@),
            k <= spans@.len(),
            cursor <= len,
            replace_in_spans(b, sp, 0, 0, n, rep) == out@ + replace_in_spans(b, sp, k as int, cursor as int, n, rep),
        decreases spans@.len() - k,
    {
        assert(sp[k as int] == (spans@[k as int].start as int, spans@[k as int].end as int));
        let start = spans[k].start;
        let end = spans[k].end;
        if cursor < start {
            push_range(&mut out, bytes, cursor, start);
        }
        let ghost out0 = if cursor < start { out@.subrange(0, out@.len() - (start - cursor)) } else { out@ };
        let ghost base = out@;
        let mut local = start;
        loop
            invariant
                b == bytes@,
                n == nb@,
                n == dev_null_stderr(),
                n.len() == 11,
                rep == utf8("2> "@) + utf8(sink@),
                start <= local <= end,
                end <= b.len(),
                base + replace_in(b, start as int, end as int, n, rep) == out@ + replace_in(b, local as int, end as int, n, rep),
            ensures
                start <= local <= end,
                base + replace_in(b, start as int, end as int, n, rep) == out@ + b.subrange(local as int, end as int),
            decreases end - local,
        {
            match find_bytes(bytes, local, end, nb) {
                Some(abs) => {
                    proof {
                        lemma_first_occ_found(b, local as int, end as int, n, abs as int);
                    }
                    let ghost before = out@;
                    push_range(&mut out, bytes, local, abs);
                    push_str(&mut out, "2> ");
                    push_str(&mut out, sink.as_str());
                    assert(out@ =~= before + b.subrange(local as int, abs as int) + rep);
                    assert(replace_in(b, local as int, end as int, n, rep) == b.subrange(local as int, abs as int) + rep + replace_in(b, abs + 11, end as int, n, rep));
                    local = abs + nb.len();
                },
                None => {
                    proof {
                        lemma_first_occ_none(b, local as int, end as int, n);
                    }
                    break;
                },
            }
        }
        push_range(&mut out, bytes, local, end);
        proof {
            let pre = if cursor < start { b.subrange(cursor as int, start as int) } else { Seq::<u8>::empty() };
            assert(replace_in_spans(b, sp, k as int, cursor as int, n, rep) == pre + replace_in(b, start as int, end as int, n, rep) + replace_in_spans(b, sp, k + 1, end as int, n, rep));
            assert(base =~= out0 + pre);
            assert(out@ =~= out0 + pre + replace_in(b, start as int, end as int, n, rep));
        }
        cursor = end;
        k += 1;
    }
    if cursor < len {
        push_range(&mut out, bytes, cursor, len);
    }
    proof {
        assert(out@ =~= replace_in_spans(b, sp, 0, 0, n, rep));
        lemma_code_spans_cuts(b);
        lemma_utf8_valid(command@);
        lemma_utf8_concat("2> "@, sink@);
        lemma_utf8_valid("2> "@ + sink@);
        lemma_replace_in_spans_valid(b, sp, 0, 0, rep);
    }
    bytes_to_string(out)
}

/// An insertion: a byte offset into the command and the bytes to insert.
pub type Edit = (int, Seq<u8>);

/// The edits as offsets and UTF-8 bytes.
pub open spec fn edit_view(v: Seq<(usize, String)>) -> Seq<Edit> {
    Seq::new(v.len(), |k: int| (v[k].0 as int, utf8(v[k].1@)))
}

/// `s` with `e` placed after every trailing element whose offset is not
/// smaller than `e`'s: one step of a stable sort by descending offset.
pub open spec fn insert_desc(s: Seq<Edit>, e: Edit) -> Seq<Edit>
    decreases s.len(),
{
    if s.len() == 0 {
        seq![e]
    } else if s.last().0 >= e.0 {
        s.push(e)
    } else {
        insert_desc(s.drop_last(), e).push(s.last())
    }
}

/// The edits stably sorted by descending offset.
pub open spec fn sort_desc(es: Seq<Edit>) -> Seq<Edit>
    decreases es.len(),
{
    if es.len() == 0 {
        seq![]
    } else {
        insert_desc(sort_desc(es.drop_last()), es.last())
    }
}

/// `b` with `t` inserted at byte `p`.
pub open spec fn splice(b: Seq<u8>, p: int, t: Seq<u8>) -> Seq<u8> {
    b.subrange(0, p) + t + b.subrange(p, b.len() as int)
}

/// The edits applied one after the other, each to the result of the ones
/// before it.
pub open spec fn apply_seq(b: Seq<u8>, es: Seq<Edit>) -> Seq<u8>
    decreases es.len(),
{
    if es.len() == 0 {
        b
    } else {
        splice(apply_seq(b, es.drop_last()), es.last().0, es.last().1)
    }
}

/// What `apply_inserts` makes of the command's bytes: the edits sorted by
/// descending offset (ties kept in their given order), then applied in turn.
pub open spec fn spec_apply_inserts(b: Seq<u8>, es: Seq<Edit>) -> Seq<u8> {
    apply_seq(b, sort_desc(es))
}

pub open spec fn sorted_desc(s: Seq<Edit>) -> bool {
    forall|i: int, j: int| 0 <= i < j < s.len() ==> s[i].0 >= s[j].0
}

/// An edit that can be applied to `b`: its offset lies on a character
/// boundary of `b`.
pub open spec fn edit_fits(b: Seq<u8>, e: Edit) -> bool {
    0 <= e.0 <= b.len() && is_char_boundary(b, e.0)
}

pub open spec fn all_fit(b: Seq<u8>, s: Seq<Edit>) -> bool {
    forall|k: int| 0 <= k < s.len() ==> edit_fits(b, #[trigger] s[k])
}

proof fn lemma_insert_desc(b: Seq<u8>, s: Seq<Edit>, e: Edit)
    requires
        sorted_desc(s),
    ensures
        sorted_desc(insert_desc(s, e)),
        insert_desc(s, e).len() == s.len() + 1,
        all_fit(b, s) && edit_fits(b, e) ==> all_fit(b, insert_desc(s, e)),
        forall|k: int| 0 <= k < insert_desc(s, e).len() ==> #[trigger] insert_desc(s, e)[k] == e || (
            exists|m: int| 0 <= m < s.len() && s[m] == insert_desc(s, e)[k]),
    decreases s.len(),
{
    if s.len() > 0 && s.last().0 < e.0 {
        let init = s.drop_last();
        lemma_insert_desc(b, init, e);
        let r = insert_desc(init, e);
        let rr = r.push(s.last());
        assert forall|k: int| 0 <= k < rr.len() implies #[trigger] rr[k] == e || (
            exists|m: int| 0 <= m < s.len() && s[m] == rr[k]) by {
            if k == r.len() {
                assert(s[s.len() - 1] == rr[k]);
            } else {
                assert(rr[k] == r[k]);
                if r[k] != e {
                    let m = choose|m: int| 0 <= m < init.len() && init[m] == r[k];
                    assert(s[m] == rr[k]);
                }
            }
        }
        assert forall|i: int, j: int| 0 <= i < j < rr.len() implies rr[i].0 >= rr[j].0 by {
            assert(rr[i] == r[i]);
            if j == r.len() {
                assert(rr[j] == s.last());
                if r[i] != e {
                    let m = choose|m: int| 0 <= m < init.len() && init[m] == r[i];
                    assert(s[m] == init[m]);
                    assert(s[m].0 >= s[s.len() - 1].0);
                }
            } else {
                assert(rr[j] == r[j]);
            }
        }
    } else if s.len() > 0 {
        assert forall|k: int| 0 <= k < s.push(e).len() implies #[trigger] s.push(e)[k] == e || (
            exists|m: int| 0 <= m < s.len() && s[m] == s.push(e)[k]) by {
            if k < s.len() {
                assert(s[k] == s.push(e)[k]);
            }
        }
    }
}

proof fn lemma_sort_desc(b: Seq<u8>, es: Seq<Edit>)
    ensures
        sorted_desc(sort_desc(es)),
        sort_desc(es).len() == es.len(),
        all_fit(b, es) ==> all_fit(b, sort_desc(es)),
    decreases es.len(),
{
    if es.len() > 0 {
        lemma_sort_desc(b, es.drop_last());
        lemma_insert_desc(b, sort_desc(es.drop_last()), es.last());
        if all_fit(b, es) {
            assert(edit_fits(b, es[es.len() - 1]));
            assert forall|k: int| 0 <= k < es.drop_last().len() implies edit_fits(
                b,
                #[trigger] es.drop_last()[k],
            ) by {
                assert(es.drop_last()[k] == es[k]);
            }
        }
    }
}

/// Insert each text at its byte offset in `command`, processing the edits
/// from the rightmost offset to the leftmost so that earlier inserts don't
/// shift later positions; edits at the same offset are applied in the
/// order given, so the later one ends up in front.
pub fn apply_inserts(command: &str, edits: Vec<(usize, String)>) -> (res: String)
    requires
        all_fit(utf8(command@), edit_view(edits@)),
    ensures
        utf8(res@) == spec_apply_inserts(utf8(command@), edit_view(edits@)),
{
    let ghost b = utf8(command@);
    let ghost ev = edit_view(edits@);
    // Stable insertion sort by descending offset.
    let mut sorted: Vec<(usize, String)> = Vec::new();
    let mut i: usize = 0;
    while i < edits.len()
        invariant
            ev == edit_view(edits@),
            i <= edits@.len(),
            edit_view(sorted@) == sort_desc(ev.take(i as int)),
        decreases edits.len() - i,
    {
        let pos = edits[i].0;
        let text = edits[i].1.clone();
        let ghost e: Edit = (pos as int, utf8(text@));
        let ghost s = edit_view(sorted@);
        assert(ev.take(i + 1).drop_last() =~= ev.take(i as int));
        assert(ev.take(i + 1).last() == e);
        let mut j = sorted.len();
        assert(s.take(j as int) =~= s);
        assert(s.skip(j as int) =~= Seq::<Edit>::empty());
        assert(insert_desc(s, e) + Seq::<Edit>::empty() =~= insert_desc(s, e));
        while j > 0 && sorted[j - 1].0 < pos
            invariant
                s == edit_view(sorted@),
                e.0 == pos,
                j <= sorted@.len(),
                insert_desc(s, e) == insert_desc(s.take(j as int), e) + s.skip(j as int),
            decreases j,
        {
            let ghost sj = s.take(j as int);
            assert(sj.last() == s[j - 1]);
            assert(sj.drop_last() =~= s.take(j - 1));
            assert(s.skip(j - 1) =~= seq![s[j - 1]] + s.skip(j as int));
            assert(insert_desc(s.take(j - 1), e) + s.skip(j - 1) =~= insert_desc(s.take(j - 1), e).push(
                s[j - 1],
            ) + s.skip(j as int));
            j -= 1;
        }
        proof {
            if j > 0 {
                assert(s.take(j as int).last() == s[j - 1]);
            } else {
                assert(s.take(0) =~= Seq::<Edit>::empty());
            }
        }
        sorted.insert(j, (pos, text));
        proof {
            assert(edit_view(sorted@) =~= insert_desc(s.take(j as int), e) + s.skip(j as int));
        }
        i += 1;
    }
    assert(ev.take(edits@.len() as int) =~= ev);
    let ghost sv = edit_view(sorted@);
    proof {
        lemma_sort_desc(b, ev);
        lemma_utf8_valid(command@);
        is_char_boundary_start_end_of_seq(b);
        assert(b.subrange(0, b.len() as int) + Seq::<u8>::empty() =~= b);
        lemma_ascii_valid(Seq::<u8>::empty());
    }
    let mut out: Vec<u8> = Vec::new();
    push_str(&mut out, command);
    let ghost mut plast: int = b.len() as int;
    let ghost mut rest: Seq<u8> = Seq::empty();
    let mut k: usize = 0;
    while k < sorted.len()
        invariant
            sv == edit_view(sorted@),
            sorted_desc(sv),
            all_fit(b, sv),
            valid_utf8(b),
            k <= sv.len(),
            out@ == apply_seq(b, sv.take(k as int)),
            0 <= plast <= b.len(),
            is_char_boundary(b, plast),
            out@ == b.subrange(0, plast) + rest,
            valid_utf8(rest),
            forall|m: int| k <= m < sv.len() ==> sv[m].0 <= plast,
        decreases sv.len() - k,
    {
        let pos = sorted[k].0;
        let text = sorted[k].1.as_str();
        let ghost q = pos as int;
        let ghost t = utf8(text@);
        assert(sv[k as int] == (q, t));
        assert(edit_fits(b, sv[k as int]));
        let mut next: Vec<u8> = Vec::new();
        push_range(&mut next, out.as_slice(), 0, pos);
        push_str(&mut next, text);
        push_range(&mut next, out.as_slice(), pos, out.len());
        proof {
            assert(sv.take(k + 1).drop_last() =~= sv.take(k as int));
            assert(sv.take(k + 1).last() == (q, t));
            assert(next@ =~= splice(out@, q, t));
            let old_out = out@;
            assert(old_out.subrange(0, q) =~= b.subrange(0, q));
            assert(old_out.subrange(q, old_out.len() as int) =~= b.subrange(q, plast) + rest);
            lemma_valid_between_boundaries(b, q, plast);
            lemma_utf8_valid(text@);
            lemma_concat_valid(t, b.subrange(q, plast));
            lemma_concat_valid(t + b.subrange(q, plast), rest);
            assert(next@ =~= b.subrange(0, q) + (t + b.subrange(q, plast) + rest));
            rest = t + b.subrange(q, plast) + rest;
            plast = q;
        }
        out = next;
        k += 1;
    }
    proof {
        assert(sv.take(sv.len() as int) =~= sv);
        lemma_valid_between_boundaries(b, 0, plast);
        lemma_concat_valid(b.subrange(0, plast), rest);
    }
    bytes_to_string(out)
}

/// True when the first word of the stage `seg` is exactly `name`.
pub open spec fn word_is(b: Seq<u8>, seg: (int, int, int, int), name: Seq<char>) -> bool {
    seg.3 - seg.2 == utf8(name).len() && occurs_at(b, seg.2, utf8(name))
}

/// The stream that receives a copy of a stage's input when the stage is a
/// discarding filter: `grep`, `head` or `tail`.
pub open spec fn filter_stream(b: Seq<u8>, seg: (int, int, int, int)) -> Option<Seq<char>> {
    if word_is(b, seg, "grep"@) {
        Some("stdout-pre-grep"@)
    } else if word_is(b, seg, "head"@) {
        Some("stdout-pre-head"@)
    } else if word_is(b, seg, "tail"@) {
        Some("stdout-pre-tail"@)
    } else {
        None
    }
}

/// `tee >(oby-tee … --stream S >/dev/null) | `, put in front of a filter.
pub open spec fn tee_text(agent_key: Seq<char>, tool_use_id: Seq<char>, stream: Seq<char>) -> Seq<char> {
    "tee >("@ + spec_obi_tee_invocation(agent_key, tool_use_id, stream) + " >/dev/null) | "@
}

/// The insertion for stage `k`: none for the first stage (the producer) or a
/// stage that is not a filter.
pub open spec fn stage_edit(
    b: Seq<u8>,
    segs: Seq<(int, int, int, int)>,
    k: int,
    agent_key: Seq<char>,
    tool_use_id: Seq<char>,
) -> Seq<Edit> {
    if k >= 1 {
        match filter_stream(b, segs[k]) {
            Some(st) => seq![(segs[k].0, utf8(tee_text(agent_key, tool_use_id, st)))],
            None => seq![],
        }
    } else {
        seq![]
    }
}

/// The insertions for the first `n` stages, in stage order.
pub open spec fn stage_edits(
    b: Seq<u8>,
    segs: Seq<(int, int, int, int)>,
    n: int,
    agent_key: Seq<char>,
    tool_use_id: Seq<char>,
) -> Seq<Edit>
    decreases n,
{
    if n <= 0 {
        seq![]
    } else {
        stage_edits(b, segs, n - 1, agent_key, tool_use_id) + stage_edit(b, segs, n - 1, agent_key, tool_use_id)
    }
}

/// The command with a pre-filter tee in front of every `grep`, `head` or
/// `tail` stage after the first.
pub open spec fn spec_inject(b: Seq<u8>, agent_key: Seq<char>, tool_use_id: Seq<char>) -> Seq<u8> {
    let segs = spec_pipe_segments(b)->0;
    spec_apply_inserts(b, stage_edits(b, segs, segs.len() as int, agent_key, tool_use_id))
}

/// Is the word `bytes[start..end]` exactly `name`?
fn word_matches(bytes: &[u8], start: usize, end: usize, name: &str) -> (res: bool)
    ensures
        res == (end - start == utf8(name@).len() && occurs_at(bytes@, start as int, utf8(name@))),
{
    let nb = name.as_bytes();
    end >= start && end - start == nb.len() && matches_at(bytes, start, nb)
}

/// The pre-filter stream for a stage, if its first word is a filter.
fn pre_filter_stream(bytes: &[u8], seg: &PipeSegment) -> (res: Option<&'static str>)
    ensures
        filter_stream(
            bytes@,
            (seg.start as int, seg.end as int, seg.first_word_start as int, seg.first_word_end as int),
        ) == match res {
            Some(st) => Some(st@),
            None => None,
        },
{
    if word_matches(bytes, seg.first_word_start, seg.first_word_end, "grep") {
        Some("stdout-pre-grep")
    } else if word_matches(bytes, seg.first_word_start, seg.first_word_end, "head") {
        Some("stdout-pre-head")
    } else if word_matches(bytes, seg.first_word_start, seg.first_word_end, "tail") {
        Some("stdout-pre-tail")
    } else {
        None
    }
}

proof fn lemma_stage_start_nonneg(b: Seq<u8>, segs: Seq<(int, int, int, int)>, k: int)
    requires
        segments_chain(b, segs, 0),
        0 <= k < segs.len(),
    ensures
        0 <= segs[k].0 <= segs[k].1,
    decreases k,
{
    assert(segs[k].0 <= segs[k].1);
    if k > 0 {
        lemma_stage_start_nonneg(b, segs, k - 1);
        let e = segs[k - 1].1;
        assert(e + 1 < b.len() && segs[k].0 == blank_end(b, e + 1));
        lemma_blank_end(b, e + 1);
    }
}

/// Stage starts after the first lie just past a `|` or a blank, so they are
/// character boundaries.
proof fn lemma_stage_start_fits(b: Seq<u8>, segs: Seq<(int, int, int, int)>, k: int)
    requires
        valid_utf8(b),
        segments_chain(b, segs, 0),
        1 <= k < segs.len(),
    ensures
        edit_fits(b, (segs[k].0, Seq::<u8>::empty())),
{
    lemma_stage_start_nonneg(b, segs, k - 1);
    let e = segs[k - 1].1;
    assert(segs[k - 1].1 == e);
    assert(e + 1 < b.len() && b[e] == 0x7c && segs[k].0 == blank_end(b, e + 1));
    lemma_blank_end(b, e + 1);
    let p = segs[k].0;
    if p > e + 1 {
        assert(is_blank(b[p - 1]));
    }
    assert(is_cut(b, p));
    lemma_cut_is_boundary(b, p);
}

/// For every pipe segment whose first word is a "discarding filter"
/// (grep / head / tail), insert a `tee >(oby-tee --stream stdout-pre-<filter>) | `
/// immediately before that segment, so `oby-tee` gets a parallel copy of
/// what the filter consumes. The first segment (the producer) never gets one.
pub fn inject_pre_filter_tees(command: &str, agent_key: &str, tool_use_id: &str) -> (res: String)
    requires
        spec_pipe_segments(utf8(command@)) is Some,
    ensures
        utf8(res@) == spec_inject(utf8(command@), agent_key@, tool_use_id@),
{
    let segments = pipe_segments(command);
    let bytes = command.as_bytes();
    let ghost b = bytes@;
    let ghost segs = segment_tuples(segments@);
    proof {
        law_pipe_segments_chain(b);
        lemma_utf8_valid(command@);
    }
    let mut edits: Vec<(usize, String)> = Vec::new();
    let mut idx: usize = 0;
    while idx < segments.len()
        invariant
            b == bytes@,
            b == utf8(command@),
            valid_utf8(b),
            segs == segment_tuples(segments@),
            spec_pipe_segments(b) == Some(segs),
            segments_chain(b, segs, 0),
            idx <= segs.len(),
            edit_view(edits@) == stage_edits(b, segs, idx as int, agent_key@, tool_use_id@),
            all_fit(b, edit_view(edits@)),
        decreases segments.len() - idx,
    {
        let ghost before = edit_view(edits@);
        if idx > 0 {
            match pre_filter_stream(bytes, &segments[idx]) {
                Some(stream) => {
                    let mut tee = String::from_str("tee >(");
                    tee.append(obi_tee_invocation(agent_key, tool_use_id, stream).as_str());
                    tee.append(" >/dev/null) | ");
                    let pos = segments[idx].start;
                    edits.push((pos, tee));
                    proof {
                        lemma_stage_start_fits(b, segs, idx as int);
                        assert(edit_view(edits@) =~= before + stage_edit(b, segs, idx as int, agent_key@, tool_use_id@));
                        assert forall|k: int| 0 <= k < edit_view(edits@).len() implies edit_fits(
                            b,
                            #[trigger] edit_view(edits@)[k],
                        ) by {
                            if k < before.len() {
                                assert(edit_view(edits@)[k] == before[k]);
                            }
                        }
                    }
                },
                None => {
                    assert(edit_view(edits@) =~= before + stage_edit(b, segs, idx as int, agent_key@, tool_use_id@));
                },
            }
        } else {
            assert(edit_view(edits@) =~= before + stage_edit(b, segs, idx as int, agent_key@, tool_use_id@));
        }
        idx += 1;
    }
    apply_inserts(command, edits)
}

/// The text after the wrapped command: stdout and stderr each teed to an
/// `oby-tee` sink and passed through.
pub open spec fn wrap_tail(agent_key: Seq<char>, tool_use_id: Seq<char>) -> Seq<char> {
    "\n} > >(tee >("@ + spec_obi_tee_invocation(agent_key, tool_use_id, "stdout"@) + " >/dev/null)) 2> >(tee >("@
        + spec_obi_tee_invocation(agent_key, tool_use_id, "stderr"@) + " >/dev/null) >&2)"@
}

/// The rewritten command: `{ INNER\n} > >(tee >(STDOUT_SINK >/dev/null)) 2> >(tee >(STDERR_SINK >/dev/null) >&2)`,
/// where INNER is the command with its `> FILE` / `>> FILE` redirects teed,
/// `2>/dev/null` neutralized and pre-filter tees injected.
pub open spec fn spec_rewrite(b: Seq<u8>, agent_key: Seq<char>, tool_use_id: Seq<char>) -> Seq<u8> {
    utf8("{ "@) + spec_inject(
        spec_neutralize(spec_tee_file_redirects(b, agent_key, tool_use_id), agent_key, tool_use_id),
        agent_key,
        tool_use_id,
    ) + utf8(
        wrap_tail(agent_key, tool_use_id),
    )
}

/// Build the rewritten command for a given agent key and tool-use id.
/// Returns `None` if the shell doesn't support the constructs the rewrite
/// needs (safe fallback: passthrough).
pub fn rewrite(command: &str, agent_key: &str, tool_use_id: &str, shell: Shell) -> (res: Option<String>)
    requires
        spec_supports_process_substitution(shell) ==> spec_redirects(utf8(command@)) is Some
            && spec_pipe_segments(
            spec_neutralize(spec_tee_file_redirects(utf8(command@), agent_key@, tool_use_id@), agent_key@, tool_use_id@),
        ) is Some,
    ensures
        !spec_supports_process_substitution(shell) ==> res is None,
        spec_supports_process_substitution(shell) ==> (res matches Some(r) && utf8(r@) == spec_rewrite(
            utf8(command@),
            agent_key@,
            tool_use_id@,
        )),
{
    if !shell.supports_process_substitution() {
        return None;
    }
    let teed = tee_file_redirects(command, agent_key, tool_use_id);
    let neutralized = neutralize_dev_null_stderr(teed.as_str(), agent_key, tool_use_id);
    let inner = inject_pre_filter_tees(neutralized.as_str(), agent_key, tool_use_id);
    let stdout_sink = obi_tee_invocation(agent_key, tool_use_id, "stdout");
    let stderr_sink = obi_tee_invocation(agent_key, tool_use_id, "stderr");
    let mut out = String::from_str("{ ");
    out.append(inner.as_str());
    out.append("\n} > >(tee >(");
    out.append(stdout_sink.as_str());
    out.append(" >/dev/null)) 2> >(tee >(");
    out.append(stderr_sink.as_str());
    out.append(" >/dev/null) >&2)");
    proof {
        let t = wrap_tail(agent_key@, tool_use_id@);
        assert(out@ =~= "{ "@ + inner@ + t);
        lemma_utf8_concat("{ "@ + inner@, t);
        lemma_utf8_concat("{ "@, inner@);
    }
    Some(out)
}

proof fn lemma_replace_in_none(b: Seq<u8>, from: int, to: int, n: Seq<u8>, rep: Seq<u8>)
    requires
        n.len() > 0,
        0 <= from,
        forall|j: int| from <= j && j + n.len() <= to ==> !occurs_at(b, j, n),
    ensures
        replace_in(b, from, to, n, rep) == b.subrange(from, to),
{
    lemma_first_occ_none(b, from, to, n);
}

proof fn lemma_replace_in_spans_none(
    b: Seq<u8>,
    sp: Seq<(int, int)>,
    k: int,
    cursor: int,
    n: Seq<u8>,
    rep: Seq<u8>,
)
    requires
        n.len() > 0,
        spans_within(sp, 0, b.len() as int),
        spans_ordered(sp),
        0 <= k,
        0 <= cursor <= b.len(),
        k < sp.len() ==> cursor <= sp[k].0,
        forall|m: int, j: int|
            k <= m < sp.len() && sp[m].0 <= j && j + n.len() <= sp[m].1 ==> !occurs_at(b, j, n),
    ensures
        replace_in_spans(b, sp, k, cursor, n, rep) == b.subrange(cursor, b.len() as int),
    decreases sp.len() - k,
{
    if k >= sp.len() {
        if cursor == b.len() {
            assert(b.subrange(cursor, b.len() as int) =~= Seq::<u8>::empty());
        }
    } else {
        let (st, en) = sp[k];
        assert(0 <= st < en <= b.len());
        lemma_replace_in_none(b, st, en, n, rep);
        if k + 1 < sp.len() {
            assert(sp[k].1 < sp[k + 1].0);
        }
        lemma_replace_in_spans_none(b, sp, k + 1, en, n, rep);
        let pre = if cursor < st {
            b.subrange(cursor, st)
        } else {
            Seq::<u8>::empty()
        };
        assert(pre =~= b.subrange(cursor, st));
        assert(b.subrange(cursor, st) + b.subrange(st, en) + b.subrange(en, b.len() as int) =~= b.subrange(
            cursor,
            b.len() as int,
        ));
    }
}

/// Law: a command with no unquoted, uncommented `2>/dev/null` passes through
/// the neutralization unchanged.
pub proof fn law_neutralize_passthrough(b: Seq<u8>, agent_key: Seq<char>, tool_use_id: Seq<char>)
    requires
        !spec_code_contains(b, dev_null_stderr()),
    ensures
        spec_neutralize(b, agent_key, tool_use_id) == b,
{
    lemma_dev_null_stderr();
    law_code_spans_well_formed(b);
    let sp = spec_code_spans(b);
    let n = dev_null_stderr();
    assert forall|m: int, j: int| 0 <= m < sp.len() && sp[m].0 <= j && j + n.len() <= sp[m].1 implies !occurs_at(
        b,
        j,
        n,
    ) by {
    }
    lemma_replace_in_spans_none(
        b,
        sp,
        0,
        0,
        n,
        utf8("2> "@) + utf8(spec_discard_sink(agent_key, tool_use_id)),
    );
    assert(b.subrange(0, b.len() as int) =~= b);
}

proof fn lemma_stage_edits_empty(
    b: Seq<u8>,
    segs: Seq<(int, int, int, int)>,
    n: int,
    agent_key: Seq<char>,
    tool_use_id: Seq<char>,
)
    requires
        n <= segs.len(),
        forall|k: int| 1 <= k < n ==> filter_stream(b, #[trigger] segs[k]) is None,
    ensures
        stage_edits(b, segs, n, agent_key, tool_use_id) == Seq::<Edit>::empty(),
    decreases n,
{
    if n > 0 {
        lemma_stage_edits_empty(b, segs, n - 1, agent_key, tool_use_id);
        assert(stage_edit(b, segs, n - 1, agent_key, tool_use_id) =~= Seq::<Edit>::empty());
        assert(stage_edits(b, segs, n, agent_key, tool_use_id) =~= Seq::<Edit>::empty());
    }
}

/// Law: a pipeline whose stages after the first are no `grep`, `head` or
/// `tail` (a single command among them) passes through the pre-filter
/// injection unchanged.
pub proof fn law_inject_passthrough(b: Seq<u8>, agent_key: Seq<char>, tool_use_id: Seq<char>)
    requires
        spec_pipe_segments(b) is Some,
        forall|k: int|
            1 <= k < spec_pipe_segments(b)->0.len() ==> filter_stream(b, #[trigger] spec_pipe_segments(b)->0[k])
                is None,
    ensures
        spec_inject(b, agent_key, tool_use_id) == b,
{
    let segs = spec_pipe_segments(b)->0;
    lemma_stage_edits_empty(b, segs, segs.len() as int, agent_key, tool_use_id);
    assert(sort_desc(Seq::<Edit>::empty()) =~= Seq::<Edit>::empty());
}

/// Law: a command with nothing to recover inside (no unquoted
/// `2>/dev/null`, no piped filter, no bare file redirect) is only wrapped: the rewrite is
/// `{ COMMAND\n} ...` with the command itself inside, byte for byte.
pub proof fn law_rewrite_plain_command(b: Seq<u8>, agent_key: Seq<char>, tool_use_id: Seq<char>)
    requires
        !spec_code_contains(b, dev_null_stderr()),
        spec_pipe_segments(b) is Some,
        forall|k: int|
            1 <= k < spec_pipe_segments(b)->0.len() ==> filter_stream(b, #[trigger] spec_pipe_segments(b)->0[k])
                is None,
        spec_redirects(b) == Some(Seq::<RedirectTuple>::empty()),
    ensures
        spec_rewrite(b, agent_key, tool_use_id) == utf8("{ "@) + b + utf8(wrap_tail(agent_key, tool_use_id)),
{
    assert(spec_tee_file_redirects(b, agent_key, tool_use_id) =~= b);
    law_neutralize_passthrough(b, agent_key, tool_use_id);
    law_inject_passthrough(b, agent_key, tool_use_id);
}

/// Law: with no edits, `apply_inserts` returns the command unchanged.
pub proof fn law_apply_no_edits(b: Seq<u8>)
    ensures
        spec_apply_inserts(b, Seq::<Edit>::empty()) == b,
{
    assert(sort_desc(Seq::<Edit>::empty()) =~= Seq::<Edit>::empty());
}
/// The pieces of the xtrace wrap for `shell`, as `Shell::xtrace_wrap` builds
/// them: the prefix at the top of the brace block, the stderr redirect, and
/// the trailing descriptor redirect.
pub open spec fn xtrace_pieces(shell: Shell, stderr_sink: Seq<char>, xtrace_sink: Seq<char>) -> (
    Seq<char>,
    Seq<char>,
    Seq<char>,
) {
    match shell {
        Shell::Bash => (
            "BASH_XTRACEFD=9\nset -x\n"@,
            spec_tee_stderr_redirect(stderr_sink),
            "9> >("@ + xtrace_sink + " >/dev/null)"@,
        ),
        Shell::Zsh => (
            "PS4='__OBYXT__+(%N):%i> '\nset -x\n"@,
            "2> >("@ + spec_zsh_demuxer(stderr_sink, xtrace_sink) + ")"@,
            Seq::<char>::empty(),
        ),
        Shell::Other => (Seq::<char>::empty(), spec_tee_stderr_redirect(stderr_sink), Seq::<char>::empty()),
    }
}

/// The text after the traced block's inner command: stdout teed to its sink,
/// then the shell's stderr redirect and, under bash, the xtrace descriptor.
pub open spec fn traced_tail(agent_key: Seq<char>, tool_use_id: Seq<char>, shell: Shell) -> Seq<char> {
    let p = xtrace_pieces(
        shell,
        spec_obi_tee_invocation(agent_key, tool_use_id, "stderr"@),
        spec_obi_tee_invocation(agent_key, tool_use_id, "xtrace"@),
    );
    "\n} > >(tee >("@ + spec_obi_tee_invocation(agent_key, tool_use_id, "stdout"@) + " >/dev/null)) "@ + p.1
        + if shell is Bash {
        " "@ + p.2
    } else {
        Seq::<char>::empty()
    }
}

/// The traced rewrite: `{ PREFIX INNER\n} > >(tee >(STDOUT_SINK >/dev/null)) STDERR_REDIRECT [XTRACE_FDS]`,
/// with INNER as in `spec_rewrite` and the pieces of `xtrace_pieces`, the
/// trace going to the `xtrace` stream.
pub open spec fn spec_traced_rewrite(b: Seq<u8>, agent_key: Seq<char>, tool_use_id: Seq<char>, shell: Shell) -> Seq<u8> {
    let p = xtrace_pieces(
        shell,
        spec_obi_tee_invocation(agent_key, tool_use_id, "stderr"@),
        spec_obi_tee_invocation(agent_key, tool_use_id, "xtrace"@),
    );
    utf8("{ "@ + p.0) + spec_inject(
        spec_neutralize(spec_tee_file_redirects(b, agent_key, tool_use_id), agent_key, tool_use_id),
        agent_key,
        tool_use_id,
    ) + utf8(traced_tail(agent_key, tool_use_id, shell))
}

/// The rewrite the Bash hook emits: `rewrite`'s wrap with the shell's
/// execution trace sent to an `xtrace` stream (bash through
/// `BASH_XTRACEFD=9`, zsh through a `PS4` sentinel and an awk demuxer).
/// `None` if the shell doesn't support process substitution.
pub fn traced_rewrite(command: &str, agent_key: &str, tool_use_id: &str, shell: Shell) -> (res: Option<String>)
    requires
        spec_supports_process_substitution(shell) ==> spec_redirects(utf8(command@)) is Some
            && spec_pipe_segments(
            spec_neutralize(spec_tee_file_redirects(utf8(command@), agent_key@, tool_use_id@), agent_key@, tool_use_id@),
        ) is Some,
    ensures
        !spec_supports_process_substitution(shell) ==> res is None,
        spec_supports_process_substitution(shell) ==> (res matches Some(r) && utf8(r@) == spec_traced_rewrite(
            utf8(command@),
            agent_key@,
            tool_use_id@,
            shell,
        )),
{
    if !shell.supports_process_substitution() {
        return None;
    }
    let teed = tee_file_redirects(command, agent_key, tool_use_id);
    let neutralized = neutralize_dev_null_stderr(teed.as_str(), agent_key, tool_use_id);
    let inner = inject_pre_filter_tees(neutralized.as_str(), agent_key, tool_use_id);
    let stdout_sink = obi_tee_invocation(agent_key, tool_use_id, "stdout");
    let stderr_sink = obi_tee_invocation(agent_key, tool_use_id, "stderr");
    let xtrace_sink = obi_tee_invocation(agent_key, tool_use_id, "xtrace");
    let wrap = shell.xtrace_wrap(stderr_sink.as_str(), xtrace_sink.as_str());
    let mut out = String::from_str("{ ");
    out.append(wrap.prefix.as_str());
    let ghost head = out@;
    out.append(inner.as_str());
    out.append("\n} > >(tee >(");
    out.append(stdout_sink.as_str());
    out.append(" >/dev/null)) ");
    out.append(wrap.stderr_redirect.as_str());
    match shell {
        Shell::Bash => {
            out.append(" ");
            out.append(wrap.xtrace_fds.as_str());
        },
        _ => {},
    }
    proof {
        let t = traced_tail(agent_key@, tool_use_id@, shell);
        let p = xtrace_pieces(shell, stderr_sink@, xtrace_sink@);
        assert(p == (wrap.prefix@, wrap.stderr_redirect@, wrap.xtrace_fds@));
        assert(head =~= "{ "@ + p.0);
        assert(out@ =~= head + inner@ + t);
        lemma_utf8_concat(head + inner@, t);
        lemma_utf8_concat(head, inner@);
    }
    Some(out)
}

/// The rewrite `oby-hook` emits for a Bash command: `traced_rewrite` when the
/// shell supports process substitution and both the command and the
/// command with its file redirects teed and `2>/dev/null` neutralized are
/// at most `u32::MAX` bytes (so their nesting fits the scanner's counters);
/// `None`, meaning passthrough, otherwise.
pub fn hook_rewrite(command: &str, agent_key: &str, tool_use_id: &str, shell: Shell) -> (res: Option<String>)
    ensures
        match res {
            Some(r) => spec_supports_process_substitution(shell) && utf8(r@) == spec_traced_rewrite(
                utf8(command@),
                agent_key@,
                tool_use_id@,
                shell,
            ),
            None => !spec_supports_process_substitution(shell) || utf8(command@).len() > 0xffff_ffff
                || spec_neutralize(
                spec_tee_file_redirects(utf8(command@), agent_key@, tool_use_id@),
                agent_key@,
                tool_use_id@,
            ).len() > 0xffff_ffff,
        },
{
    if !shell.supports_process_substitution() {
        return None;
    }
    let n0: usize = command.as_bytes().len();
    if n0 as u64 > 0xffff_ffffu64 {
        return None;
    }
    proof {
        law_short_commands_fit(utf8(command@));
    }
    let teed = tee_file_redirects(command, agent_key, tool_use_id);
    let neutralized = neutralize_dev_null_stderr(teed.as_str(), agent_key, tool_use_id);
    let n: usize = neutralized.as_str().as_bytes().len();
    if n as u64 > 0xffff_ffffu64 {
        return None;
    }
    proof {
        law_short_commands_fit(utf8(neutralized@));
    }
    traced_rewrite(command, agent_key, tool_use_id, shell)
}

/// `f` maps each byte of `a` to an equal byte of `c`, in increasing
/// positions.
pub open spec fn embeds(a: Seq<u8>, c: Seq<u8>, f: spec_fn(int) -> int) -> bool {
    &&& forall|i: int| 0 <= i < a.len() ==> 0 <= #[trigger] f(i) < c.len() && c[f(i)] == a[i]
    &&& forall|i: int, j: int| 0 <= i < j < a.len() ==> #[trigger] f(i) < #[trigger] f(j)
}

/// The bytes of `a` occur in `c` in order (with possibly more in between).
pub open spec fn is_subsequence(a: Seq<u8>, c: Seq<u8>) -> bool {
    exists|f: spec_fn(int) -> int| embeds(a, c, f)
}

proof fn lemma_splice_embeds(c: Seq<u8>, p: int, t: Seq<u8>)
    requires
        0 <= p <= c.len(),
    ensures
        embeds(c, splice(c, p, t), |i: int| if i < p { i } else { i + t.len() }),
{
    let r = splice(c, p, t);
    let f = |i: int| if i < p { i } else { i + t.len() };
    assert forall|i: int| 0 <= i < c.len() implies 0 <= #[trigger] f(i) < r.len() && r[f(i)] == c[i] by {
        if i < p {
            assert(r[i] == c.subrange(0, p)[i]);
        } else {
            assert(r[i + t.len()] == c.subrange(p, c.len() as int)[i - p]);
        }
    }
}

proof fn lemma_embeds_trans(a: Seq<u8>, b: Seq<u8>, c: Seq<u8>, f: spec_fn(int) -> int, g: spec_fn(int) -> int)
    requires
        embeds(a, b, f),
        embeds(b, c, g),
    ensures
        embeds(a, c, |i: int| g(f(i))),
{
    let h = |i: int| g(f(i));
    assert forall|i: int| 0 <= i < a.len() implies 0 <= #[trigger] h(i) < c.len() && c[h(i)] == a[i] by {
        assert(0 <= f(i) < b.len());
    }
    assert forall|i: int, j: int| 0 <= i < j < a.len() implies #[trigger] h(i) < #[trigger] h(j) by {
        assert(f(i) < f(j));
        assert(0 <= f(i) < b.len() && 0 <= f(j) < b.len());
    }
}

proof fn lemma_apply_seq_embeds(b: Seq<u8>, es: Seq<Edit>)
    requires
        forall|k: int| 0 <= k < es.len() ==> 0 <= (#[trigger] es[k]).0 <= b.len(),
    ensures
        is_subsequence(b, apply_seq(b, es)),
        apply_seq(b, es).len() >= b.len(),
    decreases es.len(),
{
    if es.len() == 0 {
        let id = |i: int| i;
        assert(embeds(b, b, id));
    } else {
        let init = es.drop_last();
        assert forall|k: int| 0 <= k < init.len() implies 0 <= (#[trigger] init[k]).0 <= b.len() by {
            assert(init[k] == es[k]);
        }
        lemma_apply_seq_embeds(b, init);
        let c = apply_seq(b, init);
        let f = choose|f: spec_fn(int) -> int| embeds(b, c, f);
        let e = es.last();
        assert(e == es[es.len() - 1]);
        lemma_splice_embeds(c, e.0, e.1);
        let g = |i: int| if i < e.0 { i } else { i + e.1.len() };
        lemma_embeds_trans(b, c, splice(c, e.0, e.1), f, g);
    }
}

proof fn lemma_stage_edits_fit(
    b: Seq<u8>,
    segs: Seq<(int, int, int, int)>,
    n: int,
    agent_key: Seq<char>,
    tool_use_id: Seq<char>,
)
    requires
        valid_utf8(b),
        segments_chain(b, segs, 0),
        n <= segs.len(),
    ensures
        all_fit(b, stage_edits(b, segs, n, agent_key, tool_use_id)),
    decreases n,
{
    if n > 0 {
        lemma_stage_edits_fit(b, segs, n - 1, agent_key, tool_use_id);
        let prev = stage_edits(b, segs, n - 1, agent_key, tool_use_id);
        let piece = stage_edit(b, segs, n - 1, agent_key, tool_use_id);
        let all = stage_edits(b, segs, n, agent_key, tool_use_id);
        if n - 1 >= 1 {
            lemma_stage_start_fits(b, segs, n - 1);
        }
        assert forall|k: int| 0 <= k < all.len() implies edit_fits(b, #[trigger] all[k]) by {
            if k < prev.len() {
                assert(all[k] == prev[k]);
            } else {
                assert(all[k] == piece[k - prev.len()]);
            }
        }
    }
}

/// Law: the rewrite's insertions only add text: the command's bytes
/// survive, in order, in what `apply_inserts` returns, and so in the
/// pre-filter injection (the command's own `| grep` stays where it was).
pub proof fn law_inserts_keep_command(b: Seq<u8>, es: Seq<Edit>, agent_key: Seq<char>, tool_use_id: Seq<char>)
    requires
        valid_utf8(b),
        all_fit(b, es),
    ensures
        is_subsequence(b, spec_apply_inserts(b, es)),
        spec_pipe_segments(b) is Some ==> is_subsequence(b, spec_inject(b, agent_key, tool_use_id)),
{
    lemma_sort_desc(b, es);
    let sorted = sort_desc(es);
    assert forall|k: int| 0 <= k < sorted.len() implies 0 <= (#[trigger] sorted[k]).0 <= b.len() by {
        assert(edit_fits(b, sorted[k]));
    }
    lemma_apply_seq_embeds(b, sorted);
    if spec_pipe_segments(b) is Some {
        let segs = spec_pipe_segments(b)->0;
        law_pipe_segments_chain(b);
        let edits = stage_edits(b, segs, segs.len() as int, agent_key, tool_use_id);
        lemma_stage_edits_fit(b, segs, segs.len() as int, agent_key, tool_use_id);
        lemma_sort_desc(b, edits);
        let sorted2 = sort_desc(edits);
        assert forall|k: int| 0 <= k < sorted2.len() implies 0 <= (#[trigger] sorted2[k]).0 <= b.len() by {
            assert(edit_fits(b, sorted2[k]));
        }
        lemma_apply_seq_embeds(b, sorted2);
    }
}


proof fn lemma_subseq_refl(a: Seq<u8>)
    ensures
        is_subsequence(a, a),
{
    let id = |i: int| i;
    assert(embeds(a, a, id));
}

proof fn lemma_subseq_pad(a: Seq<u8>, pre: Seq<u8>, post: Seq<u8>)
    ensures
        is_subsequence(a, pre + a + post),
{
    let c = pre + a + post;
    let f = |i: int| i + pre.len();
    assert forall|i: int| 0 <= i < a.len() implies 0 <= #[trigger] f(i) < c.len() && c[f(i)] == a[i] by {
        assert(c[i + pre.len()] == (pre + a)[i + pre.len()]);
    }
    assert(embeds(a, c, f));
}

proof fn lemma_subseq_trans(a: Seq<u8>, b: Seq<u8>, c: Seq<u8>)
    requires
        is_subsequence(a, b),
        is_subsequence(b, c),
    ensures
        is_subsequence(a, c),
{
    let f = choose|f: spec_fn(int) -> int| embeds(a, b, f);
    let g = choose|g: spec_fn(int) -> int| embeds(b, c, g);
    lemma_embeds_trans(a, b, c, f, g);
    let h = |i: int| g(f(i));
    assert(embeds(a, c, h));
}

proof fn lemma_subseq_concat(a1: Seq<u8>, c1: Seq<u8>, a2: Seq<u8>, c2: Seq<u8>)
    requires
        is_subsequence(a1, c1),
        is_subsequence(a2, c2),
    ensures
        is_subsequence(a1 + a2, c1 + c2),
{
    let f1 = choose|f: spec_fn(int) -> int| embeds(a1, c1, f);
    let f2 = choose|f: spec_fn(int) -> int| embeds(a2, c2, f);
    let a = a1 + a2;
    let c = c1 + c2;
    let h = |i: int| if i < a1.len() { f1(i) } else { c1.len() + f2(i - a1.len()) };
    assert forall|i: int| 0 <= i < a.len() implies 0 <= #[trigger] h(i) < c.len() && c[h(i)] == a[i] by {
        if i < a1.len() {
            assert(0 <= f1(i) < c1.len());
        } else {
            assert(0 <= f2(i - a1.len()) < c2.len());
        }
    }
    assert forall|i: int, j: int| 0 <= i < j < a.len() implies #[trigger] h(i) < #[trigger] h(j) by {
        if i < a1.len() {
            assert(0 <= f1(i) < c1.len());
            if j < a1.len() {
                assert(f1(i) < f1(j));
            } else {
                assert(0 <= f2(j - a1.len()) < c2.len());
            }
        } else {
            assert(f2(i - a1.len()) < f2(j - a1.len()));
        }
    }
    assert(embeds(a, c, h));
}

/// The bytes of `2>/dev/null` survive, in order, in its replacement.
proof fn lemma_dev_null_in_replacement(agent_key: Seq<char>, tool_use_id: Seq<char>)
    ensures
        is_subsequence(
            dev_null_stderr(),
            utf8("2> "@) + utf8(spec_discard_sink(agent_key, tool_use_id)),
        ),
{
    reveal_strlit("2>/dev/null");
    reveal_strlit("2>");
    reveal_strlit("/dev/null");
    reveal_strlit("2> ");
    reveal_strlit(" ");
    reveal_strlit(" --stream stderr-discarded >/dev/null)");
    reveal_strlit(" --stream stderr-discarded >");
    reveal_strlit(")");
    let two = "2>"@;
    let path = "/dev/null"@;
    assert("2>/dev/null"@ =~= two + path);
    lemma_utf8_concat(two, path);
    assert("2> "@ =~= two + " "@);
    lemma_utf8_concat(two, " "@);
    let tail = " --stream stderr-discarded >/dev/null)"@;
    assert(tail =~= " --stream stderr-discarded >"@ + path + ")"@);
    lemma_utf8_concat(" --stream stderr-discarded >"@ + path, ")"@);
    lemma_utf8_concat(" --stream stderr-discarded >"@, path);
    let head = ">(oby-tee --agent "@ + spec_shell_escape(agent_key) + " --tool-use-id "@ + spec_shell_escape(
        tool_use_id,
    );
    assert(spec_discard_sink(agent_key, tool_use_id) == head + tail);
    lemma_utf8_concat(head, tail);
    let e = Seq::<u8>::empty();
    lemma_subseq_pad(utf8(two), e, utf8(" "@));
    assert(e + utf8(two) + utf8(" "@) =~= utf8("2> "@));
    lemma_subseq_pad(utf8(path), utf8(head) + utf8(" --stream stderr-discarded >"@), utf8(")"@));
    assert(utf8(head) + utf8(" --stream stderr-discarded >"@) + utf8(path) + utf8(")"@) =~= utf8(
        spec_discard_sink(agent_key, tool_use_id),
    ));
    lemma_subseq_concat(
        utf8(two),
        utf8("2> "@),
        utf8(path),
        utf8(spec_discard_sink(agent_key, tool_use_id)),
    );
}

proof fn lemma_replace_in_keeps(b: Seq<u8>, from: int, to: int, n: Seq<u8>, rep: Seq<u8>)
    requires
        0 <= from <= to <= b.len(),
        is_subsequence(n, rep),
    ensures
        is_subsequence(b.subrange(from, to), replace_in(b, from, to, n, rep)),
    decreases to - from,
{
    if n.len() == 0 {
        lemma_subseq_refl(b.subrange(from, to));
    } else {
        lemma_first_occ_bounds(b, from, to, n);
        match first_occ(b, from, to, n) {
            Some(j) => {
                let pre = b.subrange(from, j);
                let rest = b.subrange(j + n.len(), to);
                lemma_replace_in_keeps(b, j + n.len(), to, n, rep);
                lemma_subseq_refl(pre);
                lemma_subseq_concat(pre, pre, n, rep);
                lemma_subseq_concat(pre + n, pre + rep, rest, replace_in(b, j + n.len(), to, n, rep));
                assert(b.subrange(from, to) =~= pre + n + rest);
            },
            None => {
                lemma_subseq_refl(b.subrange(from, to));
            },
        }
    }
}

proof fn lemma_replace_in_spans_keeps(
    b: Seq<u8>,
    sp: Seq<(int, int)>,
    k: int,
    cursor: int,
    n: Seq<u8>,
    rep: Seq<u8>,
)
    requires
        spans_within(sp, 0, b.len() as int),
        spans_ordered(sp),
        0 <= k,
        0 <= cursor <= b.len(),
        k < sp.len() ==> cursor <= sp[k].0,
        is_subsequence(n, rep),
    ensures
        is_subsequence(b.subrange(cursor, b.len() as int), replace_in_spans(b, sp, k, cursor, n, rep)),
    decreases sp.len() - k,
{
    if k >= sp.len() {
        if cursor < b.len() {
            lemma_subseq_refl(b.subrange(cursor, b.len() as int));
        } else {
            assert(b.subrange(cursor, b.len() as int) =~= seq![]);
            lemma_subseq_refl(Seq::<u8>::empty());
        }
    } else {
        let (st, en) = sp[k];
        if k + 1 < sp.len() {
            assert(sp[k].1 < sp[k + 1].0);
        }
        lemma_replace_in_spans_keeps(b, sp, k + 1, en, n, rep);
        lemma_replace_in_keeps(b, st, en, n, rep);
        let gap = b.subrange(cursor, st);
        let pre = if cursor < st {
            b.subrange(cursor, st)
        } else {
            seq![]
        };
        assert(pre =~= gap);
        lemma_subseq_refl(gap);
        lemma_subseq_concat(gap, gap, b.subrange(st, en), replace_in(b, st, en, n, rep));
        lemma_subseq_concat(
            gap + b.subrange(st, en),
            gap + replace_in(b, st, en, n, rep),
            b.subrange(en, b.len() as int),
            replace_in_spans(b, sp, k + 1, en, n, rep),
        );
        assert(b.subrange(cursor, b.len() as int) =~= gap + b.subrange(st, en) + b.subrange(
            en,
            b.len() as int,
        ));
    }
}

/// On valid UTF-8, neutralizing keeps every byte in order and gives valid
/// UTF-8.
proof fn lemma_neutralize_keeps(t: Seq<u8>, agent_key: Seq<char>, tool_use_id: Seq<char>)
    requires
        valid_utf8(t),
    ensures
        is_subsequence(t, spec_neutralize(t, agent_key, tool_use_id)),
        valid_utf8(spec_neutralize(t, agent_key, tool_use_id)),
{
    let n = dev_null_stderr();
    let rep = utf8("2> "@) + utf8(spec_discard_sink(agent_key, tool_use_id));
    let sp = spec_code_spans(t);
    law_code_spans_well_formed(t);
    lemma_dev_null_in_replacement(agent_key, tool_use_id);
    lemma_replace_in_spans_keeps(t, sp, 0, 0, n, rep);
    assert(t.subrange(0, t.len() as int) =~= t);
    lemma_code_spans_cuts(t);
    lemma_utf8_valid("2> "@);
    lemma_utf8_valid(spec_discard_sink(agent_key, tool_use_id));
    lemma_concat_valid(utf8("2> "@), utf8(spec_discard_sink(agent_key, tool_use_id)));
    lemma_replace_in_spans_valid(t, sp, 0, 0, rep);
}

/// The command's bytes survive, in order, through the tee of its file
/// redirects, the neutralizing and the pre-filter injection.
proof fn lemma_inner_keeps(b: Seq<u8>, agent_key: Seq<char>, tool_use_id: Seq<char>)
    requires
        valid_utf8(b),
        spec_redirects(b) is Some,
        spec_pipe_segments(spec_neutralize(spec_tee_file_redirects(b, agent_key, tool_use_id), agent_key, tool_use_id))
            is Some,
    ensures
        is_subsequence(
            b,
            spec_inject(
                spec_neutralize(spec_tee_file_redirects(b, agent_key, tool_use_id), agent_key, tool_use_id),
                agent_key,
                tool_use_id,
            ),
        ),
{
    let t = spec_tee_file_redirects(b, agent_key, tool_use_id);
    law_tee_file_redirects_keeps_command(b, agent_key, tool_use_id);
    law_tee_file_redirects_valid(b, agent_key, tool_use_id);
    lemma_neutralize_keeps(t, agent_key, tool_use_id);
    let neutral = spec_neutralize(t, agent_key, tool_use_id);
    law_inserts_keep_command(neutral, seq![], agent_key, tool_use_id);
    lemma_subseq_trans(b, t, neutral);
    lemma_subseq_trans(b, neutral, spec_inject(neutral, agent_key, tool_use_id));
}

/// Law: the rewrite only adds text. Every byte of the command survives, in
/// order, in the command with `2>/dev/null` neutralized (its bytes stay
/// inside the `2> >(… >/dev/null)` that replaces it), and in the whole
/// rewritten command, whose file redirects are teed as well.
pub proof fn law_rewrite_keeps_command(b: Seq<u8>, agent_key: Seq<char>, tool_use_id: Seq<char>)
    requires
        valid_utf8(b),
        spec_redirects(b) is Some,
        spec_pipe_segments(spec_neutralize(spec_tee_file_redirects(b, agent_key, tool_use_id), agent_key, tool_use_id))
            is Some,
    ensures
        is_subsequence(b, spec_neutralize(b, agent_key, tool_use_id)),
        is_subsequence(b, spec_rewrite(b, agent_key, tool_use_id)),
{
    lemma_neutralize_keeps(b, agent_key, tool_use_id);
    lemma_inner_keeps(b, agent_key, tool_use_id);
    let inner = spec_inject(
        spec_neutralize(spec_tee_file_redirects(b, agent_key, tool_use_id), agent_key, tool_use_id),
        agent_key,
        tool_use_id,
    );
    lemma_subseq_pad(inner, utf8("{ "@), utf8(wrap_tail(agent_key, tool_use_id)));
    lemma_subseq_trans(b, inner, spec_rewrite(b, agent_key, tool_use_id));
}

/// Law: the traced rewrite, too, only adds text: every byte of the command
/// survives, in order, in it, whatever the shell's xtrace pieces are.
pub proof fn law_traced_rewrite_keeps_command(
    b: Seq<u8>,
    agent_key: Seq<char>,
    tool_use_id: Seq<char>,
    shell: Shell,
)
    requires
        valid_utf8(b),
        spec_redirects(b) is Some,
        spec_pipe_segments(spec_neutralize(spec_tee_file_redirects(b, agent_key, tool_use_id), agent_key, tool_use_id))
            is Some,
    ensures
        is_subsequence(b, spec_traced_rewrite(b, agent_key, tool_use_id, shell)),
{
    lemma_inner_keeps(b, agent_key, tool_use_id);
    let inner = spec_inject(
        spec_neutralize(spec_tee_file_redirects(b, agent_key, tool_use_id), agent_key, tool_use_id),
        agent_key,
        tool_use_id,
    );
    let p = xtrace_pieces(
        shell,
        spec_obi_tee_invocation(agent_key, tool_use_id, "stderr"@),
        spec_obi_tee_invocation(agent_key, tool_use_id, "xtrace"@),
    );
    lemma_subseq_pad(inner, utf8("{ "@ + p.0), utf8(traced_tail(agent_key, tool_use_id, shell)));
    lemma_subseq_trans(b, inner, spec_traced_rewrite(b, agent_key, tool_use_id, shell));
}

/// The opening of the process substitution that replaces a file redirect:
/// ` 1> >(tee ` and, for `>>`, `-a `.
pub open spec fn file_tee_open(append: bool) -> Seq<u8> {
    utf8(" 1> >(tee "@) + if append {
        utf8("-a "@)
    } else {
        Seq::<u8>::empty()
    }
}

/// What replaces a `> FILE` (or `>> FILE`) redirect: stdout goes to `tee`,
/// which writes the file (appending for `>>`) and a copy to `oby-tee` on the
/// `stdout-to-file` stream, and discards its own output, so the command's
/// visible output is as before. `gap` and `target` are the redirect's own
/// bytes between the operator and the target, and the target as written.
pub open spec fn spec_file_tee(
    agent_key: Seq<char>,
    tool_use_id: Seq<char>,
    append: bool,
    gap: Seq<u8>,
    target: Seq<u8>,
) -> Seq<u8> {
    file_tee_open(append) + gap + target + utf8(" >("@) + utf8(
        spec_obi_tee_invocation(agent_key, tool_use_id, "stdout-to-file"@),
    ) + utf8(" >/dev/null) >/dev/null)"@)
}

/// The command's bytes from `cursor` on, with the redirects from index `k`
/// of `rs` replaced by their tees.
pub open spec fn file_tees_from(
    b: Seq<u8>,
    rs: Seq<RedirectTuple>,
    k: int,
    cursor: int,
    agent_key: Seq<char>,
    tool_use_id: Seq<char>,
) -> Seq<u8>
    decreases rs.len() - k,
{
    if k < 0 || k >= rs.len() {
        b.subrange(cursor, b.len() as int)
    } else {
        let r = rs[k];
        b.subrange(cursor, r.1) + spec_file_tee(
            agent_key,
            tool_use_id,
            r.0,
            b.subrange(r.2, r.3),
            b.subrange(r.3, r.4),
        ) + file_tees_from(b, rs, k + 1, r.4, agent_key, tool_use_id)
    }
}

/// The command with each bare `> FILE` / `>> FILE` redirect (as `redirects`
/// finds them) replaced by its tee.
pub open spec fn spec_tee_file_redirects(b: Seq<u8>, agent_key: Seq<char>, tool_use_id: Seq<char>) -> Seq<u8> {
    file_tees_from(b, spec_redirects(b)->0, 0, 0, agent_key, tool_use_id)
}

/// The bytes one redirect's step of `tee_file_redirects` appends: the text
/// before the redirect, then its tee.
pub open spec fn file_tee_pieces(b: Seq<u8>, cursor: int, r: RedirectTuple, ak: Seq<char>, tid: Seq<char>) -> Seq<u8> {
    b.subrange(cursor, r.1) + file_tee_open(r.0) + b.subrange(r.2, r.3) + b.subrange(r.3, r.4) + utf8(" >("@) + utf8(
        spec_obi_tee_invocation(ak, tid, "stdout-to-file"@),
    ) + utf8(" >/dev/null) >/dev/null)"@)
}

proof fn lemma_file_tee_valid(b: Seq<u8>, cursor: int, r: RedirectTuple, out0: Seq<u8>, ak: Seq<char>, tid: Seq<char>)
    requires
        valid_utf8(b),
        valid_utf8(out0),
        0 <= cursor <= r.1,
        r.1 < r.2 <= r.3 <= r.4 <= b.len(),
        is_cut(b, cursor),
        is_cut(b, r.1),
        is_cut(b, r.3),
        is_cut(b, r.4),
        b[r.2 - 1] == 0x3e,
    ensures
        valid_utf8(out0 + file_tee_pieces(b, cursor, r, ak, tid)),
{
    let pre = b.subrange(cursor, r.1);
    let open = file_tee_open(r.0);
    let gap = b.subrange(r.2, r.3);
    let target = b.subrange(r.3, r.4);
    let q = utf8(" >("@);
    let sk = utf8(spec_obi_tee_invocation(ak, tid, "stdout-to-file"@));
    let z = utf8(" >/dev/null) >/dev/null)"@);
    assert(is_cut(b, r.2));
    lemma_valid_between_cuts(b, cursor, r.1);
    lemma_valid_between_cuts(b, r.2, r.3);
    lemma_valid_between_cuts(b, r.3, r.4);
    lemma_utf8_valid(" 1> >(tee "@);
    lemma_utf8_valid("-a "@);
    lemma_ascii_valid(Seq::<u8>::empty());
    lemma_concat_valid(utf8(" 1> >(tee "@), if r.0 { utf8("-a "@) } else { Seq::<u8>::empty() });
    lemma_utf8_valid(" >("@);
    lemma_utf8_valid(spec_obi_tee_invocation(ak, tid, "stdout-to-file"@));
    lemma_utf8_valid(" >/dev/null) >/dev/null)"@);
    lemma_concat_valid(pre, open);
    lemma_concat_valid(pre + open, gap);
    lemma_concat_valid(pre + open + gap, target);
    lemma_concat_valid(pre + open + gap + target, q);
    lemma_concat_valid(pre + open + gap + target + q, sk);
    lemma_concat_valid(pre + open + gap + target + q + sk, z);
    lemma_concat_valid(out0, file_tee_pieces(b, cursor, r, ak, tid));
}

proof fn lemma_file_tee_unfold(
    b: Seq<u8>,
    rt: Seq<RedirectTuple>,
    k: int,
    cursor: int,
    out0: Seq<u8>,
    ak: Seq<char>,
    tid: Seq<char>,
)
    requires
        0 <= k < rt.len(),
    ensures
        out0 + file_tee_pieces(b, cursor, rt[k], ak, tid) + file_tees_from(b, rt, k + 1, rt[k].4, ak, tid) == out0
            + file_tees_from(b, rt, k, cursor, ak, tid),
{
    let r = rt[k];
    let pre = b.subrange(cursor, r.1);
    let gap = b.subrange(r.2, r.3);
    let target = b.subrange(r.3, r.4);
    let rest = file_tees_from(b, rt, k + 1, r.4, ak, tid);
    assert(file_tees_from(b, rt, k, cursor, ak, tid) == pre + spec_file_tee(ak, tid, r.0, gap, target) + rest);
    assert(out0 + file_tee_pieces(b, cursor, r, ak, tid) + rest =~= out0 + (pre + spec_file_tee(
        ak,
        tid,
        r.0,
        gap,
        target,
    ) + rest));
}

/// Append the opening of a file redirect's tee.
fn push_file_tee_open(out: &mut Vec<u8>, append: bool)
    ensures
        final(out)@ == old(out)@ + file_tee_open(append),
{
    let ghost o = out@;
    push_str(out, " 1> >(tee ");
    if append {
        push_str(out, "-a ");
        assert(out@ =~= o + file_tee_open(append));
    } else {
        assert(out@ =~= o + file_tee_open(append));
    }
}

/// What `redirects_well_formed` and `redirects_at_cuts` say of redirect `k`.
proof fn lemma_redirect_step_facts(b: Seq<u8>, rt: Seq<RedirectTuple>, k: int)
    requires
        redirects_well_formed(b, rt, 0),
        redirects_at_cuts(b, rt),
        0 <= k < rt.len(),
    ensures
        0 <= rt[k].1 < rt[k].2 <= rt[k].3 <= rt[k].4 <= b.len(),
        b[rt[k].1] == 0x3e,
        b[rt[k].2 - 1] == 0x3e,
        is_cut(b, rt[k].1),
        is_cut(b, rt[k].3),
        is_cut(b, rt[k].4),
        k + 1 < rt.len() ==> rt[k].4 <= rt[k + 1].1,
{
    let r = rt[k];
    assert(r.0 ==> b[r.1 + 1] == 0x3e);
    if k + 1 < rt.len() {
        assert(rt[k].4 <= rt[k + 1].1);
    }
}

/// Replace each bare `> FILE` / `>> FILE` redirect with
/// ` 1> >(tee [-a ] FILE >(oby-tee … --stream stdout-to-file >/dev/null) >/dev/null)`,
/// so that what the command writes to the file is also captured.
#[verifier::spinoff_prover]
#[verifier::rlimit(60)]
pub fn tee_file_redirects(command: &str, agent_key: &str, tool_use_id: &str) -> (res: String)
    requires
        spec_redirects(utf8(command@)) is Some,
    ensures
        utf8(res@) == spec_tee_file_redirects(utf8(command@), agent_key@, tool_use_id@),
{
    let rs = redirects(command);
    let bytes = command.as_bytes();
    let ghost b = bytes@;
    let ghost rt = spec_redirects(b)->0;
    let ghost ak = agent_key@;
    let ghost tid = tool_use_id@;
    proof {
        law_redirects_well_formed(b);
        law_redirects_at_cuts(b);
    }
    let sink = obi_tee_invocation(agent_key, tool_use_id, "stdout-to-file");
    let len = bytes.len();
    let mut out: Vec<u8> = Vec::new();
    let mut cursor: usize = 0;
    let mut k: usize = 0;
    proof {
        lemma_utf8_valid(command@);
        lemma_ascii_valid(Seq::<u8>::empty());
        assert(out@ + file_tees_from(b, rt, 0, 0, ak, tid) =~= file_tees_from(b, rt, 0, 0, ak, tid));
    }
    while k < rs.len()
        invariant
            b == bytes@,
            b == utf8(command@),
            valid_utf8(b),
            len == b.len(),
            rt == spec_redirects(b)->0,
            redirect_tuples(rs@) == rt,
            redirects_well_formed(b, rt, 0),
            redirects_at_cuts(b, rt),
            ak == agent_key@,
            tid == tool_use_id@,
            sink@ == spec_obi_tee_invocation(ak, tid, "stdout-to-file"@),
            k <= rt.len(),
            cursor <= len,
            is_cut(b, cursor as int),
            k < rt.len() ==> cursor <= rt[k as int].1,
            valid_utf8(out@),
            out@ + file_tees_from(b, rt, k as int, cursor as int, ak, tid) == file_tees_from(b, rt, 0, 0, ak, tid),
        decreases rs.len() - k,
    {
        let ghost r = rt[k as int];
        let ghost out0 = out@;
        let op_start = rs[k].op_start;
        let op_end = rs[k].op_end;
        let target_start = rs[k].target_start;
        let target_end = rs[k].target_end;
        let append = match rs[k].kind {
            RedirectKind::Append => true,
            RedirectKind::Out => false,
        };
        proof {
            assert(rt[k as int] == redirect_tuples(rs@)[k as int]);
            lemma_redirect_step_facts(b, rt, k as int);
        }
        assert(r == (append, op_start as int, op_end as int, target_start as int, target_end as int));
        push_range(&mut out, bytes, cursor, op_start);
        push_file_tee_open(&mut out, append);
        push_range(&mut out, bytes, op_end, target_start);
        push_range(&mut out, bytes, target_start, target_end);
        push_str(&mut out, " >(");
        push_str(&mut out, sink.as_str());
        push_str(&mut out, " >/dev/null) >/dev/null)");
        proof {
            assert(out@ =~= out0 + file_tee_pieces(b, cursor as int, r, ak, tid));
            lemma_file_tee_valid(b, cursor as int, r, out0, ak, tid);
            lemma_file_tee_unfold(b, rt, k as int, cursor as int, out0, ak, tid);
        }
        cursor = target_end;
        k += 1;
    }
    let ghost out1 = out@;
    push_range(&mut out, bytes, cursor, len);
    proof {
        lemma_valid_between_cuts(b, cursor as int, len as int);
        lemma_concat_valid(out1, b.subrange(cursor as int, len as int));
    }
    bytes_to_string(out)
}


proof fn lemma_file_tees_valid(
    b: Seq<u8>,
    rt: Seq<RedirectTuple>,
    k: int,
    cursor: int,
    ak: Seq<char>,
    tid: Seq<char>,
)
    requires
        valid_utf8(b),
        redirects_well_formed(b, rt, 0),
        redirects_at_cuts(b, rt),
        0 <= k,
        0 <= cursor <= b.len(),
        is_cut(b, cursor),
        k < rt.len() ==> cursor <= rt[k].1,
    ensures
        valid_utf8(file_tees_from(b, rt, k, cursor, ak, tid)),
    decreases rt.len() - k,
{
    if k >= rt.len() {
        lemma_valid_between_cuts(b, cursor, b.len() as int);
    } else {
        let r = rt[k];
        assert(0 <= r.1 < b.len() && b[r.1] == 0x3e);
        assert(r.0 ==> b[r.1 + 1] == 0x3e);
        assert(is_cut(b, r.1) && is_cut(b, r.3) && is_cut(b, r.4));
        let e = Seq::<u8>::empty();
        lemma_ascii_valid(e);
        lemma_file_tee_valid(b, cursor, r, e, ak, tid);
        if k + 1 < rt.len() {
            assert(rt[k].4 <= rt[k + 1].1);
        }
        lemma_file_tees_valid(b, rt, k + 1, r.4, ak, tid);
        lemma_file_tee_unfold(b, rt, k, cursor, e, ak, tid);
        assert(e + file_tee_pieces(b, cursor, r, ak, tid) =~= file_tee_pieces(b, cursor, r, ak, tid));
        assert(e + file_tees_from(b, rt, k, cursor, ak, tid) =~= file_tees_from(b, rt, k, cursor, ak, tid));
        lemma_concat_valid(file_tee_pieces(b, cursor, r, ak, tid), file_tees_from(b, rt, k + 1, r.4, ak, tid));
    }
}

/// Law: on valid UTF-8, teeing the file redirects gives valid UTF-8.
pub proof fn law_tee_file_redirects_valid(b: Seq<u8>, agent_key: Seq<char>, tool_use_id: Seq<char>)
    requires
        valid_utf8(b),
        spec_redirects(b) is Some,
    ensures
        valid_utf8(spec_tee_file_redirects(b, agent_key, tool_use_id)),
{
    law_redirects_well_formed(b);
    law_redirects_at_cuts(b);
    lemma_file_tees_valid(b, spec_redirects(b)->0, 0, 0, agent_key, tool_use_id);
}

/// The `>` (or `>>`) of a redirect survives in the opening of its tee.
proof fn lemma_op_in_open(op: Seq<u8>, append: bool)
    requires
        1 <= op.len() <= 2,
        forall|i: int| 0 <= i < op.len() ==> op[i] == 0x3e,
    ensures
        is_subsequence(op, file_tee_open(append)),
{
    reveal_strlit(" 1> >(tee ");
    let s = " 1> >(tee "@;
    assert(s =~= seq![' ', '1', '>', ' ', '>', '(', 't', 'e', 'e', ' ']);
    assert(ascii_chars(s));
    lemma_utf8_ascii(s);
    let head = utf8(s);
    assert(head[2] == 0x3e && head[4] == 0x3e);
    let open = file_tee_open(append);
    assert forall|i: int| 0 <= i < head.len() implies open[i] == head[i] by {
    }
    let f = |i: int| 2 + 2 * i;
    assert forall|i: int| 0 <= i < op.len() implies 0 <= #[trigger] f(i) < open.len() && open[f(i)] == op[i] by {
        assert(open[f(i)] == head[f(i)]);
    }
    assert(embeds(op, open, f));
}

proof fn lemma_file_tees_keep(
    b: Seq<u8>,
    rt: Seq<RedirectTuple>,
    k: int,
    cursor: int,
    ak: Seq<char>,
    tid: Seq<char>,
)
    requires
        redirects_well_formed(b, rt, 0),
        0 <= k,
        0 <= cursor <= b.len(),
        k < rt.len() ==> cursor <= rt[k].1,
    ensures
        is_subsequence(b.subrange(cursor, b.len() as int), file_tees_from(b, rt, k, cursor, ak, tid)),
    decreases rt.len() - k,
{
    if k >= rt.len() {
        lemma_subseq_refl(b.subrange(cursor, b.len() as int));
    } else {
        let r = rt[k];
        assert(0 <= r.1 < b.len() && b[r.1] == 0x3e);
        assert(r.0 ==> b[r.1 + 1] == 0x3e);
        assert(r.2 <= r.3 <= r.4 <= b.len());
        if k + 1 < rt.len() {
            assert(rt[k].4 <= rt[k + 1].1);
        }
        lemma_file_tees_keep(b, rt, k + 1, r.4, ak, tid);
        let pre = b.subrange(cursor, r.1);
        let op = b.subrange(r.1, r.2);
        let gap = b.subrange(r.2, r.3);
        let target = b.subrange(r.3, r.4);
        let open = file_tee_open(r.0);
        let post = utf8(" >("@) + utf8(spec_obi_tee_invocation(ak, tid, "stdout-to-file"@)) + utf8(
            " >/dev/null) >/dev/null)"@,
        );
        lemma_op_in_open(op, r.0);
        lemma_subseq_refl(gap);
        lemma_subseq_refl(target);
        lemma_subseq_concat(op, open, gap, gap);
        lemma_subseq_concat(op + gap, open + gap, target, target);
        let e = Seq::<u8>::empty();
        lemma_subseq_pad(e, post, e);
        assert(e + post + e =~= post);
        lemma_subseq_concat(op + gap + target, open + gap + target, e, post);
        assert(open + gap + target + post =~= spec_file_tee(ak, tid, r.0, gap, target));
        assert(op + gap + target + e =~= b.subrange(r.1, r.4));
        lemma_subseq_refl(pre);
        lemma_subseq_concat(pre, pre, b.subrange(r.1, r.4), spec_file_tee(ak, tid, r.0, gap, target));
        lemma_subseq_concat(
            pre + b.subrange(r.1, r.4),
            pre + spec_file_tee(ak, tid, r.0, gap, target),
            b.subrange(r.4, b.len() as int),
            file_tees_from(b, rt, k + 1, r.4, ak, tid),
        );
        assert(pre + b.subrange(r.1, r.4) + b.subrange(r.4, b.len() as int) =~= b.subrange(cursor, b.len() as int));
    }
}

/// Law: teeing the file redirects only adds text: every byte of the
/// command survives, in order (each `>`, the gap after it and the target
/// stay inside the tee that replaces the redirect).
pub proof fn law_tee_file_redirects_keeps_command(b: Seq<u8>, agent_key: Seq<char>, tool_use_id: Seq<char>)
    requires
        spec_redirects(b) is Some,
    ensures
        is_subsequence(b, spec_tee_file_redirects(b, agent_key, tool_use_id)),
{
    law_redirects_well_formed(b);
    lemma_file_tees_keep(b, spec_redirects(b)->0, 0, 0, agent_key, tool_use_id);
    assert(b.subrange(0, b.len() as int) =~= b);
}


/// The `oby-tee` command line for one stream of a tool call: its agent,
/// its tool-use id and the stream name, each shell-quoted.
pub open spec fn stream_sink(agent_key: Seq<char>, tool_use_id: Seq<char>, stream: Seq<char>) -> Seq<char> {
    "oby-tee --agent "@ + spec_shell_escape(agent_key) + " --tool-use-id "@ + spec_shell_escape(tool_use_id)
        + " --stream "@ + spec_shell_escape(stream)
}

/// Law: which stream each side of the traced rewrite feeds. Whatever the
/// shell, the block's stdout is teed to the `stdout` stream and its stderr
/// to the `stderr` stream (under zsh, the awk demuxer's non-trace lines go
/// to the `stderr` sink); the trace goes to the `xtrace` stream (bash on
/// descriptor 9, zsh through the demuxer). Stated as the exact end of the
/// rewritten command for each shell.
pub proof fn law_traced_rewrite_streams(b: Seq<u8>, agent_key: Seq<char>, tool_use_id: Seq<char>, shell: Shell)
    ensures
        ({
            let so = stream_sink(agent_key, tool_use_id, "stdout"@);
            let es = stream_sink(agent_key, tool_use_id, "stderr"@);
            let xs = stream_sink(agent_key, tool_use_id, "xtrace"@);
            let head = "\n} > >(tee >("@ + so + " >/dev/null)) "@;
            let end = match shell {
                Shell::Bash => head + "2> >(tee >("@ + es + " >/dev/null) >&2)"@ + " "@ + "9> >("@ + xs
                    + " >/dev/null)"@,
                Shell::Zsh => head + "2> >("@ + "awk -v xt=\""@ + xs + " >/dev/null\" -v err=\""@ + es
                    + " >/dev/null\" '/^__OBYXT__/{sub(/^__OBYXT__/, \"\"); print | xt; next} {print | err; print > \"/dev/stderr\"}'"@
                    + ")"@,
                Shell::Other => head + "2> >(tee >("@ + es + " >/dev/null) >&2)"@,
            };
            utf8(end).is_suffix_of(spec_traced_rewrite(b, agent_key, tool_use_id, shell))
        }),
{
    let so = stream_sink(agent_key, tool_use_id, "stdout"@);
    let es = stream_sink(agent_key, tool_use_id, "stderr"@);
    let xs = stream_sink(agent_key, tool_use_id, "xtrace"@);
    let head = "\n} > >(tee >("@ + so + " >/dev/null)) "@;
    let end = match shell {
        Shell::Bash => head + "2> >(tee >("@ + es + " >/dev/null) >&2)"@ + " "@ + "9> >("@ + xs + " >/dev/null)"@,
        Shell::Zsh => head + "2> >("@ + "awk -v xt=\""@ + xs + " >/dev/null\" -v err=\""@ + es
            + " >/dev/null\" '/^__OBYXT__/{sub(/^__OBYXT__/, \"\"); print | xt; next} {print | err; print > \"/dev/stderr\"}'"@
            + ")"@,
        Shell::Other => head + "2> >(tee >("@ + es + " >/dev/null) >&2)"@,
    };
    assert(spec_obi_tee_invocation(agent_key, tool_use_id, "stdout"@) == so);
    assert(spec_obi_tee_invocation(agent_key, tool_use_id, "stderr"@) == es);
    assert(spec_obi_tee_invocation(agent_key, tool_use_id, "xtrace"@) == xs);
    assert(traced_tail(agent_key, tool_use_id, shell) =~= end);
    let p = xtrace_pieces(shell, es, xs);
    let front = utf8("{ "@ + p.0) + spec_inject(
        spec_neutralize(spec_tee_file_redirects(b, agent_key, tool_use_id), agent_key, tool_use_id),
        agent_key,
        tool_use_id,
    );
    let whole = spec_traced_rewrite(b, agent_key, tool_use_id, shell);
    assert(whole == front + utf8(end));
    assert(whole.subrange(front.len() as int, whole.len() as int) =~= utf8(end));
}

/// Law: the plain rewrite, too, tees the block's stdout to the `stdout`
/// stream and its stderr to the `stderr` stream, as the exact end of the
/// rewritten command.
pub proof fn law_rewrite_streams(b: Seq<u8>, agent_key: Seq<char>, tool_use_id: Seq<char>)
    ensures
        utf8(
            "\n} > >(tee >("@ + stream_sink(agent_key, tool_use_id, "stdout"@) + " >/dev/null)) 2> >(tee >("@
                + stream_sink(agent_key, tool_use_id, "stderr"@) + " >/dev/null) >&2)"@,
        ).is_suffix_of(spec_rewrite(b, agent_key, tool_use_id)),
{
    let end = "\n} > >(tee >("@ + stream_sink(agent_key, tool_use_id, "stdout"@) + " >/dev/null)) 2> >(tee >("@
        + stream_sink(agent_key, tool_use_id, "stderr"@) + " >/dev/null) >&2)"@;
    assert(spec_obi_tee_invocation(agent_key, tool_use_id, "stdout"@) == stream_sink(agent_key, tool_use_id, "stdout"@));
    assert(spec_obi_tee_invocation(agent_key, tool_use_id, "stderr"@) == stream_sink(agent_key, tool_use_id, "stderr"@));
    assert(wrap_tail(agent_key, tool_use_id) =~= end);
    let front = utf8("{ "@) + spec_inject(
        spec_neutralize(spec_tee_file_redirects(b, agent_key, tool_use_id), agent_key, tool_use_id),
        agent_key,
        tool_use_id,
    );
    let whole = spec_rewrite(b, agent_key, tool_use_id);
    assert(whole.subrange(front.len() as int, whole.len() as int) =~= utf8(end));
}

} // verus!
