//! A quote- and comment-aware scanner for shell commands.
//!
//! All positions are byte offsets into the command's UTF-8 bytes. The scanner
//! recognises `'…'` (no escapes), `"…"` (with `\` escapes) and `#` comments
//! that start at a word boundary; `$(…)`, `(…)`, `` `…` `` and `[[ … ]]`
//! nesting hides pipes and redirects from the outer command.
use vstd::prelude::*;
use crate::text::{utf8, occurs_at, find_bytes, is_cut, is_ascii_byte};

verus! {

broadcast use vstd::seq::group_seq_axioms;

/// ` ` or tab.
pub open spec fn is_blank(c: u8) -> bool {
    c == 0x20 || c == 0x09
}

/// True when a `#` at `i` starts a comment: it opens the command or follows
/// whitespace or a shell separator (`;`, `|`, `&`).
pub open spec fn comment_may_start(b: Seq<u8>, i: int) -> bool {
    i == 0 || {
        let p = b[i - 1];
        p == 0x20 || p == 0x09 || p == 0x0a || p == 0x3b || p == 0x7c || p == 0x26
    }
}

/// Position just past the `'` that closes a single-quoted string whose body
/// starts at `i` (or the end of input if it is unterminated).
pub open spec fn single_quote_end(b: Seq<u8>, i: int) -> int
    decreases b.len() - i,
{
    if i >= b.len() || i < 0 {
        i
    } else if b[i] == 0x27 {
        i + 1
    } else {
        single_quote_end(b, i + 1)
    }
}

/// Position just past the `"` that closes a double-quoted string whose body
/// starts at `i`; a `\` skips the byte after it.
pub open spec fn double_quote_end(b: Seq<u8>, i: int) -> int
    decreases b.len() - i,
{
    if i >= b.len() || i < 0 {
        i
    } else if b[i] == 0x5c && i + 1 < b.len() {
        double_quote_end(b, i + 2)
    } else if b[i] == 0x22 {
        i + 1
    } else {
        double_quote_end(b, i + 1)
    }
}

/// Position of the newline that ends a comment starting at `i` (or the end
/// of input).
pub open spec fn comment_end(b: Seq<u8>, i: int) -> int
    decreases b.len() - i,
{
    if i >= b.len() || i < 0 {
        i
    } else if b[i] == 0x0a {
        i
    } else {
        comment_end(b, i + 1)
    }
}

/// Position of the first byte at or after `i` that is not a space or tab.
pub open spec fn blank_end(b: Seq<u8>, i: int) -> int
    decreases b.len() - i,
{
    if i >= b.len() || i < 0 {
        i
    } else if is_blank(b[i]) {
        blank_end(b, i + 1)
    } else {
        i
    }
}

pub proof fn lemma_single_quote_end(b: Seq<u8>, i: int)
    requires
        0 <= i <= b.len(),
    ensures
        i <= single_quote_end(b, i) <= b.len(),
    decreases b.len() - i,
{
    if i < b.len() && b[i] != 0x27 {
        lemma_single_quote_end(b, i + 1);
    }
}

pub proof fn lemma_double_quote_end(b: Seq<u8>, i: int)
    requires
        0 <= i <= b.len(),
    ensures
        i <= double_quote_end(b, i) <= b.len(),
    decreases b.len() - i,
{
    if i < b.len() {
        if b[i] == 0x5c && i + 1 < b.len() {
            lemma_double_quote_end(b, i + 2);
        } else if b[i] != 0x22 {
            lemma_double_quote_end(b, i + 1);
        }
    }
}

pub proof fn lemma_comment_end(b: Seq<u8>, i: int)
    requires
        0 <= i <= b.len(),
    ensures
        i <= comment_end(b, i) <= b.len(),
        comment_end(b, i) < b.len() ==> b[comment_end(b, i)] == 0x0a,
    decreases b.len() - i,
{
    if i < b.len() && b[i] != 0x0a {
        lemma_comment_end(b, i + 1);
    }
}

pub proof fn lemma_blank_end(b: Seq<u8>, i: int)
    requires
        0 <= i <= b.len(),
    ensures
        i <= blank_end(b, i) <= b.len(),
        forall|k: int| i <= k < blank_end(b, i) ==> is_blank(#[trigger] b[k]),
        blank_end(b, i) < b.len() ==> !is_blank(b[blank_end(b, i)]),
    decreases b.len() - i,
{
    if i < b.len() && is_blank(b[i]) {
        lemma_blank_end(b, i + 1);
    }
}

/// A span of the command that is not inside quotes or a comment.
/// `start..end` are byte offsets into the command.
#[derive(Debug, PartialEq, Eq)]
pub struct CodeSpan {
    pub start: usize,
    pub end: usize,
}

pub open spec fn flush_span(start: int, end: int) -> Seq<(int, int)> {
    if start < end {
        seq![(start, end)]
    } else {
        seq![]
    }
}

/// The code spans found scanning from `i`, with the current span opened at
/// `start`.
pub open spec fn code_spans_from(b: Seq<u8>, i: int, start: int) -> Seq<(int, int)>
    decreases b.len() - i,
{
    if i >= b.len() || i < 0 {
        flush_span(start, b.len() as int)
    } else if b[i] == 0x27 {
        let j = single_quote_end(b, i + 1);
        proof {
            lemma_single_quote_end(b, i + 1);
        }
        flush_span(start, i) + code_spans_from(b, j, j)
    } else if b[i] == 0x22 {
        let j = double_quote_end(b, i + 1);
        proof {
            lemma_double_quote_end(b, i + 1);
        }
        flush_span(start, i) + code_spans_from(b, j, j)
    } else if b[i] == 0x23 && comment_may_start(b, i) {
        let j = comment_end(b, i + 1);
        proof {
            lemma_comment_end(b, i + 1);
        }
        flush_span(start, i) + code_spans_from(b, j, j)
    } else {
        code_spans_from(b, i + 1, start)
    }
}

/// The code spans of a command: maximal runs outside `'…'`, `"…"` and
/// `#` comments, in order.
pub open spec fn spec_code_spans(b: Seq<u8>) -> Seq<(int, int)> {
    code_spans_from(b, 0, 0)
}

pub open spec fn span_pairs(v: Seq<CodeSpan>) -> Seq<(int, int)> {
    Seq::new(v.len(), |k: int| (v[k].start as int, v[k].end as int))
}

/// Walk a shell command and return the spans of unquoted, uncommented code.
/// Recognises `'…'` (no escapes), `"…"` (with `\` escapes) and `#` comments
/// to the end of the line; `$(…)` and backticks count as code.
pub fn code_spans(s: &str) -> (res: Vec<CodeSpan>)
    ensures
        span_pairs(res@) == spec_code_spans(utf8(s@)),
{
    let bytes = s.as_bytes();
    let ghost b = bytes@;
    let len = bytes.len();
    let mut spans: Vec<CodeSpan> = Vec::new();
    let mut i: usize = 0;
    let mut span_start: usize = 0;
    while i < len
        invariant
            b == bytes@,
            len == b.len(),
            i <= len,
            span_start <= i,
            spec_code_spans(b) == span_pairs(spans@) + code_spans_from(b, i as int, span_start as int),
        decreases len - i,
    {
        let ghost i0 = i as int;
        let ghost ss0 = span_start as int;
        let ghost pairs0 = span_pairs(spans@);
        let c = bytes[i];
        if c == 0x27 {
            proof {
                lemma_single_quote_end(b, i0 + 1);
            }
            if span_start < i {
                spans.push(CodeSpan { start: span_start, end: i });
            }
            assert(span_pairs(spans@) =~= pairs0 + flush_span(ss0, i0));
            i += 1;
            while i < len && bytes[i] != 0x27
                invariant
                    b == bytes@,
                    len == b.len(),
                    i0 < i <= len,
                    single_quote_end(b, i0 + 1) == single_quote_end(b, i as int),
                decreases len - i,
            {
                i += 1;
            }
            if i < len {
                i += 1;
            }
            span_start = i;
        } else if c == 0x22 {
            proof {
                lemma_double_quote_end(b, i0 + 1);
            }
            if span_start < i {
                spans.push(CodeSpan { start: span_start, end: i });
            }
            assert(span_pairs(spans@) =~= pairs0 + flush_span(ss0, i0));
            i += 1;
            while i < len
                invariant_except_break
                    double_quote_end(b, i0 + 1) == double_quote_end(b, i as int),
                invariant
                    b == bytes@,
                    len == b.len(),
                    i0 < i <= len,
                ensures
                    i0 < i <= len,
                    i == double_quote_end(b, i0 + 1),
                decreases len - i,
            {
                if bytes[i] == 0x5c && i + 1 < len {
                    i += 2;
                } else if bytes[i] == 0x22 {
                    i += 1;
                    break;
                } else {
                    i += 1;
                }
            }
            span_start = i;
        } else if c == 0x23 {
            let prev_is_ws = i == 0 || {
                let p = bytes[i - 1];
                p == 0x20 || p == 0x09 || p == 0x0a || p == 0x3b || p == 0x7c || p == 0x26
            };
            if prev_is_ws {
                proof {
                    lemma_comment_end(b, i0 + 1);
                }
                if span_start < i {
                    spans.push(CodeSpan { start: span_start, end: i });
                }
                assert(span_pairs(spans@) =~= pairs0 + flush_span(ss0, i0));
                i += 1;
                while i < len && bytes[i] != 0x0a
                    invariant
                        b == bytes@,
                        len == b.len(),
                        i0 < i <= len,
                        comment_end(b, i0 + 1) == comment_end(b, i as int),
                    decreases len - i,
                {
                    i += 1;
                }
                span_start = i;
            } else {
                i += 1;
            }
        } else {
            i += 1;
        }
        assert(spec_code_spans(b) =~= span_pairs(spans@) + code_spans_from(b, i as int, span_start as int));
    }
    let ghost pairs0 = span_pairs(spans@);
    if span_start < len {
        spans.push(CodeSpan { start: span_start, end: len });
    }
    assert(span_pairs(spans@) =~= pairs0 + flush_span(span_start as int, len as int));
    assert(spec_code_spans(b) =~= span_pairs(spans@));
    spans
}

/// True when some code span of the command holds `needle`.
pub open spec fn spec_code_contains(b: Seq<u8>, needle: Seq<u8>) -> bool {
    let spans = spec_code_spans(b);
    exists|k: int, j: int|
        0 <= k < spans.len() && spans[k].0 <= j && j + needle.len() <= spans[k].1 && occurs_at(
            b,
            j,
            needle,
        )
}

/// Does any code span (unquoted, uncommented region) contain `needle`?
pub fn code_contains(s: &str, needle: &str) -> (res: bool)
    ensures
        res == spec_code_contains(utf8(s@), utf8(needle@)),
{
    let spans = code_spans(s);
    let bytes = s.as_bytes();
    let nb = needle.as_bytes();
    let ghost b = bytes@;
    let ghost sp = spec_code_spans(b);
    assert(b == utf8(s@));
    assert(nb@ == utf8(needle@));
    proof {
        lemma_code_spans_from_bounds(b, 0, 0);
    }
    let mut k: usize = 0;
    while k < spans.len()
        invariant
            b == bytes@,
            b == utf8(s@),
            nb@ == utf8(needle@),
            sp == spec_code_spans(b),
            span_pairs(spans@) == sp,
            k <= spans@.len(),
            spans_within(sp, 0, b.len() as int),
            forall|m: int, j: int|
                0 <= m < k && sp[m].0 <= j && j + nb@.len() <= sp[m].1 ==> !occurs_at(
                    b,
                    j,
                    nb@,
                ),
        decreases spans@.len() - k,
    {
        assert(sp[k as int] == (spans@[k as int].start as int, spans@[k as int].end as int));
        let sp_k = &spans[k];
        if let Some(j) = find_bytes(bytes, sp_k.start, sp_k.end, nb) {
            assert(0 <= k < sp.len() && sp[k as int].0 <= j && j + nb@.len() <= sp[k as int].1
                && occurs_at(b, j as int, nb@));
            assert(spec_code_contains(b, nb@));
            return true;
        }
        k += 1;
    }
    false
}

/// Every code span lies within the command and is non-empty.
pub proof fn lemma_code_spans_in_bounds(b: Seq<u8>)
    ensures
        forall|m: int|
            0 <= m < spec_code_spans(b).len() ==> 0 <= (#[trigger] spec_code_spans(b)[m]).0
                < spec_code_spans(b)[m].1 <= b.len(),
{
    lemma_code_spans_from_bounds(b, 0, 0);
}

pub open spec fn spans_within(sp: Seq<(int, int)>, lo: int, hi: int) -> bool {
    forall|m: int| 0 <= m < sp.len() ==> lo <= (#[trigger] sp[m]).0 < sp[m].1 <= hi
}

proof fn lemma_spans_within_concat(a: Seq<(int, int)>, c: Seq<(int, int)>, lo: int, hi: int)
    requires
        spans_within(a, lo, hi),
        spans_within(c, lo, hi),
    ensures
        spans_within(a + c, lo, hi),
{
    assert forall|m: int| 0 <= m < (a + c).len() implies lo <= (#[trigger] (a + c)[m]).0 < (a
        + c)[m].1 <= hi by {
        if m < a.len() {
            assert((a + c)[m] == a[m]);
        } else {
            assert((a + c)[m] == c[m - a.len()]);
        }
    }
}

proof fn lemma_code_spans_from_bounds(b: Seq<u8>, i: int, start: int)
    requires
        0 <= start <= i <= b.len(),
    ensures
        spans_within(code_spans_from(b, i, start), start, b.len() as int),
    decreases b.len() - i,
{
    if i < b.len() {
        if b[i] == 0x27 || b[i] == 0x22 || (b[i] == 0x23 && comment_may_start(b, i)) {
            let j = if b[i] == 0x27 {
                lemma_single_quote_end(b, i + 1);
                single_quote_end(b, i + 1)
            } else if b[i] == 0x22 {
                lemma_double_quote_end(b, i + 1);
                double_quote_end(b, i + 1)
            } else {
                lemma_comment_end(b, i + 1);
                comment_end(b, i + 1)
            };
            lemma_code_spans_from_bounds(b, j, j);
            assert(code_spans_from(b, i, start) == flush_span(start, i) + code_spans_from(b, j, j));
            assert(spans_within(flush_span(start, i), start, b.len() as int));
            lemma_spans_within_concat(flush_span(start, i), code_spans_from(b, j, j), start, b.len() as int);
        } else {
            lemma_code_spans_from_bounds(b, i + 1, start);
        }
    } else {
        assert(spans_within(flush_span(start, b.len() as int), start, b.len() as int));
    }
}

/// ` `, tab or newline: the bytes that separate words.
pub open spec fn is_word_space(c: u8) -> bool {
    c == 0x20 || c == 0x09 || c == 0x0a
}

/// First position at or after `i`, before `end`, that is not a word space.
pub open spec fn word_space_end(b: Seq<u8>, i: int, end: int) -> int
    decreases end - i,
{
    if i < end && is_word_space(b[i]) {
        word_space_end(b, i + 1, end)
    } else {
        i
    }
}

/// End of the word starting at `i`: the first word space or `;` before `end`.
pub open spec fn word_stop(b: Seq<u8>, i: int, end: int) -> int
    decreases end - i,
{
    if i < end && !is_word_space(b[i]) && b[i] != 0x3b {
        word_stop(b, i + 1, end)
    } else {
        i
    }
}

/// The first whitespace-delimited word of `b[start..end]`, as a byte range.
pub open spec fn spec_first_word(b: Seq<u8>, start: int, end: int) -> (int, int) {
    let ws = word_space_end(b, start, end);
    (ws, word_stop(b, ws, end))
}

/// Find the first whitespace-delimited word in `s[start..end]`. Returns
/// `(word_start, word_end)`, byte offsets into `s`; if the slice is all
/// whitespace, both are `end`.
pub fn first_word(s: &str, start: usize, end: usize) -> (res: (usize, usize))
    requires
        end <= utf8(s@).len(),
    ensures
        (res.0 as int, res.1 as int) == spec_first_word(utf8(s@), start as int, end as int),
{
    let bytes = s.as_bytes();
    let ghost b = bytes@;
    let mut i = start;
    while i < end && (bytes[i] == 0x20 || bytes[i] == 0x09 || bytes[i] == 0x0a)
        invariant
            b == bytes@,
            end <= b.len(),
            start <= i,
            word_space_end(b, start as int, end as int) == word_space_end(b, i as int, end as int),
        decreases end - i,
    {
        i += 1;
    }
    let word_start = i;
    while i < end && bytes[i] != 0x20 && bytes[i] != 0x09 && bytes[i] != 0x0a && bytes[i] != 0x3b
        invariant
            b == bytes@,
            end <= b.len(),
            word_start <= i,
            word_stop(b, word_start as int, end as int) == word_stop(b, i as int, end as int),
        decreases end - i,
    {
        i += 1;
    }
    (word_start, i)
}

/// A pipe-separated stage of a shell pipeline. `start..end` is the stage's
/// text (without the surrounding `|`); `first_word_start..first_word_end` is
/// its first whitespace-delimited word, typically the command name.
#[derive(Debug, PartialEq, Eq)]
pub struct PipeSegment {
    pub start: usize,
    pub end: usize,
    pub first_word_start: usize,
    pub first_word_end: usize,
}

/// The segment `start..end` together with its first word.
pub open spec fn segment(b: Seq<u8>, start: int, end: int) -> (int, int, int, int) {
    let fw = spec_first_word(b, start, end);
    (start, end, fw.0, fw.1)
}

pub open spec fn dec_sat(d: int) -> int {
    if d > 0 {
        d - 1
    } else {
        0
    }
}

pub open spec fn u32_max() -> int {
    0xffff_ffff
}

/// The pipe scan from byte `i` with the current stage opened at `start`,
/// `paren` open `(`/`$(`, `bracket` open `[[` and `tick` inside backticks.
/// `None` when a nesting counter would pass `u32::MAX`.
pub open spec fn pipe_from(b: Seq<u8>, i: int, start: int, paren: int, bracket: int, tick: bool) -> Option<
    Seq<(int, int, int, int)>,
>
    decreases b.len() - i,
{
    let len = b.len() as int;
    if i >= len || i < 0 {
        Some(seq![segment(b, start, len)])
    } else {
        let c = b[i];
        if c == 0x27 {
            proof {
                lemma_single_quote_end(b, i + 1);
            }
            pipe_from(b, single_quote_end(b, i + 1), start, paren, bracket, tick)
        } else if c == 0x22 {
            proof {
                lemma_double_quote_end(b, i + 1);
            }
            pipe_from(b, double_quote_end(b, i + 1), start, paren, bracket, tick)
        } else if c == 0x23 {
            if comment_may_start(b, i) {
                proof {
                    lemma_comment_end(b, i + 1);
                }
                pipe_from(b, comment_end(b, i + 1), start, paren, bracket, tick)
            } else {
                pipe_from(b, i + 1, start, paren, bracket, tick)
            }
        } else if c == 0x24 && i + 1 < len && b[i + 1] == 0x28 {
            if paren + 1 > u32_max() {
                None
            } else {
                pipe_from(b, i + 2, start, paren + 1, bracket, tick)
            }
        } else if c == 0x28 {
            if paren + 1 > u32_max() {
                None
            } else {
                pipe_from(b, i + 1, start, paren + 1, bracket, tick)
            }
        } else if c == 0x29 {
            pipe_from(b, i + 1, start, dec_sat(paren), bracket, tick)
        } else if c == 0x5b && i + 1 < len && b[i + 1] == 0x5b {
            if bracket + 1 > u32_max() {
                None
            } else {
                pipe_from(b, i + 2, start, paren, bracket + 1, tick)
            }
        } else if c == 0x5d && i + 1 < len && b[i + 1] == 0x5d {
            pipe_from(b, i + 2, start, paren, dec_sat(bracket), tick)
        } else if c == 0x60 {
            pipe_from(b, i + 1, start, paren, bracket, !tick)
        } else if c == 0x7c && paren == 0 && bracket == 0 && !tick && i + 1 < len && b[i + 1]
            != 0x7c {
            let j = blank_end(b, i + 1);
            proof {
                lemma_blank_end(b, i + 1);
            }
            match pipe_from(b, j, j, paren, bracket, tick) {
                Some(rest) => Some(seq![segment(b, start, i)] + rest),
                None => None,
            }
        } else if c == 0x7c && i + 1 < len && b[i + 1] == 0x7c {
            pipe_from(b, i + 2, start, paren, bracket, tick)
        } else {
            pipe_from(b, i + 1, start, paren, bracket, tick)
        }
    }
}

/// The pipeline stages of a command, or `None` when its nesting is too deep
/// for the `u32` counters.
pub open spec fn spec_pipe_segments(b: Seq<u8>) -> Option<Seq<(int, int, int, int)>> {
    pipe_from(b, 0, 0, 0, 0, false)
}

pub open spec fn segment_tuples(v: Seq<PipeSegment>) -> Seq<(int, int, int, int)> {
    Seq::new(
        v.len(),
        |k: int|
            (
                v[k].start as int,
                v[k].end as int,
                v[k].first_word_start as int,
                v[k].first_word_end as int,
            ),
    )
}

/// Walk the command and emit one `PipeSegment` per pipeline stage. Pipes
/// inside quotes, comments, parentheses, `$( … )`, backticks or `[[ … ]]` are
/// part of the surrounding stage; `||` is not a pipe.
pub fn pipe_segments(s: &str) -> (res: Vec<PipeSegment>)
    requires
        spec_pipe_segments(utf8(s@)) is Some,
    ensures
        spec_pipe_segments(utf8(s@)) == Some(segment_tuples(res@)),
{
    let bytes = s.as_bytes();
    let ghost b = bytes@;
    let len = bytes.len();
    let mut out: Vec<PipeSegment> = Vec::new();
    let mut i: usize = 0;
    let mut seg_start: usize = 0;
    let mut paren_depth: u32 = 0;
    let mut bracket_depth: u32 = 0;
    let mut backtick_depth: u32 = 0;
    while i < len
        invariant
            b == bytes@,
            b == utf8(s@),
            len == b.len(),
            i <= len,
            seg_start <= len,
            backtick_depth <= 1,
            pipe_from(b, i as int, seg_start as int, paren_depth as int, bracket_depth as int, backtick_depth == 1) matches Some(rest)
                && spec_pipe_segments(b) == Some(segment_tuples(out@) + rest),
        decreases len - i,
    {
        let ghost st = pipe_from(b, i as int, seg_start as int, paren_depth as int, bracket_depth as int, backtick_depth == 1);
        let ghost out0 = segment_tuples(out@);
        let ghost i0 = i as int;
        let c = bytes[i];
        if c == 0x27 {
            proof {
                lemma_single_quote_end(b, i0 + 1);
            }
            i += 1;
            while i < len && bytes[i] != 0x27
                invariant
                    b == bytes@,
                    len == b.len(),
                    i0 < i <= len,
                    single_quote_end(b, i0 + 1) == single_quote_end(b, i as int),
                decreases len - i,
            {
                i += 1;
            }
            if i < len {
                i += 1;
            }
        } else if c == 0x22 {
            proof {
                lemma_double_quote_end(b, i0 + 1);
            }
            i += 1;
            while i < len
                invariant_except_break
                    double_quote_end(b, i0 + 1) == double_quote_end(b, i as int),
                invariant
                    b == bytes@,
                    len == b.len(),
                    i0 < i <= len,
                ensures
                    i0 < i <= len,
                    i == double_quote_end(b, i0 + 1),
                decreases len - i,
            {
                if bytes[i] == 0x5c && i + 1 < len {
                    i += 2;
                } else if bytes[i] == 0x22 {
                    i += 1;
                    break;
                } else {
                    i += 1;
                }
            }
        } else if c == 0x23 {
            let prev_is_ws = i == 0 || {
                let p = bytes[i - 1];
                p == 0x20 || p == 0x09 || p == 0x0a || p == 0x3b || p == 0x7c || p == 0x26
            };
            if prev_is_ws {
                proof {
                    lemma_comment_end(b, i0 + 1);
                }
                i += 1;
                while i < len && bytes[i] != 0x0a
                    invariant
                        b == bytes@,
                        len == b.len(),
                        i0 < i <= len,
                        comment_end(b, i0 + 1) == comment_end(b, i as int),
                    decreases len - i,
                {
                    i += 1;
                }
            } else {
                i += 1;
            }
        } else if c == 0x24 && i + 1 < len && bytes[i + 1] == 0x28 {
            paren_depth += 1;
            i += 2;
        } else if c == 0x28 {
            paren_depth += 1;
            i += 1;
        } else if c == 0x29 {
            paren_depth = paren_depth.saturating_sub(1);
            i += 1;
        } else if c == 0x5b && i + 1 < len && bytes[i + 1] == 0x5b {
            bracket_depth += 1;
            i += 2;
        } else if c == 0x5d && i + 1 < len && bytes[i + 1] == 0x5d {
            bracket_depth = bracket_depth.saturating_sub(1);
            i += 2;
        } else if c == 0x60 {
            if backtick_depth == 0 {
                backtick_depth = 1;
            } else {
                backtick_depth = 0;
            }
            i += 1;
        } else if c == 0x7c && paren_depth == 0 && bracket_depth == 0 && backtick_depth == 0 && i
            + 1 < len && bytes[i + 1] != 0x7c {
            let (fw_start, fw_end) = first_word(s, seg_start, i);
            out.push(
                PipeSegment {
                    start: seg_start,
                    end: i,
                    first_word_start: fw_start,
                    first_word_end: fw_end,
                },
            );
            assert(segment_tuples(out@) =~= out0 + seq![segment(b, seg_start as int, i0)]);
            proof {
                lemma_blank_end(b, i0 + 1);
            }
            i += 1;
            while i < len && (bytes[i] == 0x20 || bytes[i] == 0x09)
                invariant
                    b == bytes@,
                    len == b.len(),
                    i0 < i <= len,
                    blank_end(b, i0 + 1) == blank_end(b, i as int),
                decreases len - i,
            {
                i += 1;
            }
            seg_start = i;
        } else if c == 0x7c {
            if i + 1 < len && bytes[i + 1] == 0x7c {
                i += 2;
            } else {
                i += 1;
            }
        } else {
            i += 1;
        }
    }
    let ghost out0 = segment_tuples(out@);
    let (fw_start, fw_end) = first_word(s, seg_start, len);
    out.push(PipeSegment { start: seg_start, end: len, first_word_start: fw_start, first_word_end: fw_end });
    assert(segment_tuples(out@) =~= out0 + seq![segment(b, seg_start as int, len as int)]);
    out
}

/// The kind of a file redirect.
#[derive(Debug, PartialEq, Eq, Copy, Clone)]
pub enum RedirectKind {
    /// `> FILE`
    Out,
    /// `>> FILE`
    Append,
}

/// A file-redirect operator and its target.
#[derive(Debug, PartialEq, Eq)]
pub struct Redirect {
    pub kind: RedirectKind,
    /// Byte offset of the `>` (or the first `>` of `>>`).
    pub op_start: usize,
    /// Byte offset just past the operator.
    pub op_end: usize,
    /// Byte range of the target (a file path, quotes kept).
    pub target_start: usize,
    pub target_end: usize,
}

/// True for the bytes that end an unquoted redirect target.
pub open spec fn ends_word(c: u8) -> bool {
    c == 0x20 || c == 0x09 || c == 0x0a || c == 0x3b || c == 0x26 || c == 0x7c
}

/// End of an unquoted word starting at `i`.
pub open spec fn bare_word_end(b: Seq<u8>, i: int) -> int
    decreases b.len() - i,
{
    if i >= b.len() || i < 0 {
        i
    } else if ends_word(b[i]) {
        i
    } else {
        bare_word_end(b, i + 1)
    }
}

pub proof fn lemma_bare_word_end(b: Seq<u8>, i: int)
    requires
        0 <= i <= b.len(),
    ensures
        i <= bare_word_end(b, i) <= b.len(),
        forall|k: int| i <= k < bare_word_end(b, i) ==> !ends_word(#[trigger] b[k]),
    decreases b.len() - i,
{
    if i < b.len() && !ends_word(b[i]) {
        lemma_bare_word_end(b, i + 1);
    }
}

/// The shell word starting at `from` after blanks: quoted words keep their
/// quotes; a bare word stops at whitespace, `;`, `&` or `|`.
pub open spec fn spec_redirect_target(b: Seq<u8>, from: int) -> (int, int) {
    let start = blank_end(b, from);
    if start >= b.len() {
        (start, start)
    } else if b[start] == 0x27 {
        (start, single_quote_end(b, start + 1))
    } else if b[start] == 0x22 {
        (start, double_quote_end(b, start + 1))
    } else {
        (start, bare_word_end(b, start))
    }
}

pub proof fn lemma_redirect_target(b: Seq<u8>, from: int)
    requires
        0 <= from <= b.len(),
    ensures
        from <= spec_redirect_target(b, from).0 <= spec_redirect_target(b, from).1 <= b.len(),
{
    lemma_blank_end(b, from);
    let start = blank_end(b, from);
    if start < b.len() {
        lemma_single_quote_end(b, start + 1);
        lemma_double_quote_end(b, start + 1);
        lemma_bare_word_end(b, start);
    }
}

/// Find the next shell word starting at `from`. Quoted words are returned
/// with their quotes; a bare word stops at whitespace, `;`, `&`, `|` or the
/// end.
pub fn parse_redirect_target(bytes: &[u8], from: usize) -> (res: (usize, usize))
    ensures
        (res.0 as int, res.1 as int) == spec_redirect_target(bytes@, from as int),
{
    let ghost b = bytes@;
    let len = bytes.len();
    let mut i = from;
    while i < len && (bytes[i] == 0x20 || bytes[i] == 0x09)
        invariant
            b == bytes@,
            len == b.len(),
            from <= i,
            blank_end(b, from as int) == blank_end(b, i as int),
        decreases len - i,
    {
        i += 1;
    }
    let start = i;
    if i >= len {
        return (start, start);
    }
    if bytes[i] == 0x27 {
        i += 1;
        while i < len && bytes[i] != 0x27
            invariant
                b == bytes@,
                len == b.len(),
                start < i <= len,
                single_quote_end(b, start + 1) == single_quote_end(b, i as int),
            decreases len - i,
        {
            i += 1;
        }
        if i < len {
            i += 1;
        }
    } else if bytes[i] == 0x22 {
        i += 1;
        while i < len
            invariant_except_break
                double_quote_end(b, start + 1) == double_quote_end(b, i as int),
            invariant
                b == bytes@,
                len == b.len(),
                start < i <= len,
            ensures
                start < i <= len,
                i == double_quote_end(b, start + 1),
            decreases len - i,
        {
            if bytes[i] == 0x5c && i + 1 < len {
                i += 2;
            } else if bytes[i] == 0x22 {
                i += 1;
                break;
            } else {
                i += 1;
            }
        }
    } else {
        while i < len && bytes[i] != 0x20 && bytes[i] != 0x09 && bytes[i] != 0x0a && bytes[i]
            != 0x3b && bytes[i] != 0x26 && bytes[i] != 0x7c
            invariant
                b == bytes@,
                len == b.len(),
                start <= i <= len,
                bare_word_end(b, start as int) == bare_word_end(b, i as int),
            decreases len - i,
        {
            i += 1;
        }
    }
    (start, i)
}

pub open spec fn is_ascii_digit(c: u8) -> bool {
    0x30 <= c <= 0x39
}

/// A byte that makes the `>` after it an FD-prefixed redirect (`2>`, `2>>`,
/// `&>`, `&>>`): a digit or `&`.
pub open spec fn is_fd_prefix(c: u8) -> bool {
    is_ascii_digit(c) || c == 0x26
}

/// A redirect as plain values: (append?, op_start, op_end, target_start,
/// target_end).
pub type RedirectTuple = (bool, int, int, int, int);

/// The redirect scan from byte `i` with the nesting state of `pipe_from`.
/// `None` when a nesting counter would pass `u32::MAX`.
pub open spec fn redirects_from(b: Seq<u8>, i: int, paren: int, bracket: int, tick: bool) -> Option<
    Seq<RedirectTuple>,
>
    decreases b.len() - i,
{
    let len = b.len() as int;
    if i >= len || i < 0 {
        Some(seq![])
    } else {
        let c = b[i];
        if c == 0x27 {
            proof {
                lemma_single_quote_end(b, i + 1);
            }
            redirects_from(b, single_quote_end(b, i + 1), paren, bracket, tick)
        } else if c == 0x22 {
            proof {
                lemma_double_quote_end(b, i + 1);
            }
            redirects_from(b, double_quote_end(b, i + 1), paren, bracket, tick)
        } else if c == 0x23 {
            if comment_may_start(b, i) {
                proof {
                    lemma_comment_end(b, i + 1);
                }
                redirects_from(b, comment_end(b, i + 1), paren, bracket, tick)
            } else {
                redirects_from(b, i + 1, paren, bracket, tick)
            }
        } else if c == 0x24 && i + 1 < len && b[i + 1] == 0x28 {
            if paren + 1 > u32_max() {
                None
            } else {
                redirects_from(b, i + 2, paren + 1, bracket, tick)
            }
        } else if c == 0x28 {
            if paren + 1 > u32_max() {
                None
            } else {
                redirects_from(b, i + 1, paren + 1, bracket, tick)
            }
        } else if c == 0x29 {
            redirects_from(b, i + 1, dec_sat(paren), bracket, tick)
        } else if c == 0x5b && i + 1 < len && b[i + 1] == 0x5b {
            if bracket + 1 > u32_max() {
                None
            } else {
                redirects_from(b, i + 2, paren, bracket + 1, tick)
            }
        } else if c == 0x5d && i + 1 < len && b[i + 1] == 0x5d {
            redirects_from(b, i + 2, paren, dec_sat(bracket), tick)
        } else if c == 0x60 {
            redirects_from(b, i + 1, paren, bracket, !tick)
        } else if c == 0x3e && paren == 0 && bracket == 0 && !tick {
            if i > 0 && is_fd_prefix(b[i - 1]) {
                if i + 1 < len && b[i + 1] == 0x3e {
                    redirects_from(b, i + 2, paren, bracket, tick)
                } else {
                    redirects_from(b, i + 1, paren, bracket, tick)
                }
            } else {
                let append = i + 1 < len && b[i + 1] == 0x3e;
                let op_end = if append {
                    i + 2
                } else {
                    i + 1
                };
                let probe = blank_end(b, op_end);
                let proc_subst = probe < len && (b[probe] == 0x28 || (b[probe] == 0x3e && probe + 1
                    < len && b[probe + 1] == 0x28));
                if proc_subst {
                    redirects_from(b, op_end, paren, bracket, tick)
                } else {
                    let t = spec_redirect_target(b, op_end);
                    proof {
                        lemma_redirect_target(b, op_end);
                    }
                    match redirects_from(b, t.1, paren, bracket, tick) {
                        Some(rest) => Some(seq![(append, i, op_end, t.0, t.1)] + rest),
                        None => None,
                    }
                }
            }
        } else {
            redirects_from(b, i + 1, paren, bracket, tick)
        }
    }
}

/// The bare `>` / `>>` redirects of a command, or `None` when its nesting is
/// too deep for the `u32` counters.
pub open spec fn spec_redirects(b: Seq<u8>) -> Option<Seq<RedirectTuple>> {
    redirects_from(b, 0, 0, 0, false)
}

pub open spec fn redirect_tuples(v: Seq<Redirect>) -> Seq<RedirectTuple> {
    Seq::new(
        v.len(),
        |k: int|
            (
                v[k].kind == RedirectKind::Append,
                v[k].op_start as int,
                v[k].op_end as int,
                v[k].target_start as int,
                v[k].target_end as int,
            ),
    )
}

/// Find bare `>` and `>>` redirects. FD-prefixed redirects (`2>`, `2>>`,
/// `&>`, `&>>`) and process substitution (`>(...)`, `> >(...)`) are left out, as are
/// redirects inside quotes, comments or nesting.
pub fn redirects(s: &str) -> (res: Vec<Redirect>)
    requires
        spec_redirects(utf8(s@)) is Some,
    ensures
        spec_redirects(utf8(s@)) == Some(redirect_tuples(res@)),
{
    let bytes = s.as_bytes();
    let ghost b = bytes@;
    let len = bytes.len();
    let mut out: Vec<Redirect> = Vec::new();
    let mut i: usize = 0;
    let mut paren_depth: u32 = 0;
    let mut bracket_depth: u32 = 0;
    let mut backtick_depth: u32 = 0;
    while i < len
        invariant
            b == bytes@,
            b == utf8(s@),
            len == b.len(),
            i <= len,
            backtick_depth <= 1,
            redirects_from(b, i as int, paren_depth as int, bracket_depth as int, backtick_depth == 1) matches Some(rest)
                && spec_redirects(b) == Some(redirect_tuples(out@) + rest),
        decreases len - i,
    {
        let ghost out0 = redirect_tuples(out@);
        let ghost i0 = i as int;
        let c = bytes[i];
        if c == 0x27 {
            proof {
                lemma_single_quote_end(b, i0 + 1);
            }
            i += 1;
            while i < len && bytes[i] != 0x27
                invariant
                    b == bytes@,
                    len == b.len(),
                    i0 < i <= len,
                    single_quote_end(b, i0 + 1) == single_quote_end(b, i as int),
                decreases len - i,
            {
                i += 1;
            }
            if i < len {
                i += 1;
            }
        } else if c == 0x22 {
            proof {
                lemma_double_quote_end(b, i0 + 1);
            }
            i += 1;
            while i < len
                invariant_except_break
                    double_quote_end(b, i0 + 1) == double_quote_end(b, i as int),
                invariant
                    b == bytes@,
                    len == b.len(),
                    i0 < i <= len,
                ensures
                    i0 < i <= len,
                    i == double_quote_end(b, i0 + 1),
                decreases len - i,
            {
                if bytes[i] == 0x5c && i + 1 < len {
                    i += 2;
                } else if bytes[i] == 0x22 {
                    i += 1;
                    break;
                } else {
                    i += 1;
                }
            }
        } else if c == 0x23 {
            let prev_is_ws = i == 0 || {
                let p = bytes[i - 1];
                p == 0x20 || p == 0x09 || p == 0x0a || p == 0x3b || p == 0x7c || p == 0x26
            };
            if prev_is_ws {
                proof {
                    lemma_comment_end(b, i0 + 1);
                }
                i += 1;
                while i < len && bytes[i] != 0x0a
                    invariant
                        b == bytes@,
                        len == b.len(),
                        i0 < i <= len,
                        comment_end(b, i0 + 1) == comment_end(b, i as int),
                    decreases len - i,
                {
                    i += 1;
                }
            } else {
                i += 1;
            }
        } else if c == 0x24 && i + 1 < len && bytes[i + 1] == 0x28 {
            paren_depth += 1;
            i += 2;
        } else if c == 0x28 {
            paren_depth += 1;
            i += 1;
        } else if c == 0x29 {
            paren_depth = paren_depth.saturating_sub(1);
            i += 1;
        } else if c == 0x5b && i + 1 < len && bytes[i + 1] == 0x5b {
            bracket_depth += 1;
            i += 2;
        } else if c == 0x5d && i + 1 < len && bytes[i + 1] == 0x5d {
            bracket_depth = bracket_depth.saturating_sub(1);
            i += 2;
        } else if c == 0x60 {
            if backtick_depth == 0 {
                backtick_depth = 1;
            } else {
                backtick_depth = 0;
            }
            i += 1;
        } else if c == 0x3e && paren_depth == 0 && bracket_depth == 0 && backtick_depth == 0 {
            let fd_prefixed = i > 0 && ((bytes[i - 1] >= 0x30 && bytes[i - 1] <= 0x39) || bytes[i - 1] == 0x26);
            if fd_prefixed {
                if i + 1 < len && bytes[i + 1] == 0x3e {
                    i += 2;
                } else {
                    i += 1;
                }
            } else {
                let is_append = i + 1 < len && bytes[i + 1] == 0x3e;
                let op_start = i;
                let op_end = if is_append {
                    i + 2
                } else {
                    i + 1
                };
                proof {
                    lemma_blank_end(b, op_end as int);
                }
                let mut probe = op_end;
                while probe < len && (bytes[probe] == 0x20 || bytes[probe] == 0x09)
                    invariant
                        b == bytes@,
                        len == b.len(),
                        op_end <= probe <= len,
                        blank_end(b, op_end as int) == blank_end(b, probe as int),
                    decreases len - probe,
                {
                    probe += 1;
                }
                let is_proc_subst = probe < len && (bytes[probe] == 0x28 || (bytes[probe] == 0x3e
                    && probe + 1 < len && bytes[probe + 1] == 0x28));
                if is_proc_subst {
                    i = op_end;
                } else {
                    let (target_start, target_end) = parse_redirect_target(bytes, op_end);
                    proof {
                        lemma_redirect_target(b, op_end as int);
                    }
                    out.push(
                        Redirect {
                            kind: if is_append {
                                RedirectKind::Append
                            } else {
                                RedirectKind::Out
                            },
                            op_start,
                            op_end,
                            target_start,
                            target_end,
                        },
                    );
                    assert(redirect_tuples(out@) =~= out0 + seq![
                        (is_append, op_start as int, op_end as int, target_start as int, target_end as int),
                    ]);
                    i = target_end;
                }
            }
        } else {
            i += 1;
        }
    }
    assert(redirect_tuples(out@) =~= redirect_tuples(out@) + Seq::<RedirectTuple>::empty());
    out
}

/// True when byte `p` of the command can sit inside a code span: it is not a
/// quote and does not start a comment.
pub open spec fn code_byte(b: Seq<u8>, p: int) -> bool {
    b[p] != 0x27 && b[p] != 0x22 && !(b[p] == 0x23 && comment_may_start(b, p))
}

/// Spans appear in increasing order, each ending before the next begins.
pub open spec fn spans_ordered(sp: Seq<(int, int)>) -> bool {
    forall|m: int| 0 <= m < sp.len() - 1 ==> (#[trigger] sp[m]).1 < sp[m + 1].0
}

/// Every byte of every span is a code byte.
pub open spec fn spans_code_only(b: Seq<u8>, sp: Seq<(int, int)>) -> bool {
    forall|m: int, p: int|
        #![trigger sp[m], code_byte(b, p)]
        0 <= m < sp.len() && sp[m].0 <= p < sp[m].1 ==> code_byte(b, p)
}

/// Law: the code spans of a command lie within it, are non-empty, come in
/// increasing order with a gap between neighbours, and hold no quote
/// character and no comment start.
pub proof fn law_code_spans_well_formed(b: Seq<u8>)
    ensures
        spans_within(spec_code_spans(b), 0, b.len() as int),
        spans_ordered(spec_code_spans(b)),
        spans_code_only(b, spec_code_spans(b)),
{
    lemma_code_spans_from_well_formed(b, 0, 0);
}

proof fn lemma_code_spans_from_well_formed(b: Seq<u8>, i: int, start: int)
    requires
        0 <= start <= i <= b.len(),
        forall|p: int| start <= p < i ==> code_byte(b, p),
    ensures
        spans_within(code_spans_from(b, i, start), start, b.len() as int),
        spans_ordered(code_spans_from(b, i, start)),
        spans_code_only(b, code_spans_from(b, i, start)),
    decreases b.len() - i,
{
    lemma_code_spans_from_bounds(b, i, start);
    if i < b.len() {
        if b[i] == 0x27 || b[i] == 0x22 || (b[i] == 0x23 && comment_may_start(b, i)) {
            let j = if b[i] == 0x27 {
                lemma_single_quote_end(b, i + 1);
                single_quote_end(b, i + 1)
            } else if b[i] == 0x22 {
                lemma_double_quote_end(b, i + 1);
                double_quote_end(b, i + 1)
            } else {
                lemma_comment_end(b, i + 1);
                comment_end(b, i + 1)
            };
            lemma_code_spans_from_well_formed(b, j, j);
            lemma_code_spans_from_bounds(b, j, j);
            let f = flush_span(start, i);
            let r = code_spans_from(b, j, j);
            assert(code_spans_from(b, i, start) == f + r);
            let c = f + r;
            assert forall|m: int| 0 <= m < c.len() - 1 implies (#[trigger] c[m]).1 < c[m + 1].0 by {
                if m < f.len() {
                    assert(c[m] == (start, i));
                    assert(c[m + 1] == r[0]);
                } else {
                    assert(c[m] == r[m - f.len()]);
                    assert(c[m + 1] == r[m + 1 - f.len()]);
                }
            }
            assert forall|m: int, p: int|
                #![trigger c[m], code_byte(b, p)]
                0 <= m < c.len() && c[m].0 <= p < c[m].1 implies code_byte(b, p) by {
                if m < f.len() {
                    assert(c[m] == (start, i));
                } else {
                    assert(c[m] == r[m - f.len()]);
                }
            }
        } else {
            lemma_code_spans_from_well_formed(b, i + 1, start);
        }
    } else {
        let f = flush_span(start, b.len() as int);
        assert(code_spans_from(b, i, start) == f);
    }
}

/// The stages of a pipe scan chain together: the first starts at `start`, the
/// last ends at the end of the command, each ends at a `|` that is not part
/// of `||`, and the next starts after the blanks that follow that `|`.
pub open spec fn segments_chain(b: Seq<u8>, segs: Seq<(int, int, int, int)>, start: int) -> bool {
    &&& segs.len() > 0
    &&& segs[0].0 == start
    &&& segs.last().1 == b.len()
    &&& forall|k: int| 0 <= k < segs.len() ==> (#[trigger] segs[k]).0 <= segs[k].1
    &&& forall|k: int|
        0 <= k < segs.len() ==> #[trigger] segs[k] == segment(b, segs[k].0, segs[k].1)
    &&& forall|k: int|
        0 <= k < segs.len() - 1 ==> {
            let e = (#[trigger] segs[k]).1;
            &&& e + 1 < b.len()
            &&& b[e] == 0x7c
            &&& b[e + 1] != 0x7c
            &&& segs[k + 1].0 == blank_end(b, e + 1)
        }
}

/// Law: the stages of a pipeline cover the command from its first byte to
/// its last, split exactly at the `|` bytes that separate them.
pub proof fn law_pipe_segments_chain(b: Seq<u8>)
    requires
        spec_pipe_segments(b) is Some,
    ensures
        segments_chain(b, spec_pipe_segments(b)->0, 0),
{
    lemma_pipe_from_chain(b, 0, 0, 0, 0, false);
}

proof fn lemma_pipe_from_chain(b: Seq<u8>, i: int, start: int, paren: int, bracket: int, tick: bool)
    requires
        0 <= start <= i <= b.len(),
        pipe_from(b, i, start, paren, bracket, tick) is Some,
    ensures
        segments_chain(b, pipe_from(b, i, start, paren, bracket, tick)->0, start),
    decreases b.len() - i,
{
    let len = b.len() as int;
    if i < len {
        let c = b[i];
        if c == 0x27 {
            lemma_single_quote_end(b, i + 1);
            lemma_pipe_from_chain(b, single_quote_end(b, i + 1), start, paren, bracket, tick);
        } else if c == 0x22 {
            lemma_double_quote_end(b, i + 1);
            lemma_pipe_from_chain(b, double_quote_end(b, i + 1), start, paren, bracket, tick);
        } else if c == 0x23 {
            if comment_may_start(b, i) {
                lemma_comment_end(b, i + 1);
                lemma_pipe_from_chain(b, comment_end(b, i + 1), start, paren, bracket, tick);
            } else {
                lemma_pipe_from_chain(b, i + 1, start, paren, bracket, tick);
            }
        } else if c == 0x24 && i + 1 < len && b[i + 1] == 0x28 {
            lemma_pipe_from_chain(b, i + 2, start, paren + 1, bracket, tick);
        } else if c == 0x28 {
            lemma_pipe_from_chain(b, i + 1, start, paren + 1, bracket, tick);
        } else if c == 0x29 {
            lemma_pipe_from_chain(b, i + 1, start, dec_sat(paren), bracket, tick);
        } else if c == 0x5b && i + 1 < len && b[i + 1] == 0x5b {
            lemma_pipe_from_chain(b, i + 2, start, paren, bracket + 1, tick);
        } else if c == 0x5d && i + 1 < len && b[i + 1] == 0x5d {
            lemma_pipe_from_chain(b, i + 2, start, paren, dec_sat(bracket), tick);
        } else if c == 0x60 {
            lemma_pipe_from_chain(b, i + 1, start, paren, bracket, !tick);
        } else if c == 0x7c && paren == 0 && bracket == 0 && !tick && i + 1 < len && b[i + 1]
            != 0x7c {
            let j = blank_end(b, i + 1);
            lemma_blank_end(b, i + 1);
            lemma_pipe_from_chain(b, j, j, paren, bracket, tick);
            let rest = pipe_from(b, j, j, paren, bracket, tick)->0;
            let segs = seq![segment(b, start, i)] + rest;
            assert(pipe_from(b, i, start, paren, bracket, tick)->0 == segs);
            assert(segs.last() == rest.last());
            assert forall|k: int| 0 <= k < segs.len() implies (#[trigger] segs[k]).0 <= segs[k].1
                && segs[k] == segment(b, segs[k].0, segs[k].1) by {
                if k > 0 {
                    assert(segs[k] == rest[k - 1]);
                }
            }
            assert forall|k: int| 0 <= k < segs.len() - 1 implies {
                let e = (#[trigger] segs[k]).1;
                &&& e + 1 < b.len()
                &&& b[e] == 0x7c
                &&& b[e + 1] != 0x7c
                &&& segs[k + 1].0 == blank_end(b, e + 1)
            } by {
                if k > 0 {
                    assert(segs[k] == rest[k - 1]);
                    assert(segs[k + 1] == rest[k]);
                } else {
                    assert(segs[1] == rest[0]);
                }
            }
        } else if c == 0x7c && i + 1 < len && b[i + 1] == 0x7c {
            lemma_pipe_from_chain(b, i + 2, start, paren, bracket, tick);
        } else {
            lemma_pipe_from_chain(b, i + 1, start, paren, bracket, tick);
        }
    }
}

/// Each redirect found is a well-formed operator with its target: a `>` not
/// preceded by a digit or `&`, `>>` exactly when it appends, and the target parsed
/// after the operator; redirects come in order without overlapping.
pub open spec fn redirects_well_formed(b: Seq<u8>, rs: Seq<RedirectTuple>, from: int) -> bool {
    &&& forall|k: int|
        0 <= k < rs.len() ==> {
            let r = #[trigger] rs[k];
            &&& from <= r.1
            &&& 0 <= r.1 < b.len()
            &&& b[r.1] == 0x3e
            &&& (r.1 == 0 || !is_fd_prefix(b[r.1 - 1]))
            &&& r.2 == (if r.0 {
                r.1 + 2
            } else {
                r.1 + 1
            })
            &&& r.0 == (r.1 + 1 < b.len() && b[r.1 + 1] == 0x3e)
            &&& (r.3, r.4) == spec_redirect_target(b, r.2)
            &&& r.2 <= r.3 <= r.4 <= b.len()
        }
    &&& forall|k: int| 0 <= k < rs.len() - 1 ==> (#[trigger] rs[k]).4 <= rs[k + 1].1
}

/// Law: every redirect `redirects` reports is a bare `>`/`>>` operator with
/// its target, in order of appearance and without overlap.
pub proof fn law_redirects_well_formed(b: Seq<u8>)
    requires
        spec_redirects(b) is Some,
    ensures
        redirects_well_formed(b, spec_redirects(b)->0, 0),
{
    lemma_redirects_from_well_formed(b, 0, 0, 0, false);
}

#[verifier::spinoff_prover]
#[verifier::rlimit(40)]
proof fn lemma_redirects_from_well_formed(b: Seq<u8>, i: int, paren: int, bracket: int, tick: bool)
    requires
        0 <= i <= b.len(),
        redirects_from(b, i, paren, bracket, tick) is Some,
    ensures
        redirects_well_formed(b, redirects_from(b, i, paren, bracket, tick)->0, i),
    decreases b.len() - i,
{
    let len = b.len() as int;
    if i < len {
        let c = b[i];
        if c == 0x27 {
            lemma_single_quote_end(b, i + 1);
            lemma_redirects_from_well_formed(b, single_quote_end(b, i + 1), paren, bracket, tick);
        } else if c == 0x22 {
            lemma_double_quote_end(b, i + 1);
            lemma_redirects_from_well_formed(b, double_quote_end(b, i + 1), paren, bracket, tick);
        } else if c == 0x23 {
            if comment_may_start(b, i) {
                lemma_comment_end(b, i + 1);
                lemma_redirects_from_well_formed(b, comment_end(b, i + 1), paren, bracket, tick);
            } else {
                lemma_redirects_from_well_formed(b, i + 1, paren, bracket, tick);
            }
        } else if c == 0x24 && i + 1 < len && b[i + 1] == 0x28 {
            lemma_redirects_from_well_formed(b, i + 2, paren + 1, bracket, tick);
        } else if c == 0x28 {
            lemma_redirects_from_well_formed(b, i + 1, paren + 1, bracket, tick);
        } else if c == 0x29 {
            lemma_redirects_from_well_formed(b, i + 1, dec_sat(paren), bracket, tick);
        } else if c == 0x5b && i + 1 < len && b[i + 1] == 0x5b {
            lemma_redirects_from_well_formed(b, i + 2, paren, bracket + 1, tick);
        } else if c == 0x5d && i + 1 < len && b[i + 1] == 0x5d {
            lemma_redirects_from_well_formed(b, i + 2, paren, dec_sat(bracket), tick);
        } else if c == 0x60 {
            lemma_redirects_from_well_formed(b, i + 1, paren, bracket, !tick);
        } else if c == 0x3e && paren == 0 && bracket == 0 && !tick {
            if i > 0 && is_fd_prefix(b[i - 1]) {
                if i + 1 < len && b[i + 1] == 0x3e {
                    lemma_redirects_from_well_formed(b, i + 2, paren, bracket, tick);
                } else {
                    lemma_redirects_from_well_formed(b, i + 1, paren, bracket, tick);
                }
            } else {
                let append = i + 1 < len && b[i + 1] == 0x3e;
                let op_end = if append {
                    i + 2
                } else {
                    i + 1
                };
                let probe = blank_end(b, op_end);
                let proc_subst = probe < len && (b[probe] == 0x28 || (b[probe] == 0x3e && probe + 1
                    < len && b[probe + 1] == 0x28));
                if proc_subst {
                    lemma_redirects_from_well_formed(b, op_end, paren, bracket, tick);
                } else {
                    let t = spec_redirect_target(b, op_end);
                    lemma_redirect_target(b, op_end);
                    lemma_redirects_from_well_formed(b, t.1, paren, bracket, tick);
                    let rest = redirects_from(b, t.1, paren, bracket, tick)->0;
                    let rs = seq![(append, i, op_end, t.0, t.1)] + rest;
                    assert(redirects_from(b, i, paren, bracket, tick)->0 == rs);
                    assert forall|k: int| 0 <= k < rs.len() implies {
                        let r = #[trigger] rs[k];
                        &&& i <= r.1
                        &&& 0 <= r.1 < b.len()
                        &&& b[r.1] == 0x3e
                        &&& (r.1 == 0 || !is_fd_prefix(b[r.1 - 1]))
                        &&& r.2 == (if r.0 {
                            r.1 + 2
                        } else {
                            r.1 + 1
                        })
                        &&& r.0 == (r.1 + 1 < b.len() && b[r.1 + 1] == 0x3e)
                        &&& (r.3, r.4) == spec_redirect_target(b, r.2)
                        &&& r.2 <= r.3 <= r.4 <= b.len()
                    } by {
                        if k > 0 {
                            assert(rs[k] == rest[k - 1]);
                        }
                    }
                    assert forall|k: int| 0 <= k < rs.len() - 1 implies (#[trigger] rs[k]).4
                        <= rs[k + 1].1 by {
                        if k > 0 {
                            assert(rs[k] == rest[k - 1]);
                            assert(rs[k + 1] == rest[k]);
                        } else {
                            assert(rs[1] == rest[0]);
                        }
                    }
                }
            }
        } else {
            lemma_redirects_from_well_formed(b, i + 1, paren, bracket, tick);
        }
    }
}

proof fn lemma_single_quote_end_cut(b: Seq<u8>, i: int)
    requires
        0 <= i <= b.len(),
    ensures
        single_quote_end(b, i) == b.len() || (single_quote_end(b, i) > 0 && b[single_quote_end(b, i) - 1] == 0x27),
    decreases b.len() - i,
{
    if i < b.len() && b[i] != 0x27 {
        lemma_single_quote_end_cut(b, i + 1);
    }
}

proof fn lemma_double_quote_end_cut(b: Seq<u8>, i: int)
    requires
        0 <= i <= b.len(),
    ensures
        double_quote_end(b, i) == b.len() || (double_quote_end(b, i) > 0 && b[double_quote_end(b, i) - 1] == 0x22),
    decreases b.len() - i,
{
    if i < b.len() {
        if b[i] == 0x5c && i + 1 < b.len() {
            lemma_double_quote_end_cut(b, i + 2);
        } else if b[i] != 0x22 {
            lemma_double_quote_end_cut(b, i + 1);
        }
    }
}

/// Every span endpoint is a cut: the end of input, an ASCII quote, `#` or
/// newline, or the byte after a closing quote.
pub open spec fn spans_at_cuts(b: Seq<u8>, sp: Seq<(int, int)>) -> bool {
    forall|m: int| 0 <= m < sp.len() ==> is_cut(b, (#[trigger] sp[m]).0) && is_cut(b, sp[m].1)
}

pub proof fn lemma_code_spans_cuts(b: Seq<u8>)
    ensures
        spans_at_cuts(b, spec_code_spans(b)),
{
    lemma_code_spans_from_cuts(b, 0, 0);
}

proof fn lemma_code_spans_from_cuts(b: Seq<u8>, i: int, start: int)
    requires
        0 <= start <= i <= b.len(),
        is_cut(b, start),
    ensures
        spans_at_cuts(b, code_spans_from(b, i, start)),
    decreases b.len() - i,
{
    if i < b.len() {
        if b[i] == 0x27 || b[i] == 0x22 || (b[i] == 0x23 && comment_may_start(b, i)) {
            let j = if b[i] == 0x27 {
                lemma_single_quote_end(b, i + 1);
                lemma_single_quote_end_cut(b, i + 1);
                single_quote_end(b, i + 1)
            } else if b[i] == 0x22 {
                lemma_double_quote_end(b, i + 1);
                lemma_double_quote_end_cut(b, i + 1);
                double_quote_end(b, i + 1)
            } else {
                lemma_comment_end(b, i + 1);
                comment_end(b, i + 1)
            };
            assert(is_cut(b, j));
            assert(is_cut(b, i));
            lemma_code_spans_from_cuts(b, j, j);
            let f = flush_span(start, i);
            let r = code_spans_from(b, j, j);
            assert(code_spans_from(b, i, start) == f + r);
            let c = f + r;
            assert forall|m: int| 0 <= m < c.len() implies is_cut(b, (#[trigger] c[m]).0) && is_cut(b, c[m].1) by {
                if m < f.len() {
                    assert(c[m] == (start, i));
                } else {
                    assert(c[m] == r[m - f.len()]);
                }
            }
        } else {
            lemma_code_spans_from_cuts(b, i + 1, start);
        }
    } else {
        assert(code_spans_from(b, i, start) == flush_span(start, b.len() as int));
    }
}


/// The span ends that stop before the command's end: each sits on a quote
/// or on a `#` that starts a comment.
pub open spec fn spans_end_at_stops(b: Seq<u8>, sp: Seq<(int, int)>) -> bool {
    forall|k: int|
        0 <= k < sp.len() && (#[trigger] sp[k]).1 < b.len() ==> {
            let e = sp[k].1;
            b[e] == 0x27 || b[e] == 0x22 || (b[e] == 0x23 && comment_may_start(b, e))
        }
}

/// No byte from `i` on is a quote or a `#`.
pub open spec fn plain_from(b: Seq<u8>, i: int) -> bool {
    forall|p: int| i <= p < b.len() ==> b[p] != 0x27 && b[p] != 0x22 && b[p] != 0x23
}

proof fn lemma_code_spans_from_stops(b: Seq<u8>, i: int, start: int)
    requires
        0 <= start <= i <= b.len(),
    ensures
        spans_end_at_stops(b, code_spans_from(b, i, start)),
        plain_from(b, i) ==> code_spans_from(b, i, start) == flush_span(start, b.len() as int),
    decreases b.len() - i,
{
    if i < b.len() {
        if b[i] == 0x27 || b[i] == 0x22 || (b[i] == 0x23 && comment_may_start(b, i)) {
            let j = if b[i] == 0x27 {
                lemma_single_quote_end(b, i + 1);
                single_quote_end(b, i + 1)
            } else if b[i] == 0x22 {
                lemma_double_quote_end(b, i + 1);
                double_quote_end(b, i + 1)
            } else {
                lemma_comment_end(b, i + 1);
                comment_end(b, i + 1)
            };
            lemma_code_spans_from_stops(b, j, j);
            let head = flush_span(start, i);
            let tail = code_spans_from(b, j, j);
            let all = code_spans_from(b, i, start);
            assert(all == head + tail);
            assert forall|k: int| 0 <= k < all.len() && (#[trigger] all[k]).1 < b.len() implies {
                let e = all[k].1;
                b[e] == 0x27 || b[e] == 0x22 || (b[e] == 0x23 && comment_may_start(b, e))
            } by {
                if k < head.len() {
                    assert(all[k] == (start, i));
                } else {
                    assert(all[k] == tail[k - head.len()]);
                }
            }
        } else {
            lemma_code_spans_from_stops(b, i + 1, start);
        }
    } else {
        assert(spans_end_at_stops(b, flush_span(start, b.len() as int)));
    }
}

/// Law: each code span ends at the end of the command or where a quoted
/// string or a comment begins; a command with no quote and no `#` is one
/// span from its first byte to its last (none when it is empty).
pub proof fn law_code_spans_end_at_stops(b: Seq<u8>)
    ensures
        spans_end_at_stops(b, spec_code_spans(b)),
        plain_from(b, 0) ==> spec_code_spans(b) == (if b.len() == 0 {
            Seq::<(int, int)>::empty()
        } else {
            seq![(0, b.len() as int)]
        }),
{
    lemma_code_spans_from_stops(b, 0, 0);
}


/// Position `p` lies inside one of the spans.
pub open spec fn in_spans(sp: Seq<(int, int)>, p: int) -> bool {
    exists|j: int| 0 <= j < sp.len() && (#[trigger] sp[j]).0 <= p < sp[j].1
}

/// A byte at which the code-span scan stops: a quote or a comment's `#`.
pub open spec fn span_stop(b: Seq<u8>, p: int) -> bool {
    b[p] == 0x27 || b[p] == 0x22 || (b[p] == 0x23 && comment_may_start(b, p))
}

proof fn lemma_in_spans_concat(head: Seq<(int, int)>, tail: Seq<(int, int)>, p: int)
    requires
        in_spans(tail, p),
    ensures
        in_spans(head + tail, p),
{
    let j = choose|j: int| 0 <= j < tail.len() && (#[trigger] tail[j]).0 <= p < tail[j].1;
    assert((head + tail)[j + head.len()] == tail[j]);
}

/// Scanning over bytes that are no stop leaves the open span as it is.
proof fn lemma_code_spans_skip(b: Seq<u8>, i: int, j: int, cs: int)
    requires
        0 <= cs <= i <= j <= b.len(),
        forall|q: int| i <= q < j ==> !span_stop(b, q),
    ensures
        code_spans_from(b, i, cs) == code_spans_from(b, j, cs),
    decreases j - i,
{
    if i < j {
        assert(!span_stop(b, i));
        lemma_code_spans_skip(b, i + 1, j, cs);
    }
}

/// The first span emitted from `q` with a span open at `cs < q` starts at
/// `cs` and reaches at least `q`.
proof fn lemma_code_spans_open(b: Seq<u8>, q: int, cs: int)
    requires
        0 <= cs < q <= b.len(),
    ensures
        code_spans_from(b, q, cs).len() > 0,
        code_spans_from(b, q, cs)[0].0 == cs,
        code_spans_from(b, q, cs)[0].1 >= q,
    decreases b.len() - q,
{
    if q < b.len() {
        if span_stop(b, q) {
            let j = if b[q] == 0x27 {
                lemma_single_quote_end(b, q + 1);
                single_quote_end(b, q + 1)
            } else if b[q] == 0x22 {
                lemma_double_quote_end(b, q + 1);
                double_quote_end(b, q + 1)
            } else {
                lemma_comment_end(b, q + 1);
                comment_end(b, q + 1)
            };
            assert(code_spans_from(b, q, cs) == flush_span(cs, q) + code_spans_from(b, j, j));
            assert(code_spans_from(b, q, cs)[0] == flush_span(cs, q)[0]);
        } else {
            lemma_code_spans_open(b, q + 1, cs);
        }
    }
}

proof fn lemma_pipe_splits_in_code(
    b: Seq<u8>,
    i: int,
    start: int,
    paren: int,
    bracket: int,
    tick: bool,
    cs: int,
)
    requires
        0 <= start <= i <= b.len(),
        0 <= cs <= i,
        pipe_from(b, i, start, paren, bracket, tick) is Some,
    ensures
        forall|k: int|
            0 <= k < pipe_from(b, i, start, paren, bracket, tick)->0.len() - 1 ==> in_spans(
                code_spans_from(b, i, cs),
                (#[trigger] pipe_from(b, i, start, paren, bracket, tick)->0[k]).1,
            ),
    decreases b.len() - i,
{
    let len = b.len() as int;
    let segs = pipe_from(b, i, start, paren, bracket, tick)->0;
    if i < len {
        let c = b[i];
        if c == 0x27 || c == 0x22 || (c == 0x23 && comment_may_start(b, i)) {
            let j = if c == 0x27 {
                lemma_single_quote_end(b, i + 1);
                single_quote_end(b, i + 1)
            } else if c == 0x22 {
                lemma_double_quote_end(b, i + 1);
                double_quote_end(b, i + 1)
            } else {
                lemma_comment_end(b, i + 1);
                comment_end(b, i + 1)
            };
            lemma_pipe_splits_in_code(b, j, start, paren, bracket, tick, j);
            let head = flush_span(cs, i);
            let tail = code_spans_from(b, j, j);
            assert(code_spans_from(b, i, cs) == head + tail);
            assert forall|k: int| 0 <= k < segs.len() - 1 implies in_spans(
                code_spans_from(b, i, cs),
                (#[trigger] segs[k]).1,
            ) by {
                lemma_in_spans_concat(head, tail, segs[k].1);
            }
        } else if (c == 0x24 && i + 1 < len && b[i + 1] == 0x28) || (c == 0x5b && i + 1 < len && b[i + 1]
            == 0x5b) || (c == 0x5d && i + 1 < len && b[i + 1] == 0x5d) || (c == 0x7c && i + 1 < len
            && b[i + 1] == 0x7c && !(paren == 0 && bracket == 0 && !tick && b[i + 1] != 0x7c)) {
            let np = if c == 0x24 {
                paren + 1
            } else {
                paren
            };
            let nb = if c == 0x5b {
                bracket + 1
            } else if c == 0x5d {
                dec_sat(bracket)
            } else {
                bracket
            };
            assert(segs == pipe_from(b, i + 2, start, np, nb, tick)->0);
            lemma_pipe_splits_in_code(b, i + 2, start, np, nb, tick, cs);
            lemma_code_spans_skip(b, i, i + 2, cs);
        } else if c == 0x7c && paren == 0 && bracket == 0 && !tick && i + 1 < len && b[i + 1] != 0x7c {
            let j = blank_end(b, i + 1);
            lemma_blank_end(b, i + 1);
            let rest = pipe_from(b, j, j, paren, bracket, tick)->0;
            assert(segs == seq![segment(b, start, i)] + rest);
            lemma_pipe_splits_in_code(b, j, j, paren, bracket, tick, cs);
            assert forall|q: int| i <= q < j implies !span_stop(b, q) by {
                if q > i {
                    assert(is_blank(b[q]));
                }
            }
            lemma_code_spans_skip(b, i, j, cs);
            lemma_code_spans_skip(b, i, i + 1, cs);
            lemma_code_spans_open(b, i + 1, cs);
            let sp = code_spans_from(b, i, cs);
            assert forall|k: int| 0 <= k < segs.len() - 1 implies in_spans(sp, (#[trigger] segs[k]).1) by {
                if k == 0 {
                    assert(segs[0].1 == i);
                    assert(sp[0].0 <= i < sp[0].1);
                } else {
                    assert(segs[k] == rest[k - 1]);
                }
            }
        } else {
            let np = if c == 0x28 {
                paren + 1
            } else if c == 0x29 {
                dec_sat(paren)
            } else {
                paren
            };
            let nt = if c == 0x60 {
                !tick
            } else {
                tick
            };
            assert(segs == pipe_from(b, i + 1, start, np, bracket, nt)->0);
            lemma_pipe_splits_in_code(b, i + 1, start, np, bracket, nt, cs);
            lemma_code_spans_skip(b, i, i + 1, cs);
        }
    }
}

/// Law: every `|` that separates two pipeline stages lies inside a code
/// span, that is outside every quoted string and comment.
pub proof fn law_pipe_splits_in_code(b: Seq<u8>)
    requires
        spec_pipe_segments(b) is Some,
    ensures
        forall|k: int|
            0 <= k < spec_pipe_segments(b)->0.len() - 1 ==> in_spans(
                spec_code_spans(b),
                (#[trigger] spec_pipe_segments(b)->0[k]).1,
            ),
{
    lemma_pipe_splits_in_code(b, 0, 0, 0, 0, false, 0);
}


proof fn lemma_pipe_from_fits(b: Seq<u8>, i: int, start: int, paren: int, bracket: int, tick: bool)
    requires
        0 <= i <= b.len(),
        b.len() <= u32_max(),
        0 <= paren,
        0 <= bracket,
        paren + bracket <= i,
    ensures
        pipe_from(b, i, start, paren, bracket, tick) is Some,
    decreases b.len() - i,
{
    let len = b.len() as int;
    if i < len {
        let c = b[i];
        if c == 0x27 {
            lemma_single_quote_end(b, i + 1);
            lemma_pipe_from_fits(b, single_quote_end(b, i + 1), start, paren, bracket, tick);
        } else if c == 0x22 {
            lemma_double_quote_end(b, i + 1);
            lemma_pipe_from_fits(b, double_quote_end(b, i + 1), start, paren, bracket, tick);
        } else if c == 0x23 && comment_may_start(b, i) {
            lemma_comment_end(b, i + 1);
            lemma_pipe_from_fits(b, comment_end(b, i + 1), start, paren, bracket, tick);
        } else if c == 0x24 && i + 1 < len && b[i + 1] == 0x28 {
            lemma_pipe_from_fits(b, i + 2, start, paren + 1, bracket, tick);
        } else if c == 0x28 {
            lemma_pipe_from_fits(b, i + 1, start, paren + 1, bracket, tick);
        } else if c == 0x29 {
            lemma_pipe_from_fits(b, i + 1, start, dec_sat(paren), bracket, tick);
        } else if c == 0x5b && i + 1 < len && b[i + 1] == 0x5b {
            lemma_pipe_from_fits(b, i + 2, start, paren, bracket + 1, tick);
        } else if c == 0x5d && i + 1 < len && b[i + 1] == 0x5d {
            lemma_pipe_from_fits(b, i + 2, start, paren, dec_sat(bracket), tick);
        } else if c == 0x60 {
            lemma_pipe_from_fits(b, i + 1, start, paren, bracket, !tick);
        } else if c == 0x7c && paren == 0 && bracket == 0 && !tick && i + 1 < len && b[i + 1] != 0x7c {
            lemma_blank_end(b, i + 1);
            lemma_pipe_from_fits(b, blank_end(b, i + 1), blank_end(b, i + 1), paren, bracket, tick);
        } else if c == 0x7c && i + 1 < len && b[i + 1] == 0x7c {
            lemma_pipe_from_fits(b, i + 2, start, paren, bracket, tick);
        } else {
            lemma_pipe_from_fits(b, i + 1, start, paren, bracket, tick);
        }
    }
}

/// Law: the nesting of a command no longer than `u32::MAX` bytes always fits
/// the `u32` counters, since each level opened takes at least one byte.
pub proof fn law_short_commands_fit(b: Seq<u8>)
    requires
        b.len() <= u32_max(),
    ensures
        spec_pipe_segments(b) is Some,
        spec_redirects(b) is Some,
{
    lemma_pipe_from_fits(b, 0, 0, 0, 0, false);
    lemma_redirects_from_fits(b, 0, 0, 0, false);
}

proof fn lemma_redirects_from_fits(b: Seq<u8>, i: int, paren: int, bracket: int, tick: bool)
    requires
        0 <= i <= b.len(),
        b.len() <= u32_max(),
        0 <= paren,
        0 <= bracket,
        paren + bracket <= i,
    ensures
        redirects_from(b, i, paren, bracket, tick) is Some,
    decreases b.len() - i,
{
    let len = b.len() as int;
    if i < len {
        let c = b[i];
        if c == 0x27 {
            lemma_single_quote_end(b, i + 1);
            lemma_redirects_from_fits(b, single_quote_end(b, i + 1), paren, bracket, tick);
        } else if c == 0x22 {
            lemma_double_quote_end(b, i + 1);
            lemma_redirects_from_fits(b, double_quote_end(b, i + 1), paren, bracket, tick);
        } else if c == 0x23 && comment_may_start(b, i) {
            lemma_comment_end(b, i + 1);
            lemma_redirects_from_fits(b, comment_end(b, i + 1), paren, bracket, tick);
        } else if c == 0x24 && i + 1 < len && b[i + 1] == 0x28 {
            lemma_redirects_from_fits(b, i + 2, paren + 1, bracket, tick);
        } else if c == 0x28 {
            lemma_redirects_from_fits(b, i + 1, paren + 1, bracket, tick);
        } else if c == 0x29 {
            lemma_redirects_from_fits(b, i + 1, dec_sat(paren), bracket, tick);
        } else if c == 0x5b && i + 1 < len && b[i + 1] == 0x5b {
            lemma_redirects_from_fits(b, i + 2, paren, bracket + 1, tick);
        } else if c == 0x5d && i + 1 < len && b[i + 1] == 0x5d {
            lemma_redirects_from_fits(b, i + 2, paren, dec_sat(bracket), tick);
        } else if c == 0x60 {
            lemma_redirects_from_fits(b, i + 1, paren, bracket, !tick);
        } else if c == 0x3e && paren == 0 && bracket == 0 && !tick {
            if i > 0 && is_fd_prefix(b[i - 1]) {
                if i + 1 < len && b[i + 1] == 0x3e {
                    lemma_redirects_from_fits(b, i + 2, paren, bracket, tick);
                } else {
                    lemma_redirects_from_fits(b, i + 1, paren, bracket, tick);
                }
            } else {
                let append = i + 1 < len && b[i + 1] == 0x3e;
                let op_end = if append {
                    i + 2
                } else {
                    i + 1
                };
                let probe = blank_end(b, op_end);
                let proc_subst = probe < len && (b[probe] == 0x28 || (b[probe] == 0x3e && probe + 1
                    < len && b[probe + 1] == 0x28));
                if proc_subst {
                    lemma_redirects_from_fits(b, op_end, paren, bracket, tick);
                } else {
                    let t = spec_redirect_target(b, op_end);
                    lemma_redirect_target(b, op_end);
                    lemma_redirects_from_fits(b, t.1, paren, bracket, tick);
                }
            }
        } else {
            lemma_redirects_from_fits(b, i + 1, paren, bracket, tick);
        }
    }
}


/// Every redirect's operator starts at a cut of the command's bytes, and its
/// target starts and ends at cuts.
pub open spec fn redirects_at_cuts(b: Seq<u8>, rs: Seq<RedirectTuple>) -> bool {
    forall|k: int|
        0 <= k < rs.len() ==> is_cut(b, (#[trigger] rs[k]).1) && is_cut(b, rs[k].3) && is_cut(b, rs[k].4)
}

proof fn lemma_bare_word_end_stop(b: Seq<u8>, i: int)
    requires
        0 <= i <= b.len(),
    ensures
        bare_word_end(b, i) < b.len() ==> ends_word(b[bare_word_end(b, i)]),
    decreases b.len() - i,
{
    if i < b.len() && !ends_word(b[i]) {
        lemma_bare_word_end_stop(b, i + 1);
    }
}

proof fn lemma_redirect_target_cuts(b: Seq<u8>, from: int)
    requires
        1 <= from <= b.len(),
        is_ascii_byte(b[from - 1]),
    ensures
        is_cut(b, spec_redirect_target(b, from).0),
        is_cut(b, spec_redirect_target(b, from).1),
{
    lemma_redirect_target(b, from);
    lemma_blank_end(b, from);
    let start = blank_end(b, from);
    if start > from {
        assert(is_blank(b[start - 1]));
    }
    if start < b.len() {
        if b[start] == 0x27 {
            lemma_single_quote_end_cut(b, start + 1);
        } else if b[start] == 0x22 {
            lemma_double_quote_end_cut(b, start + 1);
        } else {
            lemma_bare_word_end(b, start);
            lemma_bare_word_end_stop(b, start);
        }
    }
}

/// Law: the operator and target of each redirect `redirects` reports start
/// and end at cuts of the command's bytes (never inside a character).
pub proof fn law_redirects_at_cuts(b: Seq<u8>)
    requires
        spec_redirects(b) is Some,
    ensures
        redirects_at_cuts(b, spec_redirects(b)->0),
{
    let rs = spec_redirects(b)->0;
    law_redirects_well_formed(b);
    assert forall|k: int| 0 <= k < rs.len() implies is_cut(b, (#[trigger] rs[k]).1) && is_cut(b, rs[k].3)
        && is_cut(b, rs[k].4) by {
        let r = rs[k];
        assert(b[r.1] == 0x3e);
        assert(b[r.2 - 1] == 0x3e);
        lemma_redirect_target_cuts(b, r.2);
    }
}


/// A byte the pipe scan passes over without any effect: no quote, no `#`,
/// `$`, `(`, `)`, `[`, `]`, backtick or `|`.
pub open spec fn inert_byte(c: u8) -> bool {
    c != 0x27 && c != 0x22 && c != 0x23 && c != 0x24 && c != 0x28 && c != 0x29 && c != 0x5b && c != 0x5d && c
        != 0x60 && c != 0x7c
}

/// Every byte of `s` is inert.
pub open spec fn all_inert(s: Seq<u8>) -> bool {
    forall|k: int| 0 <= k < s.len() ==> inert_byte(#[trigger] s[k])
}

proof fn lemma_pipe_skip_inert(b: Seq<u8>, i: int, j: int, start: int, paren: int, bracket: int, tick: bool)
    requires
        0 <= i <= j <= b.len(),
        forall|k: int| i <= k < j ==> inert_byte(#[trigger] b[k]),
    ensures
        pipe_from(b, i, start, paren, bracket, tick) == pipe_from(b, j, start, paren, bracket, tick),
    decreases j - i,
{
    if i < j {
        assert(inert_byte(b[i]));
        lemma_pipe_skip_inert(b, i + 1, j, start, paren, bracket, tick);
    }
}

/// The opening bytes of a nesting form: `(`, `$(`, `[[` or a backtick.
pub open spec fn nest_open(kind: int) -> Seq<u8> {
    if kind == 0 {
        seq![0x28u8]
    } else if kind == 1 {
        seq![0x24u8, 0x28u8]
    } else if kind == 2 {
        seq![0x5bu8, 0x5bu8]
    } else {
        seq![0x60u8]
    }
}

/// The closing bytes of a nesting form: `)`, `)`, `]]` or a backtick.
pub open spec fn nest_close(kind: int) -> Seq<u8> {
    if kind == 0 || kind == 1 {
        seq![0x29u8]
    } else if kind == 2 {
        seq![0x5du8, 0x5du8]
    } else {
        seq![0x60u8]
    }
}

/// Law: a balanced `( … )`, `$( … )`, `[[ … ]]` or backtick pair closes what
/// it opened, so a later unquoted `|` still splits the pipeline. For
/// `A(X)|B` (and the other forms) whose pieces hold only inert bytes and
/// with `B` non-empty, there are exactly two stages: the first from the
/// start up to the `|`, the second ending at the end of the command.
pub proof fn law_balanced_nesting_keeps_pipes(a: Seq<u8>, x: Seq<u8>, c: Seq<u8>, kind: int)
    requires
        all_inert(a),
        all_inert(x),
        all_inert(c),
        c.len() > 0,
        0 <= kind < 4,
    ensures
        ({
            let b = a + nest_open(kind) + x + nest_close(kind) + seq![0x7cu8] + c;
            let p = (a.len() + nest_open(kind).len() + x.len() + nest_close(kind).len()) as int;
            &&& b[p] == 0x7c
            &&& spec_pipe_segments(b) matches Some(segs) && segs.len() == 2 && segs[0].0 == 0 && segs[0].1 == p
                && segs[1].1 == b.len() && segs[1].0 > p
        }),
{
    let open = nest_open(kind);
    let close = nest_close(kind);
    let b = a + open + x + close + seq![0x7cu8] + c;
    let la = a.len() as int;
    let lo = open.len() as int;
    let lx = x.len() as int;
    let q = la + lo + lx;
    let p = q + close.len();
    let len = b.len() as int;
    assert(len == p + 1 + c.len());
    assert forall|k: int| 0 <= k < la implies inert_byte(#[trigger] b[k]) by {
        assert(b[k] == a[k]);
    }
    assert forall|k: int| la + lo <= k < q implies inert_byte(#[trigger] b[k]) by {
        assert(b[k] == x[k - la - lo]);
    }
    assert forall|k: int| p + 1 <= k < len implies inert_byte(#[trigger] b[k]) by {
        assert(b[k] == c[k - p - 1]);
    }
    assert(b[p] == 0x7c);
    assert(b[p + 1] == c[0]);
    assert forall|k: int| 0 <= k < lo implies b[la + k] == #[trigger] open[k] by {
    }
    assert forall|k: int| 0 <= k < close.len() implies b[q + k] == #[trigger] close[k] by {
    }
    lemma_pipe_skip_inert(b, 0, la, 0, 0, 0, false);
    if kind == 0 {
        assert(b[la] == 0x28 && b[q] == 0x29);
        lemma_pipe_skip_inert(b, la + lo, q, 0, 1, 0, false);
        assert(pipe_from(b, q, 0, 1, 0, false) == pipe_from(b, p, 0, 0, 0, false));
    } else if kind == 1 {
        assert(b[la] == 0x24 && b[la + 1] == 0x28 && b[q] == 0x29);
        lemma_pipe_skip_inert(b, la + lo, q, 0, 1, 0, false);
        assert(pipe_from(b, q, 0, 1, 0, false) == pipe_from(b, p, 0, 0, 0, false));
    } else if kind == 2 {
        assert(b[la] == 0x5b && b[la + 1] == 0x5b && b[q] == 0x5d && b[q + 1] == 0x5d);
        lemma_pipe_skip_inert(b, la + lo, q, 0, 0, 1, false);
        assert(pipe_from(b, q, 0, 0, 1, false) == pipe_from(b, p, 0, 0, 0, false));
    } else {
        assert(b[la] == 0x60 && b[q] == 0x60);
        lemma_pipe_skip_inert(b, la + lo, q, 0, 0, 0, true);
        assert(pipe_from(b, q, 0, 0, 0, true) == pipe_from(b, p, 0, 0, 0, false));
    }
    let j = blank_end(b, p + 1);
    lemma_blank_end(b, p + 1);
    lemma_pipe_skip_inert(b, j, len, j, 0, 0, false);
    assert(pipe_from(b, len, j, 0, 0, false) == Some(seq![segment(b, j, len)]));
    assert(pipe_from(b, p, 0, 0, 0, false) == Some(seq![segment(b, 0, p)] + seq![segment(b, j, len)]));
}

} // verus!
