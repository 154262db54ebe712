//! Per-filter arg parsing and config for the pre-filter tee branches
//! injected by `rewrite::inject_pre_filter_tees`.
use vstd::prelude::*;
use crate::text::{chars_of, is_unicode_whitespace, is_whitespace, is_token};

verus! {

broadcast use vstd::seq::group_seq_axioms;

/// Window sizes for the pre-filter tee branches, read from the
/// `OBS_*_LINES` environment values when a PreToolUse hook runs.
#[derive(Debug, PartialEq, Eq, Structural)]
pub struct PreFilterConfig {
    pub grep_before: usize,
    pub grep_after: usize,
    pub head_peek: usize,
    pub tail_peek: usize,
}

/// The window used when a value is missing or unreadable.
pub const DEFAULT_WINDOW: usize = 3;

/// The largest window a value can ask for.
pub const MAX_WINDOW: usize = 1000;

pub open spec fn is_ascii_letter(c: char) -> bool {
    ('A' <= c && c <= 'Z') || ('a' <= c && c <= 'z')
}

/// A grep argument token that inverts the match: `--invert-match`, or a
/// run of short flags (`-` then ASCII letters only) that contains `v`.
pub open spec fn is_invert_flag(t: Seq<char>) -> bool {
    ||| t == "--invert-match"@
    ||| {
        &&& t.len() >= 1
        &&& t[0] == '-'
        &&& !(t.len() >= 2 && t[1] == '-')
        &&& forall|k: int| 1 <= k < t.len() ==> is_ascii_letter(#[trigger] t[k])
        &&& exists|k: int| 1 <= k < t.len() && #[trigger] t[k] == 'v'
    }
}

/// Some whitespace-separated token of the grep arguments inverts the match.
pub open spec fn spec_grep_is_invert_match(s: Seq<char>) -> bool {
    exists|a: int, b: int| is_token(s, a, b) && is_invert_flag(#[trigger] s.subrange(a, b))
}

/// Does `cs[start..end]` hold the characters of `lit`?
fn range_equals(cs: &Vec<char>, start: usize, end: usize, lit: &Vec<char>) -> (res: bool)
    requires
        start <= end <= cs@.len(),
    ensures
        res == (cs@.subrange(start as int, end as int) == lit@),
{
    if end - start != lit.len() {
        return false;
    }
    let mut k: usize = 0;
    while k < lit.len()
        invariant
            start <= end <= cs@.len(),
            end - start == lit@.len(),
            k <= lit@.len(),
            forall|m: int| 0 <= m < k ==> cs@[start + m] == lit@[m],
        decreases lit.len() - k,
    {
        if cs[start + k] != lit[k] {
            assert(cs@.subrange(start as int, end as int)[k as int] != lit@[k as int]);
            return false;
        }
        k += 1;
    }
    assert(cs@.subrange(start as int, end as int) =~= lit@);
    true
}

/// Is the token `cs[start..end]` an invert-match flag?
fn token_inverts(cs: &Vec<char>, start: usize, end: usize) -> (res: bool)
    requires
        start < end <= cs@.len(),
    ensures
        res == is_invert_flag(cs@.subrange(start as int, end as int)),
{
    let ghost t = cs@.subrange(start as int, end as int);
    let long = chars_of("--invert-match");
    if range_equals(cs, start, end, &long) {
        return true;
    }
    if cs[start] != '-' {
        return false;
    }
    // Short-flag run: `-` then ASCII letters only; `--…` is not one.
    if end - start >= 2 && cs[start + 1] == '-' {
        return false;
    }
    let mut all_letters = true;
    let mut has_v = false;
    let mut k = start + 1;
    while k < end
        invariant
            start < end <= cs@.len(),
            start + 1 <= k <= end,
            t == cs@.subrange(start as int, end as int),
            all_letters == (forall|m: int| 1 <= m < k - start ==> is_ascii_letter(#[trigger] t[m])),
            has_v == (exists|m: int| 1 <= m < k - start && #[trigger] t[m] == 'v'),
        decreases end - k,
    {
        let c = cs[k];
        assert(t[k - start] == c);
        if !(('A' <= c && c <= 'Z') || ('a' <= c && c <= 'z')) {
            all_letters = false;
        }
        if c == 'v' {
            has_v = true;
        }
        k += 1;
        proof {
            if all_letters {
                assert forall|m: int| 1 <= m < k - start implies is_ascii_letter(#[trigger] t[m]) by {
                }
            }
            if has_v && c != 'v' {
                let w = choose|m: int| 1 <= m < k - 1 - start && #[trigger] t[m] == 'v';
                assert(1 <= w < k - start && t[w] == 'v');
            }
            if !has_v {
                assert forall|m: int| 1 <= m < k - start implies #[trigger] t[m] != 'v' by {
                }
            }
        }
    }
    all_letters && has_v
}

/// Return true when the user's grep args include `-v` / `--invert-match`
/// in any whitespace-tokenized form. Detection is approximate by design: no
/// quote handling, so `grep -- -v` counts as inverted.
pub fn grep_is_invert_match(args: &str) -> (res: bool)
    ensures
        res == spec_grep_is_invert_match(args@),
{
    let cs = chars_of(args);
    let ghost s = args@;
    let n = cs.len();
    let mut i: usize = 0;
    while i < n
        invariant
            cs@ == s,
            s == args@,
            n == s.len(),
            i <= n,
            i < n && !is_unicode_whitespace(s[i as int]) ==> (i == 0 || is_unicode_whitespace(s[i - 1])),
            forall|a: int, b: int| is_token(s, a, b) && a < i ==> b <= i && !is_invert_flag(#[trigger] s.subrange(a, b)),
        decreases n - i,
    {
        if is_whitespace(cs[i]) {
            i += 1;
            proof {
                assert forall|a: int, b: int| is_token(s, a, b) && a < i implies b <= i && !is_invert_flag(
                    #[trigger] s.subrange(a, b),
                ) by {
                    if a == i - 1 {
                        assert(!is_unicode_whitespace(s[a]));
                    }
                }
            }
        } else {
            let start = i;
            while i < n && !is_whitespace(cs[i])
                invariant
                    cs@ == s,
                    n == s.len(),
                    start < n,
                    start <= i <= n,
                    forall|k: int| start <= k < i ==> !is_unicode_whitespace(#[trigger] s[k]),
                decreases n - i,
            {
                i += 1;
            }
            proof {
                assert(start < i);
                assert(is_token(s, start as int, i as int));
            }
            if token_inverts(&cs, start, i) {
                proof {
                    let a = start as int;
                    let b = i as int;
                    assert(is_token(s, a, b) && is_invert_flag(s.subrange(a, b)));
                    assert(spec_grep_is_invert_match(s));
                }
                return true;
            }
            proof {
                assert forall|a: int, b: int| is_token(s, a, b) && a < i implies b <= i && !is_invert_flag(
                    #[trigger] s.subrange(a, b),
                ) by {
                    if a >= start {
                        if a > start {
                            assert(!is_unicode_whitespace(s[a - 1]));
                        }
                        assert(a == start);
                        if b < i {
                            assert(!is_unicode_whitespace(s[b]));
                        }
                        if b > i {
                            assert(!is_unicode_whitespace(s[i as int]));
                        }
                        assert(b == i);
                    }
                }
            }
        }
    }
    proof {
        assert forall|a: int, b: int| is_token(s, a, b) implies !is_invert_flag(#[trigger] s.subrange(a, b)) by {
            assert(a < n);
        }
    }
    false
}

/// `t` without its leading whitespace.
pub open spec fn trim_start(t: Seq<char>) -> Seq<char>
    decreases t.len(),
{
    if t.len() > 0 && is_unicode_whitespace(t[0]) {
        trim_start(t.drop_first())
    } else {
        t
    }
}

/// `t` without its trailing whitespace.
pub open spec fn trim_end(t: Seq<char>) -> Seq<char>
    decreases t.len(),
{
    if t.len() > 0 && is_unicode_whitespace(t.last()) {
        trim_end(t.drop_last())
    } else {
        t
    }
}

/// `t` without leading or trailing whitespace, as `str::trim` leaves it.
pub open spec fn trim(t: Seq<char>) -> Seq<char> {
    trim_end(trim_start(t))
}

pub open spec fn is_digit_char(c: char) -> bool {
    '0' <= c && c <= '9'
}

/// The number written by the decimal digits `ds`.
pub open spec fn digits_value(ds: Seq<char>) -> nat
    decreases ds.len(),
{
    if ds.len() == 0 {
        0
    } else {
        digits_value(ds.drop_last()) * 10 + ((ds.last() as int - 48) as nat)
    }
}

/// Every character of `ds` is an ASCII digit.
pub open spec fn all_digits(ds: Seq<char>) -> bool {
    forall|k: int| 0 <= k < ds.len() ==> is_digit_char(#[trigger] ds[k])
}

/// The digits of a number literal: `t` without a leading `+` (a lone `+`
/// stays, and is no digit).
pub open spec fn unsigned_digits(t: Seq<char>) -> Seq<char> {
    if t.len() >= 2 && t[0] == '+' {
        t.drop_first()
    } else {
        t
    }
}

/// `str::parse::<usize>`: an optional `+`, then one or more ASCII digits,
/// whose value fits in `usize`.
pub open spec fn spec_parse_usize(t: Seq<char>) -> Option<nat> {
    let ds = unsigned_digits(t);
    if ds.len() > 0 && all_digits(ds) && digits_value(ds) <= usize::MAX {
        Some(digits_value(ds))
    } else {
        None
    }
}

/// A window size from an environment value: the trimmed value parsed as a
/// `usize` and capped at `MAX_WINDOW`; `DEFAULT_WINDOW` when the value is
/// missing or does not parse.
pub open spec fn spec_window(value: Option<Seq<char>>) -> nat {
    match value {
        Some(v) => match spec_parse_usize(trim(v)) {
            Some(n) => if n <= MAX_WINDOW {
                n
            } else {
                MAX_WINDOW as nat
            },
            None => DEFAULT_WINDOW as nat,
        },
        None => DEFAULT_WINDOW as nat,
    }
}

proof fn lemma_trim_start_range(t: Seq<char>, i: int)
    requires
        0 <= i <= t.len(),
        forall|k: int| 0 <= k < i ==> is_unicode_whitespace(#[trigger] t[k]),
    ensures
        trim_start(t) == trim_start(t.subrange(i, t.len() as int)),
    decreases i,
{
    if i > 0 {
        assert(t.drop_first().subrange(i - 1, t.drop_first().len() as int) =~= t.subrange(i, t.len() as int));
        assert forall|k: int| 0 <= k < i - 1 implies is_unicode_whitespace(#[trigger] t.drop_first()[k]) by {
            assert(t.drop_first()[k] == t[k + 1]);
        }
        lemma_trim_start_range(t.drop_first(), i - 1);
    } else {
        assert(t.subrange(0, t.len() as int) =~= t);
    }
}

proof fn lemma_trim_end_range(t: Seq<char>, j: int)
    requires
        0 <= j <= t.len(),
        forall|k: int| j <= k < t.len() ==> is_unicode_whitespace(#[trigger] t[k]),
    ensures
        trim_end(t) == trim_end(t.subrange(0, j)),
    decreases t.len() - j,
{
    if j < t.len() {
        assert(t.drop_last().subrange(0, j) =~= t.subrange(0, j));
        assert forall|k: int| j <= k < t.drop_last().len() implies is_unicode_whitespace(#[trigger] t.drop_last()[k]) by {
            assert(t.drop_last()[k] == t[k]);
        }
        lemma_trim_end_range(t.drop_last(), j);
    } else {
        assert(t.subrange(0, j) =~= t);
    }
}

proof fn lemma_digits_value_prefix(ds: Seq<char>, i: int)
    requires
        0 <= i <= ds.len(),
    ensures
        digits_value(ds.take(i)) <= digits_value(ds),
    decreases ds.len() - i,
{
    if i < ds.len() {
        lemma_digits_value_prefix(ds, i + 1);
        assert(ds.take(i + 1).drop_last() =~= ds.take(i));
    } else {
        assert(ds.take(i) =~= ds);
    }
}

/// Parse the digits `cs[from..to]` as a `usize`, `None` on a non-digit or
/// overflow.
fn parse_digits(cs: &Vec<char>, from: usize, to: usize) -> (res: Option<usize>)
    requires
        from < to <= cs@.len(),
    ensures
        ({
            let ds = cs@.subrange(from as int, to as int);
            match res {
                Some(n) => all_digits(ds) && n == digits_value(ds),
                None => !all_digits(ds) || digits_value(ds) > usize::MAX,
            }
        }),
{
    let ghost ds = cs@.subrange(from as int, to as int);
    let mut acc: usize = 0;
    let mut i = from;
    while i < to
        invariant
            from <= i <= to <= cs@.len(),
            ds == cs@.subrange(from as int, to as int),
            forall|k: int| 0 <= k < i - from ==> is_digit_char(#[trigger] ds[k]),
            acc == digits_value(ds.take(i - from)),
        decreases to - i,
    {
        let c = cs[i];
        assert(ds[i - from] == c);
        if !('0' <= c && c <= '9') {
            return None;
        }
        let d = (c as u32 - 48) as usize;
        proof {
            assert(ds.take(i - from + 1).drop_last() =~= ds.take(i - from));
            assert(ds.take(i - from + 1).last() == c);
        }
        let next = match acc.checked_mul(10) {
            Some(m) => m.checked_add(d),
            None => None,
        };
        match next {
            Some(v) => {
                acc = v;
            },
            None => {
                proof {
                    lemma_digits_value_prefix(ds, i - from + 1);
                }
                return None;
            },
        }
        i += 1;
    }
    proof {
        assert(ds.take(to - from) =~= ds);
    }
    Some(acc)
}

/// `str::trim` then `str::parse::<usize>`.
pub(crate) fn parse_trimmed_usize(s: &str) -> (res: Option<usize>)
    ensures
        match res {
            Some(n) => spec_parse_usize(trim(s@)) == Some(n as nat),
            None => spec_parse_usize(trim(s@)) is None,
        },
{
    let cs = chars_of(s);
    let n = cs.len();
    let mut lo: usize = 0;
    while lo < n && is_whitespace(cs[lo])
        invariant
            cs@ == s@,
            n == cs@.len(),
            lo <= n,
            forall|k: int| 0 <= k < lo ==> is_unicode_whitespace(#[trigger] cs@[k]),
        decreases n - lo,
    {
        lo += 1;
    }
    let mut hi: usize = n;
    while hi > lo && is_whitespace(cs[hi - 1])
        invariant
            cs@ == s@,
            n == cs@.len(),
            lo <= hi <= n,
            forall|k: int| hi <= k < n ==> is_unicode_whitespace(#[trigger] cs@[k]),
        decreases hi - lo,
    {
        hi -= 1;
    }
    let ghost t = cs@.subrange(lo as int, hi as int);
    proof {
        lemma_trim_start_range(cs@, lo as int);
        let rest = cs@.subrange(lo as int, n as int);
        if lo < n {
            assert(rest[0] == cs@[lo as int]);
        }
        assert(trim_start(rest) == rest);
        assert forall|k: int| hi - lo <= k < rest.len() implies is_unicode_whitespace(#[trigger] rest[k]) by {
            assert(rest[k] == cs@[lo + k]);
        }
        lemma_trim_end_range(rest, hi - lo);
        assert(rest.subrange(0, hi - lo) =~= t);
        if hi > lo {
            assert(t.last() == cs@[hi - 1]);
        }
        assert(trim_end(t) == t);
        assert(trim(s@) == t);
    }
    if hi - lo >= 2 && cs[lo] == '+' {
        proof {
            assert(t[0] == '+');
            assert(t.drop_first() =~= cs@.subrange(lo + 1, hi as int));
        }
        parse_digits(&cs, lo + 1, hi)
    } else if hi > lo {
        proof {
            if t.len() >= 2 {
                assert(t[0] == cs@[lo as int]);
            }
        }
        parse_digits(&cs, lo, hi)
    } else {
        None
    }
}

/// A window size from an environment value (see `spec_window`).
pub fn window_from_value(value: Option<&str>) -> (res: usize)
    ensures
        res == spec_window(
            match value {
                Some(v) => Some(v@),
                None => None,
            },
        ),
{
    match value {
        Some(s) => match parse_trimmed_usize(s) {
            Some(n) => if n <= MAX_WINDOW {
                n
            } else {
                MAX_WINDOW
            },
            None => DEFAULT_WINDOW,
        },
        None => DEFAULT_WINDOW,
    }
}

impl PreFilterConfig {
    /// The config from the values of `OBS_GREP_BEFORE_LINES`,
    /// `OBS_GREP_AFTER_LINES`, `OBS_HEAD_PEEK_LINES` and
    /// `OBS_TAIL_PEEK_LINES` (`None` for an unset or non-Unicode variable):
    /// missing, empty or unparseable values fall back to 3, and values are
    /// capped at 1000.
    pub fn from_env(
        grep_before: Option<&str>,
        grep_after: Option<&str>,
        head_peek: Option<&str>,
        tail_peek: Option<&str>,
    ) -> (res: Self)
        ensures
            res.grep_before == spec_window(
                match grep_before {
                    Some(v) => Some(v@),
                    None => None,
                },
            ),
            res.grep_after == spec_window(
                match grep_after {
                    Some(v) => Some(v@),
                    None => None,
                },
            ),
            res.head_peek == spec_window(
                match head_peek {
                    Some(v) => Some(v@),
                    None => None,
                },
            ),
            res.tail_peek == spec_window(
                match tail_peek {
                    Some(v) => Some(v@),
                    None => None,
                },
            ),
    {
        PreFilterConfig {
            grep_before: window_from_value(grep_before),
            grep_after: window_from_value(grep_after),
            head_peek: window_from_value(head_peek),
            tail_peek: window_from_value(tail_peek),
        }
    }
}

/// Law: every configured window lies in `0..=MAX_WINDOW`, whatever the
/// environment holds.
pub proof fn law_window_bounded(value: Option<Seq<char>>)
    ensures
        spec_window(value) <= MAX_WINDOW,
{
}

} // verus!
