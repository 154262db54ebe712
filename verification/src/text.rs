//! Byte-level text helpers shared by the scanner, the rewriter and the
//! renderers: UTF-8 facts about cutting and joining byte sequences, and the
//! conversion from verified byte buffers back to `String`.
use vstd::prelude::*;
use vstd::utf8::*;

verus! {

broadcast use vstd::seq::group_seq_axioms;

/// The UTF-8 bytes of a character sequence.
pub open spec fn utf8(s: Seq<char>) -> Seq<u8> {
    encode_utf8(s)
}

/// True when the byte is an ASCII byte (a one-byte UTF-8 scalar).
pub open spec fn is_ascii_byte(c: u8) -> bool {
    c <= 0x7f
}

/// True when every byte of the sequence is ASCII.
pub open spec fn all_ascii(b: Seq<u8>) -> bool {
    forall|i: int| 0 <= i < b.len() ==> is_ascii_byte(#[trigger] b[i])
}

/// A position at which a UTF-8 byte sequence may be cut without splitting a
/// character: either end, an ASCII byte, or just after an ASCII byte.
pub open spec fn is_cut(b: Seq<u8>, k: int) -> bool {
    ||| k == 0
    ||| k == b.len()
    ||| (0 <= k < b.len() && is_ascii_byte(b[k]))
    ||| (0 < k <= b.len() && is_ascii_byte(b[k - 1]))
}

/// In valid UTF-8, the position just after an ASCII byte starts a character.
proof fn lemma_boundary_after_ascii(b: Seq<u8>, i: int)
    requires
        valid_utf8(b),
        0 <= i < b.len(),
        is_ascii_byte(b[i]),
    ensures
        is_char_boundary(b, i + 1),
    decreases b.len(),
{
    let l = length_of_first_scalar(b);
    let rest = pop_first_scalar(b);
    assert(valid_first_scalar(b));
    assert(valid_utf8(rest));
    if i < l {
        assert(i == 0);
        assert(l == 1);
        assert(is_char_boundary(rest, 0));
    } else {
        assert(rest.len() == b.len() - l);
        assert(rest[i - l] == b[i]);
        lemma_boundary_after_ascii(rest, i - l);
    }
}

/// Every cut position of a valid UTF-8 sequence is a character boundary.
pub proof fn lemma_cut_is_boundary(b: Seq<u8>, k: int)
    requires
        valid_utf8(b),
        is_cut(b, k),
    ensures
        is_char_boundary(b, k),
{
    if k == 0 {
    } else if k == b.len() {
        is_char_boundary_start_end_of_seq(b);
    } else if 0 <= k < b.len() && is_ascii_byte(b[k]) {
        is_char_boundary_iff_not_is_continuation_byte(b, k);
    } else {
        lemma_boundary_after_ascii(b, k - 1);
    }
}

/// The bytes between two cut positions of valid UTF-8 are valid UTF-8.
pub proof fn lemma_valid_between_cuts(b: Seq<u8>, i: int, j: int)
    requires
        valid_utf8(b),
        0 <= i <= j <= b.len(),
        is_cut(b, i),
        is_cut(b, j),
    ensures
        valid_utf8(b.subrange(i, j)),
{
    lemma_cut_is_boundary(b, j);
    valid_utf8_split(b, j);
    let p = b.subrange(0, j);
    assert(is_cut(p, i));
    lemma_cut_is_boundary(p, i);
    valid_utf8_split(p, i);
    assert(p.subrange(i, p.len() as int) =~= b.subrange(i, j));
}

/// The bytes between two character boundaries of valid UTF-8 are valid
/// UTF-8.
pub proof fn lemma_valid_between_boundaries(b: Seq<u8>, i: int, j: int)
    requires
        valid_utf8(b),
        0 <= i <= j <= b.len(),
        is_char_boundary(b, i),
        is_char_boundary(b, j),
    ensures
        valid_utf8(b.subrange(i, j)),
{
    valid_utf8_split(b, j);
    let p = b.subrange(0, j);
    if i == j {
        is_char_boundary_start_end_of_seq(p);
    } else if i > 0 {
        is_char_boundary_iff_not_is_continuation_byte(b, i);
        is_char_boundary_iff_not_is_continuation_byte(p, i);
    }
    valid_utf8_split(p, i);
    assert(p.subrange(i, p.len() as int) =~= b.subrange(i, j));
}

/// A sequence of ASCII bytes is valid UTF-8.
pub proof fn lemma_ascii_valid(b: Seq<u8>)
    requires
        all_ascii(b),
    ensures
        valid_utf8(b),
{
    assert(b.subrange(0, 0) =~= Seq::<u8>::empty());
    assert(partial_valid_utf8(b, 0));
    partial_valid_utf8_extend_ascii_block(b, 0, b.len() as int);
    assert(b.subrange(0, b.len() as int) =~= b);
}

/// The UTF-8 encoding of any character sequence is valid UTF-8.
pub proof fn lemma_utf8_valid(s: Seq<char>)
    ensures
        valid_utf8(utf8(s)),
{
    encode_utf8_valid_utf8(s);
}

/// Joining two valid UTF-8 sequences gives valid UTF-8.
pub proof fn lemma_concat_valid(a: Seq<u8>, b: Seq<u8>)
    requires
        valid_utf8(a),
        valid_utf8(b),
    ensures
        valid_utf8(a + b),
{
    valid_utf8_concat(a, b);
}

/// The UTF-8 bytes of a join are the join of the UTF-8 bytes.
pub proof fn lemma_utf8_concat(a: Seq<char>, b: Seq<char>)
    ensures
        utf8(a + b) == utf8(a) + utf8(b),
    decreases a.len(),
{
    if a.len() == 0 {
        assert(a + b =~= b);
        assert(utf8(a) =~= Seq::<u8>::empty());
        assert(utf8(a) + utf8(b) =~= utf8(b));
    } else {
        lemma_utf8_concat(a.drop_first(), b);
        assert((a + b).drop_first() =~= a.drop_first() + b);
        assert(utf8(a + b) =~= encode_scalar(a[0] as u32) + utf8(a.drop_first() + b));
    }
}

/// UTF-8 bytes determine the characters.
pub proof fn lemma_utf8_injective(a: Seq<char>, b: Seq<char>)
    requires
        utf8(a) == utf8(b),
    ensures
        a == b,
{
    encode_utf8_decode_utf8(a);
    encode_utf8_decode_utf8(b);
}

/// The encoding of an ASCII character is its code; every byte of any other
/// character's encoding is `0x80` or above.
pub proof fn lemma_encode_char(c: char)
    ensures
        (c as u32) <= 0x7f ==> encode_scalar(c as u32) == seq![c as u8],
        (c as u32) <= 0x7f ==> (c as u8) as u32 == c as u32,
        (c as u32) > 0x7f ==> forall|k: int|
            0 <= k < encode_scalar(c as u32).len() ==> #[trigger] encode_scalar(c as u32)[k]
                >= 0x80,
        encode_scalar(c as u32).len() >= 1,
{
    let v = c as u32;
    char_is_scalar(c);
    if v <= 0x7f {
        assert((v & 0x7f) == v) by (bit_vector)
            requires
                v <= 0x7f,
        ;
    } else {
        assert(0x80 | (v & 0x3F) as u8 >= 0x80) by (bit_vector);
        assert(0x80 | ((v >> 6) & 0x3F) as u8 >= 0x80) by (bit_vector);
        assert(0x80 | ((v >> 12) & 0x3F) as u8 >= 0x80) by (bit_vector);
        assert(0xC0 | ((v >> 6) & 0x1F) as u8 >= 0x80) by (bit_vector);
        assert(0xE0 | ((v >> 12) & 0x0F) as u8 >= 0x80) by (bit_vector);
        assert(0xF0 | ((v >> 18) & 0x7) as u8 >= 0x80) by (bit_vector);
    }
}

/// The UTF-8 bytes of a single character.
pub proof fn lemma_utf8_single(c: char)
    ensures
        utf8(seq![c]) == encode_scalar(c as u32),
{
    let e = Seq::<char>::empty();
    assert(seq![c].drop_first() =~= e);
    assert(utf8(e) =~= Seq::<u8>::empty());
    assert(seq![c][0] == c);
    assert(utf8(seq![c]) == encode_scalar(c as u32) + utf8(e));
    assert(utf8(seq![c]) =~= encode_scalar(c as u32));
}

/// True when every character is ASCII.
pub open spec fn ascii_chars(s: Seq<char>) -> bool {
    forall|i: int| 0 <= i < s.len() ==> (#[trigger] s[i] as u32) <= 0x7f
}

/// The UTF-8 bytes of ASCII text are its character codes.
pub proof fn lemma_utf8_ascii(s: Seq<char>)
    requires
        ascii_chars(s),
    ensures
        utf8(s) == Seq::new(s.len(), |i: int| s[i] as u8),
        all_ascii(utf8(s)),
    decreases s.len(),
{
    if s.len() == 0 {
        assert(utf8(s) =~= Seq::new(s.len(), |i: int| s[i] as u8));
    } else {
        let r = s.drop_first();
        lemma_utf8_ascii(r);
        lemma_encode_char(s[0]);
        assert(utf8(s) == encode_scalar(s[0] as u32) + utf8(r));
        assert(utf8(s) =~= Seq::new(s.len(), |i: int| s[i] as u8));
    }
}

/// Appends the UTF-8 bytes of `s` to `out`.
pub fn push_str(out: &mut Vec<u8>, s: &str)
    ensures
        final(out)@ == old(out)@ + utf8(s@),
{
    let b = s.as_bytes();
    let ghost start = out@;
    let mut i: usize = 0;
    while i < b.len()
        invariant
            b@ == utf8(s@),
            i <= b@.len(),
            out@ == start + b@.subrange(0, i as int),
        decreases b.len() - i,
    {
        out.push(b[i]);
        i += 1;
        assert(out@ =~= start + b@.subrange(0, i as int));
    }
    assert(b@.subrange(0, b@.len() as int) =~= b@);
}

/// Appends `b[from..to]` to `out`.
pub fn push_range(out: &mut Vec<u8>, b: &[u8], from: usize, to: usize)
    requires
        from <= to <= b@.len(),
    ensures
        final(out)@ == old(out)@ + b@.subrange(from as int, to as int),
{
    let ghost start = out@;
    let mut i = from;
    while i < to
        invariant
            from <= i <= to,
            to <= b@.len(),
            out@ == start + b@.subrange(from as int, i as int),
        decreases to - i,
    {
        out.push(b[i]);
        i += 1;
        assert(out@ =~= start + b@.subrange(from as int, i as int));
    }
}

/// True when `n` occurs in `h` starting at byte `j`.
pub open spec fn occurs_at(h: Seq<u8>, j: int, n: Seq<u8>) -> bool {
    0 <= j && j + n.len() <= h.len() && h.subrange(j, j + n.len()) == n
}

/// Does `n` occur in `h` at `j`?
pub fn matches_at(h: &[u8], j: usize, n: &[u8]) -> (res: bool)
    ensures
        res == occurs_at(h@, j as int, n@),
{
    if j > h.len() || n.len() > h.len() - j {
        return false;
    }
    let hl = h.len();
    let mut k: usize = 0;
    while k < n.len()
        invariant
            hl == h@.len(),
            j + n@.len() <= h@.len(),
            k <= n@.len(),
            forall|m: int| 0 <= m < k ==> h@[j + m] == n@[m],
        decreases n.len() - k,
    {
        assert(j + k < h@.len());
        if h[j + k] != n[k] {
            assert(h@.subrange(j as int, j + n@.len())[k as int] != n@[k as int]);
            return false;
        }
        k += 1;
    }
    assert(h@.subrange(j as int, j + n@.len()) =~= n@);
    true
}

/// True when `b` ends with the bytes `suffix`.
pub open spec fn ends_with(b: Seq<u8>, suffix: Seq<u8>) -> bool {
    suffix.len() <= b.len() && b.subrange(b.len() - suffix.len(), b.len() as int) == suffix
}

/// Does `s` end with `suffix`?
pub fn str_ends_with(s: &str, suffix: &str) -> (res: bool)
    ensures
        res == ends_with(utf8(s@), utf8(suffix@)),
{
    let h = s.as_bytes();
    let n = suffix.as_bytes();
    if n.len() > h.len() {
        return false;
    }
    matches_at(h, h.len() - n.len(), n)
}

/// The characters of `s`, in order.
pub fn chars_of(s: &str) -> (res: Vec<char>)
    ensures
        res@ == s@,
{
    let mut out: Vec<char> = Vec::new();
    for c in it: s.chars()
        invariant
            out@ == it.seq().take(it.index() as int),
    {
        out.push(c);
        assert(out@ =~= it.seq().take(it.index() as int + 1));
    }
    assert(out@ =~= s@);
    out
}

/// Appends one character to a string, by `std::string::String::push`.
/// Claimed: the string's characters afterwards are the old ones followed by
/// `c`.
#[verifier::external_body]
pub(crate) fn push_char(s: &mut String, c: char)
    ensures
        final(s)@ == old(s)@.push(c),
{
    s.push(c);
}

/// The character of the decimal digit `d`.
pub open spec fn digit_char(d: nat) -> char {
    (d + 48) as char
}

/// The decimal digits of `n`, most significant first, without leading zeros
/// (`"0"` for zero).
pub open spec fn decimal(n: nat) -> Seq<char>
    decreases n,
{
    if n < 10 {
        seq![digit_char(n)]
    } else {
        decimal(n / 10).push(digit_char(n % 10))
    }
}

/// `decimal(n)` padded with leading zeros to at least `width` characters.
pub open spec fn decimal_padded(n: nat, width: nat) -> Seq<char> {
    if decimal(n).len() >= width {
        decimal(n)
    } else {
        Seq::new((width - decimal(n).len()) as nat, |i: int| '0') + decimal(n)
    }
}

/// Appends the decimal digits of `n` to `s`.
pub fn push_decimal(s: &mut String, n: u64)
    ensures
        final(s)@ == old(s)@ + decimal(n as nat),
    decreases n,
{
    if n >= 10 {
        push_decimal(s, n / 10);
    }
    let d = (n % 10) as u8;
    push_char(s, (48u8 + d) as char);
    proof {
        if n < 10 {
            assert(decimal(n as nat) =~= seq![digit_char(n as nat)]);
        }
    }
}

/// Do `a` and `b` hold the same characters?
pub fn str_eq(a: &str, b: &str) -> (res: bool)
    ensures
        res == (a@ == b@),
{
    let x = a.as_bytes();
    let y = b.as_bytes();
    if x.len() != y.len() {
        return false;
    }
    let mut i: usize = 0;
    while i < x.len()
        invariant
            x@ == utf8(a@),
            y@ == utf8(b@),
            x@.len() == y@.len(),
            i <= x@.len(),
            forall|k: int| 0 <= k < i ==> x@[k] == y@[k],
        decreases x.len() - i,
    {
        if x[i] != y[i] {
            return false;
        }
        i += 1;
    }
    proof {
        assert(x@ =~= y@);
        lemma_utf8_injective(a@, b@);
    }
    true
}

/// The characters of an optional string.
pub open spec fn opt_chars(o: Option<String>) -> Option<Seq<char>> {
    match o {
        Some(s) => Some(s@),
        None => None,
    }
}

/// Unicode `White_Space`, as `char::is_whitespace` tests it.
pub open spec fn is_unicode_whitespace(c: char) -> bool {
    ||| ('\t' <= c && c <= '\r')
    ||| c == ' '
    ||| c == '\u{85}'
    ||| c == '\u{a0}'
    ||| c == '\u{1680}'
    ||| ('\u{2000}' <= c && c <= '\u{200a}')
    ||| c == '\u{2028}'
    ||| c == '\u{2029}'
    ||| c == '\u{202f}'
    ||| c == '\u{205f}'
    ||| c == '\u{3000}'
}

/// Is `c` Unicode whitespace?
pub fn is_whitespace(c: char) -> (res: bool)
    ensures
        res == is_unicode_whitespace(c),
{
    ('\t' <= c && c <= '\r') || c == ' ' || c == '\u{85}' || c == '\u{a0}' || c == '\u{1680}' || (
    '\u{2000}' <= c && c <= '\u{200a}') || c == '\u{2028}' || c == '\u{2029}' || c == '\u{202f}' || c
        == '\u{205f}' || c == '\u{3000}'
}

/// `s[a..b]` is one whitespace-separated token: non-empty, free of
/// whitespace, and bounded by whitespace or the ends of `s`.
pub open spec fn is_token(s: Seq<char>, a: int, b: int) -> bool {
    &&& 0 <= a < b <= s.len()
    &&& (a == 0 || is_unicode_whitespace(s[a - 1]))
    &&& (b == s.len() || is_unicode_whitespace(s[b]))
    &&& forall|k: int| a <= k < b ==> !is_unicode_whitespace(#[trigger] s[k])
}

/// First position at or after `i` that is not whitespace (or the end).
pub open spec fn skip_ws(s: Seq<char>, i: int) -> int
    decreases s.len() - i,
{
    if 0 <= i < s.len() && is_unicode_whitespace(s[i]) {
        skip_ws(s, i + 1)
    } else {
        i
    }
}

/// First position at or after `i` that is whitespace (or the end).
pub open spec fn word_end(s: Seq<char>, i: int) -> int
    decreases s.len() - i,
{
    if 0 <= i < s.len() && !is_unicode_whitespace(s[i]) {
        word_end(s, i + 1)
    } else {
        i
    }
}

/// The first whitespace-separated word of `s`, as `split_whitespace().next()`
/// yields it.
pub open spec fn first_token(s: Seq<char>) -> Option<Seq<char>> {
    let a = skip_ws(s, 0);
    if a >= s.len() {
        None
    } else {
        Some(s.subrange(a, word_end(s, a)))
    }
}

/// Is `first_token(s)` exactly `w`?
pub fn first_token_is(s: &str, w: &str) -> (res: bool)
    ensures
        res == (first_token(s@) == Some(w@)),
{
    let cs = chars_of(s);
    let ws = chars_of(w);
    let n = cs.len();
    let mut a: usize = 0;
    while a < n && is_whitespace(cs[a])
        invariant
            cs@ == s@,
            n == s@.len(),
            a <= n,
            skip_ws(s@, 0) == skip_ws(s@, a as int),
        decreases n - a,
    {
        a += 1;
    }
    if a >= n {
        return false;
    }
    let mut b = a;
    while b < n && !is_whitespace(cs[b])
        invariant
            cs@ == s@,
            n == s@.len(),
            a <= b <= n,
            word_end(s@, a as int) == word_end(s@, b as int),
        decreases n - b,
    {
        b += 1;
    }
    assert(first_token(s@) == Some(s@.subrange(a as int, b as int)));
    if b - a != ws.len() {
        assert(s@.subrange(a as int, b as int).len() != w@.len());
        return false;
    }
    let mut k: usize = 0;
    while k < ws.len()
        invariant
            cs@ == s@,
            ws@ == w@,
            a <= b <= n,
            n == s@.len(),
            b - a == w@.len(),
            k <= w@.len(),
            first_token(s@) == Some(s@.subrange(a as int, b as int)),
            forall|m: int| 0 <= m < k ==> s@[a + m] == w@[m],
        decreases ws.len() - k,
    {
        if cs[a + k] != ws[k] {
            assert(s@.subrange(a as int, b as int)[k as int] != w@[k as int]);
            return false;
        }
        k += 1;
    }
    assert(s@.subrange(a as int, b as int) =~= w@);
    true
}

/// Position of the first `\n` in `s` at or after `i`, or the end of `s`.
pub open spec fn line_end(s: Seq<char>, i: int) -> int
    decreases s.len() - i,
{
    if i < 0 || i >= s.len() {
        s.len() as int
    } else if s[i] == '\n' {
        i
    } else {
        line_end(s, i + 1)
    }
}

pub proof fn lemma_line_end(s: Seq<char>, i: int)
    requires
        0 <= i <= s.len(),
    ensures
        i <= line_end(s, i) <= s.len(),
        line_end(s, i) < s.len() ==> s[line_end(s, i)] == '\n',
    decreases s.len() - i,
{
    if i < s.len() && s[i] != '\n' {
        lemma_line_end(s, i + 1);
    }
}

/// `l` without one `\r` that ends it.
pub open spec fn strip_cr(l: Seq<char>) -> Seq<char> {
    if l.len() > 0 && l.last() == '\r' {
        l.drop_last()
    } else {
        l
    }
}

/// The lines of `s` from position `i`, as `str::lines` yields them: split
/// at each `\n`, a `\r` before the `\n` dropped, no empty line after a
/// final `\n`, and a last line without `\n` kept whole.
pub open spec fn lines_from(s: Seq<char>, i: int) -> Seq<Seq<char>>
    decreases s.len() - i,
{
    if i < 0 || i >= s.len() {
        Seq::empty()
    } else {
        let e = line_end(s, i);
        proof {
            lemma_line_end(s, i);
        }
        if e >= s.len() {
            seq![s.subrange(i, s.len() as int)]
        } else {
            seq![strip_cr(s.subrange(i, e))] + lines_from(s, e + 1)
        }
    }
}

/// The views of a list of strings.
pub open spec fn string_views(v: Seq<String>) -> Seq<Seq<char>> {
    Seq::new(v.len(), |i: int| v[i]@)
}

/// The string of the characters `cs[from..to]`.
pub fn string_of_range(cs: &Vec<char>, from: usize, to: usize) -> (res: String)
    requires
        from <= to <= cs@.len(),
    ensures
        res@ == cs@.subrange(from as int, to as int),
{
    let mut out = String::new();
    let mut k = from;
    while k < to
        invariant
            from <= k <= to <= cs@.len(),
            out@ == cs@.subrange(from as int, k as int),
        decreases to - k,
    {
        push_char(&mut out, cs[k]);
        k += 1;
        assert(out@ =~= cs@.subrange(from as int, k as int));
    }
    out
}

/// The lines of `s`, as `str::lines` yields them.
pub fn text_lines(s: &str) -> (res: Vec<String>)
    ensures
        string_views(res@) == lines_from(s@, 0),
{
    let cs = chars_of(s);
    let n = cs.len();
    let mut out: Vec<String> = Vec::new();
    let mut start: usize = 0;
    while start < n
        invariant
            cs@ == s@,
            n == s@.len(),
            start <= n,
            lines_from(s@, 0) == string_views(out@) + lines_from(s@, start as int),
        decreases n - start,
    {
        let mut e = start;
        while e < n && cs[e] != '\n'
            invariant
                cs@ == s@,
                n == s@.len(),
                start <= e <= n,
                line_end(s@, start as int) == line_end(s@, e as int),
            decreases n - e,
        {
            e += 1;
        }
        let ghost before = string_views(out@);
        if e >= n {
            out.push(string_of_range(&cs, start, n));
            proof {
                assert(string_views(out@) =~= before + seq![s@.subrange(start as int, n as int)]);
                assert(lines_from(s@, n as int) =~= Seq::<Seq<char>>::empty());
            }
            start = n;
        } else {
            let mut stop = e;
            if e > start && cs[e - 1] == '\r' {
                stop = e - 1;
            }
            out.push(string_of_range(&cs, start, stop));
            proof {
                let l = s@.subrange(start as int, e as int);
                assert(strip_cr(l) =~= s@.subrange(start as int, stop as int));
                assert(string_views(out@) =~= before + seq![strip_cr(l)]);
            }
            start = e + 1;
        }
    }
    proof {
        assert(lines_from(s@, start as int) =~= Seq::<Seq<char>>::empty());
    }
    out
}

/// The text that `std::string::String::from_utf8_lossy` decodes a byte
/// sequence to: its UTF-8 characters, with each invalid sequence replaced by
/// U+FFFD.
pub uninterp spec fn lossy_text(bytes: Seq<u8>) -> Seq<char>;

/// Decoding of bytes as UTF-8 with each invalid sequence replaced by
/// U+FFFD, by `std::string::String::from_utf8_lossy`. Claimed: the result
/// depends on the bytes alone (it is `lossy_text` of them), and valid UTF-8
/// decodes to exactly its characters. Which characters replace an invalid
/// sequence is not spelled out; the name stands for them.
#[verifier::external_body]
pub(crate) fn utf8_lossy(bytes: &[u8]) -> (res: String)
    ensures
        res@ == lossy_text(bytes@),
        valid_utf8(bytes@) ==> utf8(res@) == bytes@,
{
    String::from_utf8_lossy(bytes).into_owned()
}

/// The first occurrence of `n` in `h` that lies within `from..to`.
pub fn find_bytes(h: &[u8], from: usize, to: usize, n: &[u8]) -> (res: Option<usize>)
    requires
        from <= to <= h@.len(),
    ensures
        match res {
            Some(j) => {
                &&& from <= j
                &&& j + n@.len() <= to
                &&& occurs_at(h@, j as int, n@)
                &&& forall|k: int|
                    from <= k < j && k + n@.len() <= to ==> !occurs_at(h@, k, n@)
            },
            None => forall|k: int| from <= k && k + n@.len() <= to ==> !occurs_at(h@, k, n@),
        },
{
    if n.len() > to - from {
        return None;
    }
    let last = to - n.len();
    let mut j = from;
    loop
        invariant
            from <= j <= last,
            last + n@.len() == to,
            to <= h@.len(),
            forall|k: int| from <= k < j && k + n@.len() <= to ==> !occurs_at(h@, k, n@),
        decreases last - j,
    {
        if matches_at(h, j, n) {
            return Some(j);
        }
        if j == last {
            return None;
        }
        j += 1;
    }
}

/// Conversion of an owned byte vector to a `String`, by
/// `std::string::String::from_utf8`. Claimed: the call succeeds exactly when
/// the bytes are valid UTF-8, and the string then holds the characters those
/// bytes decode to.
#[verifier::external_body]
fn string_from_utf8(bytes: Vec<u8>) -> (res: Option<String>)
    ensures
        res is Some <==> valid_utf8(bytes@),
        res matches Some(s) ==> s@ == decode_utf8(bytes@),
{
    String::from_utf8(bytes).ok()
}

/// Turns a valid UTF-8 byte buffer into the string whose UTF-8 bytes it is.
pub fn bytes_to_string(bytes: Vec<u8>) -> (res: String)
    requires
        valid_utf8(bytes@),
    ensures
        utf8(res@) == bytes@,
{
    let ghost b = bytes@;
    match string_from_utf8(bytes) {
        Some(s) => {
            proof {
                decode_utf8_encode_utf8(b);
            }
            s
        },
        None => {
            proof {
                assert(false);
            }
            String::new()
        },
    }
}

} // verus!
