//! Text as a sequence of characters: whitespace, trimming, UTF-8 byte
//! lengths, and the split of a text into newline-terminated pieces.
use vstd::prelude::*;

verus! {

/// A character with the Unicode `White_Space` property, the whitespace of
/// `char::is_whitespace` and of `str::trim`.
pub open spec fn is_space(c: char) -> bool {
    ||| ('\u{9}' <= c && c <= '\u{d}')
    ||| c == ' '
    ||| c == '\u{85}'
    ||| c == '\u{a0}'
    ||| c == '\u{1680}'
    ||| ('\u{2000}' <= c && c <= '\u{200a}')
    ||| c == '\u{2028}'
    ||| c == '\u{2029}'
    ||| c == '\u{202f}'
    ||| c == '\u{205f}'
    ||| c == '\u{3000}'
}

/// Whether `c` is whitespace.
pub fn is_space_char(c: char) -> (r: bool)
    ensures
        r == is_space(c),
{
    ('\u{9}' <= c && c <= '\u{d}') || c == ' ' || c == '\u{85}' || c == '\u{a0}' || c == '\u{1680}'
        || ('\u{2000}' <= c && c <= '\u{200a}') || c == '\u{2028}' || c == '\u{2029}' || c
        == '\u{202f}' || c == '\u{205f}' || c == '\u{3000}'
}

/// The number of whitespace characters that `s` starts with.
pub open spec fn lead_len(s: Seq<char>) -> nat
    decreases s.len(),
{
    if s.len() > 0 && is_space(s[0]) {
        1 + lead_len(s.drop_first())
    } else {
        0
    }
}

/// The number of whitespace characters that `s` ends with.
pub open spec fn trail_len(s: Seq<char>) -> nat
    decreases s.len(),
{
    if s.len() > 0 && is_space(s.last()) {
        1 + trail_len(s.drop_last())
    } else {
        0
    }
}

/// `s` without its leading whitespace.
pub open spec fn trim_start(s: Seq<char>) -> Seq<char> {
    s.skip(lead_len(s) as int)
}

/// `s` without its trailing whitespace.
pub open spec fn trim_end(s: Seq<char>) -> Seq<char> {
    s.take(s.len() - trail_len(s))
}

/// `s` without leading and trailing whitespace.
pub open spec fn trim(s: Seq<char>) -> Seq<char> {
    trim_end(trim_start(s))
}

/// `lead_len` is the length of the longest all-whitespace prefix.
pub proof fn lemma_lead_len(s: Seq<char>, k: int)
    requires
        0 <= k <= s.len(),
        forall|i: int| 0 <= i < k ==> is_space(#[trigger] s[i]),
        k == s.len() || !is_space(s[k]),
    ensures
        lead_len(s) == k,
    decreases k,
{
    if k > 0 {
        let t = s.drop_first();
        assert forall|i: int| 0 <= i < k - 1 implies is_space(#[trigger] t[i]) by {
            assert(t[i] == s[i + 1]);
        }
        if k < s.len() {
            assert(t[k - 1] == s[k]);
        }
        lemma_lead_len(t, k - 1);
    }
}

/// `trail_len` is the length of the longest all-whitespace suffix.
pub proof fn lemma_trail_len(s: Seq<char>, k: int)
    requires
        0 <= k <= s.len(),
        forall|i: int| s.len() - k <= i < s.len() ==> is_space(#[trigger] s[i]),
        k == s.len() || !is_space(s[s.len() - k - 1]),
    ensures
        trail_len(s) == k,
    decreases k,
{
    if k > 0 {
        let t = s.drop_last();
        assert forall|i: int| t.len() - (k - 1) <= i < t.len() implies is_space(#[trigger] t[i]) by {
            assert(t[i] == s[i]);
        }
        if k < s.len() {
            assert(t[t.len() - (k - 1) - 1] == s[s.len() - k - 1]);
        }
        lemma_trail_len(t, k - 1);
    }
}

/// The index in `[a, b)` of the first character of `s[a..b]` that is not
/// whitespace, or `b`.
pub fn skip_spaces(s: &Vec<char>, a: usize, b: usize) -> (r: usize)
    requires
        a <= b <= s@.len(),
    ensures
        a <= r <= b,
        r - a == lead_len(s@.subrange(a as int, b as int)),
{
    let mut i = a;
    while i < b && is_space_char(s[i])
        invariant
            a <= i <= b <= s@.len(),
            forall|j: int| a <= j < i ==> is_space(#[trigger] s@[j]),
        decreases b - i,
    {
        i += 1;
    }
    proof {
        let t = s@.subrange(a as int, b as int);
        assert forall|j: int| 0 <= j < i - a implies is_space(#[trigger] t[j]) by {
            assert(t[j] == s@[a + j]);
        }
        if i < b {
            assert(t[i - a] == s@[i as int]);
        }
        lemma_lead_len(t, i - a);
    }
    i
}

/// The end of `s[a..b]` without its trailing whitespace.
pub fn drop_trailing_spaces(s: &Vec<char>, a: usize, b: usize) -> (r: usize)
    requires
        a <= b <= s@.len(),
    ensures
        a <= r <= b,
        b - r == trail_len(s@.subrange(a as int, b as int)),
{
    let mut i = b;
    while i > a && is_space_char(s[i - 1])
        invariant
            a <= i <= b <= s@.len(),
            forall|j: int| i <= j < b ==> is_space(#[trigger] s@[j]),
        decreases i - a,
    {
        i -= 1;
    }
    proof {
        let t = s@.subrange(a as int, b as int);
        assert forall|j: int| t.len() - (b - i) <= j < t.len() implies is_space(#[trigger] t[j]) by {
            assert(t[j] == s@[a + j]);
        }
        if i > a {
            assert(t[t.len() - (b - i) - 1] == s@[i - 1]);
        }
        lemma_trail_len(t, (b - i) as int);
    }
    i
}

/// The bounds of `s[a..b]` trimmed of whitespace on both sides.
pub fn trim_bounds(s: &Vec<char>, a: usize, b: usize) -> (r: (usize, usize))
    requires
        a <= b <= s@.len(),
    ensures
        a <= r.0 <= r.1 <= b,
        s@.subrange(r.0 as int, r.1 as int) == trim(s@.subrange(a as int, b as int)),
{
    let start = skip_spaces(s, a, b);
    let end = drop_trailing_spaces(s, start, b);
    proof {
        let t = s@.subrange(a as int, b as int);
        assert(trim_start(t) =~= s@.subrange(start as int, b as int));
        assert(trim(t) =~= s@.subrange(start as int, end as int));
    }
    (start, end)
}

/// The number of bytes of the UTF-8 encoding of `c`.
pub open spec fn char_len(c: char) -> nat {
    if (c as u32) < 0x80 {
        1
    } else if (c as u32) < 0x800 {
        2
    } else if (c as u32) < 0x10000 {
        3
    } else {
        4
    }
}

/// The number of bytes of the UTF-8 encoding of `s`.
pub open spec fn utf8_len(s: Seq<char>) -> nat
    decreases s.len(),
{
    if s.len() == 0 {
        0
    } else {
        utf8_len(s.drop_last()) + char_len(s.last())
    }
}

/// The UTF-8 width of `c`.
pub fn char_width(c: char) -> (r: u64)
    ensures
        r == char_len(c),
{
    let u = c as u32;
    if u < 0x80 {
        1
    } else if u < 0x800 {
        2
    } else if u < 0x10000 {
        3
    } else {
        4
    }
}

/// The byte length of a concatenation is the sum of the byte lengths.
pub proof fn lemma_utf8_len_add(a: Seq<char>, b: Seq<char>)
    ensures
        utf8_len(a + b) == utf8_len(a) + utf8_len(b),
    decreases b.len(),
{
    if b.len() > 0 {
        assert((a + b).drop_last() =~= a + b.drop_last());
        lemma_utf8_len_add(a, b.drop_last());
    } else {
        assert(a + b =~= a);
    }
}

/// A prefix takes no more bytes than the whole.
pub proof fn lemma_utf8_len_take(s: Seq<char>, i: int)
    requires
        0 <= i <= s.len(),
    ensures
        utf8_len(s.take(i)) <= utf8_len(s),
        i < s.len() ==> utf8_len(s.take(i + 1)) == utf8_len(s.take(i)) + char_len(s[i]),
{
    assert(s =~= s.take(i) + s.skip(i));
    lemma_utf8_len_add(s.take(i), s.skip(i));
    if i < s.len() {
        assert(s.take(i + 1).drop_last() =~= s.take(i));
    }
}

/// Every character takes at least one byte.
pub proof fn lemma_utf8_len_ge(s: Seq<char>)
    ensures
        utf8_len(s) >= s.len(),
    decreases s.len(),
{
    if s.len() > 0 {
        lemma_utf8_len_ge(s.drop_last());
    }
}

/// Every character takes at most four bytes.
pub proof fn lemma_utf8_len_le(s: Seq<char>)
    ensures
        utf8_len(s) <= 4 * s.len(),
    decreases s.len(),
{
    if s.len() > 0 {
        lemma_utf8_len_le(s.drop_last());
    }
}

/// `utf8_len` is the length of vstd's UTF-8 encoding, so of `str::len`.
pub proof fn lemma_utf8_len_encode(s: Seq<char>)
    ensures
        utf8_len(s) == vstd::utf8::encode_utf8(s).len(),
    decreases s.len(),
{
    if s.len() > 0 {
        let c = s[0];
        lemma_utf8_len_encode(s.drop_first());
        assert(s =~= seq![c] + s.drop_first());
        lemma_utf8_len_add(seq![c], s.drop_first());
        assert(seq![c].drop_last() =~= Seq::<char>::empty());
        assert(utf8_len(Seq::<char>::empty()) == 0);
        assert(utf8_len(seq![c]) == char_len(c));
        vstd::utf8::char_is_scalar(c);
        let u = c as u32;
        let e = vstd::utf8::encode_scalar(u);
        if u < 0x80 {
            assert(vstd::utf8::has_width_1_encoding(u));
            assert(e.len() == 1);
        } else if u < 0x800 {
            assert(vstd::utf8::has_width_2_encoding(u));
            assert(e.len() == 2);
        } else if u < 0x10000 {
            assert(vstd::utf8::has_width_3_encoding(u));
            assert(e.len() == 3);
        } else {
            assert(vstd::utf8::has_width_4_encoding(u));
            assert(e.len() == 4);
        }
        assert(vstd::utf8::encode_scalar(c as u32).len() == char_len(c));
        assert(vstd::utf8::encode_utf8(s) == vstd::utf8::encode_scalar(s[0] as u32)
            + vstd::utf8::encode_utf8(s.drop_first()));
    } else {
        assert(vstd::utf8::encode_utf8(s) =~= Seq::<u8>::empty());
    }
}

/// The byte offset of every character position of `s`, as a running sum.
pub fn byte_offsets(s: &Vec<char>) -> (r: Vec<u64>)
    requires
        utf8_len(s@) <= u64::MAX,
    ensures
        r@.len() == s@.len() + 1,
        forall|i: int| 0 <= i <= s@.len() ==> r@[i] == utf8_len(#[trigger] s@.take(i)),
{
    let mut r: Vec<u64> = Vec::new();
    let mut b: u64 = 0;
    let mut i: usize = 0;
    proof {
        assert(s@.take(0) =~= Seq::<char>::empty());
    }
    r.push(0);
    while i < s.len()
        invariant
            i <= s@.len(),
            utf8_len(s@) <= u64::MAX,
            r@.len() == i + 1,
            b == utf8_len(s@.take(i as int)),
            forall|j: int| 0 <= j <= i ==> r@[j] == utf8_len(#[trigger] s@.take(j)),
        decreases s@.len() - i,
    {
        proof {
            lemma_utf8_len_take(s@, i as int);
            lemma_utf8_len_take(s@, i + 1);
        }
        b = b + char_width(s[i]);
        i += 1;
        r.push(b);
    }
    r
}

/// The characters of `s`.
pub fn chars_of(s: &str) -> (r: Vec<char>)
    ensures
        r@ == s@,
{
    let mut v: Vec<char> = Vec::new();
    for c in it: s.chars()
        invariant
            v@ == it.seq().take(it.index() as int),
    {
        v.push(c);
    }
    v
}

/// `String::push`: appends `c` to `s`.
#[verifier::external_body]
pub(crate) fn push_char(s: &mut String, c: char)
    ensures
        final(s)@ == old(s)@.push(c),
{
    s.push(c);
}

/// `String::push_str`: appends `t` to `s`.
#[verifier::external_body]
pub(crate) fn push_str(s: &mut String, t: &str)
    ensures
        final(s)@ == old(s)@ + t@,
{
    s.push_str(t);
}

/// The string of the characters `s[a..b]`.
pub fn string_of(s: &Vec<char>, a: usize, b: usize) -> (r: String)
    requires
        a <= b <= s@.len(),
    ensures
        r@ == s@.subrange(a as int, b as int),
{
    let mut out = String::new();
    let mut i = a;
    while i < b
        invariant
            a <= i <= b <= s@.len(),
            out@ == s@.subrange(a as int, i as int),
        decreases b - i,
    {
        push_char(&mut out, s[i]);
        proof {
            assert(s@.subrange(a as int, i + 1) =~= s@.subrange(a as int, i as int).push(s@[i as int]));
        }
        i += 1;
    }
    out
}

/// Appends the characters of `t` to `s`.
pub fn push_chars(s: &mut String, t: &Vec<char>)
    ensures
        final(s)@ == old(s)@ + t@,
{
    let mut i: usize = 0;
    while i < t.len()
        invariant
            i <= t@.len(),
            s@ == old(s)@ + t@.take(i as int),
        decreases t@.len() - i,
    {
        push_char(s, t[i]);
        proof {
            assert(t@.take(i + 1) =~= t@.take(i as int).push(t@[i as int]));
            assert(old(s)@ + t@.take(i + 1) =~= (old(s)@ + t@.take(i as int)).push(t@[i as int]));
        }
        i += 1;
    }
    proof {
        assert(t@.take(t@.len() as int) =~= t@);
    }
}

/// Whether `p` is a prefix of `s`.
pub open spec fn is_prefix(p: Seq<char>, s: Seq<char>) -> bool {
    p.len() <= s.len() && s.take(p.len() as int) == p
}

/// Whether `s[a..b]` starts with `p`.
pub fn starts_with_at(s: &Vec<char>, a: usize, b: usize, p: &Vec<char>) -> (r: bool)
    requires
        a <= b <= s@.len(),
    ensures
        r == is_prefix(p@, s@.subrange(a as int, b as int)),
{
    if p.len() > b - a {
        return false;
    }
    let mut i: usize = 0;
    while i < p.len()
        invariant
            a <= b <= s@.len(),
            p@.len() <= b - a,
            i <= p@.len(),
            forall|j: int| 0 <= j < i ==> s@[a + j] == p@[j],
        decreases p@.len() - i,
    {
        if s[a + i] != p[i] {
            proof {
                let t = s@.subrange(a as int, b as int);
                assert(t.take(p@.len() as int)[i as int] == s@[a + i]);
            }
            return false;
        }
        i += 1;
    }
    proof {
        let t = s@.subrange(a as int, b as int);
        assert(t.take(p@.len() as int) =~= p@);
    }
    true
}

/// Whether `s[a..b]` and `t[c..d]` are the same characters.
pub fn same_chars(s: &Vec<char>, a: usize, b: usize, t: &Vec<char>, c: usize, d: usize) -> (r: bool)
    requires
        a <= b <= s@.len(),
        c <= d <= t@.len(),
    ensures
        r == (s@.subrange(a as int, b as int) == t@.subrange(c as int, d as int)),
{
    if b - a != d - c {
        proof {
            assert(s@.subrange(a as int, b as int).len() != t@.subrange(c as int, d as int).len());
        }
        return false;
    }
    let mut i: usize = 0;
    while i < b - a
        invariant
            a <= b <= s@.len(),
            c <= d <= t@.len(),
            b - a == d - c,
            i <= b - a,
            s@.subrange(a as int, a + i) == t@.subrange(c as int, c + i),
        decreases b - a - i,
    {
        if s[a + i] != t[c + i] {
            proof {
                assert(s@.subrange(a as int, b as int)[i as int] != t@.subrange(c as int, d as int)[i as int]);
            }
            return false;
        }
        proof {
            assert(s@.subrange(a as int, a + i + 1) =~= s@.subrange(a as int, a + i).push(s@[a + i]));
            assert(t@.subrange(c as int, c + i + 1) =~= t@.subrange(c as int, c + i).push(t@[c + i]));
        }
        i += 1;
    }
    proof {
        assert(s@.subrange(a as int, b as int) =~= t@.subrange(c as int, d as int));
    }
    true
}

/// Whether `needle` occurs in `s`.
pub open spec fn occurs_in(needle: Seq<char>, s: Seq<char>) -> bool {
    exists|i: int| 0 <= i <= s.len() - needle.len() && #[trigger] s.subrange(i, i + needle.len()) == needle
}

/// Whether `p` occurs in `s[a..b]`.
pub fn contains_at(s: &Vec<char>, a: usize, b: usize, p: &Vec<char>) -> (r: bool)
    requires
        a <= b <= s@.len(),
    ensures
        r == occurs_in(p@, s@.subrange(a as int, b as int)),
{
    let ghost t = s@.subrange(a as int, b as int);
    if p.len() > b - a {
        return false;
    }
    if p.len() == 0 {
        proof {
            assert(t.subrange(0int, 0int + p@.len()) =~= p@);
        }
        return true;
    }
    let mut i = a;
    while i <= b - p.len()
        invariant
            a <= b <= s@.len(),
            0 < p@.len() <= b - a,
            a <= i <= b - p@.len() + 1,
            t == s@.subrange(a as int, b as int),
            forall|j: int| 0 <= j < i - a ==> #[trigger] t.subrange(j, j + p@.len()) != p@,
        decreases b - i + 1,
    {
        if starts_with_at(s, i, b, p) {
            proof {
                assert(t.subrange(i - a, i - a + p@.len()) =~= s@.subrange(i as int, b as int).take(
                    p@.len() as int,
                ));
            }
            return true;
        }
        proof {
            assert(t.subrange(i - a, i - a + p@.len()) =~= s@.subrange(i as int, b as int).take(
                p@.len() as int,
            ));
        }
        i += 1;
    }
    false
}

/// The exclusive ends of the pieces of `s[0..n]` that a newline closes, in order.
pub open spec fn newline_ends(s: Seq<char>, n: int) -> Seq<int>
    decreases n,
{
    if n <= 0 {
        Seq::empty()
    } else if s[n - 1] == '\n' {
        newline_ends(s, n - 1).push(n)
    } else {
        newline_ends(s, n - 1)
    }
}

/// The exclusive ends of the pieces of `s`, as `str::split_inclusive('\n')`
/// cuts them: each piece runs up to and including a newline, and a last
/// piece without newline ends the text when it is not empty.
pub open spec fn piece_ends(s: Seq<char>) -> Seq<int> {
    let e = newline_ends(s, s.len() as int);
    if s.len() > 0 && s.last() != '\n' {
        e.push(s.len() as int)
    } else {
        e
    }
}

/// The start of piece `k` of `s`.
pub open spec fn piece_start(s: Seq<char>, k: int) -> int {
    if k == 0 {
        0
    } else {
        piece_ends(s)[k - 1]
    }
}

/// Piece `k` of `s`, with its newline.
pub open spec fn piece(s: Seq<char>, k: int) -> Seq<char> {
    s.subrange(piece_start(s, k), piece_ends(s)[k])
}

/// A line as `text_lines` reads a piece: without its newline, then without
/// a carriage return.
pub open spec fn strip_line(p: Seq<char>) -> Seq<char> {
    let q = if p.len() > 0 && p.last() == '\n' {
        p.drop_last()
    } else {
        p
    };
    if q.len() > 0 && q.last() == '\r' {
        q.drop_last()
    } else {
        q
    }
}

/// A line as `str::lines` reads a piece: a carriage return goes only with
/// the newline that follows it.
pub open spec fn std_line(p: Seq<char>) -> Seq<char> {
    if p.len() > 0 && p.last() == '\n' {
        strip_line(p)
    } else {
        p
    }
}

/// One piece of a text: `[start, next)` is the piece with its newline,
/// `[start, end)` the line that `text_lines` reads from it, and `std_end`
/// the end of the line that `str::lines` reads.
#[derive(Debug, Clone, Copy)]
pub struct Span {
    pub start: usize,
    pub end: usize,
    pub std_end: usize,
    pub next: usize,
    /// The byte offsets of `start`, `end` and `next`.
    pub byte_start: u64,
    pub byte_end: u64,
    pub byte_next: u64,
}

/// `sp` is piece `k` of `s`.
pub open spec fn span_ok(s: Seq<char>, k: int, sp: Span) -> bool {
    &&& 0 <= k < piece_ends(s).len()
    &&& sp.start == piece_start(s, k)
    &&& sp.next == piece_ends(s)[k]
    &&& sp.start <= sp.end <= sp.std_end <= sp.next <= s.len()
    &&& s.subrange(sp.start as int, sp.end as int) == strip_line(piece(s, k))
    &&& s.subrange(sp.start as int, sp.std_end as int) == std_line(piece(s, k))
    &&& sp.byte_start == utf8_len(s.take(sp.start as int))
    &&& sp.byte_end == utf8_len(s.take(sp.end as int))
    &&& sp.byte_next == utf8_len(s.take(sp.next as int))
}

/// Line ends take one byte each.
proof fn lemma_utf8_len_line_end(s: Seq<char>, a: int, b: int)
    requires
        0 <= a <= b <= s.len(),
        forall|i: int| a <= i < b ==> s[i] == '\n' || s[i] == '\r',
    ensures
        utf8_len(s.take(b)) == utf8_len(s.take(a)) + (b - a),
    decreases b - a,
{
    if b > a {
        lemma_utf8_len_line_end(s, a, b - 1);
        lemma_utf8_len_take(s, b - 1);
    }
}

proof fn lemma_newline_ends(s: Seq<char>, n: int)
    requires
        0 <= n <= s.len(),
    ensures
        forall|k: int| 0 <= k < newline_ends(s, n).len() ==> 0 < #[trigger] newline_ends(s, n)[k] <= n
            && s[newline_ends(s, n)[k] - 1] == '\n',
        forall|k: int, l: int|
            0 <= k < l < newline_ends(s, n).len() ==> newline_ends(s, n)[k] < newline_ends(s, n)[l],
    decreases n,
{
    if n > 0 {
        lemma_newline_ends(s, n - 1);
        let e = newline_ends(s, n - 1);
        if s[n - 1] == '\n' {
            assert(newline_ends(s, n) == e.push(n));
            assert forall|k: int| 0 <= k < e.push(n).len() implies 0 < #[trigger] e.push(n)[k] <= n
                && s[e.push(n)[k] - 1] == '\n' by {
                if k < e.len() {
                    assert(e.push(n)[k] == e[k]);
                }
            }
        }
    }
}

/// The pieces of `s` end at strictly increasing positions within `s`.
pub proof fn lemma_piece_ends(s: Seq<char>)
    ensures
        forall|k: int| 0 <= k < piece_ends(s).len() ==> 0 < #[trigger] piece_ends(s)[k] <= s.len(),
        forall|k: int, l: int| 0 <= k < l < piece_ends(s).len() ==> piece_ends(s)[k] < piece_ends(s)[l],
{
    let n = s.len() as int;
    let e = newline_ends(s, n);
    lemma_newline_ends(s, n);
    if s.len() > 0 && s.last() != '\n' {
        assert forall|k: int| 0 <= k < e.len() implies #[trigger] e[k] < n by {
            if e[k] == n {
                assert(s[n - 1] == '\n');
            }
        }
        let f = e.push(n);
        assert forall|k: int| 0 <= k < f.len() implies 0 < #[trigger] f[k] <= s.len() by {
            if k < e.len() {
                assert(f[k] == e[k]);
            }
        }
        assert forall|k: int, l: int| 0 <= k < l < f.len() implies f[k] < f[l] by {
            assert(f[k] == e[k]);
            if l < e.len() {
                assert(f[l] == e[l]);
            }
        }
    }
}

/// A longer prefix takes more bytes.
pub proof fn lemma_utf8_len_take_lt(s: Seq<char>, a: int, b: int)
    requires
        0 <= a < b <= s.len(),
    ensures
        utf8_len(s.take(a)) < utf8_len(s.take(b)),
        utf8_len(s.take(b)) <= utf8_len(s),
{
    assert(s.take(b) =~= s.take(a) + s.subrange(a, b));
    lemma_utf8_len_add(s.take(a), s.subrange(a, b));
    lemma_utf8_len_ge(s.subrange(a, b));
    lemma_utf8_len_take(s, b);
}

/// The line bounds of one piece `[start, next)`.
fn line_span(s: &Vec<char>, start: usize, next: usize, byte_start: u64, byte_next: u64) -> (sp: Span)
    requires
        start < next <= s@.len(),
        byte_start == utf8_len(s@.take(start as int)),
        byte_next == utf8_len(s@.take(next as int)),
    ensures
        sp.start == start,
        sp.next == next,
        sp.byte_start == byte_start,
        sp.byte_next == byte_next,
        sp.byte_end == utf8_len(s@.take(sp.end as int)),
        sp.start <= sp.end <= sp.std_end <= sp.next,
        s@.subrange(start as int, sp.end as int) == strip_line(s@.subrange(start as int, next as int)),
        s@.subrange(start as int, sp.std_end as int) == std_line(
            s@.subrange(start as int, next as int),
        ),
{
    let ghost p = s@.subrange(start as int, next as int);
    let mut q = next;
    let newline = s[next - 1] == '\n';
    if newline {
        q = next - 1;
    }
    proof {
        if newline {
            assert(p.drop_last() =~= s@.subrange(start as int, q as int));
        } else {
            assert(p =~= s@.subrange(start as int, q as int));
        }
    }
    let mut end = q;
    if q > start && s[q - 1] == '\r' {
        end = q - 1;
        proof {
            assert(s@.subrange(start as int, q as int).drop_last() =~= s@.subrange(
                start as int,
                end as int,
            ));
        }
    }
    let std_end = if newline {
        end
    } else {
        next
    };
    proof {
        lemma_utf8_len_line_end(s@, end as int, next as int);
        lemma_utf8_len_take(s@, end as int);
        lemma_utf8_len_take(s@, next as int);
    }
    let byte_end = byte_next - (next - end) as u64;
    Span { start, end, std_end, next, byte_start, byte_end, byte_next }
}

/// The pieces of `s`, in order.
pub fn spans(s: &Vec<char>) -> (r: Vec<Span>)
    requires
        utf8_len(s@) <= u64::MAX,
    ensures
        r@.len() == piece_ends(s@).len(),
        forall|k: int| 0 <= k < r@.len() ==> span_ok(s@, k, #[trigger] r@[k]),
{
    let mut r: Vec<Span> = Vec::new();
    let mut start: usize = 0;
    let mut i: usize = 0;
    let mut b: u64 = 0;
    let mut byte_start: u64 = 0;
    proof {
        assert(s@.take(0) =~= Seq::<char>::empty());
    }
    while i < s.len()
        invariant
            i <= s@.len(),
            utf8_len(s@) <= u64::MAX,
            b == utf8_len(s@.take(i as int)),
            byte_start == utf8_len(s@.take(start as int)),
            forall|k: int|
                0 <= k < r@.len() ==> {
                    let sp = #[trigger] r@[k];
                    &&& sp.byte_start == utf8_len(s@.take(sp.start as int))
                    &&& sp.byte_end == utf8_len(s@.take(sp.end as int))
                    &&& sp.byte_next == utf8_len(s@.take(sp.next as int))
                },
            r@.len() == newline_ends(s@, i as int).len(),
            forall|k: int| 0 <= k < r@.len() ==> (#[trigger] r@[k]).next == newline_ends(s@, i as int)[k],
            forall|k: int|
                0 <= k < r@.len() ==> (#[trigger] r@[k]).start == (if k == 0 {
                    0
                } else {
                    newline_ends(s@, i as int)[k - 1]
                }),
            forall|k: int|
                0 <= k < r@.len() ==> {
                    let sp = #[trigger] r@[k];
                    &&& sp.start <= sp.end <= sp.std_end <= sp.next <= s@.len()
                    &&& s@.subrange(sp.start as int, sp.end as int) == strip_line(
                        s@.subrange(sp.start as int, sp.next as int),
                    )
                    &&& s@.subrange(sp.start as int, sp.std_end as int) == std_line(
                        s@.subrange(sp.start as int, sp.next as int),
                    )
                },
            start == (if r@.len() == 0 {
                0
            } else {
                r@.last().next
            }),
            start <= i,
        decreases s@.len() - i,
    {
        proof {
            lemma_newline_ends(s@, i as int);
            lemma_newline_ends(s@, i + 1);
            lemma_utf8_len_take(s@, i as int);
            lemma_utf8_len_take(s@, i + 1);
        }
        let next_b = b + char_width(s[i]);
        if s[i] == '\n' {
            let sp = line_span(s, start, i + 1, byte_start, next_b);
            r.push(sp);
            start = i + 1;
            byte_start = next_b;
        }
        b = next_b;
        i += 1;
    }
    proof {
        lemma_newline_ends(s@, s@.len() as int);
    }
    if start < s.len() {
        proof {
            let e = newline_ends(s@, s@.len() as int);
            if e.len() > 0 {
                assert(s@[e.last() - 1] == '\n');
            }
            assert(s@.last() != '\n') by {
                if s@.last() == '\n' {
                    assert(newline_ends(s@, s@.len() as int) == newline_ends(
                        s@,
                        s@.len() - 1,
                    ).push(s@.len() as int));
                }
            }
        }
        proof {
            assert(s@.take(s@.len() as int) =~= s@);
        }
        let sp = line_span(s, start, s.len(), byte_start, b);
        r.push(sp);
    } else {
        proof {
            if s@.len() > 0 {
                let e = newline_ends(s@, s@.len() as int);
                assert(e.len() > 0);
                assert(s@.last() == '\n');
            }
        }
    }
    r
}

} // verus!

verus! {

/// The decimal digit `d`.
pub open spec fn digit_char(d: nat) -> char {
    ((d % 10) + 48) as char
}

/// The decimal representation of `n`, without leading zeros.
pub open spec fn decimal(n: nat) -> Seq<char>
    decreases n,
{
    if n < 10 {
        seq![digit_char(n)]
    } else {
        decimal(n / 10).push(digit_char(n % 10))
    }
}

/// Appends the decimal representation of `n` to `s`.
pub fn push_decimal(s: &mut String, n: usize)
    ensures
        final(s)@ == old(s)@ + decimal(n as nat),
    decreases n,
{
    if n >= 10 {
        push_decimal(s, n / 10);
    }
    let d = (n % 10) as u8;
    let c = (d + 48) as char;
    proof {
        assert(c == digit_char(n as nat));
    }
    push_char(s, c);
    proof {
        if n >= 10 {
            assert(old(s)@ + decimal(n as nat) =~= (old(s)@ + decimal((n / 10) as nat)).push(c));
        } else {
            assert(old(s)@ + decimal(n as nat) =~= old(s)@.push(c));
        }
    }
}

} // verus!

verus! {

/// Appends the decimal representation of `n` to `s`.
pub fn push_decimal_u64(s: &mut String, n: u64)
    ensures
        final(s)@ == old(s)@ + decimal(n as nat),
    decreases n,
{
    if n >= 10 {
        push_decimal_u64(s, n / 10);
    }
    let d = (n % 10) as u8;
    let c = (d + 48) as char;
    proof {
        assert(c == digit_char(n as nat));
    }
    push_char(s, c);
    proof {
        if n >= 10 {
            assert(old(s)@ + decimal(n as nat) =~= (old(s)@ + decimal((n / 10) as nat)).push(c));
        } else {
            assert(old(s)@ + decimal(n as nat) =~= old(s)@.push(c));
        }
    }
}

} // verus!
