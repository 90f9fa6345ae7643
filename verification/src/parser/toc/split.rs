//! The fallback TOC: the text split into parts of balanced length.
use vstd::prelude::*;

use tokio_util::sync::CancellationToken;

use super::config::{invalid_with, TocConfigError};
use super::rule::{build_toc, events_view, fits};
use crate::extractor::ParsedContent;
use crate::parser::{check_cancelled, MatchConfidence, ParserError, TocParser, TocParserSpec};
use crate::text::{
    char_width, chars_of, decimal, lemma_utf8_len_take, push_decimal, push_str, utf8_len,
};
use crate::toc::builder::{built_from, EventView};
use crate::toc::{TocEvent, TocRoot};
use crate::types::TextRange;

verus! {

/// The number of parts: as asked, but no more than characters.
pub open spec fn part_count(n: nat, parts: nat) -> nat {
    if parts < n {
        parts
    } else {
        n
    }
}

/// The number of characters of part `i` of `n` characters in `p` parts:
/// the first `n % p` parts take one character more.
pub open spec fn part_len(n: nat, p: nat, i: nat) -> nat {
    n / p + if i < n % p {
        1nat
    } else {
        0nat
    }
}

/// The character index where part `i` starts.
pub open spec fn part_start(n: nat, p: nat, i: nat) -> nat
    decreases i,
{
    if i == 0 {
        0
    } else {
        part_start(n, p, (i - 1) as nat) + part_len(n, p, (i - 1) as nat)
    }
}

/// The title of part `i`: `第 {i + 1} 部分`.
pub open spec fn part_title(i: nat) -> Seq<char> {
    "第 "@ + decimal(i + 1) + " 部分"@
}

/// The events of the split: one level-1 event per part, whose range is the
/// part's bytes.
pub open spec fn split_events(s: Seq<char>, parts: nat) -> Seq<EventView> {
    let n = s.len();
    let p = part_count(n, parts);
    Seq::new(
        p,
        |i: int|
            EventView {
                level: 1,
                title: part_title(i as nat),
                range: Some(
                    TextRange {
                        start: utf8_len(s.take(part_start(n, p, i as nat) as int)) as u64,
                        end: utf8_len(s.take(part_start(n, p, (i + 1) as nat) as int)) as u64,
                    },
                ),
            },
    )
}

/// Part `i` starts after `i` parts of `n / p` characters and one more
/// character for each of the first `min(i, n % p)` of them.
proof fn lemma_part_start_closed(n: nat, p: nat, i: nat)
    requires
        p > 0,
    ensures
        part_start(n, p, i) == i * (n / p) + if i < n % p {
            i
        } else {
            n % p
        },
    decreases i,
{
    if i > 0 {
        lemma_part_start_closed(n, p, (i - 1) as nat);
        let q = n / p;
        let j = (i - 1) as nat;
        assert(j * q + q == i * q) by (nonlinear_arith)
            requires
                j + 1 == i,
        ;
        assert(part_start(n, p, i) == part_start(n, p, j) + part_len(n, p, j));
    } else {
        let q = n / p;
        assert(i * q == 0) by (nonlinear_arith)
            requires
                i == 0,
        ;
    }
}

/// The parts of a split cover the text exactly, in order: part `p` starts at
/// the end, every part holds `n / p` or `n / p + 1` characters, and no part
/// is empty when there are no more parts than characters.
pub proof fn lemma_parts_cover(n: nat, p: nat)
    requires
        0 < p <= n,
    ensures
        part_start(n, p, p) == n,
        forall|i: nat| i <= p ==> #[trigger] part_start(n, p, i) <= n,
        forall|i: nat, j: nat| i <= j <= p ==> #[trigger] part_start(n, p, i) <= #[trigger] part_start(n, p, j),
        forall|i: nat| i < p ==> #[trigger] part_len(n, p, i) >= 1,
{
    lemma_part_start_closed(n, p, p);
    vstd::arithmetic::div_mod::lemma_fundamental_div_mod(n as int, p as int);
    assert(n % p < p);
    assert(n / p >= 1) by {
        vstd::arithmetic::div_mod::lemma_div_is_ordered(p as int, n as int, p as int);
        vstd::arithmetic::div_mod::lemma_div_by_self(p as int);
    }
    assert forall|i: nat, j: nat| i <= j <= p implies #[trigger] part_start(n, p, i) <= #[trigger] part_start(
        n,
        p,
        j,
    ) by {
        lemma_part_start_mono(n, p, i, j);
    }
    assert forall|i: nat| i <= p implies #[trigger] part_start(n, p, i) <= n by {
        lemma_part_start_mono(n, p, i, p);
    }
}

/// The split's parts tile the text: one part per character at most, the
/// first starting at byte 0, each ending where the next starts, the last
/// ending at the text's end; part `i` holds `part_len` characters, so sizes
/// differ by at most one, larger first. Every bound is the byte offset of a
/// character position, so it falls on a character boundary.
pub proof fn lemma_split_tiles(s: Seq<char>, parts: nat)
    requires
        parts > 0,
        utf8_len(s) <= u64::MAX,
    ensures
        ({
            let n = s.len();
            let p = part_count(n, parts);
            let ev = split_events(s, parts);
            &&& ev.len() == p
            &&& p <= n
            &&& forall|i: int| 0 <= i < p ==> (#[trigger] ev[i]).level == 1 && ev[i].range is Some
            &&& forall|i: int|
                0 <= i < p - 1 ==> (#[trigger] ev[i]).range->0.end == ev[i + 1].range->0.start
            &&& p > 0 ==> ev[0].range->0.start == 0 && ev[p - 1].range->0.end == utf8_len(s)
            &&& forall|i: int|
                0 <= i < p ==> part_start(n, p, (i + 1) as nat) - part_start(n, p, i as nat)
                    == #[trigger] part_len(n, p, i as nat)
        }),
{
    let n = s.len();
    let p = part_count(n, parts);
    let ev = split_events(s, parts);
    assert forall|i: int| 0 <= i < p implies part_start(n, p, (i + 1) as nat) - part_start(
        n,
        p,
        i as nat,
    ) == #[trigger] part_len(n, p, i as nat) by {
        assert(part_start(n, p, (i + 1) as nat) == part_start(n, p, i as nat) + part_len(n, p, i as nat));
    }
    if p > 0 {
        lemma_parts_cover(n, p);
        assert(s.take(0) =~= Seq::<char>::empty());
        assert(part_start(n, p, 0) == 0);
        assert(s.take(n as int) =~= s);
        assert(((p - 1) + 1) as nat == p);
    }
}

proof fn lemma_part_start_mono(n: nat, p: nat, i: nat, j: nat)
    requires
        i <= j,
    ensures
        part_start(n, p, i) <= part_start(n, p, j),
    decreases j,
{
    if j > i {
        lemma_part_start_mono(n, p, i, (j - 1) as nat);
    }
}

/// Splits the text into parts of balanced length.
pub struct SplitEvenlyParser {
    parts: usize,
}

impl SplitEvenlyParser {
    /// The number of parts asked for.
    pub closed spec fn parts(&self) -> nat {
        self.parts as nat
    }

    /// A parser for the given positive number of parts.
    pub fn new(parts: usize) -> (r: Result<Self, TocConfigError>)
        ensures
            r is Ok <==> parts > 0,
            r matches Ok(p) ==> p.parts() == parts,
            parts == 0 ==> invalid_with(r, "split parts must be positive"@),
    {
        if parts == 0 {
            return Err(TocConfigError::Invalid("split parts must be positive".to_owned()));
        }
        Ok(SplitEvenlyParser { parts })
    }

    /// The title of part `index`.
    fn title(index: usize) -> (r: String)
        requires
            index < usize::MAX,
        ensures
            r@ == part_title(index as nat),
    {
        let mut t = "第 ".to_owned();
        push_decimal(&mut t, index + 1);
        push_str(&mut t, " 部分");
        t
    }

    /// The events of the split of the text into the parser's parts.
    fn split(&self, ct: &CancellationToken, text: &str) -> (r: Result<Vec<TocEvent>, ParserError>)
        requires
            fits(text@),
        ensures
            r matches Ok(events) ==> events_view(events@) == split_events(text@, self.parts()),
            r matches Err(e) ==> e is Cancelled,
    {
        let s = chars_of(text);
        let mut char_count: usize = 0;
        while char_count < s.len()
            invariant
                char_count <= s@.len(),
            decreases s@.len() - char_count,
        {
            match check_cancelled(ct) {
                Ok(()) => {},
                Err(e) => return Err(e),
            }
            char_count += 1;
        }
        let parts = if self.parts < char_count {
            self.parts
        } else {
            char_count
        };
        let ghost n = s@.len();
        let ghost spec = split_events(s@, self.parts as nat);
        let mut events: Vec<TocEvent> = Vec::new();
        if parts == 0 {
            proof {
                assert(events_view(events@) =~= spec);
            }
            return Ok(events);
        }
        proof {
            lemma_parts_cover(n, parts as nat);
        }
        let q = char_count / parts;
        let rem = char_count % parts;
        let mut pos: usize = 0;
        let mut b: u64 = 0;
        let mut start: u64 = 0;
        let mut index: usize = 0;
        proof {
            assert(s@.take(0) =~= Seq::<char>::empty());
        }
        while index < parts
            invariant
                s@ == text@,
                fits(s@),
                n == s@.len(),
                char_count == n,
                0 < parts <= n,
                parts == part_count(n, self.parts as nat),
                q == n / (parts as nat),
                rem == n % (parts as nat),
                spec == split_events(s@, self.parts as nat),
                index <= parts,
                pos == part_start(n, parts as nat, index as nat),
                pos <= n,
                b == utf8_len(s@.take(pos as int)),
                start == b,
                part_start(n, parts as nat, parts as nat) == n,
                forall|i: nat| i <= parts ==> #[trigger] part_start(n, parts as nat, i) <= n,
                events_view(events@) == spec.take(index as int),
            decreases parts - index,
        {
            let count = q + if index < rem {
                1
            } else {
                0
            };
            proof {
                assert(pos + count == part_start(n, parts as nat, (index + 1) as nat));
            }
            let mut c: usize = 0;
            let ghost pos0 = pos;
            while c < count
                invariant
                    s@ == text@,
                    fits(s@),
                    n == s@.len(),
                    c <= count,
                    pos == pos0 + c,
                    n == char_count,
                    pos + count - c <= n,
                    b == utf8_len(s@.take(pos as int)),
                decreases count - c,
            {
                match check_cancelled(ct) {
                    Ok(()) => {},
                    Err(e) => return Err(e),
                }
                proof {
                    lemma_utf8_len_take(s@, pos as int);
                    lemma_utf8_len_take(s@, pos + 1);
                    lemma_utf8_len_take(s@, n as int);
                    assert(s@.take(n as int) =~= s@);
                }
                b = b + char_width(s[pos]);
                pos += 1;
                c += 1;
            }
            let title = Self::title(index);
            let ghost prev = events@;
            proof {
                assert(pos == part_start(n, parts as nat, (index + 1) as nat));
                assert(spec[index as int].range == Some(TextRange { start, end: b }));
            }
            events.push(TocEvent { level: 1, title, range: Some(TextRange { start, end: b }) });
            proof {
                assert(events_view(events@) =~= events_view(prev).push(events@.last()@));
                assert(spec.take(index + 1) =~= spec.take(index as int).push(spec[index as int]));
            }
            start = b;
            index += 1;
        }
        proof {
            assert(spec.len() == parts);
            assert(spec.take(parts as int) =~= spec);
        }
        Ok(events)
    }
}

impl TocParser for SplitEvenlyParser {
    open spec fn parser_spec(&self) -> TocParserSpec {
        TocParserSpec::SplitEvenly(self.parts())
    }

    fn name(&self) -> (r: &'static str)
        ensures
            r@ == "split-evenly"@,
    {
        "split-evenly"
    }

    fn accept(&self, content: &ParsedContent) -> (r: MatchConfidence)
        ensures
            r.0 == 1,
    {
        MatchConfidence(1)
    }

    fn parse(&self, ct: &CancellationToken, content: &ParsedContent) -> (r: Result<TocRoot, ParserError>)
        ensures
            r matches Ok(t) ==> built_from(split_events(content.text(), self.parts()), t@),
            r matches Err(e) ==> e is Cancelled,
    {
        match check_cancelled(ct) {
            Ok(()) => {},
            Err(e) => return Err(e),
        }
        let events = match self.split(ct, content.text_str()) {
            Ok(events) => events,
            Err(e) => return Err(e),
        };
        build_toc(events, ct)
    }
}

} // verus!
