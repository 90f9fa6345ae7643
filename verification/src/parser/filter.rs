//! The ad filter: deletes lines that carry an ad keyword or a URL.
use vstd::prelude::*;

use tokio_util::sync::CancellationToken;

use super::{check_cancelled, FilterParser, MatchConfidence, ParserError};
use super::toc::leveled::std_text_line;
use super::toc::rule::fits;
use crate::extractor::ParsedContent;
use crate::pattern::{compile, is_match, regex_captures, regex_valid};
use crate::text::{
    chars_of, contains_at, lemma_piece_ends, lemma_utf8_len_take, lemma_utf8_len_take_lt, occurs_in, piece, piece_ends, piece_start, span_ok, spans, string_of,
    trim, trim_bounds, utf8_len, Span,
};
use crate::types::{TextOp, TextRange};

verus! {

/// The ad keyword dictionary, one keyword per line.
pub const AD_KEYWORDS: &'static str = "首发域名\n无弹窗\n天才一秒记住\n手机用户请浏览\n最新章节请到\n请收藏本站\n笔趣阁\n";

/// A URL, or a host name in one of the common domains.
pub const URL_PATTERN: &'static str = r"(?i)(https?://|www\.)\S+|[a-z0-9-]+\.(com|net|org|cc|me|io|xyz)\S*";

/// The keywords of the first `n` lines of a dictionary: each line trimmed,
/// empty lines skipped.
pub open spec fn keywords_upto(d: Seq<char>, n: int) -> Seq<Seq<char>>
    decreases n,
{
    if n <= 0 {
        Seq::empty()
    } else {
        let k = keywords_upto(d, n - 1);
        let w = trim(std_text_line(d, n - 1));
        if w.len() > 0 {
            k.push(w)
        } else {
            k
        }
    }
}

/// The keywords of a dictionary.
pub open spec fn keywords_of(d: Seq<char>) -> Seq<Seq<char>> {
    keywords_upto(d, piece_ends(d).len() as int)
}

/// A line is an ad when it holds a keyword or the URL pattern matches it.
pub open spec fn is_ad(keywords: Seq<Seq<char>>, line: Seq<char>) -> bool {
    (exists|i: int| 0 <= i < keywords.len() && occurs_in(#[trigger] keywords[i], line))
        || regex_captures(URL_PATTERN@, line) is Some
}

/// The byte range of piece `k` of `s`, its newline included.
pub open spec fn piece_range(s: Seq<char>, k: int) -> TextRange {
    TextRange {
        start: utf8_len(s.take(piece_start(s, k))) as u64,
        end: utf8_len(s.take(piece_ends(s)[k])) as u64,
    }
}

/// The deletions of the ad lines among the first `n` pieces, in order.
pub open spec fn ad_ranges_upto(keywords: Seq<Seq<char>>, s: Seq<char>, n: int) -> Seq<TextRange>
    decreases n,
{
    if n <= 0 {
        Seq::empty()
    } else {
        let r = ad_ranges_upto(keywords, s, n - 1);
        if is_ad(keywords, piece(s, n - 1)) {
            r.push(piece_range(s, n - 1))
        } else {
            r
        }
    }
}

/// The deletions of the ad lines of `s`, each a whole line with its newline.
pub open spec fn ad_ranges(s: Seq<char>) -> Seq<TextRange> {
    ad_ranges_upto(keywords_of(AD_KEYWORDS@), s, piece_ends(s).len() as int)
}

/// A line holding any keyword of the dictionary, the first and the last
/// alike, is an ad.
pub proof fn lemma_keyword_line_is_ad(keywords: Seq<Seq<char>>, line: Seq<char>, i: int)
    requires
        0 <= i < keywords.len(),
        occurs_in(keywords[i], line),
    ensures
        is_ad(keywords, line),
{
}

/// The deletions among the first `n` pieces are exactly those of the ad
/// pieces: every ad piece is deleted, and every deletion is an ad piece's.
pub proof fn lemma_ad_pieces_deleted(keywords: Seq<Seq<char>>, s: Seq<char>, n: int)
    requires
        0 <= n,
    ensures
        forall|k: int|
            0 <= k < n && is_ad(keywords, #[trigger] piece(s, k)) ==> ad_ranges_upto(keywords, s, n).contains(
                piece_range(s, k),
            ),
        forall|j: int|
            #![trigger ad_ranges_upto(keywords, s, n)[j]]
            0 <= j < ad_ranges_upto(keywords, s, n).len() ==> ad_piece_at(keywords, s, n, ad_ranges_upto(keywords, s, n)[j]),
    decreases n,
{
    if n > 0 {
        lemma_ad_pieces_deleted(keywords, s, n - 1);
        let r = ad_ranges_upto(keywords, s, n - 1);
        let r2 = ad_ranges_upto(keywords, s, n);
        assert forall|x: TextRange| ad_piece_at(keywords, s, n - 1, x) implies ad_piece_at(keywords, s, n, x) by {
            let k = choose|k: int| 0 <= k < n - 1 && is_ad(keywords, piece(s, k)) && x == piece_range(s, k);
            assert(0 <= k < n && is_ad(keywords, piece(s, k)) && x == piece_range(s, k));
        }
        if is_ad(keywords, piece(s, n - 1)) {
            assert(r2 == r.push(piece_range(s, n - 1)));
            assert(r2[r.len() as int] == piece_range(s, n - 1));
            assert forall|k: int| 0 <= k < n && is_ad(keywords, #[trigger] piece(s, k)) implies r2.contains(
                piece_range(s, k),
            ) by {
                if k < n - 1 {
                    let j = choose|j: int| 0 <= j < r.len() && r[j] == piece_range(s, k);
                    assert(r2[j] == r[j]);
                }
            }
            assert forall|j: int| 0 <= j < r2.len() implies ad_piece_at(keywords, s, n, #[trigger] r2[j]) by {
                if j < r.len() {
                    assert(r2[j] == r[j]);
                    assert(ad_piece_at(keywords, s, n - 1, r[j]));
                } else {
                    let k = n - 1;
                    assert(0 <= k < n && is_ad(keywords, piece(s, k)) && r2[j] == piece_range(s, k));
                }
            }
        } else {
            assert(r2 == r);
            assert forall|j: int| 0 <= j < r2.len() implies ad_piece_at(keywords, s, n, #[trigger] r2[j]) by {
                assert(ad_piece_at(keywords, s, n - 1, r[j]));
            }
        }
    }
}

/// `x` is the range of an ad piece among the first `n` pieces.
pub open spec fn ad_piece_at(keywords: Seq<Seq<char>>, s: Seq<char>, n: int, x: TextRange) -> bool {
    exists|k: int| 0 <= k < n && is_ad(keywords, piece(s, k)) && x == #[trigger] piece_range(s, k)
}

/// In the text, a piece holding any keyword of the built-in dictionary is
/// deleted whole.
pub proof fn lemma_keyword_pieces_deleted(s: Seq<char>, k: int, i: int)
    requires
        0 <= k < piece_ends(s).len(),
        0 <= i < keywords_of(AD_KEYWORDS@).len(),
        occurs_in(keywords_of(AD_KEYWORDS@)[i], piece(s, k)),
    ensures
        ad_ranges(s).contains(piece_range(s, k)),
{
    lemma_keyword_line_is_ad(keywords_of(AD_KEYWORDS@), piece(s, k), i);
    lemma_ad_pieces_deleted(keywords_of(AD_KEYWORDS@), s, piece_ends(s).len() as int);
}

/// Each ad piece is deleted whole, newline included: the ranges are
/// nonempty and in strictly ascending order, each ending no later than the
/// next one starts, and all lie within the text.
pub proof fn lemma_ad_ranges_ordered(keywords: Seq<Seq<char>>, s: Seq<char>, n: int)
    requires
        utf8_len(s) <= u64::MAX,
        0 <= n <= piece_ends(s).len(),
    ensures
        forall|i: int|
            0 <= i < ad_ranges_upto(keywords, s, n).len() ==> (#[trigger] ad_ranges_upto(keywords, s, n)[i]).start
                < ad_ranges_upto(keywords, s, n)[i].end <= utf8_len(s),
        forall|i: int, j: int|
            0 <= i < j < ad_ranges_upto(keywords, s, n).len() ==> (#[trigger] ad_ranges_upto(keywords, s, n)[i]).end
                <= (#[trigger] ad_ranges_upto(keywords, s, n)[j]).start,
        forall|i: int|
            0 <= i < ad_ranges_upto(keywords, s, n).len() ==> exists|k: int|
                0 <= k < n && #[trigger] ad_ranges_upto(keywords, s, n)[i] == piece_range(s, k),
    decreases n,
{
    lemma_piece_ends(s);
    if n > 0 {
        lemma_ad_ranges_ordered(keywords, s, n - 1);
        let r = ad_ranges_upto(keywords, s, n - 1);
        let k = n - 1;
        let pr = piece_range(s, k);
        let st = piece_start(s, k);
        let en = piece_ends(s)[k];
        assert(0 <= st < en <= s.len()) by {
            if k > 0 {
                assert(piece_ends(s)[k - 1] < piece_ends(s)[k]);
            }
        }
        lemma_utf8_len_take_lt(s, st, en);
        if is_ad(keywords, piece(s, k)) {
            let r2 = r.push(pr);
            assert forall|i: int| 0 <= i < r.len() implies (#[trigger] r[i]).end <= pr.start by {
                let k2 = choose|k2: int| 0 <= k2 < n - 1 && r[i] == piece_range(s, k2);
                let e2 = piece_ends(s)[k2];
                assert(e2 <= st) by {
                    if k2 < k - 1 {
                        assert(piece_ends(s)[k2] < piece_ends(s)[k - 1]);
                    }
                }
                lemma_utf8_len_take(s, en);
                if e2 < st {
                    lemma_utf8_len_take_lt(s, e2, st);
                }
            }
            assert forall|i: int|
                0 <= i < r2.len() implies (#[trigger] r2[i]).start < r2[i].end <= utf8_len(s) by {
                if i < r.len() {
                    assert(r2[i] == r[i]);
                }
            }
            assert forall|i: int, j: int| 0 <= i < j < r2.len() implies (#[trigger] r2[i]).end <= (
            #[trigger] r2[j]).start by {
                assert(r2[i] == r[i]);
                if j < r.len() {
                    assert(r2[j] == r[j]);
                } else {
                    assert(r[i].end <= pr.start);
                }
            }
            assert forall|i: int| 0 <= i < r2.len() implies exists|k3: int|
                0 <= k3 < n && #[trigger] r2[i] == piece_range(s, k3) by {
                if i < r.len() {
                    assert(r2[i] == r[i]);
                    let k2 = choose|k2: int| 0 <= k2 < n - 1 && r[i] == piece_range(s, k2);
                    assert(r2[i] == piece_range(s, k2));
                } else {
                    assert(r2[i] == piece_range(s, k));
                }
            }
        }
    }
}

/// The operations delete exactly the ranges, in order.
pub open spec fn deletes(ops: Seq<TextOp>, ranges: Seq<TextRange>) -> bool {
    ops.len() == ranges.len() && forall|i: int| 0 <= i < ops.len() ==> #[trigger] ops[i] == TextOp::Delete {
        range: ranges[i],
    }
}

/// Deletes whole lines (with their newline) that contain an ad keyword or
/// look like a URL.
pub struct AdFilterParser;

impl Default for AdFilterParser {
    fn default() -> (r: Self)
        ensures
            r == AdFilterParser,
    {
        AdFilterParser
    }
}

impl AdFilterParser {
    pub fn new() -> (r: Self)
        ensures
            r == AdFilterParser,
    {
        AdFilterParser
    }

    /// The keywords of the dictionary, as characters.
    fn keywords() -> (r: Vec<Vec<char>>)
        ensures
            r@.len() == keywords_of(AD_KEYWORDS@).len(),
            forall|i: int| 0 <= i < r@.len() ==> (#[trigger] r@[i])@ == keywords_of(AD_KEYWORDS@)[i],
    {
        let d = chars_of(AD_KEYWORDS);
        proof {
            reveal_strlit("首发域名\n无弹窗\n天才一秒记住\n手机用户请浏览\n最新章节请到\n请收藏本站\n笔趣阁\n");
            crate::text::lemma_utf8_len_le(d@);
        }
        let sp = spans(&d);
        let mut out: Vec<Vec<char>> = Vec::new();
        let mut k: usize = 0;
        while k < sp.len()
            invariant
                d@ == AD_KEYWORDS@,
                k <= sp@.len(),
                sp@.len() == piece_ends(d@).len(),
                forall|j: int| 0 <= j < sp@.len() ==> span_ok(d@, j, #[trigger] sp@[j]),
                out@.len() == keywords_upto(d@, k as int).len(),
                forall|i: int| 0 <= i < out@.len() ==> (#[trigger] out@[i])@ == keywords_upto(d@, k as int)[i],
            decreases sp@.len() - k,
        {
            let x = sp[k];
            proof {
                assert(span_ok(d@, k as int, x));
            }
            let (t0, t1) = trim_bounds(&d, x.start, x.std_end);
            let ghost before = out@;
            if t0 < t1 {
                let mut w: Vec<char> = Vec::new();
                let mut i = t0;
                while i < t1
                    invariant
                        t0 <= i <= t1 <= d@.len(),
                        w@ == d@.subrange(t0 as int, i as int),
                    decreases t1 - i,
                {
                    w.push(d[i]);
                    proof {
                        assert(d@.subrange(t0 as int, i + 1) =~= d@.subrange(t0 as int, i as int).push(d@[i as int]));
                    }
                    i += 1;
                }
                out.push(w);
                proof {
                    assert(out@ == before.push(w));
                }
            }
            k += 1;
        }
        out
    }
}

impl FilterParser for AdFilterParser {
    fn name(&self) -> (r: &'static str)
        ensures
            r@ == "ad-filter"@,
    {
        "ad-filter"
    }

    /// Ad filtering is a safe default for any plain text, so it always
    /// accepts, at low confidence.
    fn accept(&self, content: &ParsedContent) -> (r: MatchConfidence)
        ensures
            r.0 == 10,
    {
        MatchConfidence(10)
    }

    fn parse(&self, ct: &CancellationToken, content: &ParsedContent) -> (r: Result<Vec<TextOp>, ParserError>)
        ensures
            r matches Ok(ops) ==> regex_valid(URL_PATTERN@) && deletes(ops@, ad_ranges(content.text())),
            r matches Err(e) ==> e is Cancelled || (e is Other && !regex_valid(URL_PATTERN@)),
    {
        match check_cancelled(ct) {
            Ok(()) => {},
            Err(e) => return Err(e),
        }
        let url = match compile(URL_PATTERN) {
            Ok(re) => re,
            Err(_) => return Err(ParserError::Other("the URL pattern does not compile".to_owned())),
        };
        let keywords = Self::keywords();
        let ghost kw = keywords_of(AD_KEYWORDS@);
        let s = chars_of(content.text_str());
        let sp = spans(&s);
        let mut ops: Vec<TextOp> = Vec::new();
        let mut k: usize = 0;
        while k < sp.len()
            invariant
                s@ == content.text(),
                url@ == URL_PATTERN@,
                k <= sp@.len(),
                sp@.len() == piece_ends(s@).len(),
                forall|j: int| 0 <= j < sp@.len() ==> span_ok(s@, j, #[trigger] sp@[j]),
                kw == keywords_of(AD_KEYWORDS@),
                keywords@.len() == kw.len(),
                forall|i: int| 0 <= i < keywords@.len() ==> (#[trigger] keywords@[i])@ == kw[i],
                deletes(ops@, ad_ranges_upto(kw, s@, k as int)),
            decreases sp@.len() - k,
        {
            match check_cancelled(ct) {
                Ok(()) => {},
                Err(e) => return Err(e),
            }
            let x = sp[k];
            proof {
                assert(span_ok(s@, k as int, x));
            }
            let mut hit = false;
            let mut i: usize = 0;
            while i < keywords.len() && !hit
                invariant
                    i <= keywords@.len(),
                    x.start <= x.next <= s@.len(),
                    keywords@.len() == kw.len(),
                    forall|j: int| 0 <= j < keywords@.len() ==> (#[trigger] keywords@[j])@ == kw[j],
                    hit == exists|j: int| 0 <= j < i && occurs_in(#[trigger] kw[j], s@.subrange(x.start as int, x.next as int)),
                decreases keywords@.len() - i,
            {
                if contains_at(&s, x.start, x.next, &keywords[i]) {
                    hit = true;
                }
                i += 1;
            }
            if !hit {
                let line = string_of(&s, x.start, x.next);
                hit = is_match(&url, line.as_str());
            }
            proof {
                assert(piece(s@, k as int) == s@.subrange(x.start as int, x.next as int));
            }
            if hit {
                let ghost prev = ops@;
                ops.push(TextOp::Delete { range: TextRange { start: x.byte_start, end: x.byte_next } });
                proof {
                    assert(ops@ == prev.push(TextOp::Delete { range: piece_range(s@, k as int) }));
                }
            }
            k += 1;
        }
        match check_cancelled(ct) {
            Ok(()) => {},
            Err(e) => return Err(e),
        }
        Ok(ops)
    }
}

} // verus!
