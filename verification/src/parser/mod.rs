//! Parsers consume the intermediate representation (`ParsedContent`) that an
//! extractor produces and turn it into document structures.
//!
//! TOC parsing follows calibre's conventions: level rules produce a flat
//! (level, title, position) event stream, which `TocBuilder` assembles into a
//! tree (levels are 1-based, level jumps create container nodes).
use vstd::prelude::*;

use tokio_util::sync::CancellationToken;

use crate::cancel::is_cancelled;
use crate::extractor::ParsedContent;
use crate::toc::builder::built_from;
use crate::toc::{TocModel, TocRoot};
use toc::leveled::confidence_spec;
use toc::rule::{scan_spec, RuleView};
use toc::split::split_events;
use toc::vbook::{vbook_confidence, vbook_events, VBookView};
use crate::types::{ByteRange, TextOp, TextRange};

pub mod filter;
pub mod metadata;
pub mod toc;

pub use metadata::Metadata;

verus! {

/// A position in the content: character range in the decoded text plus byte
/// range in the raw file.
#[derive(Debug, Clone, Copy, PartialEq, Eq, Hash)]
pub struct ContentRange {
    pub chars: TextRange,
    pub bytes: ByteRange,
}

/// An edit of the content.
#[derive(Debug, Clone, PartialEq, Eq)]
pub enum TransformOperation {
    Replace { range: ContentRange, replacement: String },
    Delete { range: ContentRange },
    Insert { range: ContentRange, insertion: String },
}

/// What a parser produces.
#[derive(Debug, Clone, Copy, PartialEq, Eq, Hash)]
pub enum ParserKind {
    /// Filter parser that applies transformations based on specific rules.
    Filter,
    /// Table of contents parser that generates a structured representation of headings.
    Toc,
    /// Metadata parser that extracts document metadata such as title and author.
    Metadata,
}

/// Why a parser produced nothing.
#[derive(Debug)]
pub enum ParserError {
    /// The cancellation token was cancelled.
    Cancelled,
    /// No parser accepted the content; the failures of those that tried.
    NoMatch(String),
    /// Any other failure, with its message.
    Other(String),
}

/// The message of a parser error.
pub open spec fn error_message(e: ParserError) -> Seq<char> {
    match e {
        ParserError::Cancelled => "parsing cancelled"@,
        ParserError::NoMatch(s) => "no parser accepted the content: "@ + s@,
        ParserError::Other(s) => s@,
    }
}

impl ParserError {
    /// The message of the error.
    pub fn message(&self) -> (r: String)
        ensures
            r@ == error_message(*self),
    {
        match self {
            ParserError::Cancelled => "parsing cancelled".to_owned(),
            ParserError::NoMatch(s) => {
                let mut m = "no parser accepted the content: ".to_owned();
                crate::text::push_str(&mut m, s.as_str());
                m
            },
            ParserError::Other(s) => s.clone(),
        }
    }
}

/// `Err(Cancelled)` when the token has been cancelled, else `Ok`.
pub fn check_cancelled(ct: &CancellationToken) -> (r: Result<(), ParserError>)
    ensures
        r matches Err(e) ==> e is Cancelled,
{
    if is_cancelled(ct) {
        Err(ParserError::Cancelled)
    } else {
        Ok(())
    }
}

/// Match confidence, modelled after calibre's input plugin selection.
/// `0` means the parser does not accept the content at all.
#[derive(Debug, Clone, Copy, PartialEq, Eq, PartialOrd, Ord, Hash)]
pub struct MatchConfidence(pub u8);

/// What a TOC parser is: one of the library's parsers, with what it was
/// built from, or a combination of parsers.
pub enum TocParserSpec {
    /// Heading rules by level, tried in order (`RuleSetTocParser`).
    LevelRules { name: Seq<char>, rules: Seq<RuleView> },
    /// A VBook parser.
    VBook(VBookView),
    /// The text split into this many parts.
    SplitEvenly(nat),
    /// A `CombinedParser`.
    Combined,
    /// A parser from outside the library.
    Other,
}

/// The name a parser of this kind gives.
pub open spec fn spec_name(p: TocParserSpec, name: Seq<char>) -> bool {
    match p {
        TocParserSpec::LevelRules { name: n, .. } => name == n,
        TocParserSpec::VBook(_) => name == "vbook"@,
        TocParserSpec::SplitEvenly(_) => name == "split-evenly"@,
        TocParserSpec::Combined => name == "combined"@,
        TocParserSpec::Other => true,
    }
}

/// The confidence a parser of this kind gives for the text.
pub open spec fn spec_accepts(p: TocParserSpec, s: Seq<char>, conf: u8) -> bool {
    match p {
        TocParserSpec::LevelRules { rules, .. } => conf == confidence_spec(rules, s),
        TocParserSpec::VBook(v) => conf == vbook_confidence(v, s),
        TocParserSpec::SplitEvenly(_) => conf == 1,
        TocParserSpec::Combined => true,
        TocParserSpec::Other => true,
    }
}

/// The tree a parser of this kind builds from the text.
pub open spec fn spec_parsed(p: TocParserSpec, s: Seq<char>, t: TocModel) -> bool {
    match p {
        TocParserSpec::LevelRules { rules, .. } => built_from(scan_spec(rules, s), t),
        TocParserSpec::VBook(v) => built_from(vbook_events(v, s), t),
        TocParserSpec::SplitEvenly(parts) => built_from(split_events(s, parts), t),
        TocParserSpec::Combined => true,
        TocParserSpec::Other => true,
    }
}

/// A parser that builds a table of contents.
pub trait TocParser {
    /// What the parser is; a parser from outside the library is `Other`.
    open spec fn parser_spec(&self) -> TocParserSpec {
        TocParserSpec::Other
    }

    fn name(&self) -> (r: &'static str)
        ensures
            spec_name(self.parser_spec(), r@),
    ;

    /// Whether this parser can handle the given content, and with what confidence.
    fn accept(&self, content: &ParsedContent) -> (r: MatchConfidence)
        requires
            content.fits(),
        ensures
            spec_accepts(self.parser_spec(), content.text(), r.0),
    ;

    fn parse(&self, ct: &CancellationToken, content: &ParsedContent) -> (r: Result<TocRoot, ParserError>)
        requires
            content.fits(),
        ensures
            r matches Ok(t) ==> t.wf() && spec_parsed(self.parser_spec(), content.text(), t@),
    ;

    fn kind(&self) -> (r: ParserKind)
        ensures
            r == ParserKind::Toc,
    {
        ParserKind::Toc
    }
}

/// A parser that proposes edits of the text.
pub trait FilterParser {
    fn name(&self) -> &'static str;

    /// Whether this parser can handle the given content, and with what confidence.
    fn accept(&self, content: &ParsedContent) -> MatchConfidence;

    fn parse(&self, ct: &CancellationToken, content: &ParsedContent) -> (r: Result<Vec<TextOp>, ParserError>)
        requires
            content.fits(),
    ;

    fn kind(&self) -> (r: ParserKind)
        ensures
            r == ParserKind::Filter,
    {
        ParserKind::Filter
    }
}

/// A parser that reads the document's metadata.
pub trait MetadataParser {
    fn name(&self) -> &'static str;

    /// Whether this parser can handle the given content, and with what confidence.
    fn accept(&self, content: &ParsedContent) -> MatchConfidence;

    fn parse(&self, ct: &CancellationToken, content: &ParsedContent) -> (r: Result<Metadata, ParserError>);

    fn kind(&self) -> (r: ParserKind)
        ensures
            r == ParserKind::Metadata,
    {
        ParserKind::Metadata
    }
}

} // verus!

verus! {

/// How a combined parser uses its parsers.
#[derive(Debug, Clone, Copy, PartialEq, Eq)]
pub enum CombineStrategy {
    /// Use the highest-confidence parser; on failure fall back in descending
    /// confidence order.
    BestMatch,
    /// Reserved, not implemented: several parsers each produce an event
    /// stream, merged into one tree by level priority.
    Merge,
}

/// `order` lists the indices of the positive confidences, by decreasing
/// confidence and, for equal confidences, in their own order.
pub open spec fn is_ranking(conf: Seq<u8>, order: Seq<usize>) -> bool {
    &&& forall|k: int| 0 <= k < order.len() ==> #[trigger] order[k] < conf.len() && conf[order[k] as int] > 0
    &&& forall|i: int| 0 <= i < conf.len() && #[trigger] conf[i] > 0 ==> order.contains(i as usize)
    &&& forall|k: int, l: int|
        0 <= k < l < order.len() ==> conf[#[trigger] order[k] as int] > conf[#[trigger] order[l] as int] || (
        conf[order[k] as int] == conf[order[l] as int] && order[k] < order[l])
}

/// Inserting index `i` after the indices of no smaller confidence keeps the
/// ranking of the indices below `i`, extended by `i`.
proof fn lemma_ranked_insert(conf: Seq<u8>, old_order: Seq<usize>, order: Seq<usize>, pos: int, i: usize)
    requires
        0 <= pos <= old_order.len(),
        i < conf.len(),
        conf[i as int] > 0,
        order == old_order.insert(pos, i),
        forall|k: int| 0 <= k < old_order.len() ==> #[trigger] old_order[k] < i && conf[old_order[k] as int] > 0,
        forall|j: int| 0 <= j < i && #[trigger] conf[j] > 0 ==> old_order.contains(j as usize),
        forall|k: int, l: int|
            0 <= k < l < old_order.len() ==> conf[#[trigger] old_order[k] as int] > conf[#[trigger] old_order[l] as int]
                || (conf[old_order[k] as int] == conf[old_order[l] as int] && old_order[k] < old_order[l]),
        forall|k: int| 0 <= k < pos ==> conf[#[trigger] old_order[k] as int] >= conf[i as int],
        pos == old_order.len() || conf[old_order[pos] as int] < conf[i as int],
    ensures
        forall|k: int| 0 <= k < order.len() ==> #[trigger] order[k] < i + 1 && conf[order[k] as int] > 0,
        forall|j: int| 0 <= j < i + 1 && #[trigger] conf[j] > 0 ==> order.contains(j as usize),
        forall|k: int, l: int|
            0 <= k < l < order.len() ==> conf[#[trigger] order[k] as int] > conf[#[trigger] order[l] as int] || (
            conf[order[k] as int] == conf[order[l] as int] && order[k] < order[l]),
{
    let c = conf[i as int];
    assert forall|k: int| pos <= k < old_order.len() implies conf[#[trigger] old_order[k] as int] < c by {
        if k > pos {
            assert(conf[old_order[pos] as int] >= conf[old_order[k] as int]);
        }
    }
    assert forall|k: int| 0 <= k < order.len() implies #[trigger] order[k] < i + 1 && conf[order[k] as int] > 0 by {
        if k < pos {
            assert(order[k] == old_order[k]);
        } else if k > pos {
            assert(order[k] == old_order[k - 1]);
        }
    }
    assert forall|j: int| 0 <= j < i + 1 && #[trigger] conf[j] > 0 implies order.contains(j as usize) by {
        if j == i {
            assert(order[pos] == i);
        } else {
            assert(old_order.contains(j as usize));
            let k = choose|k: int| 0 <= k < old_order.len() && old_order[k] == j as usize;
            if k < pos {
                assert(order[k] == j as usize);
            } else {
                assert(order[k + 1] == j as usize);
            }
        }
    }
    assert forall|k: int, l: int|
        0 <= k < l < order.len() implies conf[#[trigger] order[k] as int] > conf[#[trigger] order[l] as int] || (
        conf[order[k] as int] == conf[order[l] as int] && order[k] < order[l]) by {
        if l < pos {
            assert(order[k] == old_order[k] && order[l] == old_order[l]);
        } else if l == pos {
            assert(order[k] == old_order[k]);
        } else if k < pos {
            assert(order[k] == old_order[k] && order[l] == old_order[l - 1]);
        } else if k == pos {
            assert(order[l] == old_order[l - 1]);
        } else {
            assert(order[k] == old_order[k - 1] && order[l] == old_order[l - 1]);
        }
    }
}

/// The candidates of a best-match run: the parsers that accept the content
/// at all, best first, ties in the order they were added.
pub fn rank_candidates(conf: &Vec<u8>) -> (r: Vec<usize>)
    ensures
        is_ranking(conf@, r@),
{
    let mut order: Vec<usize> = Vec::new();
    let mut i: usize = 0;
    while i < conf.len()
        invariant
            i <= conf@.len(),
            forall|k: int| 0 <= k < order@.len() ==> #[trigger] order@[k] < i && conf@[order@[k] as int] > 0,
            forall|j: int| 0 <= j < i && #[trigger] conf@[j] > 0 ==> order@.contains(j as usize),
            forall|k: int, l: int|
                0 <= k < l < order@.len() ==> conf@[#[trigger] order@[k] as int] > conf@[#[trigger] order@[l] as int]
                    || (conf@[order@[k] as int] == conf@[order@[l] as int] && order@[k] < order@[l]),
        decreases conf@.len() - i,
    {
        if conf[i] > 0 {
            let c = conf[i];
            let mut pos: usize = 0;
            while pos < order.len() && conf[order[pos]] >= c
                invariant
                    pos <= order@.len(),
                    i < conf@.len(),
                    c == conf@[i as int],
                    forall|k: int| 0 <= k < order@.len() ==> #[trigger] order@[k] < i,
                    forall|k: int| 0 <= k < pos ==> conf@[#[trigger] order@[k] as int] >= c,
                ensures
                    pos <= order@.len(),
                    forall|k: int| 0 <= k < pos ==> conf@[#[trigger] order@[k] as int] >= c,
                    pos == order@.len() || conf@[order@[pos as int] as int] < c,
                decreases order@.len() - pos,
            {
                pos += 1;
            }
            let ghost old_order = order@;
            order.insert(pos, i);
            proof {
                lemma_ranked_insert(conf@, old_order, order@, pos as int, i);
            }
        }
        i += 1;
    }
    order
}

/// The largest confidence, 0 for none.
pub open spec fn max_conf(conf: Seq<u8>) -> u8
    decreases conf.len(),
{
    if conf.len() == 0 {
        0
    } else {
        let m = max_conf(conf.drop_last());
        if conf.last() > m {
            conf.last()
        } else {
            m
        }
    }
}

/// The largest confidence, 0 for none.
pub fn max_confidence(conf: &Vec<u8>) -> (r: u8)
    ensures
        r == max_conf(conf@),
{
    let mut m: u8 = 0;
    let mut i: usize = 0;
    while i < conf.len()
        invariant
            i <= conf@.len(),
            m == max_conf(conf@.take(i as int)),
        decreases conf@.len() - i,
    {
        proof {
            assert(conf@.take(i + 1).drop_last() =~= conf@.take(i as int));
        }
        if conf[i] > m {
            m = conf[i];
        }
        i += 1;
    }
    proof {
        assert(conf@.take(conf@.len() as int) =~= conf@);
    }
    m
}

/// The parts joined by the separator.
pub open spec fn joined(parts: Seq<Seq<char>>, sep: Seq<char>) -> Seq<char>
    decreases parts.len(),
{
    if parts.len() == 0 {
        Seq::empty()
    } else if parts.len() == 1 {
        parts[0]
    } else {
        joined(parts.drop_last(), sep) + sep + parts.last()
    }
}

/// The strings joined by `"; "`.
pub fn join_errors(parts: &Vec<String>) -> (r: String)
    ensures
        r@ == joined(Seq::new(parts@.len(), |i: int| parts@[i]@), "; "@),
{
    let ghost views = Seq::new(parts@.len(), |i: int| parts@[i]@);
    let mut out = String::new();
    let mut i: usize = 0;
    while i < parts.len()
        invariant
            i <= parts@.len(),
            views == Seq::new(parts@.len(), |j: int| parts@[j]@),
            out@ == joined(views.take(i as int), "; "@),
        decreases parts@.len() - i,
    {
        let ghost before = out@;
        if i > 0 {
            crate::text::push_str(&mut out, "; ");
        }
        crate::text::push_str(&mut out, parts[i].as_str());
        proof {
            assert(views.take(i + 1).drop_last() =~= views.take(i as int));
            if i == 0 {
                assert(before == Seq::<char>::empty());
                assert(out@ =~= views[0]);
            }
        }
        i += 1;
    }
    proof {
        assert(views.take(parts@.len() as int) =~= views);
    }
    out
}

/// A combination of TOC parsers.
pub struct CombinedParser {
    parsers: Vec<Box<dyn TocParser>>,
    strategy: CombineStrategy,
}

impl CombinedParser {
    /// The strategy.
    pub closed spec fn strategy_spec(&self) -> CombineStrategy {
        self.strategy
    }

    pub fn new(strategy: CombineStrategy) -> (r: Self)
        ensures
            r.strategy_spec() == strategy,
            r.parser_count() == 0,
    {
        CombinedParser { parsers: Vec::new(), strategy }
    }

    /// The number of parsers.
    pub closed spec fn parser_count(&self) -> nat {
        self.parsers@.len()
    }

    /// Adds a parser, after the ones already there.
    pub fn add<P: TocParser + 'static>(&mut self, parser: P) -> (r: &mut Self)
        ensures
            r.strategy_spec() == old(self).strategy_spec(),
            r.parser_count() == old(self).parser_count() + 1,
            *final(r) == *final(self),
    {
        let b: Box<dyn TocParser> = Box::new(parser);
        let ghost before = self.parsers@;
        self.parsers.push(b);
        proof {
            // The length axiom is not applied on its own to boxed trait objects.
            vstd::seq::axiom_seq_push_len(before, b);
        }
        &mut *self
    }
}

} // verus!

verus! {

/// `e` is `Other` with the message `m`.
pub open spec fn is_other_with(e: ParserError, m: Seq<char>) -> bool {
    match e {
        ParserError::Other(s) => s@ == m,
        _ => false,
    }
}

/// A failed parser's line of a no-match summary: `name: message`.
fn failure_line(name: &str, e: &ParserError) -> (r: String)
    ensures
        r@ == name@ + ": "@ + error_message(*e),
{
    let mut line = name.to_owned();
    crate::text::push_str(&mut line, ": ");
    let m = e.message();
    crate::text::push_str(&mut line, m.as_str());
    line
}

/// What a best-match run does with one parser's result: a tree ends the
/// run with that tree, a cancellation ends the run, and any other failure
/// is noted as `name: message` while the run goes on (`None`).
pub fn settle_attempt(name: &str, result: Result<TocRoot, ParserError>, failures: &mut Vec<String>) -> (r:
    Option<Result<TocRoot, ParserError>>)
    ensures
        match result {
            Ok(t) => r == Some(Ok::<TocRoot, ParserError>(t)) && final(failures)@ == old(failures)@,
            Err(ParserError::Cancelled) => (r matches Some(Err(e)) && e is Cancelled) && final(failures)@
                == old(failures)@,
            Err(e) => r is None && final(failures)@.len() == old(failures)@.len() + 1
                && final(failures)@.drop_last() == old(failures)@
                && final(failures)@.last()@ == name@ + ": "@ + error_message(e),
        },
{
    match result {
        Ok(t) => Some(Ok(t)),
        Err(ParserError::Cancelled) => Some(Err(ParserError::Cancelled)),
        Err(e) => {
            let line = failure_line(name, &e);
            failures.push(line);
            proof {
                assert(failures@.drop_last() =~= old(failures)@);
            }
            None
        },
    }
}

/// `line` is how a best-match run notes a failure of a parser `p`: the name
/// the parser gives, `": "`, and the message of an error other than a
/// cancellation.
pub open spec fn failure_of(p: TocParserSpec, line: Seq<char>) -> bool {
    exists|name: Seq<char>, e: ParserError|
        #![trigger failure_text(name, e)]
        spec_name(p, name) && !(e is Cancelled) && failure_text(name, e) == line
}

/// The line of a failure: `name: message`.
pub open spec fn failure_text(name: Seq<char>, e: ParserError) -> Seq<char> {
    name + ": "@ + error_message(e)
}

/// A best-match run over `parsers` on `text` that gave `r`: `conf` are the
/// confidences the parsers gave, `order` ranks the accepting ones (best
/// first, ties in the order they were added), and the first `lines.len()`
/// ranked parsers failed, in order, with these lines. Then either the next
/// ranked parser gave the tree, or none was left and the error lists the
/// lines; a cancellation may end the run at any point.
pub open spec fn best_match_trace(
    parsers: Seq<TocParserSpec>,
    text: Seq<char>,
    conf: Seq<u8>,
    order: Seq<usize>,
    lines: Seq<Seq<char>>,
    r: Result<TocRoot, ParserError>,
) -> bool {
    &&& conf.len() == parsers.len()
    &&& forall|i: int| 0 <= i < parsers.len() ==> spec_accepts(#[trigger] parsers[i], text, conf[i])
    &&& is_ranking(conf, order)
    &&& lines.len() <= order.len()
    &&& forall|j: int| 0 <= j < lines.len() ==> failure_of(parsers[order[j] as int], #[trigger] lines[j])
    &&& match r {
        Ok(t) => lines.len() < order.len() && t.wf() && spec_parsed(
            parsers[order[lines.len() as int] as int],
            text,
            t@,
        ),
        Err(ParserError::NoMatch(m)) => lines.len() == order.len() && m@ == joined(lines, "; "@),
        Err(ParserError::Cancelled) => true,
        Err(ParserError::Other(_)) => false,
    }
}

/// A cancellation ended the run, or some confidences, ranking and failure
/// lines explain `r` (see `best_match_trace`).
pub open spec fn best_match_run(parsers: Seq<TocParserSpec>, text: Seq<char>, r: Result<TocRoot, ParserError>) -> bool {
    ||| r matches Err(e) && e is Cancelled
    ||| exists|conf: Seq<u8>, order: Seq<usize>, lines: Seq<Seq<char>>|
        #[trigger] best_match_trace(parsers, text, conf, order, lines, r)
}

impl CombinedParser {
    /// What the parsers are, in the order they were added.
    pub closed spec fn parser_specs(&self) -> Seq<TocParserSpec> {
        Seq::new(self.parsers@.len(), |i: int| self.parsers@[i].parser_spec())
    }

    /// Runs the strategy. `BestMatch` tries the accepting parsers, best
    /// first; the first tree wins, a cancellation ends the run, and when all
    /// fail the error lists their failures. `Merge` is reserved.
    pub fn parse(&self, ct: &CancellationToken, content: &ParsedContent) -> (r: Result<TocRoot, ParserError>)
        requires
            content.fits(),
        ensures
            r matches Ok(t) ==> t.wf(),
            self.strategy_spec() is BestMatch ==> best_match_run(self.parser_specs(), content.text(), r),
            self.strategy_spec() is BestMatch ==> (r matches Err(e) ==> e is Cancelled || e is NoMatch),
            self.strategy_spec() is BestMatch && self.parser_count() == 0 ==> (r matches Err(e) && (
            e is Cancelled || (e matches ParserError::NoMatch(s) && s@.len() == 0))),
            self.strategy_spec() is Merge ==> r is Err && (r->Err_0 is Cancelled || is_other_with(
                r->Err_0,
                "CombineStrategy::Merge is reserved and not implemented yet"@,
            )),
    {
        match check_cancelled(ct) {
            Ok(()) => {},
            Err(e) => return Err(e),
        }
        match self.strategy {
            CombineStrategy::BestMatch => self.parse_best_match(ct, content),
            CombineStrategy::Merge => Err(
                ParserError::Other("CombineStrategy::Merge is reserved and not implemented yet".to_owned()),
            ),
        }
    }

    fn parse_best_match(&self, ct: &CancellationToken, content: &ParsedContent) -> (r: Result<
        TocRoot,
        ParserError,
    >)
        requires
            content.fits(),
        ensures
            r matches Ok(t) ==> t.wf(),
            r matches Err(e) ==> e is Cancelled || e is NoMatch,
            best_match_run(self.parser_specs(), content.text(), r),
            self.parser_count() == 0 ==> (r matches Err(e) && (e is Cancelled || (e matches ParserError::NoMatch(
                s,
            ) && s@.len() == 0))),
    {
        let mut conf: Vec<u8> = Vec::new();
        let mut i: usize = 0;
        while i < self.parsers.len()
            invariant
                i <= self.parsers@.len(),
                conf@.len() == i,
                content.fits(),
                forall|j: int|
                    0 <= j < i ==> spec_accepts(#[trigger] self.parsers@[j].parser_spec(), content.text(), conf@[j]),
            decreases self.parsers@.len() - i,
        {
            let c = self.parsers[i].accept(content);
            conf.push(c.0);
            i += 1;
        }
        let order = rank_candidates(&conf);
        let ghost text = content.text();
        let ghost ps = self.parser_specs();
        proof {
            if order@.len() > 0 {
                assert(order@[0] < conf@.len());
            }
        }
        let mut errors: Vec<String> = Vec::new();
        let mut k: usize = 0;
        while k < order.len()
            invariant
                k <= order@.len(),
                conf@.len() == self.parsers@.len(),
                self.parsers@.len() == 0 ==> order@.len() == 0 && errors@.len() == 0,
                is_ranking(conf@, order@),
                content.fits(),
                text == content.text(),
                ps == self.parser_specs(),
                ps.len() == self.parsers@.len(),
                forall|j: int| 0 <= j < ps.len() ==> #[trigger] ps[j] == self.parsers@[j].parser_spec(),
                forall|j: int| 0 <= j < ps.len() ==> spec_accepts(#[trigger] ps[j], text, conf@[j]),
                errors@.len() == k,
                forall|j: int| 0 <= j < k ==> failure_of(ps[order@[j] as int], #[trigger] errors@[j]@),
            decreases order@.len() - k,
        {
            let ghost lines = Seq::new(errors@.len(), |j: int| errors@[j]@);
            match check_cancelled(ct) {
                Ok(()) => {},
                Err(e) => {
                    proof {
                        assert(best_match_trace(ps, text, conf@, order@, lines, Err(e)));
                    }
                    return Err(e);
                },
            }
            let parser = &self.parsers[order[k]];
            let result = parser.parse(ct, content);
            match check_cancelled(ct) {
                Ok(()) => {},
                Err(e) => {
                    proof {
                        assert(best_match_trace(ps, text, conf@, order@, lines, Err(e)));
                    }
                    return Err(e);
                },
            }
            let name = parser.name();
            let ghost res = result;
            match settle_attempt(name, result, &mut errors) {
                Some(done) => {
                    proof {
                        assert(best_match_trace(ps, text, conf@, order@, lines, done));
                    }
                    return done;
                },
                None => {},
            }
            proof {
                let e = res->Err_0;
                assert(!(e is Cancelled));
                assert(parser.parser_spec() == ps[order@[k as int] as int]);
                assert(spec_name(ps[order@[k as int] as int], name@));
                assert(failure_text(name@, e) == errors@[k as int]@);
                let pk = ps[order@[k as int] as int];
                let lk = errors@[k as int]@;
                assert(spec_name(pk, name@) && !(e is Cancelled) && failure_text(name@, e) == lk);
                assert(failure_of(pk, lk));
                assert forall|j: int| 0 <= j < k + 1 implies failure_of(
                    ps[order@[j] as int],
                    #[trigger] errors@[j]@,
                ) by {
                    if j < k {
                        assert(errors@[j] == errors@.drop_last()[j]);
                    }
                }
            }
            k += 1;
        }
        let ghost lines = Seq::new(errors@.len(), |j: int| errors@[j]@);
        match check_cancelled(ct) {
            Ok(()) => {},
            Err(e) => {
                proof {
                    assert(best_match_trace(ps, text, conf@, order@, lines, Err(e)));
                }
                return Err(e);
            },
        }
        let r = Err(ParserError::NoMatch(join_errors(&errors)));
        proof {
            assert(best_match_trace(ps, text, conf@, order@, lines, r));
        }
        r
    }
}

impl TocParser for CombinedParser {
    open spec fn parser_spec(&self) -> TocParserSpec {
        TocParserSpec::Combined
    }

    fn name(&self) -> (r: &'static str)
        ensures
            r@ == "combined"@,
    {
        "combined"
    }

    /// The best confidence of the parsers, 0 without any.
    fn accept(&self, content: &ParsedContent) -> (r: MatchConfidence)
        ensures
            self.parser_count() == 0 ==> r.0 == 0,
    {
        let mut conf: Vec<u8> = Vec::new();
        let mut i: usize = 0;
        while i < self.parsers.len()
            invariant
                i <= self.parsers@.len(),
                conf@.len() == i,
                content.fits(),
            decreases self.parsers@.len() - i,
        {
            let c = self.parsers[i].accept(content);
            conf.push(c.0);
            i += 1;
        }
        MatchConfidence(max_confidence(&conf))
    }

    fn parse(&self, ct: &CancellationToken, content: &ParsedContent) -> (r: Result<TocRoot, ParserError>) {
        CombinedParser::parse(self, ct, content)
    }
}

} // verus!
