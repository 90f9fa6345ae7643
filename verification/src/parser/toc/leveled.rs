//! A TOC parser driven by per-level line rules.
use vstd::prelude::*;

use tokio_util::sync::CancellationToken;

use super::config::{
    invalid_with, is_level_order, level_rules_ok, levels_ok, ordered_rules, TocConfigError,
    TocRulesConfig,
};
use super::rule::{
    build_toc, first_match, fits, first_title, rules_view, scan_chars, scan_spec, LineRule, RuleView,
};
use crate::extractor::ParsedContent;
use crate::parser::{check_cancelled, MatchConfidence, ParserError, TocParser, TocParserSpec};
use crate::text::{chars_of, piece, piece_ends, span_ok, spans, std_line, Span};
use crate::toc::builder::built_from;
use crate::toc::TocRoot;

verus! {

/// The line `str::lines` reads from piece `k` of `s`.
pub open spec fn std_text_line(s: Seq<char>, k: int) -> Seq<char> {
    std_line(piece(s, k))
}

/// The number of the first `n` lines that some rule takes as a heading.
pub open spec fn hits_upto(rules: Seq<RuleView>, s: Seq<char>, n: int) -> nat
    decreases n,
{
    if n <= 0 {
        0
    } else {
        hits_upto(rules, s, n - 1) + if first_title(rules, std_text_line(s, n - 1)) is Some {
            1nat
        } else {
            0nat
        }
    }
}

/// The number of lines that confidence looks at: the first 2000.
pub open spec fn head_lines(s: Seq<char>) -> int {
    let n = piece_ends(s).len() as int;
    if n < 2000 {
        n
    } else {
        2000
    }
}

/// No heading gives 0; otherwise the number of heading lines, between 2 and
/// 100, so that any detected heading outranks the length-split fallback (1).
pub open spec fn clamp_hits(hits: nat) -> u8 {
    if hits == 0 {
        0
    } else if hits < 2 {
        2
    } else if hits > 100 {
        100
    } else {
        hits as u8
    }
}

/// The confidence of a rule set on a text: how many of its first 2000 lines
/// are headings, clamped.
pub open spec fn confidence_spec(rules: Seq<RuleView>, s: Seq<char>) -> u8 {
    clamp_hits(hits_upto(rules, s, head_lines(s)))
}

/// The confidence of the rules on the text (see `confidence_spec`).
pub fn rule_confidence(text: &str, rules: &[LineRule]) -> (r: MatchConfidence)
    requires
        fits(text@),
    ensures
        r.0 == confidence_spec(rules_view(rules@), text@),
{
    let s = chars_of(text);
    let sp = spans(&s);
    MatchConfidence(confidence_chars(&s, &sp, rules))
}

/// The confidence of the rules on the text whose pieces are `sp`.
pub fn confidence_chars(s: &Vec<char>, sp: &Vec<Span>, rules: &[LineRule]) -> (r: u8)
    requires
        sp@.len() == piece_ends(s@).len(),
        forall|k: int| 0 <= k < sp@.len() ==> span_ok(s@, k, #[trigger] sp@[k]),
    ensures
        r == confidence_spec(rules_view(rules@), s@),
{
    let n = if sp.len() < 2000 {
        sp.len()
    } else {
        2000
    };
    let mut hits: usize = 0;
    let mut k: usize = 0;
    while k < n
        invariant
            n <= sp@.len(),
            n == head_lines(s@),
            sp@.len() == piece_ends(s@).len(),
            forall|j: int| 0 <= j < sp@.len() ==> span_ok(s@, j, #[trigger] sp@[j]),
            k <= n,
            hits == hits_upto(rules_view(rules@), s@, k as int),
            hits <= k,
        decreases n - k,
    {
        let x = sp[k];
        proof {
            assert(span_ok(s@, k as int, x));
        }
        match first_match(rules, s, x.start, x.std_end) {
            Some(_) => {
                hits += 1;
            },
            None => {},
        }
        k += 1;
    }
    if hits == 0 {
        0
    } else if hits < 2 {
        2
    } else if hits > 100 {
        100
    } else {
        hits as u8
    }
}

/// A TOC parser from per-level rules.
pub struct RuleSetTocParser {
    name: &'static str,
    rules: Vec<LineRule>,
}

impl RuleSetTocParser {
    /// The parser's name.
    pub closed spec fn name_spec(&self) -> &'static str {
        self.name
    }

    /// The parser's rules, in matching order.
    pub closed spec fn rules(&self) -> Seq<RuleView> {
        rules_view(self.rules@)
    }

    /// A parser with the compiled rules of the configuration.
    pub fn from_config(name: &'static str, config: &TocRulesConfig) -> (r: Result<Self, TocConfigError>)
        ensures
            r is Ok <==> levels_ok(config.levels@) && level_rules_ok(config.levels@),
            !levels_ok(config.levels@) ==> invalid_with(r, "TOC levels must be positive and unique"@),
            r matches Ok(p) ==> p.name_spec() == name,
            r matches Ok(p) ==> exists|order: Seq<int>|
                is_level_order(config.levels@, order) && #[trigger] ordered_rules(config.levels@, order)
                    == p.rules(),
    {
        match config.compile() {
            Ok(rules) => Ok(RuleSetTocParser { name, rules }),
            Err(e) => Err(e),
        }
    }
}

impl TocParser for RuleSetTocParser {
    open spec fn parser_spec(&self) -> TocParserSpec {
        TocParserSpec::LevelRules { name: self.name_spec()@, rules: self.rules() }
    }

    fn name(&self) -> (r: &'static str)
        ensures
            r == self.name_spec(),
    {
        self.name
    }

    fn accept(&self, content: &ParsedContent) -> (r: MatchConfidence)
        ensures
            r.0 == confidence_spec(self.rules(), content.text()),
    {
        rule_confidence(content.text_str(), self.rules.as_slice())
    }

    fn parse(&self, ct: &CancellationToken, content: &ParsedContent) -> (r: Result<TocRoot, ParserError>)
        ensures
            r matches Ok(t) ==> built_from(scan_spec(self.rules(), content.text()), t@),
            r matches Err(e) ==> e is Cancelled,
    {
        let events = match super::rule::scan_lines(content.text_str(), self.rules.as_slice(), ct) {
            Ok(events) => events,
            Err(e) => return Err(e),
        };
        build_toc(events, ct)
    }
}

} // verus!
