//! Line rules: what makes a line of text a heading, and the title it gives.
use vstd::prelude::*;

use super::config::{
    affixes_ok, invalid_with, numeral_bounds_ok, opt_nat, style_allows, HeadingRuleConfig,
    NumeralStyle, SimpleRuleConfig, SimpleView, TocConfigError,
};
use tokio_util::sync::CancellationToken;

use crate::parser::{check_cancelled, ParserError};
use crate::toc::builder::{built_from, pushed_states, push_step, EventView};
use crate::toc::{TocBuilder, TocEvent, TocRoot};
use crate::types::TextRange;
use crate::pattern::{
    captures, compile, group_count, regex_captures, regex_group_count, regex_valid, CompiledRegex,
};
use crate::text::{
    chars_of, drop_trailing_spaces, is_prefix, lemma_utf8_len_add, piece, piece_ends, piece_start,
    skip_spaces, span_ok, spans, starts_with_at, string_of, strip_line, trim, trim_bounds, trim_end,
    trim_start, utf8_len, Span,
};

verus! {

/// The texts of a list of character vectors.
pub open spec fn chars_list(v: Seq<Vec<char>>) -> Seq<Seq<char>> {
    Seq::new(v.len(), |i: int| v[i]@)
}

/// The length of the longest alternative that `text` starts with, if any.
pub open spec fn longest_affix(alts: Seq<Seq<char>>, text: Seq<char>) -> Option<nat>
    decreases alts.len(),
{
    if alts.len() == 0 {
        None
    } else {
        let best = longest_affix(alts.drop_last(), text);
        let a = alts.last();
        if is_prefix(a, text) {
            match best {
                Some(b) => if a.len() >= b {
                    Some(a.len())
                } else {
                    Some(b)
                },
                None => Some(a.len()),
            }
        } else {
            best
        }
    }
}

/// The longest matching alternative: there is none exactly when no
/// alternative starts the text; otherwise it is the length of an
/// alternative that starts the text, and no such alternative is longer.
pub proof fn lemma_longest_affix(alts: Seq<Seq<char>>, text: Seq<char>)
    ensures
        longest_affix(alts, text) is None <==> forall|j: int| 0 <= j < alts.len() ==> !is_prefix(
            #[trigger] alts[j],
            text,
        ),
        longest_affix(alts, text) matches Some(k) ==> (exists|j: int|
            0 <= j < alts.len() && is_prefix(#[trigger] alts[j], text) && alts[j].len() == k) && (forall|
            j: int,
        | 0 <= j < alts.len() && is_prefix(#[trigger] alts[j], text) ==> alts[j].len() <= k),
    decreases alts.len(),
{
    if alts.len() > 0 {
        let pre = alts.drop_last();
        lemma_longest_affix(pre, text);
        assert forall|j: int| 0 <= j < pre.len() implies pre[j] == alts[j] by {}
        if longest_affix(pre, text) is Some {
            let b = longest_affix(pre, text)->0;
            let w = choose|j: int| 0 <= j < pre.len() && is_prefix(#[trigger] pre[j], text) && pre[j].len() == b;
            assert(alts[w] == pre[w]);
        }
        assert(alts.last() == alts[alts.len() - 1]);
    }
}

/// `text` after the longest of the alternatives that it starts with; `None`
/// when it starts with none of them. An empty list strips nothing.
pub open spec fn strip_affix_spec(text: Seq<char>, alts: Seq<Seq<char>>) -> Option<Seq<char>> {
    if alts.len() == 0 {
        Some(text)
    } else {
        match longest_affix(alts, text) {
            Some(k) => Some(text.skip(k as int)),
            None => None,
        }
    }
}

/// The length of the run of numerals (Arabic or Chinese) that `s` starts with.
pub open spec fn numeral_run(s: Seq<char>) -> nat
    decreases s.len(),
{
    if s.len() > 0 && style_allows(NumeralStyle::Mixed, s[0]) {
        1 + numeral_run(s.drop_first())
    } else {
        0
    }
}

/// Whether a run of `n` numerals is longer than the maximum, if any.
pub open spec fn exceeds(max: Option<nat>, n: nat) -> bool {
    match max {
        Some(m) => n > m,
        None => false,
    }
}

/// The run of numerals that `after` starts with has the rule's style and
/// length bounds.
pub open spec fn numerals_ok(c: SimpleView, after: Seq<char>) -> bool {
    let n = numeral_run(after);
    &&& forall|i: int| 0 <= i < n ==> style_allows(c.numeral, #[trigger] after[i])
    &&& !exceeds(c.max_numeral_len, n)
    &&& n >= c.min_numeral_len
}

/// The title that a simple rule finds in a line: the line without its
/// trailing whitespace (and without leading whitespace, where the rule
/// allows it) when it is a prefix, a run of numerals of the rule's style and
/// length bounds, a suffix, and a title of at most `max_title_len` characters.
pub open spec fn simple_title(c: SimpleView, line: Seq<char>) -> Option<Seq<char>> {
    let heading = if c.allow_leading_space {
        trim_start(line)
    } else {
        line
    };
    match strip_affix_spec(heading, c.prefixes) {
        None => None,
        Some(after) => {
            let n = numeral_run(after);
            if !numerals_ok(c, after) {
                None
            } else {
                match strip_affix_spec(after.skip(n as int), c.suffixes) {
                    None => None,
                    Some(rest) => if trim(rest).len() > c.max_title_len {
                        None
                    } else {
                        Some(trim_end(heading))
                    },
                }
            }
        },
    }
}

/// `numeral_run` is the length of the longest all-numeral prefix.
proof fn lemma_numeral_run(s: Seq<char>, k: int)
    requires
        0 <= k <= s.len(),
        forall|i: int| 0 <= i < k ==> style_allows(NumeralStyle::Mixed, #[trigger] s[i]),
        k == s.len() || !style_allows(NumeralStyle::Mixed, s[k]),
    ensures
        numeral_run(s) == k,
    decreases k,
{
    if k > 0 {
        let t = s.drop_first();
        assert forall|i: int| 0 <= i < k - 1 implies style_allows(
            NumeralStyle::Mixed,
            #[trigger] t[i],
        ) by {
            assert(t[i] == s[i + 1]);
        }
        if k < s.len() {
            assert(t[k - 1] == s[k]);
        }
        lemma_numeral_run(t, k - 1);
    }
}

/// A run is at least as long as a prefix of numerals.
proof fn lemma_numeral_run_ge(s: Seq<char>, k: int)
    requires
        0 <= k <= s.len(),
        forall|i: int| 0 <= i < k ==> style_allows(NumeralStyle::Mixed, #[trigger] s[i]),
    ensures
        numeral_run(s) >= k,
    decreases k,
{
    if k > 0 {
        let t = s.drop_first();
        assert forall|i: int| 0 <= i < k - 1 implies style_allows(
            NumeralStyle::Mixed,
            #[trigger] t[i],
        ) by {
            assert(t[i] == s[i + 1]);
        }
        lemma_numeral_run_ge(t, k - 1);
    }
}

/// A run of numerals covers the positions it counts.
proof fn lemma_numeral_run_all(s: Seq<char>)
    ensures
        numeral_run(s) <= s.len(),
        forall|i: int| 0 <= i < numeral_run(s) ==> style_allows(NumeralStyle::Mixed, #[trigger] s[i]),
    decreases s.len(),
{
    if s.len() > 0 && style_allows(NumeralStyle::Mixed, s[0]) {
        let t = s.drop_first();
        lemma_numeral_run_all(t);
        assert forall|i: int| 0 <= i < numeral_run(s) implies style_allows(
            NumeralStyle::Mixed,
            #[trigger] s[i],
        ) by {
            if i > 0 {
                assert(s[i] == t[i - 1]);
            }
        }
    }
}

/// The characters of each string of the list.
pub fn chars_of_all(v: &Vec<String>) -> (r: Vec<Vec<char>>)
    ensures
        chars_list(r@) == super::config::strings_view(v@),
{
    let mut r: Vec<Vec<char>> = Vec::new();
    let mut i: usize = 0;
    while i < v.len()
        invariant
            i <= v@.len(),
            r@.len() == i,
            forall|j: int| 0 <= j < i ==> (#[trigger] r@[j])@ == v@[j]@,
        decreases v@.len() - i,
    {
        r.push(chars_of(v[i].as_str()));
        i += 1;
    }
    proof {
        assert(chars_list(r@) =~= super::config::strings_view(v@));
    }
    r
}

/// The start of `s[a..b]` after the longest alternative it starts with.
fn strip_affix_at(s: &Vec<char>, a: usize, b: usize, alts: &Vec<Vec<char>>) -> (r: Option<usize>)
    requires
        a <= b <= s@.len(),
    ensures
        match r {
            None => strip_affix_spec(s@.subrange(a as int, b as int), chars_list(alts@)) is None,
            Some(k) => a <= k <= b && strip_affix_spec(s@.subrange(a as int, b as int), chars_list(alts@))
                == Some(s@.subrange(k as int, b as int)),
        },
{
    let ghost t = s@.subrange(a as int, b as int);
    let ghost v = chars_list(alts@);
    if alts.len() == 0 {
        return Some(a);
    }
    let mut best: Option<usize> = None;
    let mut j: usize = 0;
    while j < alts.len()
        invariant
            a <= b <= s@.len(),
            j <= alts@.len(),
            t == s@.subrange(a as int, b as int),
            v == chars_list(alts@),
            opt_usize_nat(best) == longest_affix(v.take(j as int), t),
            best matches Some(k) ==> k <= b - a,
        decreases alts@.len() - j,
    {
        proof {
            assert(v.take(j + 1).drop_last() =~= v.take(j as int));
            assert(v.take(j + 1).last() == alts@[j as int]@);
        }
        if starts_with_at(s, a, b, &alts[j]) {
            let len = alts[j].len();
            match best {
                Some(k) => {
                    if len >= k {
                        best = Some(len);
                    }
                },
                None => {
                    best = Some(len);
                },
            }
        }
        j += 1;
    }
    proof {
        assert(v.take(alts@.len() as int) =~= v);
    }
    match best {
        Some(k) => {
            proof {
                assert(t.skip(k as int) =~= s@.subrange(a + k, b as int));
            }
            Some(a + k)
        },
        None => None,
    }
}

/// An optional `usize` as a `nat`.
pub open spec fn opt_usize_nat(o: Option<usize>) -> Option<nat> {
    match o {
        Some(n) => Some(n as nat),
        None => None,
    }
}

/// `text` after the longest of the alternatives that it starts with; `None`
/// when it starts with none of them. An empty list strips nothing.
pub fn strip_affix(text: &str, alternatives: &Vec<String>) -> (r: Option<String>)
    ensures
        crate::toc::opt_str_view(r) == strip_affix_spec(text@, super::config::strings_view(alternatives@)),
{
    let s = chars_of(text);
    let alts = chars_of_all(alternatives);
    proof {
        assert(s@.subrange(0, s@.len() as int) =~= s@);
    }
    match strip_affix_at(&s, 0, s.len(), &alts) {
        Some(k) => Some(string_of(&s, k, s.len())),
        None => None,
    }
}

/// A simple rule with the characters of its affixes.
pub struct SimpleMatcher {
    allow_leading_space: bool,
    prefixes: Vec<Vec<char>>,
    numeral: NumeralStyle,
    suffixes: Vec<Vec<char>>,
    min_numeral_len: usize,
    max_numeral_len: Option<usize>,
    max_title_len: usize,
}

impl View for SimpleMatcher {
    type V = SimpleView;

    closed spec fn view(&self) -> SimpleView {
        SimpleView {
            allow_leading_space: self.allow_leading_space,
            prefixes: chars_list(self.prefixes@),
            numeral: self.numeral,
            suffixes: chars_list(self.suffixes@),
            min_numeral_len: self.min_numeral_len as nat,
            max_numeral_len: opt_usize_nat(self.max_numeral_len),
            max_title_len: self.max_title_len as nat,
        }
    }
}

impl SimpleMatcher {
    /// The matcher of a simple rule.
    pub fn from_config(c: &SimpleRuleConfig) -> (r: Self)
        ensures
            r@ == c@,
    {
        let r = SimpleMatcher {
            allow_leading_space: c.allow_leading_space,
            prefixes: chars_of_all(&c.prefixes),
            numeral: c.numeral,
            suffixes: chars_of_all(&c.suffixes),
            min_numeral_len: c.min_numeral_len,
            max_numeral_len: c.max_numeral_len,
            max_title_len: c.max_title_len,
        };
        proof {
            assert(opt_usize_nat(c.max_numeral_len) == super::config::opt_nat(c.max_numeral_len));
        }
        r
    }
}

/// The title that a simple rule finds in `s[a..b]`, as bounds in `s`.
fn match_simple_at(c: &SimpleMatcher, s: &Vec<char>, a: usize, b: usize) -> (r: Option<(usize, usize)>)
    requires
        a <= b <= s@.len(),
    ensures
        match r {
            None => simple_title(c@, s@.subrange(a as int, b as int)) is None,
            Some((x, y)) => a <= x <= y <= b && simple_title(c@, s@.subrange(a as int, b as int))
                == Some(s@.subrange(x as int, y as int)),
        },
{
    let ghost line = s@.subrange(a as int, b as int);
    let h = if c.allow_leading_space {
        skip_spaces(s, a, b)
    } else {
        a
    };
    let ghost heading = s@.subrange(h as int, b as int);
    proof {
        if c.allow_leading_space {
            assert(trim_start(line) =~= heading);
        } else {
            assert(line =~= heading);
        }
    }
    let after = match strip_affix_at(s, h, b, &c.prefixes) {
        Some(k) => k,
        None => return None,
    };
    let ghost rest0 = s@.subrange(after as int, b as int);
    let mut i = after;
    while i < b
        invariant
            a <= h <= after <= i <= b <= s@.len(),
            rest0 == s@.subrange(after as int, b as int),
            line == s@.subrange(a as int, b as int),
            heading == s@.subrange(h as int, b as int),
            heading == (if c@.allow_leading_space {
                trim_start(line)
            } else {
                line
            }),
            strip_affix_spec(heading, c@.prefixes) == Some(rest0),
            forall|j: int| after <= j < i ==> style_allows(NumeralStyle::Mixed, #[trigger] s@[j]),
            forall|j: int| after <= j < i ==> style_allows(c.numeral, #[trigger] s@[j]),
            !exceeds(opt_usize_nat(c.max_numeral_len), (i - after) as nat),
        ensures
            a <= h <= after <= i <= b <= s@.len(),
            forall|j: int| after <= j < i ==> style_allows(NumeralStyle::Mixed, #[trigger] s@[j]),
            forall|j: int| after <= j < i ==> style_allows(c.numeral, #[trigger] s@[j]),
            !exceeds(opt_usize_nat(c.max_numeral_len), (i - after) as nat),
            i == b || !style_allows(NumeralStyle::Mixed, s@[i as int]),
        decreases b - i,
    {
        let ch = s[i];
        if !NumeralStyle::Mixed.contains(ch) {
            break;
        }
        let over = match c.max_numeral_len {
            Some(max) => i - after + 1 > max,
            None => false,
        };
        let allowed = c.numeral.contains(ch);
        if !allowed || over {
            proof {
                assert forall|j: int| 0 <= j < i + 1 - after implies style_allows(
                    NumeralStyle::Mixed,
                    #[trigger] rest0[j],
                ) by {
                    assert(rest0[j] == s@[after + j]);
                }
                lemma_numeral_run_ge(rest0, i + 1 - after);
                assert(rest0[i - after] == ch);
                assert(c@.max_numeral_len == opt_usize_nat(c.max_numeral_len));
                assert(c@.numeral == c.numeral);
                if !allowed {
                    assert(!style_allows(c@.numeral, rest0[i - after]));
                    assert(exists|j: int|
                        0 <= j < numeral_run(rest0) && !style_allows(c@.numeral, #[trigger] rest0[j]));
                } else {
                    assert(exceeds(c@.max_numeral_len, numeral_run(rest0)));
                }
                assert(c@.allow_leading_space == c.allow_leading_space);
                assert((if c@.allow_leading_space { trim_start(line) } else { line }) == heading);
                assert(strip_affix_spec(heading, c@.prefixes) == Some(rest0));
                assert(!numerals_ok(c@, rest0));
            }
            return None;
        }
        i += 1;
    }
    let n = i - after;
    proof {
        assert forall|j: int| 0 <= j < n implies style_allows(NumeralStyle::Mixed, #[trigger] rest0[j]) by {
            assert(rest0[j] == s@[after + j]);
        }
        if i < b {
            assert(rest0[n as int] == s@[i as int]);
        }
        lemma_numeral_run(rest0, n as int);
        assert forall|j: int| 0 <= j < n implies style_allows(c@.numeral, #[trigger] rest0[j]) by {
            assert(rest0[j] == s@[after + j]);
        }
        assert(c@.max_numeral_len == opt_usize_nat(c.max_numeral_len));
        assert(rest0.skip(n as int) =~= s@.subrange(i as int, b as int));
    }
    if n < c.min_numeral_len {
        return None;
    }
    let rest = match strip_affix_at(s, i, b, &c.suffixes) {
        Some(k) => k,
        None => return None,
    };
    let (t0, t1) = trim_bounds(s, rest, b);
    if t1 - t0 > c.max_title_len {
        return None;
    }
    let e = drop_trailing_spaces(s, h, b);
    proof {
        assert(trim_end(heading) =~= s@.subrange(h as int, e as int));
    }
    Some((h, e))
}

/// The title that a simple rule finds in a line (see `simple_title`).
pub fn match_simple(config: &SimpleRuleConfig, line: &str) -> (r: Option<String>)
    ensures
        crate::toc::opt_str_view(r) == simple_title(config@, line@),
{
    let s = chars_of(line);
    let m = SimpleMatcher::from_config(config);
    proof {
        assert(s@.subrange(0, s@.len() as int) =~= s@);
    }
    match match_simple_at(&m, &s, 0, s.len()) {
        Some((x, y)) => Some(string_of(&s, x, y)),
        None => None,
    }
}

} // verus!

verus! {

/// How a rule recognises a heading, as a value.
pub enum MatcherView {
    Simple(SimpleView),
    Regex { pattern: Seq<char>, title_group: Option<nat> },
}

/// A line rule as a value: the level of its headings and its matcher.
pub struct RuleView {
    pub level: nat,
    pub matcher: MatcherView,
}

/// The text a regex rule takes its title from: the line, or the selected group.
pub open spec fn group_text(groups: Seq<Option<Seq<char>>>, group: Option<nat>, line: Seq<char>) -> Option<Seq<char>> {
    match group {
        None => Some(line),
        Some(g) => if g < groups.len() {
            groups[g as int]
        } else {
            None
        },
    }
}

/// The title that a regex rule finds in a line: when the regex matches,
/// the line (or the selected group) trimmed, if that is not empty.
pub open spec fn regex_title(pattern: Seq<char>, group: Option<nat>, line: Seq<char>) -> Option<Seq<char>> {
    match regex_captures(pattern, line) {
        None => None,
        Some(groups) => match group_text(groups, group, line) {
            Some(t) => if trim(t).len() == 0 {
                None
            } else {
                Some(trim(t))
            },
            None => None,
        },
    }
}

/// The title that a rule finds in a line, if the line is a heading of it.
pub open spec fn rule_title(r: RuleView, line: Seq<char>) -> Option<Seq<char>> {
    match r.matcher {
        MatcherView::Simple(c) => simple_title(c, line),
        MatcherView::Regex { pattern, title_group } => regex_title(pattern, title_group, line),
    }
}

/// The matcher a heading configuration describes.
pub open spec fn heading_view(h: HeadingRuleConfig) -> MatcherView {
    match h {
        HeadingRuleConfig::Simple(c) => MatcherView::Simple(c@),
        HeadingRuleConfig::Regex(p) => MatcherView::Regex {
            pattern: p.pattern@,
            title_group: opt_nat(p.title_group),
        },
    }
}

/// A heading configuration is usable: a simple rule passes `validate`, a
/// pattern compiles and its title group exists.
pub open spec fn heading_ok(h: HeadingRuleConfig) -> bool {
    match h {
        HeadingRuleConfig::Simple(c) => numeral_bounds_ok(c@) && affixes_ok(c@),
        HeadingRuleConfig::Regex(p) => regex_valid(p.pattern@) && match p.title_group {
            Some(g) => g < regex_group_count(p.pattern@),
            None => true,
        },
    }
}

/// A matcher is usable: a simple rule has consistent bounds and affixes, a
/// pattern compiles and its title group exists.
pub open spec fn matcher_ok(m: MatcherView) -> bool {
    match m {
        MatcherView::Simple(c) => numeral_bounds_ok(c) && affixes_ok(c),
        MatcherView::Regex { pattern, title_group } => regex_valid(pattern) && match title_group {
            Some(g) => g < regex_group_count(pattern),
            None => true,
        },
    }
}

/// A configuration is usable when its matcher is.
pub proof fn lemma_heading_ok(h: HeadingRuleConfig)
    ensures
        heading_ok(h) == matcher_ok(heading_view(h)),
{
}

enum Matcher {
    Simple(SimpleMatcher),
    Regex { pattern: CompiledRegex, title_group: Option<usize> },
}

/// A compiled heading rule of one level.
pub struct LineRule {
    level: usize,
    matcher: Matcher,
}

impl View for LineRule {
    type V = RuleView;

    closed spec fn view(&self) -> RuleView {
        RuleView {
            level: self.level as nat,
            matcher: match self.matcher {
                Matcher::Simple(m) => MatcherView::Simple(m@),
                Matcher::Regex { pattern, title_group } => MatcherView::Regex {
                    pattern: pattern@,
                    title_group: opt_nat(title_group),
                },
            },
        }
    }
}

impl LineRule {
    /// The level is positive, a simple rule keeps the characters of its
    /// affixes, and a regex rule's title group exists.
    #[verifier::type_invariant]
    closed spec fn inv(self) -> bool {
        &&& self.level > 0
        &&& match self.matcher {
            Matcher::Simple(_) => true,
            Matcher::Regex { pattern, title_group } => match title_group {
                Some(g) => g < regex_group_count(pattern@),
                None => true,
            },
        }
    }

    /// Compiles a rule of the given level: level 0, an invalid simple rule, a
    /// pattern that does not compile or a missing title group are refused.
    pub fn new(level: usize, config: &HeadingRuleConfig) -> (r: Result<Self, TocConfigError>)
        ensures
            r is Ok <==> level > 0 && heading_ok(*config),
            r matches Ok(rule) ==> rule@ == (RuleView { level: level as nat, matcher: heading_view(*config) }),
            level == 0 ==> invalid_with(r, "TOC levels must be positive"@),
            level > 0 ==> match *config {
                HeadingRuleConfig::Simple(c) => {
                    &&& !numeral_bounds_ok(c@) ==> invalid_with(r, "invalid numeral length bounds"@)
                    &&& numeral_bounds_ok(c@) && !affixes_ok(c@) ==> invalid_with(
                        r,
                        "affixes must be nonempty single-line literals; use an empty list for no affix"@,
                    )
                },
                HeadingRuleConfig::Regex(p) => {
                    &&& !regex_valid(p.pattern@) ==> (r matches Err(TocConfigError::Regex(_)))
                    &&& regex_valid(p.pattern@) && !heading_ok(*config) ==> invalid_with(
                        r,
                        "title capture group does not exist"@,
                    )
                },
            },
    {
        if level == 0 {
            return Err(TocConfigError::Invalid("TOC levels must be positive".to_owned()));
        }
        let matcher = match config {
            HeadingRuleConfig::Simple(c) => {
                match c.validate() {
                    Ok(()) => {},
                    Err(e) => return Err(e),
                }
                Matcher::Simple(SimpleMatcher::from_config(c))
            },
            HeadingRuleConfig::Regex(p) => {
                let pattern = match compile(p.pattern.as_str()) {
                    Ok(re) => re,
                    Err(e) => return Err(TocConfigError::Regex(e)),
                };
                let missing = match p.title_group {
                    Some(group) => group >= group_count(&pattern),
                    None => false,
                };
                if missing {
                    return Err(TocConfigError::Invalid("title capture group does not exist".to_owned()));
                }
                Matcher::Regex { pattern, title_group: p.title_group }
            },
        };
        Ok(LineRule { level, matcher })
    }

    /// The level of the rule's headings.
    pub fn level(&self) -> (r: usize)
        ensures
            r == self@.level,
            r > 0,
    {
        proof {
            use_type_invariant(self);
        }
        self.level
    }

    /// The title the rule finds in `s[a..b]`, if that is a heading.
    pub fn match_at(&self, s: &Vec<char>, a: usize, b: usize) -> (r: Option<String>)
        requires
            a <= b <= s@.len(),
        ensures
            crate::toc::opt_str_view(r) == rule_title(self@, s@.subrange(a as int, b as int)),
    {
        proof {
            use_type_invariant(self);
        }
        match &self.matcher {
            Matcher::Simple(m) => {
                match match_simple_at(m, s, a, b) {
                    Some((x, y)) => Some(string_of(s, x, y)),
                    None => None,
                }
            },
            Matcher::Regex { pattern, title_group } => {
                let line = string_of(s, a, b);
                let groups = match captures(pattern, line.as_str()) {
                    Some(g) => g,
                    None => return None,
                };
                let (t, x, y) = match title_group {
                    None => {
                        let (x, y) = trim_bounds(s, a, b);
                        (string_of(s, x, y), x, y)
                    },
                    Some(g) => {
                        let text = match &groups[*g] {
                            Some(text) => text,
                            None => return None,
                        };
                        let chars = chars_of(text.as_str());
                        proof {
                            assert(chars@.subrange(0, chars@.len() as int) =~= chars@);
                        }
                        let (x, y) = trim_bounds(&chars, 0, chars.len());
                        (string_of(&chars, x, y), x, y)
                    },
                };
                if x == y {
                    None
                } else {
                    Some(t)
                }
            },
        }
    }

    /// The title the rule finds in the line, if the line is a heading.
    pub fn match_title(&self, line: &str) -> (r: Option<String>)
        ensures
            crate::toc::opt_str_view(r) == rule_title(self@, line@),
    {
        let s = chars_of(line);
        proof {
            assert(s@.subrange(0, s@.len() as int) =~= s@);
        }
        self.match_at(&s, 0, s.len())
    }
}

} // verus!

verus! {

/// The views of a list of rules.
pub open spec fn rules_view(rules: Seq<LineRule>) -> Seq<RuleView> {
    Seq::new(rules.len(), |i: int| rules[i]@)
}

/// The level and title of the first rule that takes the line as a heading.
pub open spec fn first_title(rules: Seq<RuleView>, line: Seq<char>) -> Option<(nat, Seq<char>)>
    decreases rules.len(),
{
    if rules.len() == 0 {
        None
    } else {
        match rule_title(rules[0], line) {
            Some(t) => Some((rules[0].level, t)),
            None => first_title(rules.drop_first(), line),
        }
    }
}

/// The byte offset where piece `k` of `s` starts.
pub open spec fn line_start(s: Seq<char>, k: int) -> nat {
    utf8_len(s.take(piece_start(s, k)))
}

/// The line `text_lines` reads from piece `k` of `s`.
pub open spec fn text_line(s: Seq<char>, k: int) -> Seq<char> {
    strip_line(piece(s, k))
}

/// The byte range of line `k` of `s`, without its line end.
pub open spec fn line_range(s: Seq<char>, k: int) -> TextRange {
    TextRange {
        start: line_start(s, k) as u64,
        end: (line_start(s, k) + utf8_len(text_line(s, k))) as u64,
    }
}

/// The event of line `k` of `s`: the first rule that takes it as a heading
/// gives the level and title; the range is the line's.
pub open spec fn line_event(rules: Seq<RuleView>, s: Seq<char>, k: int) -> Option<EventView> {
    match first_title(rules, text_line(s, k)) {
        Some((level, title)) => Some(EventView { level, title, range: Some(line_range(s, k)) }),
        None => None,
    }
}

/// The events of the first `n` lines of `s`, in order.
pub open spec fn events_upto(rules: Seq<RuleView>, s: Seq<char>, n: int) -> Seq<EventView>
    decreases n,
{
    if n <= 0 {
        Seq::empty()
    } else {
        let e = events_upto(rules, s, n - 1);
        match line_event(rules, s, n - 1) {
            Some(v) => e.push(v),
            None => e,
        }
    }
}

/// The events of all lines of `s`: one per heading line, in order.
pub open spec fn scan_spec(rules: Seq<RuleView>, s: Seq<char>) -> Seq<EventView> {
    events_upto(rules, s, piece_ends(s).len() as int)
}

/// The views of a list of events.
pub open spec fn events_view(events: Seq<TocEvent>) -> Seq<EventView> {
    Seq::new(events.len(), |i: int| events[i]@)
}

/// The level and title of the first rule that takes `s[a..b]` as a heading.
pub fn first_match(rules: &[LineRule], s: &Vec<char>, a: usize, b: usize) -> (r: Option<(usize, String)>)
    requires
        a <= b <= s@.len(),
    ensures
        match r {
            None => first_title(rules_view(rules@), s@.subrange(a as int, b as int)) is None,
            Some((lv, t)) => first_title(rules_view(rules@), s@.subrange(a as int, b as int)) == Some(
                (lv as nat, t@),
            ),
        },
{
    let ghost line = s@.subrange(a as int, b as int);
    let ghost rv = rules_view(rules@);
    let mut j: usize = 0;
    proof {
        assert(rv.skip(0) =~= rv);
    }
    while j < rules.len()
        invariant
            a <= b <= s@.len(),
            j <= rules@.len(),
            line == s@.subrange(a as int, b as int),
            rv == rules_view(rules@),
            first_title(rv, line) == first_title(rv.skip(j as int), line),
        decreases rules@.len() - j,
    {
        proof {
            assert(rv.skip(j as int).drop_first() =~= rv.skip(j + 1));
            assert(rv.skip(j as int)[0] == rules@[j as int]@);
        }
        match rules[j].match_at(s, a, b) {
            Some(t) => {
                let lv = rules[j].level();
                return Some((lv, t));
            },
            None => {},
        }
        j += 1;
    }
    proof {
        assert(rv.skip(j as int).len() == 0);
    }
    None
}

/// A text's pieces and byte offsets fit the `u64` positions of ranges.
pub open spec fn fits(s: Seq<char>) -> bool {
    utf8_len(s) <= u64::MAX
}

/// The byte range of a span's line.
pub proof fn lemma_span_range(s: Seq<char>, k: int, sp: Span)
    requires
        span_ok(s, k, sp),
    ensures
        sp.byte_start == line_start(s, k),
        sp.byte_end == line_start(s, k) + utf8_len(text_line(s, k)),
        sp.byte_start <= sp.byte_end,
{
    assert(s.take(sp.end as int) =~= s.take(sp.start as int) + s.subrange(sp.start as int, sp.end as int));
    lemma_utf8_len_add(s.take(sp.start as int), s.subrange(sp.start as int, sp.end as int));
}

/// The events of the lines of `s`, with their spans.
pub fn scan_chars(
    s: &Vec<char>,
    spans: &Vec<Span>,
    rules: &[LineRule],
    ct: &CancellationToken,
) -> (r: Result<Vec<TocEvent>, ParserError>)
    requires
        spans@.len() == piece_ends(s@).len(),
        forall|k: int| 0 <= k < spans@.len() ==> span_ok(s@, k, #[trigger] spans@[k]),
    ensures
        r matches Ok(events) ==> events_view(events@) == scan_spec(rules_view(rules@), s@),
        r matches Err(e) ==> e is Cancelled,
{
    let ghost rv = rules_view(rules@);
    let mut events: Vec<TocEvent> = Vec::new();
    let mut k: usize = 0;
    while k < spans.len()
        invariant
            k <= spans@.len(),
            spans@.len() == piece_ends(s@).len(),
            forall|j: int| 0 <= j < spans@.len() ==> span_ok(s@, j, #[trigger] spans@[j]),
            rv == rules_view(rules@),
            events_view(events@) == events_upto(rv, s@, k as int),
        decreases spans@.len() - k,
    {
        match check_cancelled(ct) {
            Ok(()) => {},
            Err(e) => return Err(e),
        }
        let sp = spans[k];
        proof {
            assert(span_ok(s@, k as int, sp));
            lemma_span_range(s@, k as int, sp);
        }
        let ghost before = events@;
        match first_match(rules, s, sp.start, sp.end) {
            Some((level, title)) => {
                events.push(TocEvent { level, title, range: Some(TextRange { start: sp.byte_start, end: sp.byte_end }) });
                proof {
                    assert(events_view(events@) =~= events_view(before).push(events@.last()@));
                }
            },
            None => {},
        }
        k += 1;
    }
    Ok(events)
}

/// The lines of `text`, each with the byte offset where it starts, without
/// its newline and a carriage return before it.
pub fn text_lines(text: &str) -> (r: Vec<(u64, String)>)
    requires
        fits(text@),
    ensures
        r@.len() == piece_ends(text@).len(),
        forall|k: int|
            0 <= k < r@.len() ==> (#[trigger] r@[k]).0 == line_start(text@, k) && r@[k].1@ == text_line(
                text@,
                k,
            ),
{
    let s = chars_of(text);
    let sp = spans(&s);
    let mut out: Vec<(u64, String)> = Vec::new();
    let mut k: usize = 0;
    while k < sp.len()
        invariant
            s@ == text@,
            k <= sp@.len(),
            sp@.len() == piece_ends(s@).len(),
            forall|j: int| 0 <= j < sp@.len() ==> span_ok(s@, j, #[trigger] sp@[j]),
            out@.len() == k,
            forall|j: int|
                0 <= j < k ==> (#[trigger] out@[j]).0 == line_start(text@, j) && out@[j].1@ == text_line(
                    text@,
                    j,
                ),
        decreases sp@.len() - k,
    {
        let x = sp[k];
        proof {
            assert(span_ok(s@, k as int, x));
            lemma_span_range(s@, k as int, x);
        }
        out.push((x.byte_start, string_of(&s, x.start, x.end)));
        k += 1;
    }
    out
}

/// The events of the heading lines of `text`, in order: for each line, the
/// first rule that takes it as a heading gives the level and title, and the
/// range is the line's bytes. Cancellation is checked before every line.
pub fn scan_lines(text: &str, rules: &[LineRule], ct: &CancellationToken) -> (r: Result<
    Vec<TocEvent>,
    ParserError,
>)
    requires
        fits(text@),
    ensures
        r matches Ok(events) ==> events_view(events@) == scan_spec(rules_view(rules@), text@),
        r matches Err(e) ==> e is Cancelled,
{
    match check_cancelled(ct) {
        Ok(()) => {},
        Err(e) => return Err(e),
    }
    let s = chars_of(text);
    let sp = spans(&s);
    let events = match scan_chars(&s, &sp, rules, ct) {
        Ok(events) => events,
        Err(e) => return Err(e),
    };
    match check_cancelled(ct) {
        Ok(()) => {},
        Err(e) => return Err(e),
    }
    Ok(events)
}

/// The tree that a new `TocBuilder` makes of the events (see `built_from`).
/// Cancellation is checked before every event.
pub fn build_toc(events: Vec<TocEvent>, ct: &CancellationToken) -> (r: Result<TocRoot, ParserError>)
    ensures
        r matches Ok(t) ==> t.wf() && built_from(events_view(events@), t@),
        r matches Err(e) ==> e is Cancelled,
{
    match check_cancelled(ct) {
        Ok(()) => {},
        Err(e) => return Err(e),
    }
    let ghost ev = events_view(events@);
    let mut builder = TocBuilder::new();
    let mut i: usize = 0;
    let ghost mut trees = seq![builder.root_spec()];
    let ghost mut paths = seq![builder.path()];
    proof {
        builder.lemma_wf();
    }
    while i < events.len()
        invariant
            i <= events@.len(),
            ev == events_view(events@),
            builder.wf(),
            builder.options_spec().backfill_container_range,
            pushed_states(ev.take(i as int), trees, paths),
            trees.last() == builder.root_spec(),
            paths.last() == builder.path(),
        decreases events@.len() - i,
    {
        match check_cancelled(ct) {
            Ok(()) => {},
            Err(e) => return Err(e),
        }
        let event = events[i].clone();
        let ghost e = event@;
        proof {
            assert(e == ev[i as int]);
        }
        match builder.push(event) {
            Ok(_) => {},
            Err(_) => {
                return Err(ParserError::Other("the TOC builder refused an event".to_owned()));
            },
        }
        proof {
            let ghost t2 = trees.push(builder.root_spec());
            let ghost p2 = paths.push(builder.path());
            assert forall|j: int| 0 <= j < i + 1 implies push_step(
                t2[j],
                p2[j],
                #[trigger] ev.take(i + 1)[j],
                t2[j + 1],
                p2[j + 1],
            ) by {
                if j < i {
                    assert(ev.take(i + 1)[j] == ev.take(i as int)[j]);
                }
            }
            trees = t2;
            paths = p2;
        }
        i += 1;
    }
    proof {
        builder.lemma_wf();
        assert(ev.take(events@.len() as int) =~= ev);
    }
    let root = builder.build();
    match check_cancelled(ct) {
        Ok(()) => {},
        Err(e) => return Err(e),
    }
    Ok(root)
}

} // verus!
