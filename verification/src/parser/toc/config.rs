//! The configuration of TOC line rules, and its validation.
use vstd::prelude::*;

use super::rule::{heading_ok, heading_view, rules_view, LineRule, RuleView};
use crate::parser::{TocParser, TocParserSpec};

verus! {

/// Why a TOC configuration was refused.
#[derive(Debug)]
pub enum TocConfigError {
    /// The configuration is invalid; the reason.
    Invalid(String),
    /// A pattern does not compile.
    Regex(regex::Error),
}

/// `r` is the error `Invalid` with the message `m`.
pub open spec fn invalid_with<T>(r: Result<T, TocConfigError>, m: Seq<char>) -> bool {
    r matches Err(TocConfigError::Invalid(s)) && s@ == m
}

/// Which numerals a heading number may use.
#[derive(Debug, Clone, Copy, PartialEq, Eq, Structural)]
pub enum NumeralStyle {
    Arabic,
    Chinese,
    Mixed,
}

/// An ASCII digit.
pub open spec fn is_arabic(c: char) -> bool {
    '0' <= c && c <= '9'
}

/// A character of `零〇一二三四五六七八九十百千两`.
pub open spec fn is_chinese_numeral(c: char) -> bool {
    ||| c == '零'
    ||| c == '〇'
    ||| c == '一'
    ||| c == '二'
    ||| c == '三'
    ||| c == '四'
    ||| c == '五'
    ||| c == '六'
    ||| c == '七'
    ||| c == '八'
    ||| c == '九'
    ||| c == '十'
    ||| c == '百'
    ||| c == '千'
    ||| c == '两'
}

/// Whether the style allows `c` as a numeral.
pub open spec fn style_allows(style: NumeralStyle, c: char) -> bool {
    match style {
        NumeralStyle::Arabic => is_arabic(c),
        NumeralStyle::Chinese => is_chinese_numeral(c),
        NumeralStyle::Mixed => is_arabic(c) || is_chinese_numeral(c),
    }
}

/// The numerals the styles allow: the Chinese style takes exactly the
/// fifteen characters 零〇一二三四五六七八九十百千两 (so hundreds and
/// thousands are numbers too), the Arabic style exactly the ASCII digits,
/// and the mixed style both.
pub proof fn lemma_numeral_styles(c: char)
    ensures
        style_allows(NumeralStyle::Chinese, c) <==> seq![
            '零', '〇', '一', '二', '三', '四', '五', '六', '七', '八', '九', '十', '百', '千', '两',
        ].contains(c),
        style_allows(NumeralStyle::Arabic, c) <==> ('0' as u32 <= c as u32 && c as u32 <= '9' as u32),
        style_allows(NumeralStyle::Mixed, c) <==> style_allows(NumeralStyle::Arabic, c) || style_allows(
            NumeralStyle::Chinese,
            c,
        ),
{
    let l = seq!['零', '〇', '一', '二', '三', '四', '五', '六', '七', '八', '九', '十', '百', '千', '两'];
    if l.contains(c) {
        let i = choose|i: int| 0 <= i < l.len() && l[i] == c;
        assert(0 <= i < 15);
    }
    if style_allows(NumeralStyle::Chinese, c) {
        if c == '零' { assert(l[0] == c); }
        else if c == '〇' { assert(l[1] == c); }
        else if c == '一' { assert(l[2] == c); }
        else if c == '二' { assert(l[3] == c); }
        else if c == '三' { assert(l[4] == c); }
        else if c == '四' { assert(l[5] == c); }
        else if c == '五' { assert(l[6] == c); }
        else if c == '六' { assert(l[7] == c); }
        else if c == '七' { assert(l[8] == c); }
        else if c == '八' { assert(l[9] == c); }
        else if c == '九' { assert(l[10] == c); }
        else if c == '十' { assert(l[11] == c); }
        else if c == '百' { assert(l[12] == c); }
        else if c == '千' { assert(l[13] == c); }
        else { assert(l[14] == c); }
    }
}

impl NumeralStyle {
    /// Whether the style allows `c` as a numeral.
    pub fn contains(self, c: char) -> (r: bool)
        ensures
            r == style_allows(self, c),
    {
        let arabic = '0' <= c && c <= '9';
        let chinese = c == '零' || c == '〇' || c == '一' || c == '二' || c == '三' || c == '四' || c
            == '五' || c == '六' || c == '七' || c == '八' || c == '九' || c == '十' || c == '百'
            || c == '千' || c == '两';
        match self {
            NumeralStyle::Arabic => arabic,
            NumeralStyle::Chinese => chinese,
            NumeralStyle::Mixed => arabic || chinese,
        }
    }
}

/// A heading made of an optional prefix, a run of numerals, an optional
/// suffix and a short title, such as `第十二章 风起`.
#[derive(Debug, Clone, PartialEq, Eq)]
pub struct SimpleRuleConfig {
    pub allow_leading_space: bool,
    /// Literal alternatives support both EasyPub's single characters and
    /// VBook's multi-character affixes, without interpreting either as regex.
    pub prefixes: Vec<String>,
    pub numeral: NumeralStyle,
    pub suffixes: Vec<String>,
    pub min_numeral_len: usize,
    pub max_numeral_len: Option<usize>,
    /// Counts Unicode scalar values in the trimmed text after the suffix.
    pub max_title_len: usize,
}

/// A simple rule as a value.
pub struct SimpleView {
    pub allow_leading_space: bool,
    pub prefixes: Seq<Seq<char>>,
    pub numeral: NumeralStyle,
    pub suffixes: Seq<Seq<char>>,
    pub min_numeral_len: nat,
    pub max_numeral_len: Option<nat>,
    pub max_title_len: nat,
}

/// The texts of a list of strings.
pub open spec fn strings_view(v: Seq<String>) -> Seq<Seq<char>> {
    Seq::new(v.len(), |i: int| v[i]@)
}

/// An optional `usize` as a `nat`.
pub open spec fn opt_nat(o: Option<usize>) -> Option<nat> {
    match o {
        Some(n) => Some(n as nat),
        None => None,
    }
}

impl View for SimpleRuleConfig {
    type V = SimpleView;

    open spec fn view(&self) -> SimpleView {
        SimpleView {
            allow_leading_space: self.allow_leading_space,
            prefixes: strings_view(self.prefixes@),
            numeral: self.numeral,
            suffixes: strings_view(self.suffixes@),
            min_numeral_len: self.min_numeral_len as nat,
            max_numeral_len: opt_nat(self.max_numeral_len),
            max_title_len: self.max_title_len as nat,
        }
    }
}

/// The numeral length bounds are consistent: at least one numeral, and a
/// maximum, if any, not below the minimum.
pub open spec fn numeral_bounds_ok(c: SimpleView) -> bool {
    c.min_numeral_len != 0 && !(c.max_numeral_len matches Some(m) && m < c.min_numeral_len)
}

/// An affix is a nonempty literal on one line.
pub open spec fn affix_ok(a: Seq<char>) -> bool {
    a.len() > 0 && !a.contains('\r') && !a.contains('\n')
}

/// Every affix of the rule is a nonempty literal on one line.
pub open spec fn affixes_ok(c: SimpleView) -> bool {
    &&& forall|i: int| 0 <= i < c.prefixes.len() ==> affix_ok(#[trigger] c.prefixes[i])
    &&& forall|i: int| 0 <= i < c.suffixes.len() ==> affix_ok(#[trigger] c.suffixes[i])
}

/// Whether `s` is a nonempty literal on one line.
fn affix_is_ok(s: &String) -> (r: bool)
    ensures
        r == affix_ok(s@),
{
    let chars = crate::text::chars_of(s.as_str());
    if chars.len() == 0 {
        return false;
    }
    let mut i: usize = 0;
    while i < chars.len()
        invariant
            i <= chars@.len(),
            chars@ == s@,
            forall|j: int| 0 <= j < i ==> chars@[j] != '\r' && chars@[j] != '\n',
        decreases chars@.len() - i,
    {
        if chars[i] == '\r' || chars[i] == '\n' {
            proof {
                assert(chars@.contains(chars@[i as int]));
            }
            return false;
        }
        i += 1;
    }
    true
}

/// Whether every string of the list is a nonempty literal on one line.
fn affixes_are_ok(v: &Vec<String>) -> (r: bool)
    ensures
        r == forall|i: int| 0 <= i < v@.len() ==> affix_ok(#[trigger] strings_view(v@)[i]),
{
    let mut i: usize = 0;
    while i < v.len()
        invariant
            i <= v@.len(),
            forall|j: int| 0 <= j < i ==> affix_ok(#[trigger] strings_view(v@)[j]),
        decreases v@.len() - i,
    {
        if !affix_is_ok(&v[i]) {
            proof {
                assert(strings_view(v@)[i as int] == v@[i as int]@);
            }
            return false;
        }
        i += 1;
    }
    true
}

impl SimpleRuleConfig {
    /// Checks the numeral length bounds, then the affixes.
    pub fn validate(&self) -> (r: Result<(), TocConfigError>)
        ensures
            r is Ok <==> numeral_bounds_ok(self@) && affixes_ok(self@),
            !numeral_bounds_ok(self@) ==> invalid_with(r, "invalid numeral length bounds"@),
            numeral_bounds_ok(self@) && !affixes_ok(self@) ==> invalid_with(
                r,
                "affixes must be nonempty single-line literals; use an empty list for no affix"@,
            ),
    {
        let bad_bounds = match self.max_numeral_len {
            Some(max) => max < self.min_numeral_len,
            None => false,
        };
        if self.min_numeral_len == 0 || bad_bounds {
            return Err(TocConfigError::Invalid("invalid numeral length bounds".to_owned()));
        }
        let prefixes_ok = affixes_are_ok(&self.prefixes);
        let suffixes_ok = affixes_are_ok(&self.suffixes);
        proof {
            assert(self@.prefixes == strings_view(self.prefixes@));
            assert(self@.suffixes == strings_view(self.suffixes@));
        }
        if !prefixes_ok || !suffixes_ok {
            return Err(
                TocConfigError::Invalid(
                    "affixes must be nonempty single-line literals; use an empty list for no affix".to_owned(),
                ),
            );
        }
        Ok(())
    }
}

/// A heading that a regular expression finds.
#[derive(Debug, Clone, PartialEq, Eq)]
pub struct PatternRuleConfig {
    pub pattern: String,
    /// Ordinary grouping must not silently truncate the displayed heading:
    /// `None` keeps the complete line; `Some` selects a capture explicitly.
    pub title_group: Option<usize>,
}

/// How a heading is recognised.
#[derive(Debug, Clone, PartialEq, Eq)]
pub enum HeadingRuleConfig {
    Simple(SimpleRuleConfig),
    Regex(PatternRuleConfig),
}

/// The rules of one TOC level.
#[derive(Debug, Clone, PartialEq, Eq)]
pub struct LevelRulesConfig {
    pub level: usize,
    pub rules: Vec<HeadingRuleConfig>,
}

/// The rules of every TOC level.
#[derive(Debug, Clone, Default, PartialEq, Eq)]
pub struct TocRulesConfig {
    pub levels: Vec<LevelRulesConfig>,
}

} // verus!

verus! {

/// Every level is positive and no two levels are the same.
pub open spec fn levels_ok(levels: Seq<LevelRulesConfig>) -> bool {
    &&& forall|i: int| 0 <= i < levels.len() ==> (#[trigger] levels[i]).level > 0
    &&& forall|i: int, j: int|
        0 <= i < j < levels.len() ==> (#[trigger] levels[i]).level != (#[trigger] levels[j]).level
}

/// Every rule of every level is usable.
pub open spec fn level_rules_ok(levels: Seq<LevelRulesConfig>) -> bool {
    forall|i: int, j: int|
        0 <= i < levels.len() && 0 <= j < levels[i].rules@.len() ==> heading_ok(
            #[trigger] levels[i].rules@[j],
        )
}

/// `order` lists the levels by increasing level number.
pub open spec fn is_level_order(levels: Seq<LevelRulesConfig>, order: Seq<int>) -> bool {
    &&& order.len() == levels.len()
    &&& forall|k: int| 0 <= k < order.len() ==> 0 <= #[trigger] order[k] < levels.len()
    &&& forall|k: int, l: int|
        0 <= k < l < order.len() ==> levels[#[trigger] order[k]].level < levels[#[trigger] order[l]].level
}

/// The rules of one level, compiled.
pub open spec fn level_rule_views(l: LevelRulesConfig) -> Seq<RuleView> {
    Seq::new(
        l.rules@.len(),
        |j: int| RuleView { level: l.level as nat, matcher: heading_view(l.rules@[j]) },
    )
}

/// The rules of all levels, level by level in the given order, each level's
/// rules in the caller's order.
pub open spec fn ordered_rules(levels: Seq<LevelRulesConfig>, order: Seq<int>) -> Seq<RuleView> {
    Seq::new(order.len(), |k: int| level_rule_views(levels[order[k]])).flatten()
}

/// A level order lists every level.
proof fn lemma_level_order_covers(levels: Seq<LevelRulesConfig>, order: Seq<int>)
    requires
        is_level_order(levels, order),
    ensures
        forall|i: int| 0 <= i < levels.len() ==> #[trigger] order.contains(i),
{
    assert(order.no_duplicates()) by {
        assert forall|k: int, l: int| 0 <= k < order.len() && 0 <= l < order.len() && k != l implies order[k]
            != order[l] by {
            if k < l {
                assert(levels[order[k]].level < levels[order[l]].level);
            } else {
                assert(levels[order[l]].level < levels[order[k]].level);
            }
        }
    }
    order.unique_seq_to_set();
    let range = vstd::set_lib::set_int_range(0, levels.len() as int);
    vstd::set_lib::lemma_int_range(0, levels.len() as int);
    assert(order.to_set().subset_of(range));
    vstd::set_lib::lemma_subset_equality(order.to_set(), range);
    assert forall|i: int| 0 <= i < levels.len() implies #[trigger] order.contains(i) by {
        assert(range.contains(i));
        assert(order.to_set().contains(i));
    }
}

impl TocRulesConfig {
    /// Compiles the rules, ordered by level so that a parent match wins when
    /// a line also matches a child rule; within a level the caller's order is
    /// kept. Levels must be positive and unique.
    pub fn compile(&self) -> (r: Result<Vec<LineRule>, TocConfigError>)
        ensures
            r is Ok <==> levels_ok(self.levels@) && level_rules_ok(self.levels@),
            !levels_ok(self.levels@) ==> invalid_with(r, "TOC levels must be positive and unique"@),
            r matches Ok(rules) ==> exists|order: Seq<int>|
                is_level_order(self.levels@, order) && #[trigger] ordered_rules(self.levels@, order)
                    == rules_view(rules@),
    {
        let mut i: usize = 0;
        while i < self.levels.len()
            invariant
                i <= self.levels@.len(),
                forall|k: int| 0 <= k < i ==> (#[trigger] self.levels@[k]).level > 0,
                forall|k: int, l: int|
                    0 <= k < l < i ==> (#[trigger] self.levels@[k]).level != (#[trigger] self.levels@[l]).level,
            decreases self.levels@.len() - i,
        {
            let lv = self.levels[i].level;
            if lv == 0 {
                return Err(TocConfigError::Invalid("TOC levels must be positive and unique".to_owned()));
            }
            let mut j: usize = 0;
            while j < i
                invariant
                    j <= i < self.levels@.len(),
                    lv == self.levels@[i as int].level,
                    forall|k: int| 0 <= k < j ==> (#[trigger] self.levels@[k]).level != lv,
                decreases i - j,
            {
                if self.levels[j].level == lv {
                    return Err(
                        TocConfigError::Invalid("TOC levels must be positive and unique".to_owned()),
                    );
                }
                j += 1;
            }
            i += 1;
        }
        // Insertion sort of the level indices by level.
        let mut order: Vec<usize> = Vec::new();
        let mut i: usize = 0;
        while i < self.levels.len()
            invariant
                i <= self.levels@.len(),
                levels_ok(self.levels@),
                order@.len() == i,
                forall|k: int| 0 <= k < order@.len() ==> #[trigger] order@[k] < i,
                forall|k: int, l: int|
                    0 <= k < l < order@.len() ==> self.levels@[#[trigger] order@[k] as int].level
                        < self.levels@[#[trigger] order@[l] as int].level,
            decreases self.levels@.len() - i,
        {
            let lv = self.levels[i].level;
            let mut pos: usize = 0;
            while pos < order.len() && self.levels[order[pos]].level < lv
                invariant
                    pos <= order@.len(),
                    forall|k: int| 0 <= k < order@.len() ==> #[trigger] order@[k] < i,
                    i < self.levels@.len(),
                    lv == self.levels@[i as int].level,
                    forall|k: int| 0 <= k < pos ==> self.levels@[#[trigger] order@[k] as int].level < lv,
                decreases order@.len() - pos,
            {
                pos += 1;
            }
            let ghost old_order = order@;
            proof {
                assert forall|k: int| pos <= k < old_order.len() implies self.levels@[#[trigger] old_order[k] as int].level
                    > lv by {
                    if self.levels@[old_order[pos as int] as int].level != lv {
                        assert(old_order[pos as int] != i);
                    }
                    if k > pos {
                        assert(self.levels@[old_order[pos as int] as int].level < self.levels@[old_order[k] as int].level);
                    }
                    assert(old_order[k] != i);
                    assert(self.levels@[old_order[k] as int].level != self.levels@[i as int].level);
                }
            }
            order.insert(pos, i);
            proof {
                assert forall|k: int, l: int|
                    0 <= k < l < order@.len() implies self.levels@[#[trigger] order@[k] as int].level
                        < self.levels@[#[trigger] order@[l] as int].level by {
                    if l < pos {
                        assert(order@[k] == old_order[k] && order@[l] == old_order[l]);
                    } else if l == pos {
                        assert(order@[k] == old_order[k]);
                    } else if k < pos {
                        assert(order@[k] == old_order[k] && order@[l] == old_order[l - 1]);
                    } else if k == pos {
                        assert(order@[l] == old_order[l - 1]);
                    } else {
                        assert(order@[k] == old_order[k - 1] && order@[l] == old_order[l - 1]);
                    }
                }
            }
            i += 1;
        }
        let ghost ord = Seq::new(order@.len(), |k: int| order@[k] as int);
        let ghost views = Seq::new(ord.len(), |k: int| level_rule_views(self.levels@[ord[k]]));
        let mut rules: Vec<LineRule> = Vec::new();
        let mut k: usize = 0;
        while k < order.len()
            invariant
                k <= order@.len(),
                order@.len() == self.levels@.len(),
                forall|m: int| 0 <= m < order@.len() ==> #[trigger] order@[m] < self.levels@.len(),
                ord == Seq::new(order@.len(), |m: int| order@[m] as int),
                views == Seq::new(ord.len(), |m: int| level_rule_views(self.levels@[ord[m]])),
                levels_ok(self.levels@),
                rules_view(rules@) == views.take(k as int).flatten(),
                forall|m: int, j: int|
                    0 <= m < k && 0 <= j < self.levels@[ord[m]].rules@.len() ==> heading_ok(
                        #[trigger] self.levels@[ord[m]].rules@[j],
                    ),
            decreases order@.len() - k,
        {
            let level = &self.levels[order[k]];
            let ghost before = rules_view(rules@);
            let mut j: usize = 0;
            proof {
                assert(level_rule_views(*level).take(0) =~= Seq::<RuleView>::empty());
                assert(before + Seq::<RuleView>::empty() =~= before);
            }
            while j < level.rules.len()
                invariant
                    j <= level.rules@.len(),
                    levels_ok(self.levels@),
                    0 <= k < order@.len(),
                    order@.len() == self.levels@.len(),
                    forall|m: int| 0 <= m < order@.len() ==> #[trigger] order@[m] < self.levels@.len(),
                    ord == Seq::new(order@.len(), |m: int| order@[m] as int),
                    *level == self.levels@[ord[k as int]],
                    rules_view(rules@) == before + level_rule_views(*level).take(j as int),
                    forall|jj: int| 0 <= jj < j ==> heading_ok(#[trigger] level.rules@[jj]),
                decreases level.rules@.len() - j,
            {
                let rule = match LineRule::new(level.level, &level.rules[j]) {
                    Ok(rule) => rule,
                    Err(e) => {
                        proof {
                            assert(self.levels@[ord[k as int]] == *level);
                            assert(!heading_ok(self.levels@[ord[k as int]].rules@[j as int]));
                        }
                        return Err(e);
                    },
                };
                let ghost prev = rules_view(rules@);
                rules.push(rule);
                proof {
                    assert(rules_view(rules@) =~= prev.push(rules@.last()@));
                    assert(level_rule_views(*level).take(j + 1) =~= level_rule_views(*level).take(
                        j as int,
                    ).push(level_rule_views(*level)[j as int]));
                }
                j += 1;
            }
            proof {
                assert(level_rule_views(*level).take(level.rules@.len() as int) =~= level_rule_views(*level));
                assert(views[k as int] == level_rule_views(*level));
                assert(views.take(k + 1) =~= views.take(k as int).push(views[k as int]));
                views.take(k as int).lemma_flatten_push(views[k as int]);
            }
            k += 1;
        }
        proof {
            assert(views.take(order@.len() as int) =~= views);
            assert(is_level_order(self.levels@, ord));
            assert(ordered_rules(self.levels@, ord) == rules_view(rules@));
            lemma_level_order_covers(self.levels@, ord);
            assert forall|i: int, j: int|
                0 <= i < self.levels@.len() && 0 <= j < self.levels@[i].rules@.len() implies heading_ok(
                #[trigger] self.levels@[i].rules@[j],
            ) by {
                assert(ord.contains(i));
                let m = choose|m: int| 0 <= m < ord.len() && ord[m] == i;
                assert(self.levels@[ord[m]].rules@[j] == self.levels@[i].rules@[j]);
            }
        }
        Ok(rules)
    }
}

} // verus!

verus! {

/// Which TOC parser to build, and how.
#[derive(Debug, Clone, PartialEq, Eq)]
pub enum TocParserConfig {
    Levels(TocRulesConfig),
    VBook(super::vbook::VBookConfig),
    SplitEvenly { parts: usize },
}

/// The configuration builds a parser.
pub open spec fn parser_config_ok(c: TocParserConfig) -> bool {
    match c {
        TocParserConfig::Levels(config) => levels_ok(config.levels@) && level_rules_ok(config.levels@),
        TocParserConfig::VBook(config) => super::vbook::vbook_ok(config),
        TocParserConfig::SplitEvenly { parts } => parts > 0,
    }
}

/// The parser a valid configuration builds: a level-rule parser named
/// `level-rules` with the levels' rules, shallowest level first, a VBook
/// parser, or an even split.
pub open spec fn built_parser(c: TocParserConfig, p: TocParserSpec) -> bool {
    match c {
        TocParserConfig::Levels(config) => p matches TocParserSpec::LevelRules { name, rules } && name
            == "level-rules"@ && exists|order: Seq<int>|
            is_level_order(config.levels@, order) && #[trigger] ordered_rules(config.levels@, order) == rules,
        TocParserConfig::VBook(config) => p == TocParserSpec::VBook(super::vbook::vbook_view(config)),
        TocParserConfig::SplitEvenly { parts } => p == TocParserSpec::SplitEvenly(parts as nat),
    }
}

/// The errors that refuse a configuration, as its parser's constructor
/// gives them.
pub open spec fn config_refusal<T>(c: TocParserConfig, r: Result<T, TocConfigError>) -> bool {
    match c {
        TocParserConfig::Levels(config) => !levels_ok(config.levels@) ==> invalid_with(
            r,
            "TOC levels must be positive and unique"@,
        ),
        TocParserConfig::VBook(config) => super::vbook::vbook_refusal(config, r),
        TocParserConfig::SplitEvenly { parts } => parts == 0 ==> invalid_with(
            r,
            "split parts must be positive"@,
        ),
    }
}

impl TocParserConfig {
    /// Builds the configured parser: a level-rule parser named
    /// `level-rules`, a VBook parser, or an even split. A refused
    /// configuration gives the constructor's error.
    pub fn build(&self) -> (r: Result<Box<dyn crate::parser::TocParser>, TocConfigError>)
        ensures
            r is Ok <==> parser_config_ok(*self),
            r matches Ok(p) ==> built_parser(*self, p.parser_spec()),
            config_refusal(*self, r),
    {
        match self {
            TocParserConfig::Levels(config) => {
                match super::leveled::RuleSetTocParser::from_config("level-rules", config) {
                    Ok(p) => Ok(Box::new(p)),
                    Err(e) => Err(e),
                }
            },
            TocParserConfig::VBook(config) => {
                match super::vbook::VBookTocParser::from_config(config) {
                    Ok(p) => Ok(Box::new(p)),
                    Err(e) => Err(e),
                }
            },
            TocParserConfig::SplitEvenly { parts } => {
                match super::split::SplitEvenlyParser::new(*parts) {
                    Ok(p) => Ok(Box::new(p)),
                    Err(e) => Err(e),
                }
            },
        }
    }
}

} // verus!
