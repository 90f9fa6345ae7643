//! Built-in rule sets: chapter and volume headings of Chinese web novels.
use vstd::prelude::*;

use super::config::{
    affix_ok, is_level_order, level_rule_views, level_rules_ok, levels_ok, ordered_rules,
    HeadingRuleConfig, LevelRulesConfig, NumeralStyle, PatternRuleConfig, SimpleRuleConfig,
    SimpleView, TocConfigError, TocRulesConfig,
};
use super::leveled::RuleSetTocParser;
use super::rule::{heading_ok, heading_view, lemma_heading_ok, matcher_ok, MatcherView, RuleView};
use crate::pattern::regex_valid;
use super::vbook::{ChapterMode, VBookConfig, VolumeMode};

verus! {

/// Front and back matter headings: synopsis, preface, prologue, afterword,
/// epilogue and extra chapters.
pub const EXTRA_PATTERN: &'static str = r"^\s*(简介|序言|序曲|楔子|前言|后记|尾声|番外[^\n]{0,25})$";

/// The texts of a list of string slices.
pub open spec fn strs_view(v: Seq<&str>) -> Seq<Seq<char>> {
    Seq::new(v.len(), |i: int| v[i]@)
}

/// The matchers of a list of heading configurations.
pub open spec fn headings_view(v: Seq<HeadingRuleConfig>) -> Seq<MatcherView> {
    Seq::new(v.len(), |i: int| heading_view(v[i]))
}

/// A preset simple rule: leading whitespace allowed, one to nine numerals
/// of either style, titles of at most 25 characters.
pub open spec fn preset_view(prefixes: Seq<Seq<char>>, suffixes: Seq<Seq<char>>) -> SimpleView {
    SimpleView {
        allow_leading_space: true,
        prefixes,
        numeral: NumeralStyle::Mixed,
        suffixes,
        min_numeral_len: 1,
        max_numeral_len: Some(9),
        max_title_len: 25,
    }
}

/// The marks that end a chapter number: 章, 回, 节, 集.
pub open spec fn chapter_marks() -> Seq<Seq<char>> {
    seq!["章"@, "回"@, "节"@, "集"@]
}

/// `第…章` (or 回, 节, 集), and `章…` with the mark in front.
pub open spec fn chapter_matchers() -> Seq<MatcherView> {
    seq![
        MatcherView::Simple(preset_view(seq!["第"@], chapter_marks())),
        MatcherView::Simple(preset_view(chapter_marks(), Seq::empty())),
    ]
}

/// `第…部` or `第…卷`, and `卷…` or `部…` with the mark in front.
pub open spec fn volume_matchers() -> Seq<MatcherView> {
    seq![
        MatcherView::Simple(preset_view(seq!["第"@], seq!["部"@, "卷"@])),
        MatcherView::Simple(preset_view(seq!["卷"@, "部"@], Seq::empty())),
    ]
}

/// The front and back matter rule.
pub open spec fn extra_matcher() -> MatcherView {
    MatcherView::Regex { pattern: EXTRA_PATTERN@, title_group: None }
}

/// EasyPub's rule set.
pub open spec fn easy_pub_matchers() -> Seq<MatcherView> {
    seq![
        MatcherView::Simple(
            preset_view(seq!["第"@, "卷"@], seq!["章"@, "回"@, "卷"@, "节"@, "集"@, "部"@]),
        ),
        MatcherView::Simple(preset_view(seq!["卷"@, "部"@], Seq::empty())),
        extra_matcher(),
    ]
}

/// Owned copies of string slices.
fn strings_of(v: &[&str]) -> (r: Vec<String>)
    ensures
        super::config::strings_view(r@) == strs_view(v@),
{
    let mut r: Vec<String> = Vec::new();
    let mut i: usize = 0;
    while i < v.len()
        invariant
            i <= v@.len(),
            r@.len() == i,
            forall|j: int| 0 <= j < i ==> (#[trigger] r@[j])@ == v@[j]@,
        decreases v@.len() - i,
    {
        r.push(v[i].to_owned());
        i += 1;
    }
    proof {
        assert(super::config::strings_view(r@) =~= strs_view(v@));
    }
    r
}

/// A preset simple rule with the given affixes (see `preset_view`).
pub fn simple_rule(prefixes: &[&str], suffixes: &[&str]) -> (r: HeadingRuleConfig)
    ensures
        heading_view(r) == MatcherView::Simple(preset_view(strs_view(prefixes@), strs_view(suffixes@))),
{
    let r = HeadingRuleConfig::Simple(
        SimpleRuleConfig {
            allow_leading_space: true,
            prefixes: strings_of(prefixes),
            numeral: NumeralStyle::Mixed,
            suffixes: strings_of(suffixes),
            min_numeral_len: 1,
            max_numeral_len: Some(9),
            max_title_len: 25,
        },
    );
    r
}

/// The front and back matter rule, keeping the whole line as the title.
pub fn extra_pattern() -> (r: HeadingRuleConfig)
    ensures
        heading_view(r) == extra_matcher(),
{
    HeadingRuleConfig::Regex(PatternRuleConfig { pattern: EXTRA_PATTERN.to_owned(), title_group: None })
}

/// The chapter rules.
pub fn chapter_rules() -> (r: Vec<HeadingRuleConfig>)
    ensures
        headings_view(r@) == chapter_matchers(),
{
    let mut r: Vec<HeadingRuleConfig> = Vec::new();
    let first: &[&str] = &["第"];
    let marks: &[&str] = &["章", "回", "节", "集"];
    let none: &[&str] = &[];
    proof {
        assert(first@ =~= seq!["第"]);
        assert(marks@ =~= seq!["章", "回", "节", "集"]);
        assert(none@ =~= Seq::<&str>::empty());
    }
    let a = simple_rule(first, marks);
    let b = simple_rule(marks, none);
    r.push(a);
    r.push(b);
    proof {
        assert(strs_view(seq!["第"]) =~= seq!["第"@]);
        assert(strs_view(seq!["章", "回", "节", "集"]) =~= chapter_marks());
        assert(strs_view(Seq::<&str>::empty()) =~= Seq::<Seq<char>>::empty());
        assert(headings_view(r@) =~= chapter_matchers());
    }
    r
}

} // verus!

verus! {

/// The rules of one level with the given matchers.
pub open spec fn level_matchers(level: nat, ms: Seq<MatcherView>) -> Seq<RuleView> {
    Seq::new(ms.len(), |i: int| RuleView { level, matcher: ms[i] })
}

/// The volume rules.
pub fn volume_rules() -> (r: Vec<HeadingRuleConfig>)
    ensures
        headings_view(r@) == volume_matchers(),
{
    let mut r: Vec<HeadingRuleConfig> = Vec::new();
    let first: &[&str] = &["第"];
    let marks: &[&str] = &["部", "卷"];
    let fronts: &[&str] = &["卷", "部"];
    let none: &[&str] = &[];
    proof {
        assert(first@ =~= seq!["第"]);
        assert(marks@ =~= seq!["部", "卷"]);
        assert(fronts@ =~= seq!["卷", "部"]);
        assert(none@ =~= Seq::<&str>::empty());
    }
    let a = simple_rule(first, marks);
    let b = simple_rule(fronts, none);
    r.push(a);
    r.push(b);
    proof {
        assert(strs_view(seq!["第"]) =~= seq!["第"@]);
        assert(strs_view(seq!["部", "卷"]) =~= seq!["部"@, "卷"@]);
        assert(strs_view(seq!["卷", "部"]) =~= seq!["卷"@, "部"@]);
        assert(strs_view(Seq::<&str>::empty()) =~= Seq::<Seq<char>>::empty());
        assert(headings_view(r@) =~= volume_matchers());
    }
    r
}

/// Bare Arabic chapter numbers: at least one digit, titles of at most 25
/// characters.
pub fn digit_chapter_rule() -> (r: SimpleRuleConfig)
    ensures
        r@ == (SimpleView {
            allow_leading_space: true,
            prefixes: Seq::empty(),
            numeral: NumeralStyle::Arabic,
            suffixes: Seq::empty(),
            min_numeral_len: 1,
            max_numeral_len: None,
            max_title_len: 25,
        }),
{
    let r = SimpleRuleConfig {
        allow_leading_space: true,
        prefixes: Vec::new(),
        numeral: NumeralStyle::Arabic,
        suffixes: Vec::new(),
        min_numeral_len: 1,
        max_numeral_len: None,
        max_title_len: 25,
    };
    proof {
        assert(super::config::strings_view(r.prefixes@) =~= Seq::<Seq<char>>::empty());
        assert(super::config::strings_view(r.suffixes@) =~= Seq::<Seq<char>>::empty());
    }
    r
}

/// Chapters, with front and back matter, at level 1.
pub fn chapter_only_config() -> (r: TocRulesConfig)
    ensures
        r.levels@.len() == 1,
        r.levels@[0].level == 1,
        headings_view(r.levels@[0].rules@) == chapter_matchers().push(extra_matcher()),
{
    let mut rules = chapter_rules();
    let ghost before = rules@;
    rules.push(extra_pattern());
    proof {
        assert(headings_view(rules@) =~= headings_view(before).push(extra_matcher()));
    }
    let mut levels: Vec<LevelRulesConfig> = Vec::new();
    levels.push(LevelRulesConfig { level: 1, rules });
    TocRulesConfig { levels }
}

/// Volumes, with front and back matter, at level 1; chapters at level 2.
pub fn volume_and_chapter_config() -> (r: TocRulesConfig)
    ensures
        r.levels@.len() == 2,
        r.levels@[0].level == 1,
        headings_view(r.levels@[0].rules@) == volume_matchers().push(extra_matcher()),
        r.levels@[1].level == 2,
        headings_view(r.levels@[1].rules@) == chapter_matchers(),
{
    let mut volumes = volume_rules();
    let ghost before = volumes@;
    volumes.push(extra_pattern());
    proof {
        assert(headings_view(volumes@) =~= headings_view(before).push(extra_matcher()));
    }
    let mut levels: Vec<LevelRulesConfig> = Vec::new();
    levels.push(LevelRulesConfig { level: 1, rules: volumes });
    levels.push(LevelRulesConfig { level: 2, rules: chapter_rules() });
    TocRulesConfig { levels }
}

/// EasyPub's rules, all at level 1.
pub fn easy_pub_config() -> (r: TocRulesConfig)
    ensures
        r.levels@.len() == 1,
        r.levels@[0].level == 1,
        headings_view(r.levels@[0].rules@) == easy_pub_matchers(),
{
    let fronts: &[&str] = &["第", "卷"];
    let marks: &[&str] = &["章", "回", "卷", "节", "集", "部"];
    let bare: &[&str] = &["卷", "部"];
    let none: &[&str] = &[];
    proof {
        assert(fronts@ =~= seq!["第", "卷"]);
        assert(marks@ =~= seq!["章", "回", "卷", "节", "集", "部"]);
        assert(bare@ =~= seq!["卷", "部"]);
        assert(none@ =~= Seq::<&str>::empty());
    }
    let mut rules: Vec<HeadingRuleConfig> = Vec::new();
    rules.push(simple_rule(fronts, marks));
    rules.push(simple_rule(bare, none));
    rules.push(extra_pattern());
    proof {
        assert(strs_view(seq!["第", "卷"]) =~= seq!["第"@, "卷"@]);
        assert(strs_view(seq!["章", "回", "卷", "节", "集", "部"]) =~= seq![
            "章"@,
            "回"@,
            "卷"@,
            "节"@,
            "集"@,
            "部"@,
        ]);
        assert(strs_view(seq!["卷", "部"]) =~= seq!["卷"@, "部"@]);
        assert(strs_view(Seq::<&str>::empty()) =~= Seq::<Seq<char>>::empty());
        assert(headings_view(rules@) =~= easy_pub_matchers());
    }
    let mut levels: Vec<LevelRulesConfig> = Vec::new();
    levels.push(LevelRulesConfig { level: 1, rules });
    TocRulesConfig { levels }
}

/// VBook's default: chapter rules, volume rules, and groups of 50 chapters
/// when the text has no volume headings.
pub fn vbook_config() -> (r: VBookConfig)
    ensures
        r.chapters matches ChapterMode::Rules(c) && headings_view(c@) == chapter_matchers(),
        r.volumes matches VolumeMode::Normal { rules, fallback_chapters_per_volume } && headings_view(
            rules@,
        ) == volume_matchers() && fallback_chapters_per_volume == Some(50usize),
{
    VBookConfig {
        chapters: ChapterMode::Rules(chapter_rules()),
        volumes: VolumeMode::Normal { rules: volume_rules(), fallback_chapters_per_volume: Some(50) },
    }
}

} // verus!

verus! {

/// Every affix of the presets is a nonempty literal on one line.
proof fn lemma_preset_affixes()
    ensures
        affix_ok("第"@),
        affix_ok("章"@),
        affix_ok("回"@),
        affix_ok("节"@),
        affix_ok("集"@),
        affix_ok("部"@),
        affix_ok("卷"@),
{
    reveal_strlit("第");
    reveal_strlit("章");
    reveal_strlit("回");
    reveal_strlit("节");
    reveal_strlit("集");
    reveal_strlit("部");
    reveal_strlit("卷");
}

/// The simple preset matchers are usable.
proof fn lemma_presets_ok()
    ensures
        forall|i: int| 0 <= i < chapter_matchers().len() ==> matcher_ok(#[trigger] chapter_matchers()[i]),
        forall|i: int| 0 <= i < volume_matchers().len() ==> matcher_ok(#[trigger] volume_matchers()[i]),
{
    lemma_preset_affixes();
}

/// A single-level configuration whose matchers are all usable but the last,
/// the front and back matter rule, compiles exactly when that pattern does.
proof fn lemma_one_level(config: TocRulesConfig, ms: Seq<MatcherView>)
    requires
        config.levels@.len() == 1,
        config.levels@[0].level == 1,
        headings_view(config.levels@[0].rules@) == ms.push(extra_matcher()),
        forall|i: int| 0 <= i < ms.len() ==> matcher_ok(#[trigger] ms[i]),
    ensures
        levels_ok(config.levels@),
        level_rules_ok(config.levels@) <==> regex_valid(EXTRA_PATTERN@),
        forall|order: Seq<int>|
            is_level_order(config.levels@, order) ==> #[trigger] ordered_rules(config.levels@, order)
                == level_matchers(1, ms.push(extra_matcher())),
{
    let l = config.levels@[0];
    assert forall|j: int| 0 <= j < l.rules@.len() implies heading_ok(l.rules@[j]) == matcher_ok(
        ms.push(extra_matcher())[j],
    ) by {
        lemma_heading_ok(l.rules@[j]);
        assert(headings_view(l.rules@)[j] == heading_view(l.rules@[j]));
    }
    if regex_valid(EXTRA_PATTERN@) {
        assert forall|i: int, j: int|
            0 <= i < config.levels@.len() && 0 <= j < config.levels@[i].rules@.len() implies heading_ok(
            #[trigger] config.levels@[i].rules@[j],
        ) by {
            assert(i == 0);
            assert(headings_view(l.rules@).len() == ms.len() + 1);
            if j < ms.len() {
                assert(ms.push(extra_matcher())[j] == ms[j]);
            } else {
                assert(ms.push(extra_matcher())[j] == extra_matcher());
            }
            assert(heading_ok(l.rules@[j]) == matcher_ok(ms.push(extra_matcher())[j]));
        }
    } else {
        let j = ms.len() as int;
        assert(headings_view(l.rules@).len() == ms.len() + 1);
        assert(!heading_ok(config.levels@[0].rules@[j]));
    }
    assert forall|order: Seq<int>| is_level_order(config.levels@, order) implies #[trigger] ordered_rules(
        config.levels@,
        order,
    ) == level_matchers(1, ms.push(extra_matcher())) by {
        let views = Seq::new(order.len(), |k: int| level_rule_views(config.levels@[order[k]]));
        views.lemma_flatten_one_element();
        assert(order[0] == 0);
        assert(level_rule_views(l) =~= level_matchers(1, ms.push(extra_matcher())));
    }
}

/// The chapter-only parser: chapters, with front and back matter, at level 1.
/// It exists when the front and back matter pattern compiles.
pub fn chapter_only() -> (r: Result<RuleSetTocParser, TocConfigError>)
    ensures
        r is Ok <==> regex_valid(EXTRA_PATTERN@),
        r matches Ok(p) ==> p.rules() == level_matchers(1, chapter_matchers().push(extra_matcher())),
{
    let config = chapter_only_config();
    proof {
        lemma_presets_ok();
        lemma_one_level(config, chapter_matchers());
    }
    RuleSetTocParser::from_config("chapter-only", &config)
}

} // verus!

verus! {

/// The volume-and-chapter configuration compiles exactly when the front and
/// back matter pattern does, to volume rules at level 1, then chapter rules
/// at level 2.
proof fn lemma_two_levels(config: TocRulesConfig)
    requires
        config.levels@.len() == 2,
        config.levels@[0].level == 1,
        headings_view(config.levels@[0].rules@) == volume_matchers().push(extra_matcher()),
        config.levels@[1].level == 2,
        headings_view(config.levels@[1].rules@) == chapter_matchers(),
    ensures
        levels_ok(config.levels@),
        level_rules_ok(config.levels@) <==> regex_valid(EXTRA_PATTERN@),
        forall|order: Seq<int>|
            is_level_order(config.levels@, order) ==> #[trigger] ordered_rules(config.levels@, order)
                == level_matchers(1, volume_matchers().push(extra_matcher())) + level_matchers(
                2,
                chapter_matchers(),
            ),
{
    lemma_presets_ok();
    let l0 = config.levels@[0];
    let l1 = config.levels@[1];
    let vs = volume_matchers().push(extra_matcher());
    assert(headings_view(l0.rules@).len() == vs.len());
    assert(headings_view(l1.rules@).len() == chapter_matchers().len());
    assert forall|j: int| 0 <= j < l0.rules@.len() implies heading_ok(l0.rules@[j]) == matcher_ok(vs[j]) by {
        lemma_heading_ok(l0.rules@[j]);
        assert(headings_view(l0.rules@)[j] == heading_view(l0.rules@[j]));
    }
    assert forall|j: int| 0 <= j < l1.rules@.len() implies heading_ok(l1.rules@[j]) by {
        lemma_heading_ok(l1.rules@[j]);
        assert(headings_view(l1.rules@)[j] == heading_view(l1.rules@[j]));
    }
    if regex_valid(EXTRA_PATTERN@) {
        assert forall|i: int, j: int|
            0 <= i < config.levels@.len() && 0 <= j < config.levels@[i].rules@.len() implies heading_ok(
            #[trigger] config.levels@[i].rules@[j],
        ) by {
            if i == 0 {
                if j < volume_matchers().len() {
                    assert(vs[j] == volume_matchers()[j]);
                } else {
                    assert(vs[j] == extra_matcher());
                }
            }
        }
    } else {
        let j = volume_matchers().len() as int;
        assert(vs[j] == extra_matcher());
        assert(!heading_ok(config.levels@[0].rules@[j]));
    }
    assert forall|order: Seq<int>| is_level_order(config.levels@, order) implies #[trigger] ordered_rules(
        config.levels@,
        order,
    ) == level_matchers(1, vs) + level_matchers(2, chapter_matchers()) by {
        assert(order[0] == 0 && order[1] == 1) by {
            assert(config.levels@[order[0]].level < config.levels@[order[1]].level);
        }
        let views = Seq::new(order.len(), |k: int| level_rule_views(config.levels@[order[k]]));
        assert(level_rule_views(l0) =~= level_matchers(1, vs));
        assert(level_rule_views(l1) =~= level_matchers(2, chapter_matchers()));
        assert(views =~= seq![level_rule_views(l0)].push(level_rule_views(l1)));
        seq![level_rule_views(l0)].lemma_flatten_push(level_rule_views(l1));
        seq![level_rule_views(l0)].lemma_flatten_one_element();
    }
}

/// The volume-and-chapter parser: volumes, with front and back matter, at
/// level 1, chapters at level 2. It exists when the front and back matter
/// pattern compiles.
pub fn volume_and_chapter() -> (r: Result<RuleSetTocParser, TocConfigError>)
    ensures
        r is Ok <==> regex_valid(EXTRA_PATTERN@),
        r matches Ok(p) ==> p.rules() == level_matchers(1, volume_matchers().push(extra_matcher()))
            + level_matchers(2, chapter_matchers()),
{
    let config = volume_and_chapter_config();
    proof {
        lemma_two_levels(config);
    }
    RuleSetTocParser::from_config("volume-and-chapter", &config)
}

} // verus!
