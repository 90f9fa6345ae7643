//! VBook-style TOC parsing: chapters found by rules or separated by an end
//! marker, grouped into volumes in one of several ways.
use vstd::prelude::*;

use tokio_util::sync::CancellationToken;

use super::config::{invalid_with, opt_nat, HeadingRuleConfig, TocConfigError};
use super::leveled::{confidence_chars, confidence_spec, head_lines, std_text_line};
use super::rule::{
    build_toc, events_view, first_match, scan_chars, first_title, heading_ok, heading_view, lemma_span_range, line_range,
    line_start, rules_view, scan_spec, text_line, LineRule, RuleView,
};
use crate::extractor::ParsedContent;
use crate::parser::{check_cancelled, MatchConfidence, ParserError, TocParser, TocParserSpec};
use crate::toc::builder::built_from;
use crate::toc::TocRoot;
use crate::text::{
    char_width, chars_of, contains_at, decimal, drop_trailing_spaces, lemma_utf8_len_add,
    lemma_utf8_len_take, same_chars, skip_spaces, span_ok, spans, string_of, Span, occurs_in, piece_ends, push_decimal, push_str, trim, trim_bounds,
    trim_end, trim_start, utf8_len,
};
use crate::toc::builder::EventView;
use crate::toc::TocEvent;
use crate::types::TextRange;

verus! {

/// How chapters are found.
#[derive(Debug, Clone, PartialEq, Eq)]
pub enum ChapterMode {
    /// Chapter headings are lines that the rules match.
    Rules(Vec<HeadingRuleConfig>),
    /// Chapters end at a marker line; the first nonempty line after it
    /// names the next chapter.
    EndMarker { marker: String },
}

/// How chapters are grouped into volumes.
#[derive(Debug, Clone, PartialEq, Eq)]
pub enum VolumeMode {
    /// No volumes: every chapter is at the top level.
    NoVolumes,
    /// Volume headings are lines that the rules match; without any, chapters
    /// are grouped by count when a group size is given.
    Normal { rules: Vec<HeadingRuleConfig>, fallback_chapters_per_volume: Option<usize> },
    /// Chapter heading lines start with the volume's name.
    FromChapterTitles { rules: Vec<HeadingRuleConfig> },
    /// Chapters are grouped by count.
    Forced { chapters_per_volume: usize },
}

/// The configuration of a VBook parser.
#[derive(Debug, Clone, PartialEq, Eq)]
pub struct VBookConfig {
    pub chapters: ChapterMode,
    pub volumes: VolumeMode,
}

} // verus!

verus! {

/// The rules of one level with the given configurations.
pub open spec fn level_views(level: nat, rules: Seq<HeadingRuleConfig>) -> Seq<RuleView> {
    Seq::new(rules.len(), |j: int| RuleView { level, matcher: heading_view(rules[j]) })
}

/// Every configuration of the list is usable.
pub open spec fn all_ok(rules: Seq<HeadingRuleConfig>) -> bool {
    forall|j: int| 0 <= j < rules.len() ==> heading_ok(#[trigger] rules[j])
}

/// Compiles each rule at the given level; the first refused rule's error
/// stops it.
pub fn compile_rules(level: usize, rules: &[HeadingRuleConfig]) -> (r: Result<Vec<LineRule>, TocConfigError>)
    ensures
        r is Ok <==> (rules@.len() == 0 || level > 0) && all_ok(rules@),
        r matches Ok(v) ==> rules_view(v@) == level_views(level as nat, rules@),
{
    let mut out: Vec<LineRule> = Vec::new();
    let mut j: usize = 0;
    while j < rules.len()
        invariant
            j <= rules@.len(),
            j > 0 ==> level > 0,
            forall|i: int| 0 <= i < j ==> heading_ok(#[trigger] rules@[i]),
            rules_view(out@) == level_views(level as nat, rules@).take(j as int),
        decreases rules@.len() - j,
    {
        let rule = match LineRule::new(level, &rules[j]) {
            Ok(rule) => rule,
            Err(e) => return Err(e),
        };
        let ghost prev = rules_view(out@);
        out.push(rule);
        proof {
            assert(rules_view(out@) =~= prev.push(out@.last()@));
            assert(level_views(level as nat, rules@).take(j + 1) =~= level_views(level as nat, rules@).take(
                j as int,
            ).push(level_views(level as nat, rules@)[j as int]));
        }
        j += 1;
    }
    proof {
        assert(level_views(level as nat, rules@).take(rules@.len() as int) =~= level_views(level as nat, rules@));
    }
    Ok(out)
}

/// A group size is positive when given.
pub fn validate_group_size(size: Option<usize>) -> (r: Result<(), TocConfigError>)
    ensures
        r is Ok <==> size != Some(0usize),
        size == Some(0usize) ==> invalid_with(r, "chapters per volume must be positive"@),
{
    match size {
        Some(0) => Err(TocConfigError::Invalid("chapters per volume must be positive".to_owned())),
        _ => Ok(()),
    }
}

/// The event of a heading line.
pub fn heading(level: usize, title: &str, start: u64, end: u64) -> (r: TocEvent)
    requires
        start <= end,
    ensures
        r@ == (EventView {
            level: level as nat,
            title: title@,
            range: Some(TextRange { start, end }),
        }),
{
    TocEvent { level, title: title.to_owned(), range: Some(TextRange { start, end }) }
}

/// The event at level `level`.
pub open spec fn at_level(e: EventView, level: nat) -> EventView {
    EventView { level, title: e.title, range: e.range }
}

/// Some event before position `i` is a volume (level 1).
pub open spec fn volume_before(events: Seq<EventView>, i: int) -> bool {
    exists|j: int| 0 <= j < i && #[trigger] events[j].level == 1
}

/// Chapters before the first volume move to the top level, as VBook keeps
/// them at the root instead of below an anonymous container.
pub open spec fn nest_spec(events: Seq<EventView>) -> Seq<EventView> {
    Seq::new(
        events.len(),
        |i: int|
            if events[i].level == 1 || volume_before(events, i) {
                events[i]
            } else {
                at_level(events[i], 1)
            },
    )
}

/// Moves the chapters before the first volume to the top level.
pub fn nest_chapters(events: &mut Vec<TocEvent>, ct: &CancellationToken) -> (r: Result<(), ParserError>)
    ensures
        r is Ok ==> events_view(final(events)@) == nest_spec(events_view(old(events)@)),
        r matches Err(e) ==> e is Cancelled,
{
    let ghost orig = events_view(events@);
    let mut has_volume = false;
    let mut i: usize = 0;
    while i < events.len()
        invariant
            i <= events@.len(),
            orig.len() == events@.len(),
            has_volume == volume_before(orig, i as int),
            forall|j: int| i <= j < events@.len() ==> (#[trigger] events@[j])@ == orig[j],
            forall|j: int| 0 <= j < i ==> (#[trigger] events@[j])@ == nest_spec(orig)[j],
        decreases events@.len() - i,
    {
        match check_cancelled(ct) {
            Ok(()) => {},
            Err(e) => return Err(e),
        }
        proof {
            assert(events@[i as int]@ == orig[i as int]);
        }
        if events[i].level == 1 {
            has_volume = true;
        } else if !has_volume {
            let mut e = events[i].clone();
            e.level = 1;
            events.set(i, e);
        }
        proof {
            if orig[i as int].level == 1 {
                assert(volume_before(orig, i + 1));
            } else {
                assert(volume_before(orig, i + 1) == volume_before(orig, i as int));
            }
        }
        i += 1;
    }
    proof {
        assert(events_view(events@) =~= nest_spec(orig));
    }
    Ok(())
}

/// The volume event of group `g`: `第 {g + 1} 卷`, without a range.
pub open spec fn group_volume(g: nat) -> EventView {
    EventView { level: 1, title: "第 "@ + decimal(g + 1) + " 卷"@, range: None }
}

/// Chapters grouped by count: a volume event before every `size`-th
/// chapter, and every chapter at level 2.
pub open spec fn group_spec(chapters: Seq<EventView>, size: nat) -> Seq<EventView> {
    Seq::new(
        chapters.len(),
        |i: int|
            if i % (size as int) == 0 {
                seq![group_volume((i / (size as int)) as nat), at_level(chapters[i], 2)]
            } else {
                seq![at_level(chapters[i], 2)]
            },
    ).flatten()
}

/// The titles of the volume (level 1) events, in order.
pub open spec fn volume_titles(events: Seq<EventView>) -> Seq<Seq<char>>
    decreases events.len(),
{
    if events.len() == 0 {
        Seq::empty()
    } else if events.last().level == 1 {
        volume_titles(events.drop_last()).push(events.last().title)
    } else {
        volume_titles(events.drop_last())
    }
}

/// The events of the chapters, in order.
pub open spec fn chapter_entries(events: Seq<EventView>) -> Seq<EventView>
    decreases events.len(),
{
    if events.len() == 0 {
        Seq::empty()
    } else if events.last().level == 2 {
        chapter_entries(events.drop_last()).push(events.last())
    } else {
        chapter_entries(events.drop_last())
    }
}

proof fn lemma_volume_titles_concat(a: Seq<EventView>, b: Seq<EventView>)
    ensures
        volume_titles(a + b) == volume_titles(a) + volume_titles(b),
        chapter_entries(a + b) == chapter_entries(a) + chapter_entries(b),
    decreases b.len(),
{
    if b.len() == 0 {
        assert(a + b =~= a);
        assert(volume_titles(a) + volume_titles(b) =~= volume_titles(a));
        assert(chapter_entries(a) + chapter_entries(b) =~= chapter_entries(a));
    } else {
        lemma_volume_titles_concat(a, b.drop_last());
        assert((a + b).drop_last() =~= a + b.drop_last());
        assert((a + b).last() == b.last());
        assert(volume_titles(a) + volume_titles(b.drop_last()).push(b.last().title) =~= (volume_titles(a)
            + volume_titles(b.drop_last())).push(b.last().title));
        assert(chapter_entries(a) + chapter_entries(b.drop_last()).push(b.last()) =~= (chapter_entries(a)
            + chapter_entries(b.drop_last())).push(b.last()));
    }
}

/// Grouping one more chapter appends it, after a new volume when it starts
/// a group.
proof fn lemma_group_push(chapters: Seq<EventView>, size: nat)
    requires
        size > 0,
        chapters.len() > 0,
    ensures
        ({
            let i = chapters.len() - 1;
            let x = at_level(chapters.last(), 2);
            group_spec(chapters, size) == group_spec(chapters.drop_last(), size) + if i % (size as int) == 0 {
                seq![group_volume((i / (size as int)) as nat), x]
            } else {
                seq![x]
            }
        }),
{
    let n = chapters.len();
    let ch = chapters.drop_last();
    let f = |i: int|
        if i % (size as int) == 0 {
            seq![group_volume((i / (size as int)) as nat), at_level(chapters[i], 2)]
        } else {
            seq![at_level(chapters[i], 2)]
        };
    let g = |i: int|
        if i % (size as int) == 0 {
            seq![group_volume((i / (size as int)) as nat), at_level(ch[i], 2)]
        } else {
            seq![at_level(ch[i], 2)]
        };
    assert(Seq::new(n, f) =~= Seq::new((n - 1) as nat, g).push(f(n - 1)));
    Seq::new((n - 1) as nat, g).lemma_flatten_push(f(n - 1));
}

/// The ceiling of `i / size` grows by one exactly when `i` starts a group,
/// and the group that `i` starts is numbered by the groups before it.
proof fn lemma_group_count_step(i: int, d: int)
    requires
        d > 0,
        i >= 0,
    ensures
        (i + 1 + d - 1) / d == (i + d - 1) / d + if i % d == 0 {
            1int
        } else {
            0int
        },
        i % d == 0 ==> i / d == (i + d - 1) / d,
{
    let q = i / d;
    let r = i % d;
    vstd::arithmetic::div_mod::lemma_fundamental_div_mod(i, d);
    assert(0 <= r < d);
    assert(i == q * d + r) by {
        assert(d * q == q * d) by (nonlinear_arith);
    }
    if r == 0 {
        vstd::arithmetic::div_mod::lemma_fundamental_div_mod_converse(i + d - 1, d, q, d - 1);
        assert(i + 1 + d - 1 == (q + 1) * d + 0) by (nonlinear_arith)
            requires
                i == q * d + r,
                r == 0,
        ;
        vstd::arithmetic::div_mod::lemma_fundamental_div_mod_converse(i + 1 + d - 1, d, q + 1, 0);
    } else {
        assert(i + d - 1 == (q + 1) * d + (r - 1)) by (nonlinear_arith)
            requires
                i == q * d + r,
        ;
        vstd::arithmetic::div_mod::lemma_fundamental_div_mod_converse(i + d - 1, d, q + 1, r - 1);
        assert(i + 1 + d - 1 == (q + 1) * d + r) by (nonlinear_arith)
            requires
                i == q * d + r,
        ;
        vstd::arithmetic::div_mod::lemma_fundamental_div_mod_converse(i + 1 + d - 1, d, q + 1, r);
    }
}

/// Grouping `n` chapters by `size` makes ⌈n / size⌉ volumes, titled
/// `第 1 卷`, `第 2 卷`, ... in order whatever the group size, and keeps
/// every chapter, in order, at level 2.
pub proof fn lemma_group_volumes(chapters: Seq<EventView>, size: nat)
    requires
        size > 0,
    ensures
        volume_titles(group_spec(chapters, size)) == Seq::new(
            ((chapters.len() + size - 1) / (size as int)) as nat,
            |k: int| "第 "@ + decimal((k + 1) as nat) + " 卷"@,
        ),
        chapter_entries(group_spec(chapters, size)) == Seq::new(
            chapters.len(),
            |i: int| at_level(chapters[i], 2),
        ),
    decreases chapters.len(),
{
    let n = chapters.len();
    let titles = |k: int| "第 "@ + decimal((k + 1) as nat) + " 卷"@;
    if n == 0 {
        assert(Seq::<Seq<EventView>>::empty().flatten() == Seq::<EventView>::empty());
        assert(Seq::new(0, |i: int| seq![at_level(chapters[i], 2)]) =~= Seq::<Seq<EventView>>::empty());
        assert(group_spec(chapters, size) =~= Seq::<EventView>::empty()) by {
            assert(Seq::new(
                chapters.len(),
                |i: int|
                    if i % (size as int) == 0 {
                        seq![group_volume((i / (size as int)) as nat), at_level(chapters[i], 2)]
                    } else {
                        seq![at_level(chapters[i], 2)]
                    },
            ) =~= Seq::<Seq<EventView>>::empty());
        }
        vstd::arithmetic::div_mod::lemma_fundamental_div_mod_converse((size - 1) as int, size as int, 0, (size - 1) as int);
        assert(volume_titles(group_spec(chapters, size)) =~= Seq::new(0, titles));
        assert(chapter_entries(group_spec(chapters, size)) =~= Seq::new(0, |i: int| at_level(chapters[i], 2)));
    } else {
        let ch = chapters.drop_last();
        let i: int = n - 1;
        lemma_group_volumes(ch, size);
        lemma_group_push(chapters, size);
        lemma_group_count_step(i, size as int);
        let x = at_level(chapters.last(), 2);
        let piece = if i % (size as int) == 0 {
            seq![group_volume((i / (size as int)) as nat), x]
        } else {
            seq![x]
        };
        lemma_volume_titles_concat(group_spec(ch, size), piece);
        let m = ((i + size - 1) / (size as int)) as nat;
        if i % (size as int) == 0 {
            let vol = group_volume((i / (size as int)) as nat);
            assert(piece.drop_last() =~= seq![vol]);
            assert(piece.last() == x);
            assert(volume_titles(piece) == volume_titles(seq![vol]));
            assert(seq![vol].drop_last() =~= Seq::<EventView>::empty());
            assert(seq![vol].last() == vol);
            assert(volume_titles(Seq::<EventView>::empty()) == Seq::<Seq<char>>::empty());
            assert(volume_titles(seq![vol]) == Seq::<Seq<char>>::empty().push(vol.title));
            assert(vol.title == titles(m as int));
            assert(volume_titles(piece) =~= seq![titles(m as int)]);
            assert(chapter_entries(seq![vol]) == chapter_entries(Seq::<EventView>::empty()));
            assert(chapter_entries(Seq::<EventView>::empty()) == Seq::<EventView>::empty());
            assert(chapter_entries(piece) == chapter_entries(seq![vol]).push(x));
            assert(chapter_entries(piece) =~= seq![x]);
            assert(volume_titles(group_spec(chapters, size)) =~= Seq::new(m + 1, titles));
        } else {
            assert(seq![x].drop_last() =~= Seq::<EventView>::empty());
            assert(piece.last() == x);
            assert(volume_titles(Seq::<EventView>::empty()) == Seq::<Seq<char>>::empty());
            assert(chapter_entries(Seq::<EventView>::empty()) == Seq::<EventView>::empty());
            assert(volume_titles(piece) =~= Seq::<Seq<char>>::empty());
            assert(chapter_entries(piece) =~= seq![x]);
            assert(volume_titles(group_spec(chapters, size)) =~= Seq::new(m, titles));
        }
        assert(chapter_entries(group_spec(chapters, size)) =~= Seq::new(n, |j: int| at_level(chapters[j], 2)));
    }
}

/// Groups the chapters by count (see `group_spec`).
pub fn group_chapters(chapters: Vec<TocEvent>, size: usize, ct: &CancellationToken) -> (r: Result<
    Vec<TocEvent>,
    ParserError,
>)
    requires
        size > 0,
    ensures
        r matches Ok(v) ==> events_view(v@) == group_spec(events_view(chapters@), size as nat),
        r matches Err(e) ==> e is Cancelled,
{
    let ghost cv = events_view(chapters@);
    let ghost parts = Seq::new(
        cv.len(),
        |i: int|
            if i % (size as int) == 0 {
                seq![group_volume((i / (size as int)) as nat), at_level(cv[i], 2)]
            } else {
                seq![at_level(cv[i], 2)]
            },
    );
    let mut events: Vec<TocEvent> = Vec::new();
    let mut i: usize = 0;
    proof {
        assert(parts.take(0) =~= Seq::<Seq<EventView>>::empty());
    }
    while i < chapters.len()
        invariant
            i <= chapters@.len(),
            size > 0,
            cv == events_view(chapters@),
            parts.len() == cv.len(),
            forall|k: int| 0 <= k < parts.len() ==> #[trigger] parts[k] == if k % (size as int) == 0 {
                seq![group_volume((k / (size as int)) as nat), at_level(cv[k], 2)]
            } else {
                seq![at_level(cv[k], 2)]
            },
            events_view(events@) == parts.take(i as int).flatten(),
        decreases chapters@.len() - i,
    {
        match check_cancelled(ct) {
            Ok(()) => {},
            Err(e) => return Err(e),
        }
        let ghost before = events_view(events@);
        if i % size == 0 {
            let mut title = "第 ".to_owned();
            push_decimal(&mut title, i / size + 1);
            push_str(&mut title, " 卷");
            events.push(TocEvent { level: 1, title, range: None });
        }
        let mut chapter = chapters[i].clone();
        chapter.level = 2;
        events.push(chapter);
        proof {
            assert(cv[i as int] == chapters@[i as int]@);
            assert(parts.take(i + 1) =~= parts.take(i as int).push(parts[i as int]));
            parts.take(i as int).lemma_flatten_push(parts[i as int]);
            assert(events_view(events@) =~= before + parts[i as int]);
        }
        i += 1;
    }
    proof {
        assert(parts.take(chapters@.len() as int) =~= parts);
    }
    Ok(events)
}

/// Every event at the top level.
pub open spec fn flat_spec(events: Seq<EventView>) -> Seq<EventView> {
    Seq::new(events.len(), |i: int| at_level(events[i], 1))
}

/// Moves every event to the top level.
fn flatten_levels(events: &mut Vec<TocEvent>, ct: &CancellationToken) -> (r: Result<(), ParserError>)
    ensures
        r is Ok ==> events_view(final(events)@) == flat_spec(events_view(old(events)@)),
        r matches Err(e) ==> e is Cancelled,
{
    let ghost orig = events_view(events@);
    let mut i: usize = 0;
    while i < events.len()
        invariant
            i <= events@.len(),
            orig.len() == events@.len(),
            forall|j: int| i <= j < events@.len() ==> (#[trigger] events@[j])@ == orig[j],
            forall|j: int| 0 <= j < i ==> (#[trigger] events@[j])@ == at_level(orig[j], 1),
        decreases events@.len() - i,
    {
        match check_cancelled(ct) {
            Ok(()) => {},
            Err(e) => return Err(e),
        }
        proof {
            assert(events@[i as int]@ == orig[i as int]);
        }
        let mut e = events[i].clone();
        e.level = 1;
        events.set(i, e);
        i += 1;
    }
    proof {
        assert(events_view(events@) =~= flat_spec(orig));
    }
    Ok(())
}

/// The start of an event's range (0 without one).
pub open spec fn start_of(e: EventView) -> u64 {
    match e.range {
        Some(r) => r.start,
        None => 0,
    }
}

/// Volumes and chapters in order of position; a volume wins when a chapter
/// heading starts at the same position.
pub open spec fn merge_events(vols: Seq<EventView>, chs: Seq<EventView>) -> Seq<EventView>
    decreases vols.len() + chs.len(),
{
    if vols.len() == 0 {
        chs
    } else if chs.len() == 0 {
        vols
    } else if start_of(vols[0]) < start_of(chs[0]) {
        seq![vols[0]] + merge_events(vols.drop_first(), chs)
    } else if start_of(vols[0]) == start_of(chs[0]) {
        seq![vols[0]] + merge_events(vols.drop_first(), chs.drop_first())
    } else {
        seq![chs[0]] + merge_events(vols, chs.drop_first())
    }
}

/// Merges volumes and chapters by position (see `merge_events`).
fn merge(vols: &Vec<TocEvent>, chs: &Vec<TocEvent>) -> (r: Vec<TocEvent>)
    ensures
        events_view(r@) == merge_events(events_view(vols@), events_view(chs@)),
{
    let ghost vv = events_view(vols@);
    let ghost cv = events_view(chs@);
    let mut out: Vec<TocEvent> = Vec::new();
    let mut i: usize = 0;
    let mut j: usize = 0;
    proof {
        assert(vv.skip(0) =~= vv);
        assert(cv.skip(0) =~= cv);
    }
    while i < vols.len() || j < chs.len()
        invariant
            i <= vols@.len(),
            j <= chs@.len(),
            vv == events_view(vols@),
            cv == events_view(chs@),
            events_view(out@) + merge_events(vv.skip(i as int), cv.skip(j as int)) == merge_events(vv, cv),
        decreases vols@.len() + chs@.len() - i - j,
    {
        let ghost before = events_view(out@);
        let ghost vs = vv.skip(i as int);
        let ghost cs = cv.skip(j as int);
        proof {
            if i < vols@.len() {
                assert(vs[0] == vols@[i as int]@);
                assert(vs.drop_first() =~= vv.skip(i + 1));
            }
            if j < chs@.len() {
                assert(cs[0] == chs@[j as int]@);
                assert(cs.drop_first() =~= cv.skip(j + 1));
            }
        }
        let take_vol = if i >= vols.len() {
            false
        } else if j >= chs.len() {
            true
        } else {
            start_of_event(&vols[i]) <= start_of_event(&chs[j])
        };
        if take_vol {
            let same = j < chs.len() && start_of_event(&vols[i]) == start_of_event(&chs[j]);
            out.push(vols[i].clone());
            i += 1;
            if same {
                j += 1;
            }
        } else {
            out.push(chs[j].clone());
            j += 1;
        }
        proof {
            assert(events_view(out@) =~= before.push(out@.last()@));
            if vs.len() == 0 {
                assert(cs =~= seq![cs[0]] + cs.drop_first());
            } else if cs.len() == 0 {
                assert(vs =~= seq![vs[0]] + vs.drop_first());
                assert(vv.skip(i as int) =~= vs.drop_first());
                assert(merge_events(vs.drop_first(), cs) == vs.drop_first());
            }
            assert(events_view(out@) + merge_events(vv.skip(i as int), cv.skip(j as int)) =~= before
                + merge_events(vs, cs));
        }
    }
    proof {
        assert(vv.skip(i as int) =~= Seq::<EventView>::empty());
        assert(events_view(out@) + Seq::<EventView>::empty() =~= events_view(out@));
    }
    out
}

/// The start of an event's range (0 without one).
fn start_of_event(e: &TocEvent) -> (r: u64)
    ensures
        r == start_of(e@),
{
    match e.range {
        Some(r) => r.start,
        None => 0,
    }
}

} // verus!

verus! {

/// How a VBook parser groups chapters, as a value.
pub enum VolumeKind {
    NoVolumes,
    Normal { fallback: Option<nat> },
    FromChapterTitles,
    Forced { size: nat },
}

/// A VBook parser as a value: its end marker (for marker-separated
/// chapters), volume grouping, and compiled chapter and volume rules.
pub struct VBookView {
    pub marker: Option<Seq<char>>,
    pub volumes: VolumeKind,
    pub chapter_rules: Seq<RuleView>,
    pub volume_rules: Seq<RuleView>,
}

/// An end marker is a nonempty line once trimmed.
pub open spec fn marker_ok(m: Seq<char>) -> bool {
    trim(m).len() > 0 && !m.contains('\r') && !m.contains('\n')
}

/// The chapter part of the configuration compiles: chapter rules at level 2,
/// or a usable end marker that does not come with volumes in chapter titles.
pub open spec fn chapters_ok(c: VBookConfig) -> bool {
    match c.chapters {
        ChapterMode::Rules(rules) => all_ok(rules@),
        ChapterMode::EndMarker { marker } => marker_ok(marker@) && !(c.volumes is FromChapterTitles),
    }
}

/// The errors that refuse a configuration: an unusable end marker, an end
/// marker with volumes in chapter titles, and a zero group size once the
/// chapter part compiles.
pub open spec fn vbook_refusal<T>(c: VBookConfig, r: Result<T, TocConfigError>) -> bool {
    &&& c.chapters matches ChapterMode::EndMarker { marker } ==> {
        &&& !marker_ok(marker@) ==> invalid_with(r, "chapter end marker must be a nonempty single line"@)
        &&& marker_ok(marker@) && c.volumes is FromChapterTitles ==> invalid_with(
            r,
            "splitting volume prefixes requires chapter heading rules"@,
        )
    }
    &&& chapters_ok(c) && (c.volumes matches VolumeMode::Forced { chapters_per_volume }
        && chapters_per_volume == 0) ==> invalid_with(r, "chapters per volume must be positive"@)
    &&& chapters_ok(c) && (c.volumes matches VolumeMode::Normal { fallback_chapters_per_volume, .. }
        && fallback_chapters_per_volume == Some(0usize)) ==> invalid_with(
        r,
        "chapters per volume must be positive"@,
    )
}

/// The configuration compiles: chapter rules at level 2 or a usable end
/// marker (which cannot name volumes in chapter titles), volume rules at
/// level 1, and positive group sizes.
pub open spec fn vbook_ok(c: VBookConfig) -> bool {
    &&& chapters_ok(c)
    &&& match c.volumes {
        VolumeMode::Normal { rules, fallback_chapters_per_volume } => fallback_chapters_per_volume
            != Some(0usize) && all_ok(rules@),
        VolumeMode::FromChapterTitles { rules } => all_ok(rules@),
        VolumeMode::Forced { chapters_per_volume } => chapters_per_volume != 0,
        VolumeMode::NoVolumes => true,
    }
}

/// The parser a valid configuration describes.
pub open spec fn vbook_view(c: VBookConfig) -> VBookView {
    VBookView {
        marker: match c.chapters {
            ChapterMode::Rules(_) => None,
            ChapterMode::EndMarker { marker } => Some(marker@),
        },
        volumes: match c.volumes {
            VolumeMode::NoVolumes => VolumeKind::NoVolumes,
            VolumeMode::Normal { fallback_chapters_per_volume, .. } => VolumeKind::Normal {
                fallback: opt_nat(fallback_chapters_per_volume),
            },
            VolumeMode::FromChapterTitles { .. } => VolumeKind::FromChapterTitles,
            VolumeMode::Forced { chapters_per_volume } => VolumeKind::Forced {
                size: chapters_per_volume as nat,
            },
        },
        chapter_rules: match c.chapters {
            ChapterMode::Rules(rules) => level_views(2, rules@),
            ChapterMode::EndMarker { .. } => Seq::empty(),
        },
        volume_rules: match c.volumes {
            VolumeMode::Normal { rules, .. } => level_views(1, rules@),
            VolumeMode::FromChapterTitles { rules } => level_views(1, rules@),
            _ => Seq::empty(),
        },
    }
}

enum Chapters {
    Rules,
    EndMarker(Vec<char>),
}

enum Volumes {
    NoVolumes,
    Normal(Option<usize>),
    FromChapterTitles,
    Forced(usize),
}

/// A TOC parser with VBook's chapter and volume modes.
pub struct VBookTocParser {
    chapters: Chapters,
    volumes: Volumes,
    chapter_rules: Vec<LineRule>,
    volume_rules: Vec<LineRule>,
}

impl View for VBookTocParser {
    type V = VBookView;

    closed spec fn view(&self) -> VBookView {
        VBookView {
            marker: match self.chapters {
                Chapters::Rules => None,
                Chapters::EndMarker(m) => Some(m@),
            },
            volumes: match self.volumes {
                Volumes::NoVolumes => VolumeKind::NoVolumes,
                Volumes::Normal(f) => VolumeKind::Normal { fallback: opt_nat(f) },
                Volumes::FromChapterTitles => VolumeKind::FromChapterTitles,
                Volumes::Forced(n) => VolumeKind::Forced { size: n as nat },
            },
            chapter_rules: rules_view(self.chapter_rules@),
            volume_rules: rules_view(self.volume_rules@),
        }
    }
}

impl VBookTocParser {
    /// Group sizes are positive, and an end marker is not used with
    /// volumes named in chapter titles.
    #[verifier::type_invariant]
    closed spec fn inv(self) -> bool {
        &&& match self.volumes {
            Volumes::Normal(Some(n)) => n > 0,
            Volumes::Forced(n) => n > 0,
            _ => true,
        }
        &&& (self.chapters is EndMarker ==> !(self.volumes is FromChapterTitles))
    }

    /// Compiles the configuration (see `vbook_ok`).
    pub fn from_config(config: &VBookConfig) -> (r: Result<Self, TocConfigError>)
        ensures
            r is Ok <==> vbook_ok(*config),
            r matches Ok(p) ==> p@ == vbook_view(*config),
            vbook_refusal(*config, r),
    {
        let (chapters, chapter_rules) = match &config.chapters {
            ChapterMode::Rules(rules) => {
                let compiled = match compile_rules(2, rules.as_slice()) {
                    Ok(v) => v,
                    Err(e) => return Err(e),
                };
                (Chapters::Rules, compiled)
            },
            ChapterMode::EndMarker { marker } => {
                let m = chars_of(marker.as_str());
                proof {
                    assert(m@.subrange(0, m@.len() as int) =~= m@);
                }
                let (t0, t1) = trim_bounds(&m, 0, m.len());
                let nl: Vec<char> = vec!['\n'];
                let cr: Vec<char> = vec!['\r'];
                let has_nl = contains_at(&m, 0, m.len(), &nl);
                let has_cr = contains_at(&m, 0, m.len(), &cr);
                proof {
                    lemma_occurs_one(m@, '\n');
                    lemma_occurs_one(m@, '\r');
                    assert(nl@ == seq!['\n']);
                    assert(cr@ == seq!['\r']);
                }
                if t0 == t1 || has_cr || has_nl {
                    return Err(
                        TocConfigError::Invalid(
                            "chapter end marker must be a nonempty single line".to_owned(),
                        ),
                    );
                }
                let from_titles = match config.volumes {
                    VolumeMode::FromChapterTitles { .. } => true,
                    _ => false,
                };
                if from_titles {
                    return Err(
                        TocConfigError::Invalid(
                            "splitting volume prefixes requires chapter heading rules".to_owned(),
                        ),
                    );
                }
                (Chapters::EndMarker(m), Vec::new())
            },
        };
        let (volumes, volume_rules) = match &config.volumes {
            VolumeMode::Normal { rules, fallback_chapters_per_volume } => {
                match validate_group_size(*fallback_chapters_per_volume) {
                    Ok(()) => {},
                    Err(e) => return Err(e),
                }
                let compiled = match compile_rules(1, rules.as_slice()) {
                    Ok(v) => v,
                    Err(e) => return Err(e),
                };
                (Volumes::Normal(*fallback_chapters_per_volume), compiled)
            },
            VolumeMode::FromChapterTitles { rules } => {
                let compiled = match compile_rules(1, rules.as_slice()) {
                    Ok(v) => v,
                    Err(e) => return Err(e),
                };
                (Volumes::FromChapterTitles, compiled)
            },
            VolumeMode::Forced { chapters_per_volume } => {
                match validate_group_size(Some(*chapters_per_volume)) {
                    Ok(()) => {},
                    Err(e) => return Err(e),
                }
                (Volumes::Forced(*chapters_per_volume), Vec::new())
            },
            VolumeMode::NoVolumes => (Volumes::NoVolumes, Vec::new()),
        };
        let p = VBookTocParser { chapters, volumes, chapter_rules, volume_rules };
        proof {
            assert(rules_view(Seq::<LineRule>::empty()) =~= Seq::<RuleView>::empty());
            assert(rules_view(p.chapter_rules@) == vbook_view(*config).chapter_rules);
            assert(rules_view(p.volume_rules@) == vbook_view(*config).volume_rules);
        }
        Ok(p)
    }
}

/// A single character occurs in `s` exactly when `s` contains it.
proof fn lemma_occurs_one(s: Seq<char>, c: char)
    ensures
        occurs_in(seq![c], s) == s.contains(c),
{
    if s.contains(c) {
        let i = choose|i: int| 0 <= i < s.len() && s[i] == c;
        assert(s.subrange(i, i + seq![c].len()) =~= seq![c]);
    }
    if occurs_in(seq![c], s) {
        let i = choose|i: int| 0 <= i <= s.len() - seq![c].len() && #[trigger] s.subrange(i, i + seq![c].len()) == seq![c];
        assert(s.subrange(i, i + 1)[0] == s[i]);
    }
}

} // verus!

verus! {

/// A heading of level 2 for line `k` of `s` with the given title.
pub open spec fn chapter_event(s: Seq<char>, k: int, title: Seq<char>) -> EventView {
    EventView { level: 2, title, range: Some(line_range(s, k)) }
}

/// The events of marker-separated chapters over the first `n` lines, and
/// whether the next nonempty line starts a chapter: a marker line or a
/// volume heading ends the chapter, and the first nonempty line after it
/// names the next one.
pub open spec fn marker_state(m: Seq<char>, vr: Seq<RuleView>, s: Seq<char>, n: int) -> (Seq<EventView>, bool)
    decreases n,
{
    if n <= 0 {
        (Seq::empty(), true)
    } else {
        let prev = marker_state(m, vr, s, n - 1);
        let line = text_line(s, n - 1);
        if trim(line) == trim(m) || first_title(vr, line) is Some {
            (prev.0, true)
        } else if prev.1 && trim(line).len() > 0 {
            (prev.0.push(chapter_event(s, n - 1, trim(line))), false)
        } else {
            prev
        }
    }
}

/// The chapters of a marker-separated text.
pub open spec fn marker_events(m: Seq<char>, vr: Seq<RuleView>, s: Seq<char>) -> Seq<EventView> {
    marker_state(m, vr, s, piece_ends(s).len() as int).0
}

/// The first split of a line, from character `k` on, whose head (trimmed at
/// the end) a volume rule takes and whose tail (trimmed at the start) a
/// chapter rule takes: the split and both titles.
pub open spec fn inline_from(vr: Seq<RuleView>, cr: Seq<RuleView>, line: Seq<char>, k: int) -> Option<
    (int, Seq<char>, Seq<char>),
>
    decreases line.len() - k,
{
    if k >= line.len() {
        None
    } else {
        match (first_title(vr, trim_end(line.take(k))), first_title(cr, trim_start(line.skip(k)))) {
            (Some(v), Some(c)) => Some((k, v.1, c.1)),
            _ => inline_from(vr, cr, line, k + 1),
        }
    }
}

/// The first split of a line into a volume heading and a chapter heading,
/// after its first character.
pub open spec fn inline_split(vr: Seq<RuleView>, cr: Seq<RuleView>, line: Seq<char>) -> Option<
    (int, Seq<char>, Seq<char>),
> {
    inline_from(vr, cr, line, 1)
}

/// The events of volumes named in chapter titles over the first `n` lines,
/// and the current volume: a line split into a volume and a chapter gives a
/// volume event when the volume changes, then the chapter; another line
/// that a chapter rule takes gives a chapter.
pub open spec fn inline_state(vr: Seq<RuleView>, cr: Seq<RuleView>, s: Seq<char>, n: int) -> (
    Seq<EventView>,
    Seq<char>,
)
    decreases n,
{
    if n <= 0 {
        (Seq::empty(), Seq::empty())
    } else {
        let prev = inline_state(vr, cr, s, n - 1);
        let line = text_line(s, n - 1);
        let st = line_start(s, n - 1);
        match inline_split(vr, cr, line) {
            Some((k, v, c)) => {
                let sb = (st + utf8_len(line.take(k))) as u64;
                let ch = EventView {
                    level: 2,
                    title: c,
                    range: Some(TextRange { start: sb, end: (st + utf8_len(line)) as u64 }),
                };
                if v != prev.1 {
                    let vol = EventView {
                        level: 1,
                        title: v,
                        range: Some(TextRange { start: st as u64, end: sb }),
                    };
                    (prev.0.push(vol).push(ch), v)
                } else {
                    (prev.0.push(ch), prev.1)
                }
            },
            None => match first_title(cr, line) {
                Some(t) => (prev.0.push(chapter_event(s, n - 1, t.1)), prev.1),
                None => prev,
            },
        }
    }
}

/// The events of a text whose chapter titles name their volumes.
pub open spec fn inline_events(vr: Seq<RuleView>, cr: Seq<RuleView>, s: Seq<char>) -> Seq<EventView> {
    inline_state(vr, cr, s, piece_ends(s).len() as int).0
}

/// The chapters a VBook parser finds.
pub open spec fn chapter_events(v: VBookView, s: Seq<char>) -> Seq<EventView> {
    match v.marker {
        Some(m) => marker_events(m, v.volume_rules, s),
        None => scan_spec(v.chapter_rules, s),
    }
}

/// The events a VBook parser makes of a text.
pub open spec fn vbook_events(v: VBookView, s: Seq<char>) -> Seq<EventView> {
    match v.volumes {
        VolumeKind::FromChapterTitles => nest_spec(inline_events(v.volume_rules, v.chapter_rules, s)),
        VolumeKind::NoVolumes => flat_spec(chapter_events(v, s)),
        VolumeKind::Forced { size } => group_spec(chapter_events(v, s), size),
        VolumeKind::Normal { fallback } => {
            let vols = scan_spec(v.volume_rules, s);
            if vols.len() == 0 {
                match fallback {
                    Some(size) => group_spec(chapter_events(v, s), size),
                    None => nest_spec(chapter_events(v, s)),
                }
            } else {
                nest_spec(merge_events(vols, chapter_events(v, s)))
            }
        },
    }
}

/// Some line among the first `n` (as `str::lines` reads them) is the marker.
pub open spec fn marker_seen(m: Seq<char>, s: Seq<char>, n: int) -> bool
    decreases n,
{
    n > 0 && (trim(std_text_line(s, n - 1)) == trim(m) || marker_seen(m, s, n - 1))
}

/// Some line among the first `n` splits into a volume and a chapter heading.
pub open spec fn inline_seen(vr: Seq<RuleView>, cr: Seq<RuleView>, s: Seq<char>, n: int) -> bool
    decreases n,
{
    n > 0 && (inline_split(vr, cr, std_text_line(s, n - 1)) is Some || inline_seen(vr, cr, s, n - 1))
}

/// The confidence of a VBook parser: with an end marker, 2 when one of the
/// first 2000 lines is the marker, else 0; with volumes in chapter titles,
/// 2 when one of them splits; otherwise the better of the chapter and
/// volume rules' confidences.
pub open spec fn vbook_confidence(v: VBookView, s: Seq<char>) -> u8 {
    match v.marker {
        Some(m) => if marker_seen(m, s, head_lines(s)) {
            2
        } else {
            0
        },
        None => if v.volumes is FromChapterTitles && inline_seen(
            v.volume_rules,
            v.chapter_rules,
            s,
            head_lines(s),
        ) {
            2
        } else {
            let c = confidence_spec(v.chapter_rules, s);
            let w = confidence_spec(v.volume_rules, s);
            if c >= w {
                c
            } else {
                w
            }
        },
    }
}


/// Without an end marker and without an inline volume split, a VBook parser
/// is as confident as the better of its chapter and volume rules: never less
/// than either, and equal to one of them. So a text with chapter headings
/// and no volume lines keeps the chapter rules' confidence.
pub proof fn lemma_vbook_confidence_rules(v: VBookView, s: Seq<char>)
    requires
        v.marker is None,
        !(v.volumes is FromChapterTitles && inline_seen(v.volume_rules, v.chapter_rules, s, head_lines(s))),
    ensures
        vbook_confidence(v, s) >= confidence_spec(v.chapter_rules, s),
        vbook_confidence(v, s) >= confidence_spec(v.volume_rules, s),
        vbook_confidence(v, s) == confidence_spec(v.chapter_rules, s) || vbook_confidence(v, s)
            == confidence_spec(v.volume_rules, s),
{
}

} // verus!

verus! {

/// A part of a text takes no more bytes than the text.
proof fn lemma_utf8_len_sub(s: Seq<char>, a: int, b: int)
    requires
        0 <= a <= b <= s.len(),
    ensures
        utf8_len(s.take(b)) == utf8_len(s.take(a)) + utf8_len(s.subrange(a, b)),
        utf8_len(s.take(b)) <= utf8_len(s),
{
    assert(s.take(b) =~= s.take(a) + s.subrange(a, b));
    lemma_utf8_len_add(s.take(a), s.subrange(a, b));
    lemma_utf8_len_take(s, b);
}

impl VBookTocParser {
    /// The first split of `s[a..b]` into a volume and a chapter heading:
    /// the split, its byte offset within the line, and both titles.
    /// Cancellation, when a token is given, is checked at every split.
    fn inline_at(&self, s: &Vec<char>, a: usize, b: usize, ct: Option<&CancellationToken>) -> (r: Result<
        Option<(usize, u64, String, String)>,
        ParserError,
    >)
        requires
            a <= b <= s@.len(),
            utf8_len(s@) <= u64::MAX,
        ensures
            r matches Ok(o) ==> match o {
                None => inline_split(self@.volume_rules, self@.chapter_rules, s@.subrange(a as int, b as int)) is None,
                Some((k, bytes, v, c)) => {
                    &&& inline_split(self@.volume_rules, self@.chapter_rules, s@.subrange(a as int, b as int))
                        == Some((k as int, v@, c@))
                    &&& bytes == utf8_len(s@.subrange(a as int, a + k))
                    &&& 0 < k < b - a
                },
            },
            r matches Err(e) ==> e is Cancelled,
            ct is None ==> r is Ok,
    {
        let ghost line = s@.subrange(a as int, b as int);
        let ghost vr = self@.volume_rules;
        let ghost cr = self@.chapter_rules;
        if b - a < 2 {
            return Ok(None);
        }
        let mut k: usize = 1;
        let mut bytes: u64 = char_width(s[a]);
        proof {
            assert(s@.subrange(a as int, a + 1) =~= seq![s@[a as int]]);
            assert(seq![s@[a as int]].drop_last() =~= Seq::<char>::empty());
            assert(utf8_len(Seq::<char>::empty()) == 0);
            assert(utf8_len(seq![s@[a as int]]) == crate::text::char_len(s@[a as int]));
        }
        while k < b - a
            invariant
                a <= b <= s@.len(),
                utf8_len(s@) <= u64::MAX,
                1 <= k <= b - a,
                line == s@.subrange(a as int, b as int),
                vr == self@.volume_rules,
                cr == self@.chapter_rules,
                bytes == utf8_len(s@.subrange(a as int, a + k)),
                inline_split(vr, cr, line) == inline_from(vr, cr, line, k as int),
            decreases b - a - k,
        {
            match ct {
                Some(ct) => match check_cancelled(ct) {
                    Ok(()) => {},
                    Err(e) => return Err(e),
                },
                None => {},
            }
            let e = drop_trailing_spaces(s, a, a + k);
            proof {
                assert(line.take(k as int) =~= s@.subrange(a as int, a + k));
                assert(trim_end(line.take(k as int)) =~= s@.subrange(a as int, e as int));
            }
            match first_match(self.volume_rules.as_slice(), s, a, e) {
                Some((_, v)) => {
                    let c0 = skip_spaces(s, a + k, b);
                    proof {
                        assert(line.skip(k as int) =~= s@.subrange(a + k, b as int));
                        assert(trim_start(line.skip(k as int)) =~= s@.subrange(c0 as int, b as int));
                    }
                    match first_match(self.chapter_rules.as_slice(), s, c0, b) {
                        Some((_, c)) => {
                            return Ok(Some((k, bytes, v, c)));
                        },
                        None => {},
                    }
                },
                None => {},
            }
            proof {
                lemma_utf8_len_sub(s@, a as int, a + k + 1);
                lemma_utf8_len_sub(s@, a as int, a + k);
                lemma_utf8_len_take(s@, a + k);
                assert(line.skip(k as int) =~= s@.subrange(a + k, b as int));
            }
            bytes = bytes + char_width(s[a + k]);
            k += 1;
        }
        Ok(None)
    }
}

} // verus!

verus! {

impl VBookTocParser {
    /// The chapters of a marker-separated text (see `marker_events`).
    fn scan_marker(&self, m: &Vec<char>, s: &Vec<char>, sp: &Vec<Span>, ct: &CancellationToken) -> (r: Result<
        Vec<TocEvent>,
        ParserError,
    >)
        requires
            sp@.len() == piece_ends(s@).len(),
            forall|k: int| 0 <= k < sp@.len() ==> span_ok(s@, k, #[trigger] sp@[k]),
        ensures
            r matches Ok(v) ==> events_view(v@) == marker_events(m@, self@.volume_rules, s@),
            r matches Err(e) ==> e is Cancelled,
    {
        let ghost vr = self@.volume_rules;
        proof {
            assert(m@.subrange(0, m@.len() as int) =~= m@);
        }
        let (m0, m1) = trim_bounds(m, 0, m.len());
        let mut events: Vec<TocEvent> = Vec::new();
        let mut at_start = true;
        let mut k: usize = 0;
        while k < sp.len()
            invariant
                k <= sp@.len(),
                sp@.len() == piece_ends(s@).len(),
                forall|j: int| 0 <= j < sp@.len() ==> span_ok(s@, j, #[trigger] sp@[j]),
                vr == self@.volume_rules,
                m0 <= m1 <= m@.len(),
                m@.subrange(m0 as int, m1 as int) == trim(m@),
                (events_view(events@), at_start) == marker_state(m@, vr, s@, k as int),
            decreases sp@.len() - k,
        {
            match check_cancelled(ct) {
                Ok(()) => {},
                Err(e) => return Err(e),
            }
            let x = sp[k];
            proof {
                assert(span_ok(s@, k as int, x));
                lemma_span_range(s@, k as int, x);
            }
            let (t0, t1) = trim_bounds(s, x.start, x.end);
            let is_marker = same_chars(s, t0, t1, m, m0, m1);
            let is_volume = match first_match(self.volume_rules.as_slice(), s, x.start, x.end) {
                Some(_) => true,
                None => false,
            };
            if is_marker || is_volume {
                at_start = true;
            } else if at_start && t0 < t1 {
                let title = string_of(s, t0, t1);
                let ghost prev = events_view(events@);
                events.push(heading(2, title.as_str(), x.byte_start, x.byte_end));
                proof {
                    assert(events_view(events@) =~= prev.push(events@.last()@));
                }
                at_start = false;
            }
            k += 1;
        }
        Ok(events)
    }

    /// The events of a text whose chapter titles name their volumes (see
    /// `inline_events`).
    fn scan_inline(&self, s: &Vec<char>, sp: &Vec<Span>, ct: &CancellationToken) -> (r: Result<
        Vec<TocEvent>,
        ParserError,
    >)
        requires
            utf8_len(s@) <= u64::MAX,
            sp@.len() == piece_ends(s@).len(),
            forall|k: int| 0 <= k < sp@.len() ==> span_ok(s@, k, #[trigger] sp@[k]),
        ensures
            r matches Ok(v) ==> events_view(v@) == inline_events(
                self@.volume_rules,
                self@.chapter_rules,
                s@,
            ),
            r matches Err(e) ==> e is Cancelled,
    {
        let ghost vr = self@.volume_rules;
        let ghost cr = self@.chapter_rules;
        let mut events: Vec<TocEvent> = Vec::new();
        let mut current = String::new();
        let mut k: usize = 0;
        while k < sp.len()
            invariant
                k <= sp@.len(),
                utf8_len(s@) <= u64::MAX,
                sp@.len() == piece_ends(s@).len(),
                forall|j: int| 0 <= j < sp@.len() ==> span_ok(s@, j, #[trigger] sp@[j]),
                vr == self@.volume_rules,
                cr == self@.chapter_rules,
                (events_view(events@), current@) == inline_state(vr, cr, s@, k as int),
            decreases sp@.len() - k,
        {
            match check_cancelled(ct) {
                Ok(()) => {},
                Err(e) => return Err(e),
            }
            let x = sp[k];
            proof {
                assert(span_ok(s@, k as int, x));
                lemma_span_range(s@, k as int, x);
            }
            let ghost line = s@.subrange(x.start as int, x.end as int);
            let ghost prev = events_view(events@);
            match self.inline_at(s, x.start, x.end, Some(ct)) {
                Err(e) => return Err(e),
                Ok(Some((split, bytes, v, c))) => {
                    proof {
                        assert(line.take(split as int) =~= s@.subrange(x.start as int, x.start + split));
                        lemma_utf8_len_sub(line, split as int, line.len() as int);
                        assert(line.take(line.len() as int) =~= line);
                    }
                    let sb = x.byte_start + bytes;
                    let same = v == current;
                    if !same {
                        events.push(heading(1, v.as_str(), x.byte_start, sb));
                        current = v;
                    }
                    events.push(heading(2, c.as_str(), sb, x.byte_end));
                    proof {
                        if !same {
                            assert(events_view(events@) =~= prev.push(events@[events@.len() - 2]@).push(
                                events@.last()@,
                            ));
                        } else {
                            assert(events_view(events@) =~= prev.push(events@.last()@));
                        }
                    }
                },
                Ok(None) => {
                    match first_match(self.chapter_rules.as_slice(), s, x.start, x.end) {
                        Some((_, t)) => {
                            events.push(heading(2, t.as_str(), x.byte_start, x.byte_end));
                            proof {
                                assert(events_view(events@) =~= prev.push(events@.last()@));
                            }
                        },
                        None => {},
                    }
                },
            }
            k += 1;
        }
        Ok(events)
    }
}

} // verus!

verus! {

proof fn lemma_marker_seen_mono(m: Seq<char>, s: Seq<char>, k: int, n: int)
    requires
        0 <= k <= n,
        marker_seen(m, s, k),
    ensures
        marker_seen(m, s, n),
    decreases n - k,
{
    if n > k {
        lemma_marker_seen_mono(m, s, k, n - 1);
    }
}

proof fn lemma_inline_seen_mono(vr: Seq<RuleView>, cr: Seq<RuleView>, s: Seq<char>, k: int, n: int)
    requires
        0 <= k <= n,
        inline_seen(vr, cr, s, k),
    ensures
        inline_seen(vr, cr, s, n),
    decreases n - k,
{
    if n > k {
        lemma_inline_seen_mono(vr, cr, s, k, n - 1);
    }
}

impl TocParser for VBookTocParser {
    open spec fn parser_spec(&self) -> TocParserSpec {
        TocParserSpec::VBook(self@)
    }

    fn name(&self) -> (r: &'static str)
        ensures
            r@ == "vbook"@,
    {
        "vbook"
    }

    fn accept(&self, content: &ParsedContent) -> (r: MatchConfidence)
        ensures
            r.0 == vbook_confidence(self@, content.text()),
    {
        proof {
            use_type_invariant(self);
        }
        let s = chars_of(content.text_str());
        let sp = spans(&s);
        let n = if sp.len() < 2000 {
            sp.len()
        } else {
            2000
        };
        match &self.chapters {
            Chapters::EndMarker(m) => {
                proof {
                    assert(m@.subrange(0, m@.len() as int) =~= m@);
                }
                let (m0, m1) = trim_bounds(m, 0, m.len());
                let mut k: usize = 0;
                while k < n
                    invariant
                        n <= sp@.len(),
                        n == head_lines(s@),
                        sp@.len() == piece_ends(s@).len(),
                        forall|j: int| 0 <= j < sp@.len() ==> span_ok(s@, j, #[trigger] sp@[j]),
                        k <= n,
                        m0 <= m1 <= m@.len(),
                        m@.subrange(m0 as int, m1 as int) == trim(m@),
                        !marker_seen(m@, s@, k as int),
                        s@ == content.text(),
                        self@.marker == Some(m@),
                    decreases n - k,
                {
                    let x = sp[k];
                    proof {
                        assert(span_ok(s@, k as int, x));
                    }
                    let (t0, t1) = trim_bounds(&s, x.start, x.std_end);
                    if same_chars(&s, t0, t1, m, m0, m1) {
                        proof {
                            assert(marker_seen(m@, s@, k + 1));
                            lemma_marker_seen_mono(m@, s@, k + 1, n as int);
                        }
                        return MatchConfidence(2);
                    }
                    k += 1;
                }
                return MatchConfidence(0);
            },
            Chapters::Rules => {},
        }
        let from_titles = match self.volumes {
            Volumes::FromChapterTitles => true,
            _ => false,
        };
        if from_titles {
            let mut k: usize = 0;
            while k < n
                invariant
                    n <= sp@.len(),
                    n == head_lines(s@),
                    utf8_len(s@) <= u64::MAX,
                    sp@.len() == piece_ends(s@).len(),
                    forall|j: int| 0 <= j < sp@.len() ==> span_ok(s@, j, #[trigger] sp@[j]),
                    k <= n,
                    !inline_seen(self@.volume_rules, self@.chapter_rules, s@, k as int),
                    s@ == content.text(),
                    self@.marker is None,
                    self@.volumes is FromChapterTitles,
                decreases n - k,
            {
                let x = sp[k];
                proof {
                    assert(span_ok(s@, k as int, x));
                }
                match self.inline_at(&s, x.start, x.std_end, None) {
                    Ok(Some(_)) => {
                        proof {
                            assert(inline_seen(self@.volume_rules, self@.chapter_rules, s@, k + 1));
                            lemma_inline_seen_mono(self@.volume_rules, self@.chapter_rules, s@, k + 1, n as int);
                        }
                        return MatchConfidence(2);
                    },
                    _ => {},
                }
                k += 1;
            }
        }
        let c = confidence_chars(&s, &sp, self.chapter_rules.as_slice());
        let w = confidence_chars(&s, &sp, self.volume_rules.as_slice());
        if c >= w {
            MatchConfidence(c)
        } else {
            MatchConfidence(w)
        }
    }

    fn parse(&self, ct: &CancellationToken, content: &ParsedContent) -> (r: Result<TocRoot, ParserError>)
        ensures
            r matches Ok(t) ==> built_from(vbook_events(self@, content.text()), t@),
            r matches Err(e) ==> e is Cancelled,
    {
        proof {
            use_type_invariant(self);
        }
        match check_cancelled(ct) {
            Ok(()) => {},
            Err(e) => return Err(e),
        }
        let s = chars_of(content.text_str());
        let sp = spans(&s);
        let from_titles = match self.volumes {
            Volumes::FromChapterTitles => true,
            _ => false,
        };
        if from_titles {
            let mut events = match self.scan_inline(&s, &sp, ct) {
                Ok(events) => events,
                Err(e) => return Err(e),
            };
            match nest_chapters(&mut events, ct) {
                Ok(()) => {},
                Err(e) => return Err(e),
            }
            return build_toc(events, ct);
        }
        let chapters = match &self.chapters {
            Chapters::Rules => scan_chars(&s, &sp, self.chapter_rules.as_slice(), ct),
            Chapters::EndMarker(m) => self.scan_marker(m, &s, &sp, ct),
        };
        let mut events = match chapters {
            Ok(events) => events,
            Err(e) => return Err(e),
        };
        let ghost ch = events_view(events@);
        proof {
            assert(ch == chapter_events(self@, s@));
        }
        match self.volumes {
            Volumes::NoVolumes => {
                match flatten_levels(&mut events, ct) {
                    Ok(()) => {},
                    Err(e) => return Err(e),
                }
            },
            Volumes::Forced(size) => {
                events = match group_chapters(events, size, ct) {
                    Ok(v) => v,
                    Err(e) => return Err(e),
                };
            },
            Volumes::Normal(fallback) => {
                let volumes = match scan_chars(&s, &sp, self.volume_rules.as_slice(), ct) {
                    Ok(v) => v,
                    Err(e) => return Err(e),
                };
                if volumes.len() == 0 {
                    match fallback {
                        Some(size) => {
                            events = match group_chapters(events, size, ct) {
                                Ok(v) => v,
                                Err(e) => return Err(e),
                            };
                        },
                        None => {
                            match nest_chapters(&mut events, ct) {
                                Ok(()) => {},
                                Err(e) => return Err(e),
                            }
                        },
                    }
                } else {
                    let mut merged = merge(&volumes, &events);
                    match nest_chapters(&mut merged, ct) {
                        Ok(()) => {},
                        Err(e) => return Err(e),
                    }
                    events = merged;
                }
            },
            Volumes::FromChapterTitles => {},
        }
        build_toc(events, ct)
    }
}

} // verus!
