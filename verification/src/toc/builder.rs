//! Assembling a flat, level-tagged event stream into a tree.
use vstd::prelude::*;

use super::model::{combine, fold_ranges};
use super::{NodeId, NodeView, TocError, TocModel, TocNode, TocRoot, TreeNodeMeta};
use crate::types::TextRange;

verus! {

/// A single flattened TOC event: a 1-based level, a title and a position.
#[derive(Debug)]
pub struct TocEvent {
    /// 1-based level, aligned with calibre's level1/2/3 convention.
    pub level: usize,
    pub title: String,
    /// `None` for pure container entries.
    pub range: Option<TextRange>,
}

/// An event as a value.
pub struct EventView {
    pub level: nat,
    pub title: Seq<char>,
    pub range: Option<TextRange>,
}

impl View for TocEvent {
    type V = EventView;

    open spec fn view(&self) -> EventView {
        EventView { level: self.level as nat, title: self.title@, range: self.range }
    }
}

impl Clone for TocEvent {
    fn clone(&self) -> (r: Self)
        ensures
            r.level == self.level,
            r.title@ == self.title@,
            r.range == self.range,
    {
        TocEvent { level: self.level, title: self.title.clone(), range: self.range }
    }
}

#[derive(Debug, Clone, Copy)]
pub struct BuilderOptions {
    /// Whether `build()` backfills container-node ranges bottom-up as the
    /// union (`TextRange::merge`) of their children's ranges. Defaults to true.
    pub backfill_container_range: bool,
}

impl Default for BuilderOptions {
    fn default() -> (r: Self)
        ensures
            r.backfill_container_range,
    {
        BuilderOptions { backfill_container_range: true }
    }
}

/// An anonymous container node created for a skipped level.
pub open spec fn container_view(id: NodeId, parent: Option<NodeId>) -> NodeView {
    NodeView {
        id,
        title: ""@,
        patch: None,
        meta: TreeNodeMeta { words: 0, range: None },
        parent,
        children: Seq::empty(),
    }
}

/// The parent of the `i`-th node of a chain hanging below `first`.
pub open spec fn chain_parent(first: Option<NodeId>, ids: Seq<NodeId>, i: int) -> Option<NodeId> {
    if i == 0 {
        first
    } else {
        Some(ids[i - 1])
    }
}

/// The tree after adding a chain of containers, each the child of the
/// previous one, the first one below `first`.
pub open spec fn with_containers(m: TocModel, first: Option<NodeId>, ids: Seq<NodeId>) -> TocModel
    decreases ids.len(),
{
    if ids.len() == 0 {
        m
    } else {
        with_containers(m, first, ids.drop_last()).added(
            ids.last(),
            container_view(ids.last(), chain_parent(first, ids, ids.len() - 1)),
        )
    }
}

/// The node an event becomes.
pub open spec fn event_view(id: NodeId, event: EventView, parent: Option<NodeId>) -> NodeView {
    NodeView {
        id,
        title: event.title,
        patch: None,
        meta: TreeNodeMeta { words: 0, range: event.range },
        parent,
        children: Seq::empty(),
    }
}

/// The level an event is placed at: its level, or 1 for level 0.
pub open spec fn placed_level(event: EventView) -> int {
    if event.level >= 1 {
        event.level as int
    } else {
        1
    }
}


/// The containers added by `with_containers` leave the older nodes stored.
pub proof fn lemma_with_containers_dom(m: TocModel, first: Option<NodeId>, ids: Seq<NodeId>)
    ensures
        m.nodes.dom().subset_of(with_containers(m, first, ids).nodes.dom()),
    decreases ids.len(),
{
    if ids.len() > 0 {
        lemma_with_containers_dom(m, first, ids.drop_last());
    }
}

/// Whether the range of `k` is filled when the levels deeper than `d`, and
/// the nodes `done` of level `d`, are.
pub open spec fn is_done(pre: TocRoot, d: int, done: Seq<NodeId>, k: NodeId) -> bool {
    pre.level_of(k) > d || (pre.level_of(k) == d && done.contains(k))
}

/// The tree with the ranges of the done nodes filled.
pub open spec fn backfilled_partly(pre: TocRoot, d: int, done: Seq<NodeId>) -> TocModel {
    TocModel {
        roots: pre@.roots,
        nodes: Map::new(
            |k: usize| pre@.nodes.contains_key(k),
            |k: usize|
                NodeView {
                    id: pre@.nodes[k].id,
                    title: pre@.nodes[k].title,
                    patch: pre@.nodes[k].patch,
                    meta: TreeNodeMeta {
                        words: pre@.nodes[k].meta.words,
                        range: if is_done(pre, d, done, NodeId(k)) {
                            pre.filled_range(NodeId(k))
                        } else {
                            pre@.nodes[k].meta.range
                        },
                    },
                    parent: pre@.nodes[k].parent,
                    children: pre@.nodes[k].children,
                },
        ),
    }
}


/// The path is a parent chain from the top level, one level per step.
pub open spec fn path_ok(root: TocRoot, p: Seq<NodeId>) -> bool {
    forall|i: int|
        0 <= i < p.len() ==> {
            &&& root@.contains(#[trigger] p[i])
            &&& root@.node(p[i]).parent == if i == 0 {
                None
            } else {
                Some(p[i - 1])
            }
            &&& root.level_of(p[i]) == i + 1
        }
}

/// The last of the first `s` path entries, if any.
pub open spec fn path_first(p: Seq<NodeId>, s: int) -> Option<NodeId> {
    if s == 0 {
        None
    } else {
        Some(p[s - 1])
    }
}

/// The path entries from `s` on are not in the tree `m`.
pub open spec fn fresh_after(m: TocModel, p: Seq<NodeId>, s: int) -> bool {
    forall|i: int| s <= i < p.len() ==> !m.contains(#[trigger] p[i])
}

proof fn lemma_path_extend(before: TocRoot, after: TocRoot, p: Seq<NodeId>, id: NodeId)
    requires
        path_ok(before, p),
        forall|x: NodeId| #[trigger]
            before@.contains(x) ==> after.level_of(x) == before.level_of(x) && after@.contains(x)
                && after@.node(x).parent == before@.node(x).parent,
        after@.contains(id),
        after@.node(id).parent == (if p.len() == 0 {
            None
        } else {
            Some(p[p.len() - 1])
        }),
        after.level_of(id) == p.len() + 1,
    ensures
        path_ok(after, p.push(id)),
{
    assert forall|i: int| 0 <= i < p.push(id).len() implies {
        &&& after@.contains(#[trigger] p.push(id)[i])
        &&& after@.node(p.push(id)[i]).parent == if i == 0 {
            None
        } else {
            Some(p.push(id)[i - 1])
        }
        &&& after.level_of(p.push(id)[i]) == i + 1
    } by {
        if i < p.len() {
            assert(before@.contains(p[i]));
        }
    }
}

proof fn lemma_path_prefix(root: TocRoot, p: Seq<NodeId>, n: int)
    requires
        path_ok(root, p),
        0 <= n <= p.len(),
    ensures
        path_ok(root, p.subrange(0, n)),
{
    assert forall|i: int| 0 <= i < n implies {
        &&& root@.contains(#[trigger] p.subrange(0, n)[i])
        &&& root@.node(p.subrange(0, n)[i]).parent == if i == 0 {
            None
        } else {
            Some(p.subrange(0, n)[i - 1])
        }
        &&& root.level_of(p.subrange(0, n)[i]) == i + 1
    } by {
        assert(p.subrange(0, n)[i] == p[i]);
    }
}

proof fn lemma_container_step(
    old_tree: TocModel,
    old_path: Seq<NodeId>,
    first0: Option<NodeId>,
    s: int,
    before: TocRoot,
    after: TocRoot,
    p0: Seq<NodeId>,
    id: NodeId,
    parent: Option<NodeId>,
)
    requires
        0 <= s <= p0.len(),
        old_path.len() == s,
        p0.subrange(0, s) == old_path,
        first0 == path_first(old_path, s),
        fresh_after(old_tree, p0, s),
        before@ == with_containers(old_tree, first0, p0.subrange(s, p0.len() as int)),
        !before@.contains(id),
        after@ == before@.added(id, container_view(id, parent)),
        parent == (if p0.len() == 0 {
            None
        } else {
            Some(p0[p0.len() - 1])
        }),
    ensures
        p0.push(id).subrange(0, s) == old_path,
        fresh_after(old_tree, p0.push(id), s),
        after@ == with_containers(old_tree, first0, p0.push(id).subrange(s, p0.len() as int + 1)),
{
    let ids = p0.subrange(s, p0.len() as int);
    let ids2 = p0.push(id).subrange(s, p0.len() as int + 1);
    assert(ids2.drop_last() =~= ids);
    assert(ids2.last() == id);
    if ids.len() == 0 {
        if s > 0 {
            assert(p0[s - 1] == p0.subrange(0, s)[s - 1]);
        }
    } else {
        assert(ids[ids.len() - 1] == p0[p0.len() - 1]);
    }
    assert(chain_parent(first0, ids2, ids2.len() - 1) == parent);
    assert(p0.push(id).subrange(0, s) =~= p0.subrange(0, s));
    lemma_with_containers_dom(old_tree, first0, ids);
    assert forall|i: int| s <= i < p0.push(id).len() implies !old_tree.contains(
        #[trigger] p0.push(id)[i],
    ) by {
        if i < p0.len() {
            assert(p0.push(id)[i] == p0[i]);
        }
    }
}

proof fn lemma_final_step(
    old_tree: TocModel,
    old_path: Seq<NodeId>,
    first0: Option<NodeId>,
    s: int,
    mid_path: Seq<NodeId>,
    lv: int,
    before: TocModel,
    after: TocModel,
    p: Seq<NodeId>,
    id: NodeId,
    parent: Option<NodeId>,
    event: TocEvent,
)
    requires
        0 <= s <= mid_path.len(),
        old_path.len() == s,
        mid_path.subrange(0, s) == old_path,
        first0 == path_first(old_path, s),
        fresh_after(old_tree, mid_path, s),
        lv >= 1,
        lv == placed_level(event@),
        mid_path.len() >= lv - 1,
        mid_path.len() > s ==> mid_path.len() == lv - 1,
        before == with_containers(old_tree, first0, mid_path.subrange(s, mid_path.len() as int))
            || (mid_path.len() == s && before == old_tree),
        !before.contains(id),
        p == mid_path.subrange(0, lv - 1).push(id),
        parent == (if lv - 1 == 0 {
            None
        } else {
            Some(mid_path[lv - 2])
        }),
        after == before.added(
            id,
            NodeView {
                id,
                title: event.title@,
                patch: None,
                meta: TreeNodeMeta { words: 0, range: event.range },
                parent,
                children: Seq::empty(),
            },
        ),
    ensures
        ({
            let keep = if lv - 1 < s { lv - 1 } else { s };
            let first = if keep == 0 { None } else { Some(old_path[keep - 1]) };
            let ids = p.subrange(keep, lv - 1);
            &&& p.len() == lv
            &&& p.subrange(0, keep) == old_path.subrange(0, keep)
            &&& p[lv - 1] == id
            &&& forall|i: int| keep <= i < lv ==> !old_tree.contains(#[trigger] p[i])
            &&& after == with_containers(old_tree, first, ids).added(
                id,
                event_view(id, event@, chain_parent(first, p.subrange(keep, lv), lv - 1 - keep)),
            )
        }),
{
    let keep = if lv - 1 < s { lv - 1 } else { s };
    let first = if keep == 0 { None } else { Some(old_path[keep - 1]) };
    let ids = p.subrange(keep, lv - 1);
    assert(p.subrange(0, keep) =~= old_path.subrange(0, keep)) by {
        assert forall|i: int| 0 <= i < keep implies p.subrange(0, keep)[i] == old_path.subrange(
            0,
            keep,
        )[i] by {
            assert(p[i] == mid_path[i]);
            assert(mid_path.subrange(0, s)[i] == mid_path[i]);
        }
    }
    if mid_path.len() == s {
        assert(ids.len() == 0);
        assert(with_containers(old_tree, first, ids) == old_tree);
        assert(before == old_tree) by {
            assert(mid_path.subrange(s, mid_path.len() as int).len() == 0);
        }
    } else {
        assert(keep == s);
        assert(ids =~= mid_path.subrange(s, mid_path.len() as int));
        assert(first == first0);
    }
    let cp = chain_parent(first, p.subrange(keep, lv), lv - 1 - keep);
    if lv - 1 - keep == 0 {
        if keep > 0 {
            assert(old_path[keep - 1] == mid_path[keep - 1]) by {
                assert(mid_path.subrange(0, s)[keep - 1] == mid_path[keep - 1]);
            }
        }
        assert(cp == parent);
    } else {
        assert(p.subrange(keep, lv)[lv - 2 - keep] == p[lv - 2]);
        assert(cp == parent);
    }
    lemma_with_containers_dom(old_tree, first, ids);
    assert forall|i: int| keep <= i < lv implies !old_tree.contains(#[trigger] p[i]) by {
        if i < lv - 1 {
            assert(p[i] == mid_path[i]);
        }
    }
}

/// What one `push` does: the event's node is added at its level (level 0
/// counts as 1), below the most recent node of the level above, after
/// anonymous containers for the skipped levels; the path keeps the levels
/// above and ends with the new node.
pub open spec fn push_step(
    before: TocRoot,
    path: Seq<NodeId>,
    event: EventView,
    after: TocRoot,
    p: Seq<NodeId>,
) -> bool {
    let lv = placed_level(event);
    let s = path.len() as int;
    let keep = if lv - 1 < s {
        lv - 1
    } else {
        s
    };
    let first = if keep == 0 {
        None
    } else {
        Some(path[keep - 1])
    };
    let ids = p.subrange(keep, lv - 1);
    let id = p[lv - 1];
    &&& p.len() == lv
    &&& p.subrange(0, keep) == path.subrange(0, keep)
    &&& forall|i: int| keep <= i < lv ==> !before@.contains(#[trigger] p[i])
    &&& after@ == with_containers(before@, first, ids).added(
        id,
        event_view(id, event, chain_parent(first, p.subrange(keep, lv), lv - 1 - keep)),
    )
    &&& after.level_of(id) == lv
}

/// `trees` and `paths` are the states of a new builder while the events are
/// pushed in order: the first state is empty, and each push is a `push_step`.
pub open spec fn pushed_states(events: Seq<EventView>, trees: Seq<TocRoot>, paths: Seq<Seq<NodeId>>) -> bool {
    &&& trees.len() == events.len() + 1
    &&& paths.len() == events.len() + 1
    &&& trees[0]@.roots.len() == 0
    &&& trees[0]@.nodes.dom().is_empty()
    &&& paths[0].len() == 0
    &&& forall|i: int|
        0 <= i < events.len() ==> push_step(
            trees[i],
            paths[i],
            #[trigger] events[i],
            trees[i + 1],
            paths[i + 1],
        )
}

/// `m` is the tree that a new builder makes of the events: pushed in order,
/// then built with the container ranges backfilled.
pub open spec fn built_from(events: Seq<EventView>, m: TocModel) -> bool {
    exists|trees: Seq<TocRoot>, paths: Seq<Seq<NodeId>>|
        #[trigger] pushed_states(events, trees, paths) && trees.last().wf() && m == trees.last().backfilled()
}

/// Streaming builder turning a flat `TocEvent` stream into a `TocRoot`.
pub struct TocBuilder {
    root: TocRoot,
    /// stack[i] is the most recent node at level i+1 on the current path.
    stack: Vec<NodeId>,
    options: BuilderOptions,
}

impl Default for TocBuilder {
    fn default() -> (r: Self)
        ensures
            r.wf(),
            r.tree().roots.len() == 0,
            r.tree().nodes.dom().is_empty(),
            r.path().len() == 0,
            r.options_spec().backfill_container_range,
    {
        TocBuilder::new()
    }
}

impl TocBuilder {
    /// The tree built so far.
    pub closed spec fn tree(&self) -> TocModel {
        self.root@
    }

    /// The tree built so far, as a tree value.
    pub closed spec fn root_spec(&self) -> TocRoot {
        self.root
    }

    /// The current path: the most recent node of each level, from level 1 down.
    pub closed spec fn path(&self) -> Seq<NodeId> {
        self.stack@
    }

    pub closed spec fn options_spec(&self) -> BuilderOptions {
        self.options
    }

    /// The tree is well formed and the path is a parent chain from the top level.
    pub closed spec fn wf(&self) -> bool {
        &&& self.root.wf()
        &&& path_ok(self.root, self.stack@)
    }

    /// The tree of a well-formed builder is well formed.
    pub proof fn lemma_wf(&self)
        requires
            self.wf(),
        ensures
            self.root_spec().wf(),
            self.tree() == self.root_spec()@,
    {
    }

    pub fn new() -> (r: Self)
        ensures
            r.wf(),
            r.tree().roots.len() == 0,
            r.tree().nodes.dom().is_empty(),
            r.path().len() == 0,
            r.options_spec().backfill_container_range,
    {
        Self::with_options(BuilderOptions::default())
    }

    pub fn with_options(options: BuilderOptions) -> (r: Self)
        ensures
            r.wf(),
            r.tree().roots.len() == 0,
            r.tree().nodes.dom().is_empty(),
            r.path().len() == 0,
            r.options_spec() == options,
    {
        TocBuilder { root: TocRoot::new(), stack: Vec::new(), options }
    }

    /// Adds an event's node at its level (level 0 counts as 1): below the most
    /// recent node of the level above, creating anonymous containers for
    /// skipped levels, and after dropping deeper levels from the path.
    #[verifier::rlimit(60)]
    pub fn push(&mut self, event: TocEvent) -> (r: Result<NodeId, TocError>)
        requires
            old(self).wf(),
        ensures
            final(self).wf(),
            final(self).options_spec() == old(self).options_spec(),
            push_step(
                old(self).root_spec(),
                old(self).path(),
                event@,
                final(self).root_spec(),
                final(self).path(),
            ),
            r == Ok::<NodeId, TocError>(final(self).path()[placed_level(event@) - 1]),
    {
        let ghost old_tree = self.root@;
        let ghost old_path = self.stack@;
        let ghost s = self.stack@.len() as int;
        let level: usize = if event.level > 1 { event.level } else { 1 };
        let ghost first0 = path_first(old_path, s);
        // Level jump: insert anonymous containers for the missing levels.
        while level - 1 > self.stack.len()
            invariant
                self.wf(),
                first0 == path_first(old_path, s),
                old_path.len() == s,
                old_path == old(self).stack@,
                old_tree == old(self).root@,
                self.options == old(self).options,
                level == placed_level(event@),
                self.stack@.len() >= s,
                self.stack@.subrange(0, s) == old_path,
                fresh_after(old_tree, self.stack@, s),
                self.root@ == with_containers(old_tree, first0, self.stack@.subrange(s, self.stack@.len() as int)),
                self.stack@.len() > s ==> level > self.stack@.len(),
            decreases level - self.stack@.len(),
        {
            let ghost before = self.root;
            let ghost p0 = self.stack@;
            let parent = self.last_on_path();
            let id = match self.root.add_with_meta("", None, parent) {
                Ok(node) => node.id,
                Err(err) => return Err(err),
            };
            self.stack.push(id);
            proof {
                lemma_path_extend(before, self.root, p0, id);
                lemma_container_step(old_tree, old_path, first0, s, before, self.root, p0, id, parent);
            }
        }
        let ghost mid_path = self.stack@;
        let ghost mid_root = self.root;
        self.stack.truncate(level - 1);
        proof {
            lemma_path_prefix(self.root, mid_path, level - 1);
            assert(self.stack@ =~= mid_path.subrange(0, level - 1));
        }
        let ghost before = self.root;
        let ghost p1 = self.stack@;
        let parent = self.last_on_path();
        let TocEvent { level: _, title, range } = event;
        let id = match self.root.add_with_meta(
            title.as_str(),
            Some(TreeNodeMeta { words: 0, range }),
            parent,
        ) {
            Ok(node) => node.id,
            Err(err) => return Err(err),
        };
        self.stack.push(id);
        proof {
            lemma_path_extend(before, self.root, p1, id);
            lemma_final_step(old_tree, old_path, first0, s, mid_path, level as int, before@, self.root@, self.stack@, id, parent, event);
        }
        Ok(id)
    }

    /// The last node of the path, the parent of a node one level deeper.
    fn last_on_path(&self) -> (r: Option<NodeId>)
        requires
            self.wf(),
        ensures
            r == (if self.stack@.len() == 0 {
                None
            } else {
                Some(self.stack@[self.stack@.len() - 1])
            }),
            r matches Some(p) ==> self.root@.contains(p) && self.root.level_of(p) == self.stack@.len(),
    {
        if self.stack.len() == 0 {
            None
        } else {
            Some(self.stack[self.stack.len() - 1])
        }
    }

    /// Finishes the tree, backfilling container ranges when the options ask for it.
    pub fn build(self) -> (r: TocRoot)
        requires
            self.wf(),
        ensures
            r.wf(),
            r@ == if self.options_spec().backfill_container_range {
                self.root_spec().backfilled()
            } else {
                self.tree()
            },
            forall|x: NodeId| #[trigger] r.level_of(x) == self.root_spec().level_of(x),
    {
        let mut this = self;
        if this.options.backfill_container_range {
            this.backfill_ranges();
        }
        this.root
    }

    /// Fills every container's missing range, deepest nodes first, with the
    /// merge of its children's ranges.
    fn backfill_ranges(&mut self)
        requires
            old(self).wf(),
        ensures
            final(self).root.wf(),
            final(self).root@ == old(self).root.backfilled(),
            final(self).options == old(self).options,
            forall|x: NodeId| #[trigger] final(self).root.level_of(x) == old(self).root.level_of(x),
    {
        let ghost pre = self.root;
        let ids = self.root.node_ids();
        let mut levels: Vec<usize> = Vec::new();
        let mut max_level: usize = 0;
        let mut i: usize = 0;
        while i < ids.len()
            invariant
                self.root == pre,
                pre.wf(),
                i <= ids@.len(),
                levels@.len() == i,
                forall|j: int| 0 <= j < i ==> #[trigger] levels@[j] == pre.level_of(ids@[j]),
                forall|j: int| 0 <= j < i ==> levels@[j] <= max_level,
                forall|x: NodeId| #[trigger] ids@.contains(x) <==> pre@.contains(x),
            decreases ids@.len() - i,
        {
            proof {
                assert(ids@.contains(ids@[i as int]));
            }
            let l = self.root.level(ids[i]).unwrap();
            levels.push(l);
            if l > max_level {
                max_level = l;
            }
            i += 1;
        }
        let mut d: usize = max_level;
        proof {
            let a = backfilled_partly(pre, d as int, Seq::empty());
            assert forall|k: usize| a.nodes.contains_key(k) implies a.nodes[k] == pre@.nodes[k] by {
                assert(ids@.contains(NodeId(k)));
                let j = choose|j: int| 0 <= j < ids@.len() && ids@[j] == NodeId(k);
                assert(levels@[j] == pre.level_of(ids@[j]));
                pre.lemma_levels(NodeId(k), NodeId(k));
                assert(pre@.nodes[k].id == NodeId(k)) by {
                    pre.lemma_levels(NodeId(k), NodeId(k));
                }
            }
            assert(a =~= pre@);
        }
        while d > 0
            invariant
                self.root.wf(),
                pre.wf(),
                self.options == old(self).options,
                ids@.no_duplicates(),
                forall|x: NodeId| #[trigger] ids@.contains(x) <==> pre@.contains(x),
                levels@.len() == ids@.len(),
                forall|j: int| 0 <= j < ids@.len() ==> #[trigger] levels@[j] == pre.level_of(ids@[j]),
                forall|j: int| 0 <= j < ids@.len() ==> levels@[j] <= max_level,
                forall|x: NodeId| #[trigger] self.root.level_of(x) == pre.level_of(x),
                self.root@ == backfilled_partly(pre, d as int, Seq::empty()),
            decreases d,
        {
            let mut i: usize = 0;
            while i < ids.len()
                invariant
                    self.root.wf(),
                    pre.wf(),
                    self.options == old(self).options,
                    0 < d,
                    i <= ids@.len(),
                    ids@.no_duplicates(),
                    forall|x: NodeId| #[trigger] ids@.contains(x) <==> pre@.contains(x),
                    levels@.len() == ids@.len(),
                    forall|j: int| 0 <= j < ids@.len() ==> #[trigger] levels@[j] == pre.level_of(ids@[j]),
                    forall|x: NodeId| #[trigger] self.root.level_of(x) == pre.level_of(x),
                    self.root@ == backfilled_partly(pre, d as int, ids@.subrange(0, i as int)),
                decreases ids@.len() - i,
            {
                if levels[i] == d {
                    proof {
                        assert(ids@.contains(ids@[i as int]));
                    }
                    self.fill_node(Ghost(pre), d, Ghost(ids@.subrange(0, i as int)), ids[i]);
                }
                proof {
                    assert(ids@.subrange(0, i + 1) =~= ids@.subrange(0, i as int).push(ids@[i as int]));
                    if levels[i as int] != d {
                        let a = backfilled_partly(pre, d as int, ids@.subrange(0, i as int));
                        let b = backfilled_partly(pre, d as int, ids@.subrange(0, i + 1));
                        assert forall|k: usize| a.nodes.contains_key(k) implies a.nodes[k] == b.nodes[k] by {
                            if pre.level_of(NodeId(k)) == d {
                                if ids@.subrange(0, i + 1).contains(NodeId(k)) {
                                    let j = choose|j: int| 0 <= j < i + 1 && #[trigger] ids@.subrange(0, i + 1)[j] == NodeId(k);
                                    if j < i {
                                        assert(ids@.subrange(0, i as int)[j] == NodeId(k));
                                    }
                                }
                            }
                        }
                        assert(a =~= b);
                    }
                }
                i += 1;
            }
            proof {
                let a = backfilled_partly(pre, d as int, ids@.subrange(0, ids@.len() as int));
                let b = backfilled_partly(pre, d - 1, Seq::empty());
                assert(ids@.subrange(0, ids@.len() as int) =~= ids@);
                assert forall|k: usize| a.nodes.contains_key(k) implies a.nodes[k] == b.nodes[k] by {
                    assert(pre@.contains(NodeId(k)));
                    assert(ids@.contains(NodeId(k)));
                }
                assert(a =~= b);
            }
            d -= 1;
        }
        proof {
            let a = backfilled_partly(pre, 0, Seq::empty());
            let b = pre.backfilled();
            assert forall|k: usize| a.nodes.contains_key(k) implies a.nodes[k] == b.nodes[k] by {
                pre.lemma_levels(NodeId(k), NodeId(k));
            }
            assert(a =~= b);
        }
    }

    /// Fills the range of `x`, a node at level `d` whose deeper nodes are filled.
    fn fill_node(&mut self, Ghost(pre): Ghost<TocRoot>, d: usize, Ghost(done): Ghost<Seq<NodeId>>, x: NodeId)
        requires
            old(self).root.wf(),
            pre.wf(),
            pre@.contains(x),
            pre.level_of(x) == d,
            !done.contains(x),
            forall|y: NodeId| #[trigger] old(self).root.level_of(y) == pre.level_of(y),
            old(self).root@ == backfilled_partly(pre, d as int, done),
        ensures
            final(self).root.wf(),
            final(self).options == old(self).options,
            forall|y: NodeId| #[trigger] final(self).root.level_of(y) == pre.level_of(y),
            final(self).root@ == backfilled_partly(pre, d as int, done.push(x)),
    {
        proof {
            pre.lemma_filled_range(x);
        }
        let ghost cur = self.root@;
        let node = self.root.get(x).unwrap();
        let mut merged: Option<TextRange> = None;
        if node.meta.range.is_none() && node.children.len() > 0 {
            let mut j: usize = 0;
            while j < node.children.len()
                invariant
                    self.root@ == cur,
                    cur == backfilled_partly(pre, d as int, done),
                    pre.wf(),
                    pre@.contains(x),
                    pre.level_of(x) == d,
                    node@ == cur.node(x),
                    cur.node(x).children == pre@.node(x).children,
                    j <= node.children@.len(),
                    forall|k: int|
                        0 <= k < pre@.node(x).children.len() ==> pre@.contains(
                            #[trigger] pre@.node(x).children[k],
                        ) && pre.level_of(pre@.node(x).children[k]) == pre.level_of(x) + 1,
                    merged == fold_ranges(
                        Seq::new(j as nat, |k: int| pre.filled_range(pre@.node(x).children[k])),
                    ),
                decreases node.children@.len() - j,
            {
                let c = node.children[j];
                let ghost before = merged;
                proof {
                    assert(pre@.contains(c));
                    assert(cur.contains(c));
                    assert(cur.node(c).meta.range == pre.filled_range(c));
                }
                let child = self.root.get(c).unwrap();
                match child.meta.range {
                    Some(r) => {
                        merged = Some(
                            match merged {
                                None => r,
                                Some(m) => m.merge(r),
                            },
                        );
                    },
                    None => {},
                }
                proof {
                    let f = |k: int| pre.filled_range(pre@.node(x).children[k]);
                    assert(Seq::new((j + 1) as nat, f).drop_last() =~= Seq::new(j as nat, f));
                    assert(merged == combine(before, pre.filled_range(c)));
                }
                j += 1;
            }
            proof {
                let cs = pre@.node(x).children;
                assert(Seq::new(cs.len(), |k: int| pre.filled_range(cs[k])) =~= Seq::new(
                    j as nat,
                    |k: int| pre.filled_range(pre@.node(x).children[k]),
                ));
            }
        }
        proof {
            assert(pre@.nodes.contains_key(x.0));
            assert(!is_done(pre, d as int, done, x));
            assert(cur.node(x).meta.range == pre@.node(x).meta.range);
            if pre@.node(x).meta.range is Some || pre@.node(x).children.len() == 0 {
                assert(merged is None);
                if pre@.node(x).meta.range is None {
                    assert(Seq::new(pre@.node(x).children.len(), |j: int| pre.filled_range(pre@.node(x).children[j])) =~= Seq::<Option<TextRange>>::empty());
                }
                assert(pre.filled_range(x) == cur.node(x).meta.range);
            } else {
                assert(merged == pre.filled_range(x));
            }
        }
        match merged {
            Some(r) => {
                let n = self.root.get_mut(x).unwrap();
                n.meta.range = Some(r);
            },
            None => {},
        }
        proof {
            let a = self.root@;
            let b = backfilled_partly(pre, d as int, done.push(x));
            assert forall|k: usize| b.nodes.contains_key(k) implies a.nodes.contains_key(k) && a.nodes[k] == b.nodes[k] by {
                if k != x.0 {
                    assert(is_done(pre, d as int, done, NodeId(k)) == is_done(pre, d as int, done.push(x), NodeId(k))) by {
                        if done.push(x).contains(NodeId(k)) {
                            let j = choose|j: int| 0 <= j < done.push(x).len() && #[trigger] done.push(x)[j] == NodeId(k);
                            if j < done.len() {
                                assert(done[j] == NodeId(k));
                            }
                        }
                        if done.contains(NodeId(k)) {
                            let j = choose|j: int| 0 <= j < done.len() && #[trigger] done[j] == NodeId(k);
                            assert(done.push(x)[j] == NodeId(k));
                        }
                    }
                    assert(cur.nodes[k] == a.nodes[k]);
                } else {
                    assert(done.push(x)[done.len() as int] == x);
                    assert(is_done(pre, d as int, done.push(x), x));
                }
            }
            assert(a.nodes.dom() =~= b.nodes.dom());
            assert(a =~= b);
        }
    }
}

} // verus!
