//! A table of contents as a forest of titled nodes, stored in a slab.
use vstd::prelude::*;

use slab::Slab;

use crate::types::TextRange;

pub mod builder;
pub mod entry;
pub mod error;
pub mod id;
pub mod model;
pub mod seqs;
pub mod store;

pub use builder::{BuilderOptions, TocBuilder, TocEvent};
pub use entry::{EntryView, TocEntry, TocSnapshot};
pub use error::TocError;
pub use id::NodeId;
pub use model::{Anchor, NodeView, TocModel};

use model::{
    depth_under, lemma_depth_le_count, lemma_listed_parent, lemma_moved_depth, lemma_moved_forest,
    lemma_own_list, lemma_reaches_depth, lemma_reaches_step, reaches, shifted,
};
use seqs::{
    find_position, lemma_index_of_unique, lemma_push_fresh, lemma_swap, lemma_without, position,
    remove_id, without,
};
use store::{
    slab_dense, slab_facts, slab_next, slab_nodes, store_contains, store_get, store_get_mut, store_insert,
    store_new, store_remove, store_vacant_key,
};

verus! {

/// Meta info of a node.
#[derive(Debug, Clone, Copy, PartialEq, Eq, Structural)]
pub struct TreeNodeMeta {
    pub words: u64,
    /// The content range of the node itself. `None` for pure container nodes
    /// (like calibre TOC entries whose src points at their first child).
    pub range: Option<TextRange>,
}

/// A node of the tree.
#[derive(Debug)]
pub struct TocNode {
    /// The slab key of the node.
    pub id: NodeId,
    pub title: String,
    /// git-diff like patch content, to be applied while the document is split.
    pub patch: Option<String>,
    pub meta: TreeNodeMeta,
    /// A weak reference to the parent, rebuilt when a tree is restored.
    pub parent: Option<NodeId>,
    pub children: Vec<NodeId>,
}

/// The view of an optional string.
pub open spec fn opt_str_view(s: Option<String>) -> Option<Seq<char>> {
    match s {
        Some(t) => Some(t@),
        None => None,
    }
}

impl View for TocNode {
    type V = NodeView;

    open spec fn view(&self) -> NodeView {
        NodeView {
            id: self.id,
            title: self.title@,
            patch: opt_str_view(self.patch),
            meta: self.meta,
            parent: self.parent,
            children: self.children@,
        }
    }
}

/// Copies an optional string.
pub fn clone_opt_string(s: &Option<String>) -> (r: Option<String>)
    ensures
        opt_str_view(r) == opt_str_view(*s),
{
    match s {
        Some(t) => Some(t.clone()),
        None => None,
    }
}

impl Clone for TocNode {
    fn clone(&self) -> (r: Self)
        ensures
            r@ == self@,
    {
        TocNode {
            id: self.id,
            title: self.title.clone(),
            patch: clone_opt_string(&self.patch),
            meta: self.meta,
            parent: self.parent,
            children: self.children.clone(),
        }
    }
}

/// The root of a TOC tree: the ordered top-level nodes and the node store.
pub struct TocRoot {
    children: Vec<NodeId>,
    container: Slab<TocNode>,
    /// The depth of every node, which makes parent chains finite.
    depth: Ghost<Map<usize, nat>>,
    /// An upper bound of all depths.
    bound: Ghost<nat>,
}

impl View for TocRoot {
    type V = TocModel;

    closed spec fn view(&self) -> TocModel {
        TocModel {
            roots: self.children@,
            nodes: view_nodes(slab_nodes(self.container)),
        }
    }
}

/// The views of the nodes of a slab.
pub open spec fn view_nodes(m: Map<usize, TocNode>) -> Map<usize, NodeView> {
    m.map_values(|n: TocNode| n@)
}

/// Viewing a slab after storing one node is storing the node's view.
proof fn lemma_view_insert()
    ensures
        forall|m: Map<usize, TocNode>, k: usize, v: TocNode| #[trigger]
            view_nodes(m.insert(k, v)) == view_nodes(m).insert(k, v@),
{
    assert forall|m: Map<usize, TocNode>, k: usize, v: TocNode| #[trigger]
        view_nodes(m.insert(k, v)) == view_nodes(m).insert(k, v@) by {
        assert(view_nodes(m.insert(k, v)) =~= view_nodes(m).insert(k, v@));
    }
}

impl TocRoot {
    /// The tree is a forest whose nodes all have finite parent chains.
    pub closed spec fn wf(&self) -> bool {
        &&& self@.is_forest()
        &&& self@.depth_ok(self.depth@, self.bound@)
        &&& slab_facts(self.container)
    }

    /// An upper bound of the levels of all nodes.
    pub closed spec fn depth_bound(&self) -> nat {
        self.bound@
    }

    /// The id the next added node receives.
    pub closed spec fn next_id(&self) -> NodeId {
        NodeId(slab_next(self.container))
    }

    /// The 1-based depth of a node.
    pub closed spec fn level_of(&self, id: NodeId) -> nat {
        self.depth@[id.0]
    }

    /// Whether `x` is `a` or one of its descendants.
    pub closed spec fn in_subtree(&self, a: NodeId, x: NodeId) -> bool {
        reaches(self@, self.depth@, a, x)
    }

    proof fn lemma_view_nodes(&self)
        ensures
            self@.nodes.dom() == slab_nodes(self.container).dom(),
            forall|k: usize| #[trigger]
                slab_nodes(self.container).contains_key(k) ==> self@.nodes[k]
                    == slab_nodes(self.container)[k]@,
    {
    }

    /// The depths and the subtree relation follow the parent links: a
    /// top-level node has level 1, a child is one level below its parent,
    /// and `x` is in the subtree of `a` when it is `a` or its parent is.
    pub proof fn lemma_levels(&self, a: NodeId, x: NodeId)
        requires
            self.wf(),
            self@.contains(x),
        ensures
            self@.node(x).parent is None ==> self.level_of(x) == 1,
            self@.node(x).parent matches Some(p) ==> self@.contains(p) && self.level_of(x)
                == self.level_of(p) + 1 && self@.node(p).children.contains(x),
            self@.node(x).parent is None ==> self@.roots.contains(x),
            self.in_subtree(a, x) == (x == a || (self@.node(x).parent matches Some(p)
                && self.in_subtree(a, p))),
            self.level_of(x) >= 1,
            self.level_of(x) <= self.depth_bound(),
            self@.node(x).id == x,
            forall|j: int|
                0 <= j < self@.node(x).children.len() ==> self@.contains(
                    #[trigger] self@.node(x).children[j],
                ) && self@.node(self@.node(x).children[j]).parent == Some(x),
            self@.node(x).children.no_duplicates(),
    {
        assert(self@.nodes.contains_key(x.0));
        assert(self@.list_ok(Some(NodeId(x.0)), self@.nodes[x.0].children));
        assert(self@.parent_lists(x.0));
        lemma_reaches_step(self@, self.depth@, self.bound@, a, x);
    }


    /// Facts the internal editing steps keep.
    closed spec fn same_store(&self, other: &Self) -> bool {
        &&& self.depth == other.depth
        &&& self.bound == other.bound
        &&& slab_next(self.container) == slab_next(other.container)
        &&& slab_dense(self.container) == slab_dense(other.container)
        &&& slab_facts(other.container) ==> slab_facts(self.container)
    }

    /// No node was ever removed, so added nodes take consecutive ids.
    pub closed spec fn dense(&self) -> bool {
        slab_dense(self.container)
    }

    /// Removes `id` from the children of `parent` (the top level for `None`).
    fn detach_id(&mut self, parent: Option<NodeId>, id: NodeId)
        requires
            parent matches Some(p) ==> old(self)@.contains(p),
            old(self)@.siblings(parent).no_duplicates(),
        ensures
            final(self)@ == old(self)@.set_siblings(parent, without(old(self)@.siblings(parent), id)),
            final(self).same_store(old(self)),
    {
        proof {
            lemma_view_insert();
            self.lemma_view_nodes();
        }
        match parent {
            None => remove_id(&mut self.children, id),
            Some(p) => {
                match store_get_mut(&mut self.container, p.0) {
                    Some(node) => remove_id(&mut node.children, id),
                    None => {},
                }
            },
        }
    }

    /// Inserts `id` at `ix` into the children of `parent`.
    fn insert_id(&mut self, parent: Option<NodeId>, ix: usize, id: NodeId)
        requires
            parent matches Some(p) ==> old(self)@.contains(p),
            ix <= old(self)@.siblings(parent).len(),
        ensures
            final(self)@ == old(self)@.set_siblings(parent, old(self)@.siblings(parent).insert(ix as int, id)),
            final(self).same_store(old(self)),
    {
        proof {
            lemma_view_insert();
            self.lemma_view_nodes();
        }
        match parent {
            None => self.children.insert(ix, id),
            Some(p) => {
                match store_get_mut(&mut self.container, p.0) {
                    Some(node) => node.children.insert(ix, id),
                    None => {},
                }
            },
        }
    }

    /// Sets the parent link of a stored node.
    fn set_parent_of(&mut self, id: NodeId, parent: Option<NodeId>)
        requires
            old(self)@.contains(id),
        ensures
            final(self)@ == old(self)@.set_parent(id, parent),
            final(self).same_store(old(self)),
    {
        proof {
            lemma_view_insert();
            self.lemma_view_nodes();
        }
        match store_get_mut(&mut self.container, id.0) {
            Some(node) => {
                node.parent = parent;
            },
            None => {},
        }
    }

    /// Exchanges the entries `i` and `j` of the children of `parent`.
    fn swap_ids(&mut self, parent: Option<NodeId>, i: usize, j: usize)
        requires
            parent matches Some(p) ==> old(self)@.contains(p),
            i < old(self)@.siblings(parent).len(),
            j < old(self)@.siblings(parent).len(),
        ensures
            final(self)@ == old(self)@.set_siblings(
                parent,
                old(self)@.siblings(parent).update(i as int, old(self)@.siblings(parent)[j as int]).update(
                    j as int,
                    old(self)@.siblings(parent)[i as int],
                ),
            ),
            final(self).same_store(old(self)),
    {
        proof {
            lemma_view_insert();
            self.lemma_view_nodes();
        }
        match parent {
            None => {
                let a = self.children[i];
                let b = self.children[j];
                self.children.set(i, b);
                self.children.set(j, a);
            },
            Some(p) => {
                match store_get_mut(&mut self.container, p.0) {
                    Some(node) => {
                        let a = node.children[i];
                        let b = node.children[j];
                        node.children.set(i, b);
                        node.children.set(j, a);
                    },
                    None => {},
                }
            },
        }
    }

    /// The parent of a stored node.
    fn parent_of(&self, id: NodeId) -> (r: Option<NodeId>)
        requires
            self@.contains(id),
        ensures
            r == self@.node(id).parent,
    {
        match self.get(id) {
            Some(node) => node.parent,
            None => None,
        }
    }

    /// The position of `id` among the children of `parent`, which list it.
    fn position_in(&self, parent: Option<NodeId>, id: NodeId) -> (r: usize)
        requires
            parent matches Some(p) ==> self@.contains(p),
            self@.siblings(parent).contains(id),
            self@.siblings(parent).no_duplicates(),
        ensures
            r == position(self@.siblings(parent), id),
            r < self@.siblings(parent).len(),
            r < usize::MAX,
            self@.siblings(parent)[r as int] == id,
    {
        match parent {
            None => find_position(&self.children, id),
            Some(p) => {
                let node = self.get(p).unwrap();
                find_position(&node.children, id)
            },
        }
    }

    /// The number of children of `parent`.
    fn count_in(&self, parent: Option<NodeId>) -> (r: usize)
        requires
            parent matches Some(p) ==> self@.contains(p),
        ensures
            r == self@.siblings(parent).len(),
    {
        match parent {
            None => self.children.len(),
            Some(p) => self.get(p).unwrap().children.len(),
        }
    }

    /// The entry at `i` of the children of `parent`.
    fn entry_in(&self, parent: Option<NodeId>, i: usize) -> (r: NodeId)
        requires
            parent matches Some(p) ==> self@.contains(p),
            i < self@.siblings(parent).len(),
        ensures
            r == self@.siblings(parent)[i as int],
    {
        match parent {
            None => self.children[i],
            Some(p) => self.get(p).unwrap().children[i],
        }
    }

    /// Moves `id` with its subtree into the children of `np` at `anchor`.
    fn move_node(&mut self, id: NodeId, np: Option<NodeId>, anchor: Anchor)
        requires
            old(self).wf(),
            old(self)@.contains(id),
            np matches Some(p) ==> old(self)@.contains(p) && !old(self).in_subtree(id, p),
            anchor matches Anchor::Before(t) ==> old(self)@.contains(t) && t != id && old(
                self,
            )@.node(t).parent == np,
            anchor matches Anchor::After(t) ==> old(self)@.contains(t) && t != id && old(
                self,
            )@.node(t).parent == np,
        ensures
            final(self)@ == old(self)@.moved(id, np, anchor),
            final(self).wf(),
            final(self).next_id() == old(self).next_id(),
    {
        let ghost m = self@;
        let ghost depth = self.depth@;
        let ghost bound = self.bound@;
        let op = self.parent_of(id);
        proof {
            lemma_own_list(m, id);
            lemma_without(m.siblings(op), id);
            lemma_moved_forest(m, depth, bound, id, np, anchor);
            lemma_moved_depth(m, depth, bound, id, np, anchor);
        }
        self.detach_id(op, id);
        let ghost d = self@;
        assert(d == m.detach(id));
        proof {
            // The anchor target stays in its (possibly shortened) list.
            match anchor {
                Anchor::First => {},
                Anchor::End => {},
                Anchor::Before(t) => {
                    lemma_own_list(m, t);
                },
                Anchor::After(t) => {
                    lemma_own_list(m, t);
                },
            }
            match np {
                None => {},
                Some(p) => {
                    assert(d.contains(p));
                    if op == np {
                    } else {
                        assert(d.siblings(np) == m.siblings(np));
                        lemma_own_list(m, p);
                        assert(m.nodes.contains_key(p.0));
                        assert(m.list_ok(Some(NodeId(p.0)), m.nodes[p.0].children));
                    }
                },
            }
            if np != op {
                match np {
                    None => {
                        assert(m.list_ok(None, m.roots));
                    },
                    Some(p) => {},
                }
            }
            assert(d.siblings(np).no_duplicates());
        }
        let ix: usize = match anchor {
            Anchor::First => 0,
            Anchor::End => self.count_in(np),
            Anchor::Before(t) => self.position_in(np, t),
            Anchor::After(t) => self.position_in(np, t) + 1,
        };
        self.insert_id(np, ix, id);
        self.set_parent_of(id, np);
        proof {
            let delta = depth_under(depth, np) - depth[id.0];
            self.depth = Ghost(shifted(m, depth, id, delta));
            self.bound = Ghost(if delta > 0 { (bound + delta) as nat } else { bound });
        }
    }

    pub fn new() -> (r: Self)
        ensures
            r.wf(),
            r@.roots.len() == 0,
            r@.nodes.dom().is_empty(),
            r.next_id() == NodeId(0),
            r.dense(),
    {
        let r = TocRoot {
            children: Vec::new(),
            container: store_new(),
            depth: Ghost(Map::empty()),
            bound: Ghost(1),
        };
        assert(r@.nodes.dom() =~= Set::empty());
        r
    }

    /// Whether a node with the given id exists.
    pub fn contains(&self, id: NodeId) -> (r: bool)
        ensures
            r == self@.contains(id),
    {
        store_contains(&self.container, id.0)
    }

    /// The node with the given id.
    pub fn get(&self, id: NodeId) -> (r: Option<&TocNode>)
        ensures
            r is Some <==> self@.contains(id),
            r is Some ==> r.unwrap()@ == self@.node(id),
    {
        store_get(&self.container, id.0)
    }

    /// The node with the given id, for editing. What is written through the
    /// reference is what the tree then holds; the tree stays well formed when
    /// the id, parent and children of the node are left as they were.
    pub fn get_mut(&mut self, id: NodeId) -> (r: Option<&mut TocNode>)
        ensures
            r is Some <==> old(self)@.contains(id),
            r is Some ==> r.unwrap()@ == old(self)@.node(id),
            r is None ==> final(self)@ == old(self)@,
            r is Some ==> final(self)@ == (TocModel {
                roots: old(self)@.roots,
                nodes: old(self)@.nodes.insert(id.0, (*final(r.unwrap()))@),
            }),
            final(self).next_id() == old(self).next_id(),
            final(self).depth_bound() == old(self).depth_bound(),
            final(self).dense() == old(self).dense(),
            forall|x: NodeId| #[trigger] final(self).level_of(x) == old(self).level_of(x),
            old(self).wf() && (r is Some ==> (*final(r.unwrap())).id == r.unwrap().id) && (r is Some
                ==> (*final(r.unwrap())).parent == r.unwrap().parent) && (r is Some ==> (*final(
                r.unwrap()
            )).children@ == r.unwrap().children@) ==> final(self).wf(),
    {
        proof {
            lemma_view_insert();
            if self.wf() && self@.contains(id) {
                model::lemma_payload_edit(self@, self.depth@, self.bound@, id);
            }
        }
        store_get_mut(&mut self.container, id.0)
    }


    /// Adds a node with the given title and meta (`None` meta: no words, no
    /// range) as the last child of `parent`, or as the last top-level node.
    /// Fails when the parent does not exist.
    pub fn add_with_meta(&mut self, title: &str, meta: Option<TreeNodeMeta>, parent: Option<
        NodeId,
    >) -> (r: Result<&TocNode, TocError>)
        requires
            old(self).wf(),
        ensures
            final(self).wf(),
            final(self).depth_bound() >= old(self).depth_bound(),
            r is Ok && old(self).dense() ==> final(self).dense() && final(self).next_id().0
                == old(self).next_id().0 + 1,
            parent matches Some(p) ==> (!old(self)@.contains(p) ==> (r matches Err(
                TocError::NodeParentNotFound(q),
            ) && q == p && final(self)@ == old(self)@ && final(self).next_id() == old(
                self,
            ).next_id())),
            (parent is None || old(self)@.contains(parent.unwrap())) ==> r is Ok,
            r is Ok ==> ({
                let id = old(self).next_id();
                let node = NodeView {
                    id,
                    title: title@,
                    patch: None,
                    meta: match meta {
                        Some(m) => m,
                        None => TreeNodeMeta { words: 0, range: None },
                    },
                    parent,
                    children: Seq::empty(),
                };
                &&& r.unwrap()@ == node
                &&& !old(self)@.contains(id)
                &&& final(self)@ == old(self)@.added(id, node)
                &&& final(self).level_of(id) == match parent {
                    None => 1,
                    Some(p) => old(self).level_of(p) + 1,
                }
                &&& forall|x: NodeId| #[trigger]
                    old(self)@.contains(x) ==> final(self).level_of(x) == old(self).level_of(x)
                        && final(self)@.contains(x) && final(self)@.node(x).parent == old(
                        self,
                    )@.node(x).parent
            }),
    {
        if let Some(parent_id) = parent {
            if !self.contains(parent_id) {
                return Err(TocError::NodeParentNotFound(parent_id));
            }
        }
        let ghost m = self@;
        let ghost depth = self.depth@;
        let ghost bound = self.bound@;
        let key = store_vacant_key(&self.container);
        let id = NodeId(key);
        let node = TocNode {
            id,
            title: title.to_owned(),
            patch: None,
            meta: match meta {
                Some(m) => m,
                None => TreeNodeMeta { words: 0, range: None },
            },
            parent,
            children: Vec::new(),
        };
        let ghost nv = node@;
        proof {
            self.lemma_view_nodes();
            lemma_view_insert();
            model::lemma_added_forest(m, depth, bound, id, nv);
        }
        store_insert(&mut self.container, node);
        let ghost m1 = self@;
        assert(m1 == (TocModel { roots: m.roots, nodes: m.nodes.insert(id.0, nv) }));
        proof {
            match parent {
                None => {},
                Some(p) => {
                    assert(p.0 != id.0);
                    assert(m1.siblings(parent) == m.siblings(parent));
                },
            }
        }
        let n = self.count_in(parent);
        self.insert_id(parent, n, id);
        assert(self@ =~= m.added(id, nv)) by {
            assert(m.siblings(parent).insert(n as int, id) =~= m.siblings(parent).push(id));
        }
        proof {
            let du = depth_under(depth, parent);
            self.depth = Ghost(depth.insert(id.0, du));
            self.bound = Ghost(if du > bound { du } else { bound });
        }
        let stored = store_get(&self.container, key);
        proof {
            self.lemma_view_nodes();
        }
        match stored {
            Some(n) => Ok(n),
            None => Err(TocError::NodeParentNotFound(id)),
        }
    }

    /// Adds a node covering `range` (see `add_with_meta`).
    pub fn add(&mut self, title: &str, range: TextRange, parent: Option<NodeId>) -> (r: Result<
        &TocNode,
        TocError,
    >)
        requires
            old(self).wf(),
        ensures
            final(self).wf(),
            parent matches Some(p) ==> (!old(self)@.contains(p) ==> (r matches Err(
                TocError::NodeParentNotFound(q),
            ) && q == p && final(self)@ == old(self)@)),
            (parent is None || old(self)@.contains(parent.unwrap())) ==> r is Ok,
            r is Ok ==> ({
                let id = old(self).next_id();
                let node = NodeView {
                    id,
                    title: title@,
                    patch: None,
                    meta: TreeNodeMeta { words: 0, range: Some(range) },
                    parent,
                    children: Seq::empty(),
                };
                &&& r.unwrap()@ == node
                &&& !old(self)@.contains(id)
                &&& final(self)@ == old(self)@.added(id, node)
                &&& final(self).level_of(id) == match parent {
                    None => 1,
                    Some(p) => old(self).level_of(p) + 1,
                }
                &&& forall|x: NodeId| #[trigger]
                    old(self)@.contains(x) ==> final(self).level_of(x) == old(self).level_of(x)
            }),
            final(self).depth_bound() >= old(self).depth_bound(),
    {
        self.add_with_meta(title, Some(TreeNodeMeta { words: 0, range: Some(range) }), parent)
    }

    /// Removes a leaf from the tree; an unknown id changes nothing.
    pub(crate) fn remove_leaf(&mut self, id: NodeId)
        requires
            old(self).wf(),
            old(self)@.contains(id) ==> old(self)@.node(id).children.len() == 0,
        ensures
            final(self).wf(),
            old(self)@.contains(id) ==> final(self)@ == old(self)@.removed(id),
            !old(self)@.contains(id) ==> final(self)@ == old(self)@,
            final(self).depth_bound() == old(self).depth_bound(),
            forall|x: NodeId| #[trigger] final(self).level_of(x) == old(self).level_of(x),
    {
        if !self.contains(id) {
            return;
        }
        let ghost m = self@;
        proof {
            self.lemma_view_nodes();
            lemma_view_insert();
            model::lemma_removed_forest(m, self.depth@, self.bound@, id);
            lemma_own_list(m, id);
        }
        let parent = self.parent_of(id);
        self.detach_id(parent, id);
        let ghost d = self@;
        proof {
            self.lemma_view_nodes();
        }
        let _node = store_remove(&mut self.container, id.0);
        assert(self@ =~= m.removed(id)) by {
            assert(self@.nodes =~= d.nodes.remove(id.0));
        }
    }

    /// Swaps a node with its previous sibling, if it has one.
    pub fn move_up(&mut self, id: NodeId)
        requires
            old(self).wf(),
        ensures
            final(self).wf(),
            final(self).next_id() == old(self).next_id(),
            forall|x: NodeId| #[trigger] final(self).level_of(x) == old(self).level_of(x),
            final(self).depth_bound() == old(self).depth_bound(),
            final(self)@ == old(self)@.moved_up(id),
    {
        if !self.contains(id) {
            return;
        }
        let ghost m = self@;
        let parent = self.parent_of(id);
        proof {
            lemma_own_list(m, id);
        }
        let index = self.position_in(parent, id);
        if index > 0 {
            proof {
                lemma_swap(m.siblings(parent), index as int, index as int - 1);
                self.lemma_swapped_wf(parent, index as int, index as int - 1);
            }
            self.swap_ids(parent, index, index - 1);
        }
    }

    /// Swaps a node with its next sibling, if it has one.
    pub fn move_down(&mut self, id: NodeId)
        requires
            old(self).wf(),
        ensures
            final(self).wf(),
            final(self).next_id() == old(self).next_id(),
            forall|x: NodeId| #[trigger] final(self).level_of(x) == old(self).level_of(x),
            final(self).depth_bound() == old(self).depth_bound(),
            final(self)@ == old(self)@.moved_down(id),
    {
        if !self.contains(id) {
            return;
        }
        let ghost m = self@;
        let parent = self.parent_of(id);
        proof {
            lemma_own_list(m, id);
        }
        let index = self.position_in(parent, id);
        let count = self.count_in(parent);
        if index < count - 1 {
            proof {
                lemma_swap(m.siblings(parent), index as int, index as int + 1);
                self.lemma_swapped_wf(parent, index as int, index as int + 1);
            }
            self.swap_ids(parent, index, index + 1);
        }
    }

    /// Moving a node up and then down again gives the tree back, when the
    /// first move moved it; so does moving it down and then up.
    pub proof fn lemma_move_up_down(&self, id: NodeId)
        requires
            self.wf(),
            self@.contains(id),
        ensures
            position(self@.siblings(self@.node(id).parent), id) > 0 ==> self@.moved_up(id).moved_down(id)
                == self@,
            position(self@.siblings(self@.node(id).parent), id) < self@.siblings(self@.node(id).parent).len()
                - 1 ==> self@.moved_down(id).moved_up(id) == self@,
    {
        let m = self@;
        let q = m.node(id).parent;
        let l = m.siblings(q);
        let i = position(l, id);
        lemma_own_list(m, id);
        self.lemma_levels(id, id);
        lemma_index_of_unique(l, id, l.index_of(id));
        if i > 0 {
            lemma_swap(l, i, i - 1);
            self.lemma_swap_back(q, l, i, i - 1);
        }
        if i < l.len() - 1 {
            lemma_swap(l, i, i + 1);
            self.lemma_swap_back(q, l, i, i + 1);
        }
    }

    /// Swapping `id` at `i` with the entry at `j`, then swapping it back,
    /// restores the tree.
    proof fn lemma_swap_back(&self, q: Option<NodeId>, l: Seq<NodeId>, i: int, j: int)
        requires
            self.wf(),
            q == self@.node(l[i]).parent,
            l == self@.siblings(q),
            self@.contains(l[i]),
            l.no_duplicates(),
            0 <= i < l.len(),
            0 <= j < l.len(),
            i != j,
            position(l, l[i]) == i,
        ensures
            ({
                let id = l[i];
                let l1 = l.update(i, l[j]).update(j, id);
                let m1 = self@.set_siblings(q, l1);
                &&& m1.contains(id)
                &&& m1.node(id).parent == q
                &&& m1.siblings(q) == l1
                &&& position(l1, id) == j
                &&& m1.set_siblings(q, l1.update(j, l1[i]).update(i, id)) == self@
            }),
    {
        let m = self@;
        let id = l[i];
        let l1 = l.update(i, l[j]).update(j, id);
        let m1 = m.set_siblings(q, l1);
        lemma_swap(l, i, j);
        lemma_index_of_unique(l1, id, j);
        self.lemma_levels(id, id);
        match q {
            Some(p) => {
                self.lemma_levels(p, p);
                assert(p != id);
            },
            None => {},
        }
        assert(l1.update(j, l1[i]).update(i, id) =~= l);
        let m2 = m1.set_siblings(q, l);
        match q {
            Some(p) => {
                assert(m2.nodes =~= m.nodes);
            },
            None => {
                assert(m2.nodes =~= m.nodes);
            },
        }
    }

    /// Swapping two entries of a list keeps the tree well formed.
    proof fn lemma_swapped_wf(&self, q: Option<NodeId>, i: int, j: int)
        requires
            self.wf(),
            q matches Some(p) ==> self@.contains(p),
            0 <= i < self@.siblings(q).len(),
            0 <= j < self@.siblings(q).len(),
        ensures
            ({
                let l = self@.siblings(q);
                let r = self@.set_siblings(q, l.update(i, l[j]).update(j, l[i]));
                r.is_forest() && r.depth_ok(self.depth@, self.bound@)
            }),
    {
        let m = self@;
        let l = m.siblings(q);
        assert(l.no_duplicates()) by {
            match q {
                None => {
                    assert(m.list_ok(None, m.roots));
                },
                Some(p) => {
                    assert(m.nodes.contains_key(p.0));
                    assert(m.list_ok(Some(NodeId(p.0)), m.nodes[p.0].children));
                },
            }
        }
        lemma_swap(l, i, j);
        let sw = l.update(i, l[j]).update(j, l[i]);
        let r = m.set_siblings(q, sw);
        assert(r.nodes.dom() =~= m.nodes.dom());
        assert forall|o: Option<NodeId>, y: NodeId|
            (o matches Some(p) ==> m.contains(p)) implies #[trigger] r.siblings(o).contains(y)
            <==> m.siblings(o).contains(y) by {}
        assert(r.list_ok(None, r.roots)) by {
            assert(m.list_ok(None, m.roots));
            assert forall|j2: int| 0 <= j2 < r.roots.len() implies r.contains(#[trigger] r.roots[j2])
                && r.node(r.roots[j2]).parent == None::<NodeId> by {
                let y = r.roots[j2];
                assert(r.siblings(None).contains(y));
                lemma_listed_parent(m, None, y);
            }
        }
        assert forall|k: usize| #[trigger] r.nodes.contains_key(k) implies r.list_ok(
            Some(NodeId(k)),
            r.nodes[k].children,
        ) by {
            let o = Some(NodeId(k));
            assert(m.nodes.contains_key(k));
            assert(m.list_ok(o, m.nodes[k].children));
            assert(r.siblings(o) == r.nodes[k].children);
            assert forall|j2: int| 0 <= j2 < r.nodes[k].children.len() implies r.contains(
                #[trigger] r.nodes[k].children[j2],
            ) && r.node(r.nodes[k].children[j2]).parent == o by {
                let y = r.nodes[k].children[j2];
                assert(r.siblings(o).contains(y));
                lemma_listed_parent(m, o, y);
            }
        }
        assert forall|k: usize| #[trigger] r.nodes.contains_key(k) implies r.parent_lists(k) by {
            let y = NodeId(k);
            lemma_own_list(m, y);
            let o = m.node(y).parent;
            assert(r.siblings(o).contains(y));
        }
        assert forall|k: usize| #[trigger] r.nodes.contains_key(k) implies {
            &&& self.depth@.contains_key(k)
            &&& 1 <= self.depth@[k] <= self.bound@
            &&& match r.nodes[k].parent {
                None => self.depth@[k] == 1,
                Some(p) => self.depth@[k] == self.depth@[p.0] + 1,
            }
        } by {
            assert(m.nodes.contains_key(k));
        }
    }

    /// Moves a node out of its parent, right after... to the end of its
    /// grandparent's children (the top level when the parent is top-level).
    /// A top-level node stays where it is.
    pub fn move_right(&mut self, id: NodeId)
        requires
            old(self).wf(),
        ensures
            final(self).wf(),
            final(self).next_id() == old(self).next_id(),
            ({
                let m = old(self)@;
                final(self)@ == if m.contains(id) && m.node(id).parent is Some {
                    m.moved(id, m.node(m.node(id).parent.unwrap()).parent, Anchor::End)
                } else {
                    m
                }
            }),
    {
        if !self.contains(id) {
            return;
        }
        let parent = self.parent_of(id);
        if parent.is_none() {
            return;
        }
        let parent_id = parent.unwrap();
        proof {
            lemma_own_list(self@, id);
        }
        let grand_parent = self.parent_of(parent_id);
        proof {
            let m = self@;
            self.lemma_levels(id, id);
            self.lemma_levels(id, parent_id);
            lemma_own_list(m, parent_id);
            match grand_parent {
                None => {},
                Some(g) => {
                    self.lemma_levels(id, g);
                    assert(self@.nodes.contains_key(g.0));
                    if reaches(m, self.depth@, id, g) {
                        lemma_reaches_depth(m, self.depth@, self.bound@, id, g);
                    }
                },
            }
        }
        self.move_node(id, grand_parent, Anchor::End);
    }

    /// Moves a node to the front of the children of its previous sibling,
    /// so that it becomes that sibling's first child. A first child stays
    /// where it is.
    pub fn move_left(&mut self, id: NodeId)
        requires
            old(self).wf(),
        ensures
            final(self).wf(),
            final(self).next_id() == old(self).next_id(),
            ({
                let m = old(self)@;
                let l = m.siblings(m.node(id).parent);
                let i = position(l, id);
                final(self)@ == if m.contains(id) && i > 0 {
                    m.moved(id, Some(l[i - 1]), Anchor::First)
                } else {
                    m
                }
            }),
    {
        if !self.contains(id) {
            return;
        }
        let ghost m = self@;
        let parent = self.parent_of(id);
        proof {
            lemma_own_list(m, id);
        }
        let index = self.position_in(parent, id);
        if index == 0 {
            return;
        }
        let prev = self.entry_in(parent, index - 1);
        proof {
            let l = m.siblings(parent);
            lemma_listed_parent(m, parent, prev);
            assert(l[index as int - 1] != l[index as int]);
            self.lemma_levels(id, id);
            self.lemma_levels(id, prev);
            match parent {
                None => {},
                Some(p) => {
                    self.lemma_levels(id, p);
                },
            }
            assert(m.nodes.contains_key(prev.0));
            assert(m.nodes.contains_key(id.0));
            if reaches(m, self.depth@, id, prev) {
                lemma_reaches_depth(m, self.depth@, self.bound@, id, prev);
            }
        }
        self.move_node(id, Some(prev), Anchor::First);
    }

    /// Shared precondition of the moves next to a target: the target is not
    /// the moved node nor inside its subtree (moving a node next to or into
    /// its own subtree would detach that subtree into a cycle).
    pub open spec fn move_next_to_ok(&self, id: NodeId, target: NodeId) -> bool {
        self@.contains(id) && self@.contains(target) ==> !self.in_subtree(id, target)
    }

    /// Establishes what `move_node` needs to put `id` next to `target`.
    proof fn lemma_next_to(&self, id: NodeId, target: NodeId)
        requires
            self.wf(),
            self@.contains(id),
            self@.contains(target),
            !self.in_subtree(id, target),
        ensures
            target != id,
            self@.node(target).parent matches Some(p) ==> self@.contains(p) && !self.in_subtree(
                id,
                p,
            ),
    {
        self.lemma_levels(id, target);
        lemma_own_list(self@, target);
    }

    /// Moves a node with its subtree right before `target`, among the
    /// target's siblings. Unknown ids change nothing.
    pub fn move_before(&mut self, id: NodeId, target_node: NodeId)
        requires
            old(self).wf(),
            old(self).move_next_to_ok(id, target_node),
        ensures
            final(self).wf(),
            final(self).next_id() == old(self).next_id(),
            ({
                let m = old(self)@;
                final(self)@ == if m.contains(id) && m.contains(target_node) {
                    m.moved(id, m.node(target_node).parent, Anchor::Before(target_node))
                } else {
                    m
                }
            }),
    {
        if !self.contains(id) || !self.contains(target_node) {
            return;
        }
        proof {
            self.lemma_next_to(id, target_node);
        }
        let target_parent = self.parent_of(target_node);
        self.move_node(id, target_parent, Anchor::Before(target_node));
    }

    /// Moves a node with its subtree right after `target`, among the
    /// target's siblings. Unknown ids change nothing.
    pub fn move_after(&mut self, id: NodeId, target_node: NodeId)
        requires
            old(self).wf(),
            old(self).move_next_to_ok(id, target_node),
        ensures
            final(self).wf(),
            final(self).next_id() == old(self).next_id(),
            ({
                let m = old(self)@;
                final(self)@ == if m.contains(id) && m.contains(target_node) {
                    m.moved(id, m.node(target_node).parent, Anchor::After(target_node))
                } else {
                    m
                }
            }),
    {
        if !self.contains(id) || !self.contains(target_node) {
            return;
        }
        proof {
            self.lemma_next_to(id, target_node);
        }
        let target_parent = self.parent_of(target_node);
        self.move_node(id, target_parent, Anchor::After(target_node));
    }

    /// Moves a node with its subtree to the end of the children of `parent`.
    /// Unknown ids change nothing.
    pub fn move_belong_to(&mut self, id: NodeId, parent: NodeId)
        requires
            old(self).wf(),
            old(self).move_next_to_ok(id, parent),
        ensures
            final(self).wf(),
            final(self).next_id() == old(self).next_id(),
            ({
                let m = old(self)@;
                final(self)@ == if m.contains(id) && m.contains(parent) {
                    m.moved(id, Some(parent), Anchor::End)
                } else {
                    m
                }
            }),
    {
        if !self.contains(id) || !self.contains(parent) {
            return;
        }
        self.move_node(id, Some(parent), Anchor::End);
    }


    /// The range of `x` once container ranges are filled in bottom-up.
    pub closed spec fn filled_range(&self, x: NodeId) -> Option<TextRange> {
        model::filled(self@, x, self.bound@)
    }


    /// The tree with every node's range replaced by its filled range.
    pub open spec fn backfilled(&self) -> TocModel {
        TocModel {
            roots: self@.roots,
            nodes: Map::new(
                |k: usize| self@.nodes.contains_key(k),
                |k: usize|
                    NodeView {
                        id: self@.nodes[k].id,
                        title: self@.nodes[k].title,
                        patch: self@.nodes[k].patch,
                        meta: TreeNodeMeta {
                            words: self@.nodes[k].meta.words,
                            range: self.filled_range(NodeId(k)),
                        },
                        parent: self@.nodes[k].parent,
                        children: self@.nodes[k].children,
                    },
            ),
        }
    }

    /// A filled range is the node's own range, or else the merge of the
    /// filled ranges of its children, which lie one level deeper.
    pub proof fn lemma_filled_range(&self, x: NodeId)
        requires
            self.wf(),
            self@.contains(x),
        ensures
            self.filled_range(x) == if self@.node(x).meta.range is Some {
                self@.node(x).meta.range
            } else {
                model::fold_ranges(
                    Seq::new(
                        self@.node(x).children.len(),
                        |j: int| self.filled_range(self@.node(x).children[j]),
                    ),
                )
            },
            forall|j: int|
                0 <= j < self@.node(x).children.len() ==> self@.contains(
                    #[trigger] self@.node(x).children[j],
                ) && self@.node(self@.node(x).children[j]).parent == Some(x) && self.level_of(
                    self@.node(x).children[j],
                ) == self.level_of(x) + 1,
    {
        let m = self@;
        assert(m.nodes.contains_key(x.0));
        assert(m.list_ok(Some(NodeId(x.0)), m.nodes[x.0].children));
        assert(m.nodes[x.0].id == x);
        let cs = m.nodes[x.0].children;
        assert forall|j: int| 0 <= j < cs.len() implies self@.contains(#[trigger] cs[j])
            && self@.node(cs[j]).parent == Some(x) && self.level_of(cs[j]) == self.level_of(x)
            + 1 by {
            assert(m.nodes.contains_key(cs[j].0));
        }
        if m.nodes[x.0].meta.range is None {
            let b = self.bound@;
            assert(b >= 1);
            model::lemma_filled_children_fold(m, cs, (b - 1) as nat);
            assert forall|j: int| 0 <= j < cs.len() implies model::filled(m, cs[j], (b - 1) as nat)
                == model::filled(m, cs[j], b) by {
                assert(m.nodes.contains_key(cs[j].0));
                model::lemma_filled_fuel(m, self.depth@, b, cs[j], (b - 1) as nat);
            }
            assert(model::filled_list(m, cs, (b - 1) as nat) =~= Seq::new(
                cs.len(),
                |j: int| self.filled_range(cs[j]),
            ));
        }
    }

    /// The top-level nodes are stored, each listed once, at level 1.
    pub proof fn lemma_roots(&self)
        requires
            self.wf(),
        ensures
            self@.roots.no_duplicates(),
            forall|j: int|
                0 <= j < self@.roots.len() ==> self@.contains(#[trigger] self@.roots[j])
                    && self@.node(self@.roots[j]).parent is None && self.level_of(self@.roots[j])
                    == 1,
    {
        assert(self@.list_ok(None, self@.roots));
        assert forall|j: int| 0 <= j < self@.roots.len() implies self@.contains(
            #[trigger] self@.roots[j],
        ) && self@.node(self@.roots[j]).parent is None && self.level_of(self@.roots[j]) == 1 by {
            assert(self@.nodes.contains_key(self@.roots[j].0));
        }
    }

    /// The top-level ids.
    pub fn root_ids(&self) -> (r: &Vec<NodeId>)
        ensures
            r@ == self@.roots,
    {
        &self.children
    }

    /// The ids of all nodes, each once, in increasing order.
    pub fn node_ids(&self) -> (r: Vec<NodeId>)
        ensures
            r@.no_duplicates(),
            forall|a: int, b: int| 0 <= a < b < r@.len() ==> (#[trigger] r@[a]).0 < (#[trigger] r@[b]).0,
            forall|x: NodeId| #[trigger] r@.contains(x) <==> self@.contains(x),
    {
        let keys = store::store_keys(&self.container);
        let mut ids: Vec<NodeId> = Vec::new();
        let mut i: usize = 0;
        while i < keys.len()
            invariant
                i <= keys@.len(),
                ids@.len() == i,
                forall|j: int| 0 <= j < i ==> #[trigger] ids@[j] == NodeId(keys@[j]),
                forall|a: int, b: int| 0 <= a < b < keys@.len() ==> keys@[a] < keys@[b],
            decreases keys@.len() - i,
        {
            ids.push(NodeId(keys[i]));
            i += 1;
        }
        proof {
            self.lemma_view_nodes();
            assert forall|a: int, b: int| 0 <= a < b < ids@.len() implies ids@[a] != ids@[b] by {
                assert(keys@[a] < keys@[b]);
            }
            assert forall|x: NodeId| #[trigger] ids@.contains(x) <==> self@.contains(x) by {
                if ids@.contains(x) {
                    let j = choose|j: int| 0 <= j < ids@.len() && ids@[j] == x;
                    assert(keys@.contains(keys@[j]));
                }
                if self@.contains(x) {
                    assert(keys@.contains(x.0));
                    let j = choose|j: int| 0 <= j < keys@.len() && keys@[j] == x.0;
                    assert(ids@[j] == x);
                }
            }
        }
        ids
    }

    pub fn get_root(&self) -> (r: &TocRoot)
        ensures
            r == self,
    {
        self
    }

    /// 1-based depth of the node, computed by walking the parent chain.
    pub fn level(&self, id: NodeId) -> (r: Option<usize>)
        requires
            self.wf(),
        ensures
            r is Some <==> self@.contains(id),
            r is Some ==> r.unwrap() == self.level_of(id),
    {
        let mut node = match self.get(id) {
            Some(n) => n,
            None => return None,
        };
        proof {
            self.lemma_view_nodes();
            lemma_depth_le_count(self@, self.depth@, self.bound@, id);
            assert(self@.nodes.contains_key(id.0));
        }
        let mut level: usize = 1;
        while node.parent.is_some()
            invariant
                self.wf(),
                self@.contains(node.id),
                node@ == self@.node(node.id),
                level + self.level_of(node.id) == self.level_of(id) + 1,
                self.level_of(id) <= self@.nodes.dom().len(),
                self@.nodes.dom().len() <= usize::MAX,
                1 <= self.level_of(node.id),
            decreases self.level_of(node.id),
        {
            let parent_id = node.parent.unwrap();
            proof {
                assert(self@.nodes.contains_key(node.id.0));
                assert(self@.nodes[node.id.0].id == node.id);
                assert(self@.nodes.contains_key(parent_id.0));
                assert(self@.nodes[parent_id.0].id == parent_id);
            }
            level += 1;
            node = self.get(parent_id).unwrap();
        }
        proof {
            assert(self@.nodes.contains_key(node.id.0));
        }
        Some(level)
    }
}

} // verus!
