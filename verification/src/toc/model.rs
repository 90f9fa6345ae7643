//! The mathematical model of a TOC tree and the facts its operations rely on.
use vstd::prelude::*;

use super::id::NodeId;
use super::seqs::{lemma_insert_fresh, lemma_without, position, without};
use super::TreeNodeMeta;
use crate::types::TextRange;

verus! {

/// A node as a value: its payload, parent link and ordered children.
#[verifier::ext_equal]
pub struct NodeView {
    pub id: NodeId,
    pub title: Seq<char>,
    pub patch: Option<Seq<char>>,
    pub meta: TreeNodeMeta,
    pub parent: Option<NodeId>,
    pub children: Seq<NodeId>,
}

/// Where a moved node is put in its new sibling list.
#[derive(Clone, Copy, PartialEq, Eq, Structural)]
pub enum Anchor {
    /// At the front of the list.
    First,
    /// At the end of the list.
    End,
    Before(NodeId),
    After(NodeId),
}

/// A TOC tree as a value: the ordered top-level ids and the nodes by key.
#[verifier::ext_equal]
pub struct TocModel {
    pub roots: Seq<NodeId>,
    pub nodes: Map<usize, NodeView>,
}

impl TocModel {
    pub open spec fn contains(self, id: NodeId) -> bool {
        self.nodes.contains_key(id.0)
    }

    pub open spec fn node(self, id: NodeId) -> NodeView {
        self.nodes[id.0]
    }

    /// The list holding the children of `parent`; the top-level list for `None`.
    pub open spec fn siblings(self, parent: Option<NodeId>) -> Seq<NodeId> {
        match parent {
            None => self.roots,
            Some(p) => self.nodes[p.0].children,
        }
    }

    pub open spec fn set_siblings(self, parent: Option<NodeId>, s: Seq<NodeId>) -> TocModel {
        match parent {
            None => TocModel { roots: s, nodes: self.nodes },
            Some(p) => TocModel {
                roots: self.roots,
                nodes: self.nodes.insert(
                    p.0,
                    NodeView {
                        id: self.nodes[p.0].id,
                        title: self.nodes[p.0].title,
                        patch: self.nodes[p.0].patch,
                        meta: self.nodes[p.0].meta,
                        parent: self.nodes[p.0].parent,
                        children: s,
                    },
                ),
            },
        }
    }

    pub open spec fn set_parent(self, id: NodeId, parent: Option<NodeId>) -> TocModel {
        TocModel {
            roots: self.roots,
            nodes: self.nodes.insert(
                id.0,
                NodeView {
                    id: self.nodes[id.0].id,
                    title: self.nodes[id.0].title,
                    patch: self.nodes[id.0].patch,
                    meta: self.nodes[id.0].meta,
                    parent,
                    children: self.nodes[id.0].children,
                },
            ),
        }
    }

    /// Every node is stored under its own id.
    pub open spec fn ids_ok(self) -> bool {
        forall|k: usize| #[trigger] self.nodes.contains_key(k) ==> self.nodes[k].id == NodeId(k)
    }

    /// A list owned by `owner` lists distinct stored nodes whose parent is `owner`.
    pub open spec fn list_ok(self, owner: Option<NodeId>, s: Seq<NodeId>) -> bool {
        &&& s.no_duplicates()
        &&& forall|j: int|
            0 <= j < s.len() ==> self.contains(#[trigger] s[j]) && self.node(s[j]).parent == owner
    }

    /// Every node is listed by its parent (top-level nodes by the root list).
    pub open spec fn parent_lists(self, k: usize) -> bool {
        match self.nodes[k].parent {
            None => self.roots.contains(NodeId(k)),
            Some(p) => self.contains(p) && self.node(p).children.contains(NodeId(k)),
        }
    }

    /// The parent links and the child lists describe the same forest.
    pub open spec fn is_forest(self) -> bool {
        &&& self.ids_ok()
        &&& self.list_ok(None, self.roots)
        &&& forall|k: usize| #[trigger]
            self.nodes.contains_key(k) ==> self.list_ok(Some(NodeId(k)), self.nodes[k].children)
        &&& forall|k: usize| #[trigger] self.nodes.contains_key(k) ==> self.parent_lists(k)
    }

    /// `depth` gives every node its 1-based depth, at most `bound`.
    pub open spec fn depth_ok(self, depth: Map<usize, nat>, bound: nat) -> bool {
        forall|k: usize| #[trigger]
            self.nodes.contains_key(k) ==> {
                &&& depth.contains_key(k)
                &&& 1 <= depth[k] <= bound
                &&& match self.nodes[k].parent {
                    None => depth[k] == 1,
                    Some(p) => depth[k] == depth[p.0] + 1,
                }
            }
    }

    /// Remove `id` from the list that holds it.
    pub open spec fn detach(self, id: NodeId) -> TocModel {
        let op = self.node(id).parent;
        self.set_siblings(op, without(self.siblings(op), id))
    }

    /// Put `id` into the children of `np` (top level for `None`) at `anchor`.
    pub open spec fn attach(self, id: NodeId, np: Option<NodeId>, anchor: Anchor) -> TocModel {
        let l = self.siblings(np);
        let ix = match anchor {
            Anchor::First => 0,
            Anchor::End => l.len() as int,
            Anchor::Before(t) => position(l, t),
            Anchor::After(t) => position(l, t) + 1,
        };
        self.set_siblings(np, l.insert(ix, id)).set_parent(id, np)
    }

    /// Move `id`, with its subtree, to the children of `np` at `anchor`.
    pub open spec fn moved(self, id: NodeId, np: Option<NodeId>, anchor: Anchor) -> TocModel {
        self.detach(id).attach(id, np, anchor)
    }

    /// `id` swapped with its previous sibling, when it has one.
    pub open spec fn moved_up(self, id: NodeId) -> TocModel {
        let q = self.node(id).parent;
        let l = self.siblings(q);
        let i = position(l, id);
        if self.contains(id) && i > 0 {
            self.set_siblings(q, l.update(i, l[i - 1]).update(i - 1, id))
        } else {
            self
        }
    }

    /// `id` swapped with its next sibling, when it has one.
    pub open spec fn moved_down(self, id: NodeId) -> TocModel {
        let q = self.node(id).parent;
        let l = self.siblings(q);
        let i = position(l, id);
        if self.contains(id) && i < l.len() - 1 {
            self.set_siblings(q, l.update(i, l[i + 1]).update(i + 1, id))
        } else {
            self
        }
    }

    /// A new node stored under `id` and appended to the children of its parent.
    pub open spec fn added(self, id: NodeId, node: NodeView) -> TocModel {
        TocModel {
            roots: self.roots,
            nodes: self.nodes.insert(id.0, node),
        }.set_siblings(node.parent, self.siblings(node.parent).push(id))
    }

    /// `id` taken out of the nodes and out of the list that holds it.
    pub open spec fn removed(self, id: NodeId) -> TocModel {
        let d = self.detach(id);
        TocModel { roots: d.roots, nodes: d.nodes.remove(id.0) }
    }
}

/// Whether `x` lies in the subtree rooted at `a` (including `a` itself),
/// following parent links that strictly decrease `depth`.
pub open spec fn reaches(m: TocModel, depth: Map<usize, nat>, a: NodeId, x: NodeId) -> bool
    decreases depth[x.0],
{
    if x == a {
        true
    } else if !m.nodes.contains_key(x.0) {
        false
    } else {
        match m.nodes[x.0].parent {
            None => false,
            Some(p) => if depth[p.0] < depth[x.0] {
                reaches(m, depth, a, p)
            } else {
                false
            },
        }
    }
}

/// Depths after moving the subtree at `a` so that its depths change by `delta`.
pub open spec fn shifted(m: TocModel, depth: Map<usize, nat>, a: NodeId, delta: int) -> Map<
    usize,
    nat,
> {
    Map::new(
        |k: usize| depth.contains_key(k),
        |k: usize|
            if reaches(m, depth, a, NodeId(k)) {
                (depth[k] + delta) as nat
            } else {
                depth[k]
            },
    )
}

/// In a forest, every listed node has the list owner as parent.
pub proof fn lemma_listed_parent(m: TocModel, owner: Option<NodeId>, x: NodeId)
    requires
        m.is_forest(),
        owner matches Some(p) ==> m.contains(p),
        m.siblings(owner).contains(x),
    ensures
        m.contains(x),
        m.node(x).parent == owner,
{
    let s = m.siblings(owner);
    let j = choose|j: int| 0 <= j < s.len() && s[j] == x;
    match owner {
        None => {},
        Some(p) => {
            assert(m.nodes.contains_key(p.0));
            assert(m.list_ok(Some(NodeId(p.0)), m.nodes[p.0].children));
        },
    }
}

/// A node's list is the one of its parent, and it is listed there.
pub proof fn lemma_own_list(m: TocModel, x: NodeId)
    requires
        m.is_forest(),
        m.contains(x),
    ensures
        m.siblings(m.node(x).parent).contains(x),
        m.node(x).parent matches Some(p) ==> m.contains(p),
        m.siblings(m.node(x).parent).no_duplicates(),
        m.node(x).id == x,
{
    assert(m.nodes.contains_key(x.0));
    assert(m.parent_lists(x.0));
    match m.node(x).parent {
        None => {},
        Some(p) => {
            assert(m.nodes.contains_key(p.0));
        },
    }
}

/// Nodes in the subtree at `a` are at least as deep as `a`.
pub proof fn lemma_reaches_depth(m: TocModel, depth: Map<usize, nat>, bound: nat, a: NodeId, x: NodeId)
    requires
        m.is_forest(),
        m.depth_ok(depth, bound),
        m.contains(x),
        m.contains(a),
        reaches(m, depth, a, x),
    ensures
        depth[x.0] >= depth[a.0],
        x != a ==> depth[x.0] > depth[a.0],
    decreases depth[x.0],
{
    assert(m.nodes.contains_key(x.0));
    assert(m.parent_lists(x.0));
    if x != a {
        match m.nodes[x.0].parent {
            None => {},
            Some(p) => {
                assert(m.nodes.contains_key(p.0));
                lemma_reaches_depth(m, depth, bound, a, p);
            },
        }
    }
}

/// Unfolding `reaches` along a real parent link.
pub proof fn lemma_reaches_step(m: TocModel, depth: Map<usize, nat>, bound: nat, a: NodeId, x: NodeId)
    requires
        m.depth_ok(depth, bound),
        m.contains(x),
    ensures
        reaches(m, depth, a, x) == (x == a || (m.node(x).parent matches Some(p) && reaches(
            m,
            depth,
            a,
            p,
        ))),
{
    assert(m.nodes.contains_key(x.0));
}

/// A list is well formed in the moved model when it lost `id` or gained it.
pub proof fn lemma_moved_forest(
    m: TocModel,
    depth: Map<usize, nat>,
    bound: nat,
    id: NodeId,
    np: Option<NodeId>,
    anchor: Anchor,
)
    requires
        m.is_forest(),
        m.depth_ok(depth, bound),
        m.contains(id),
        np matches Some(p) ==> m.contains(p) && !reaches(m, depth, id, p),
        anchor matches Anchor::Before(t) ==> m.contains(t) && t != id && m.node(t).parent == np,
        anchor matches Anchor::After(t) ==> m.contains(t) && t != id && m.node(t).parent == np,
    ensures
        m.moved(id, np, anchor).is_forest(),
        m.moved(id, np, anchor).nodes.dom() == m.nodes.dom(),
        forall|k: usize| #[trigger]
            m.nodes.contains_key(k) ==> m.moved(id, np, anchor).nodes[k].parent == (if k == id.0 {
                np
            } else {
                m.nodes[k].parent
            }),
        forall|k: usize| #[trigger]
            m.nodes.contains_key(k) ==> {
                let a = m.moved(id, np, anchor).nodes[k];
                let b = m.nodes[k];
                a.id == b.id && a.title == b.title && a.patch == b.patch && a.meta == b.meta
            },
{
    let op = m.node(id).parent;
    lemma_own_list(m, id);
    let lo = m.siblings(op);
    lemma_without(lo, id);
    let d = m.detach(id);
    let l = d.siblings(np);
    // The new list does not hold `id` yet.
    assert(l.no_duplicates() && !l.contains(id)) by {
        if np == op {
        } else {
            match np {
                None => {
                    assert(m.list_ok(None, m.roots));
                    if m.roots.contains(id) {
                        lemma_listed_parent(m, None, id);
                    }
                },
                Some(p) => {
                    assert(m.nodes.contains_key(p.0));
                    assert(m.list_ok(Some(NodeId(p.0)), m.nodes[p.0].children));
                    if m.nodes[p.0].children.contains(id) {
                        lemma_listed_parent(m, np, id);
                    }
                    match op {
                        None => {},
                        Some(q) => {
                            assert(d.nodes[p.0] == m.nodes[p.0]);
                        },
                    }
                },
            }
        }
    }
    let ix = match anchor {
        Anchor::First => 0,
        Anchor::End => l.len() as int,
        Anchor::Before(t) => position(l, t),
        Anchor::After(t) => position(l, t) + 1,
    };
    // The anchor is in the new list.
    assert(0 <= ix <= l.len()) by {
        match anchor {
            Anchor::First => {},
            Anchor::End => {},
            Anchor::Before(t) => {
                lemma_own_list(m, t);
                assert(l.contains(t));
            },
            Anchor::After(t) => {
                lemma_own_list(m, t);
                assert(l.contains(t));
            },
        }
    }
    lemma_insert_fresh(l, ix, id);
    let r = m.moved(id, np, anchor);
    assert(r.nodes.dom() =~= m.nodes.dom());
    // Membership in every list of the result.
    assert forall|q: Option<NodeId>, y: NodeId|
        (q matches Some(p) ==> m.contains(p)) implies #[trigger] r.siblings(q).contains(y) <==> ((
        m.siblings(q).contains(y) && y != id) || (y == id && q == np)) by {
        if q == np {
            if q == op {
            } else {
                if m.siblings(q).contains(id) {
                    lemma_listed_parent(m, q, id);
                }
            }
        } else if q == op {
        } else {
            if m.siblings(q).contains(id) {
                lemma_listed_parent(m, q, id);
            }
        }
    }
    assert forall|q: Option<NodeId>| (q matches Some(p) ==> m.contains(p)) implies #[trigger] r.siblings(
        q,
    ).no_duplicates() by {
        if q == np {
        } else if q == op {
        } else {
            match q {
                None => {
                    assert(m.list_ok(None, m.roots));
                },
                Some(p) => {
                    assert(m.nodes.contains_key(p.0));
                    assert(m.list_ok(Some(NodeId(p.0)), m.nodes[p.0].children));
                },
            }
        }
    }
    assert(r.ids_ok());
    assert(r.list_ok(None, r.roots)) by {
        assert(r.siblings(None).no_duplicates());
        assert forall|j: int| 0 <= j < r.roots.len() implies r.contains(#[trigger] r.roots[j])
            && r.node(r.roots[j]).parent == None::<NodeId> by {
            let y = r.roots[j];
            assert(r.siblings(None).contains(y));
            if y != id {
                lemma_listed_parent(m, None, y);
            }
        }
    }
    assert forall|k: usize| #[trigger] r.nodes.contains_key(k) implies r.list_ok(
        Some(NodeId(k)),
        r.nodes[k].children,
    ) by {
        let q = Some(NodeId(k));
        assert(r.siblings(q) == r.nodes[k].children);
        assert(r.siblings(q).no_duplicates());
        assert forall|j: int| 0 <= j < r.nodes[k].children.len() implies r.contains(
            #[trigger] r.nodes[k].children[j],
        ) && r.node(r.nodes[k].children[j]).parent == q by {
            let y = r.nodes[k].children[j];
            assert(r.siblings(q).contains(y));
            if y != id {
                lemma_listed_parent(m, q, y);
            }
        }
    }
    assert forall|k: usize| #[trigger] r.nodes.contains_key(k) implies r.parent_lists(k) by {
        let y = NodeId(k);
        assert(m.nodes.contains_key(k));
        if y == id {
            assert(r.siblings(np).contains(id));
        } else {
            lemma_own_list(m, y);
            let q = m.node(y).parent;
            assert(r.siblings(q).contains(y));
        }
    }
}


/// The depth a node gets as a child of `np` (top level for `None`).
pub open spec fn depth_under(depth: Map<usize, nat>, np: Option<NodeId>) -> nat {
    match np {
        None => 1,
        Some(p) => depth[p.0] + 1,
    }
}

/// Moving a subtree keeps depths consistent once the subtree is shifted.
pub proof fn lemma_moved_depth(
    m: TocModel,
    depth: Map<usize, nat>,
    bound: nat,
    id: NodeId,
    np: Option<NodeId>,
    anchor: Anchor,
)
    requires
        m.is_forest(),
        m.depth_ok(depth, bound),
        m.contains(id),
        np matches Some(p) ==> m.contains(p) && !reaches(m, depth, id, p),
        anchor matches Anchor::Before(t) ==> m.contains(t) && t != id && m.node(t).parent == np,
        anchor matches Anchor::After(t) ==> m.contains(t) && t != id && m.node(t).parent == np,
    ensures
        ({
            let delta = depth_under(depth, np) - depth[id.0];
            let nb = if delta > 0 { (bound + delta) as nat } else { bound };
            m.moved(id, np, anchor).depth_ok(shifted(m, depth, id, delta), nb)
        }),
{
    lemma_moved_forest(m, depth, bound, id, np, anchor);
    let delta = depth_under(depth, np) - depth[id.0];
    let nb: nat = if delta > 0 { (bound + delta) as nat } else { bound };
    let d2 = shifted(m, depth, id, delta);
    let r = m.moved(id, np, anchor);
    assert(m.nodes.contains_key(id.0));
    assert forall|k: usize| #[trigger] r.nodes.contains_key(k) implies {
        &&& d2.contains_key(k)
        &&& 1 <= d2[k] <= nb
        &&& match r.nodes[k].parent {
            None => d2[k] == 1,
            Some(p) => d2[k] == d2[p.0] + 1,
        }
    } by {
        assert(m.nodes.contains_key(k));
        let x = NodeId(k);
        lemma_reaches_step(m, depth, bound, id, x);
        if reaches(m, depth, id, x) {
            lemma_reaches_depth(m, depth, bound, id, x);
        }
        if x == id {
            match np {
                None => {},
                Some(p) => {
                    assert(m.nodes.contains_key(p.0));
                },
            }
        } else {
            match m.nodes[k].parent {
                None => {},
                Some(p) => {
                    assert(m.nodes.contains_key(p.0));
                    assert(d2[p.0] == if reaches(m, depth, id, p) {
                        (depth[p.0] + delta) as nat
                    } else {
                        depth[p.0]
                    });
                    if reaches(m, depth, id, p) {
                        lemma_reaches_depth(m, depth, bound, id, p);
                    }
                },
            }
        }
    }
}

/// The nodes on the parent chain of a node.
pub open spec fn ancestors(m: TocModel, depth: Map<usize, nat>, x: NodeId) -> Set<usize>
    decreases depth[x.0],
{
    if !m.nodes.contains_key(x.0) {
        Set::empty()
    } else {
        match m.nodes[x.0].parent {
            None => set![x.0],
            Some(p) => if depth[p.0] < depth[x.0] {
                ancestors(m, depth, p).insert(x.0)
            } else {
                set![x.0]
            },
        }
    }
}

/// The parent chain of a node holds as many nodes as its depth, all stored.
pub proof fn lemma_ancestors(m: TocModel, depth: Map<usize, nat>, bound: nat, x: NodeId)
    requires
        m.is_forest(),
        m.depth_ok(depth, bound),
        m.contains(x),
    ensures
        ancestors(m, depth, x).finite(),
        ancestors(m, depth, x).len() == depth[x.0],
        ancestors(m, depth, x).subset_of(m.nodes.dom()),
        forall|k: usize| ancestors(m, depth, x).contains(k) ==> depth[k] <= depth[x.0],
    decreases depth[x.0],
{
    assert(m.nodes.contains_key(x.0));
    assert(m.parent_lists(x.0));
    match m.nodes[x.0].parent {
        None => {},
        Some(p) => {
            assert(m.nodes.contains_key(p.0));
            lemma_ancestors(m, depth, bound, p);
            assert(!ancestors(m, depth, p).contains(x.0));
        },
    }
}

/// Depths never exceed the number of nodes.
pub proof fn lemma_depth_le_count(m: TocModel, depth: Map<usize, nat>, bound: nat, x: NodeId)
    requires
        m.is_forest(),
        m.depth_ok(depth, bound),
        m.contains(x),
        m.nodes.dom().finite(),
    ensures
        depth[x.0] <= m.nodes.dom().len(),
{
    lemma_ancestors(m, depth, bound, x);
    vstd::set_lib::lemma_len_subset(ancestors(m, depth, x), m.nodes.dom());
}

/// Replacing a node's payload keeps the forest and its depths.
pub proof fn lemma_payload_edit(m: TocModel, depth: Map<usize, nat>, bound: nat, id: NodeId)
    requires
        m.is_forest(),
        m.depth_ok(depth, bound),
        m.contains(id),
    ensures
        forall|v: NodeView|
            v.id == m.node(id).id && v.parent == m.node(id).parent && v.children == m.node(
                id,
            ).children ==> #[trigger] (TocModel { roots: m.roots, nodes: m.nodes.insert(id.0, v) }).is_forest()
                && (TocModel { roots: m.roots, nodes: m.nodes.insert(id.0, v) }).depth_ok(
                depth,
                bound,
            ),
{
    assert forall|v: NodeView|
        v.id == m.node(id).id && v.parent == m.node(id).parent && v.children == m.node(
            id,
        ).children implies #[trigger] (TocModel { roots: m.roots, nodes: m.nodes.insert(id.0, v) }).is_forest()
            && (TocModel { roots: m.roots, nodes: m.nodes.insert(id.0, v) }).depth_ok(
            depth,
            bound,
        ) by {
        let r = TocModel { roots: m.roots, nodes: m.nodes.insert(id.0, v) };
        assert forall|k: usize| #[trigger] r.nodes.contains_key(k) implies r.nodes[k].id == m.nodes[k].id
            && r.nodes[k].parent == m.nodes[k].parent && r.nodes[k].children == m.nodes[k].children by {
        }
        assert(r.nodes.dom() =~= m.nodes.dom());
        assert(r.list_ok(None, r.roots)) by {
            assert(m.list_ok(None, m.roots));
        }
        assert forall|k: usize| #[trigger] r.nodes.contains_key(k) implies r.list_ok(
            Some(NodeId(k)),
            r.nodes[k].children,
        ) by {
            assert(m.nodes.contains_key(k));
            assert(m.list_ok(Some(NodeId(k)), m.nodes[k].children));
        }
        assert forall|k: usize| #[trigger] r.nodes.contains_key(k) implies r.parent_lists(k) by {
            assert(m.nodes.contains_key(k));
            assert(m.parent_lists(k));
        }
    }
}

/// Adding a fresh leaf under a stored parent (or at the top level) keeps a
/// forest, with the leaf one level below its parent.
pub proof fn lemma_added_forest(m: TocModel, depth: Map<usize, nat>, bound: nat, id: NodeId, node: NodeView)
    requires
        m.is_forest(),
        m.depth_ok(depth, bound),
        !m.contains(id),
        node.id == id,
        node.children.len() == 0,
        node.parent matches Some(p) ==> m.contains(p),
    ensures
        m.added(id, node).is_forest(),
        m.added(id, node).nodes.dom() == m.nodes.dom().insert(id.0),
        m.added(id, node).nodes[id.0] == node,
        forall|k: usize| #[trigger]
            m.nodes.contains_key(k) ==> {
                let a = m.added(id, node).nodes[k];
                let b = m.nodes[k];
                a.id == b.id && a.title == b.title && a.patch == b.patch && a.meta == b.meta
                    && a.parent == b.parent
            },
        ({
            let du = depth_under(depth, node.parent);
            m.added(id, node).depth_ok(depth.insert(id.0, du), if du > bound { du } else { bound })
        }),
{
    let q = node.parent;
    let m1 = TocModel { roots: m.roots, nodes: m.nodes.insert(id.0, node) };
    let l = m.siblings(q);
    assert(m1.siblings(q) == l) by {
        match q {
            None => {},
            Some(p) => {
                assert(p.0 != id.0);
            },
        }
    }
    assert(l.no_duplicates() && !l.contains(id)) by {
        match q {
            None => {
                assert(m.list_ok(None, m.roots));
            },
            Some(p) => {
                assert(m.nodes.contains_key(p.0));
                assert(m.list_ok(Some(NodeId(p.0)), m.nodes[p.0].children));
            },
        }
        if l.contains(id) {
            lemma_listed_parent(m, q, id);
        }
    }
    super::seqs::lemma_push_fresh(l, id);
    let r = m.added(id, node);
    assert(r.nodes.dom() =~= m.nodes.dom().insert(id.0));
    assert forall|o: Option<NodeId>, y: NodeId|
        (o matches Some(p) ==> m.contains(p)) implies #[trigger] r.siblings(o).contains(y) <==> (
        m.siblings(o).contains(y) || (y == id && o == q)) by {
        match o {
            None => {},
            Some(p) => {
                assert(p.0 != id.0);
            },
        }
    }
    assert forall|o: Option<NodeId>| (o matches Some(p) ==> m.contains(p)) implies #[trigger] r.siblings(
        o,
    ).no_duplicates() by {
        if o != q {
            match o {
                None => {
                    assert(m.list_ok(None, m.roots));
                },
                Some(p) => {
                    assert(m.nodes.contains_key(p.0));
                    assert(p.0 != id.0);
                    assert(m.list_ok(Some(NodeId(p.0)), m.nodes[p.0].children));
                },
            }
        }
    }
    assert(r.ids_ok());
    assert(r.list_ok(None, r.roots)) by {
        assert(r.siblings(None).no_duplicates());
        assert forall|j: int| 0 <= j < r.roots.len() implies r.contains(#[trigger] r.roots[j])
            && r.node(r.roots[j]).parent == None::<NodeId> by {
            let y = r.roots[j];
            assert(r.siblings(None).contains(y));
            if y != id {
                lemma_listed_parent(m, None, y);
            }
        }
    }
    assert forall|k: usize| #[trigger] r.nodes.contains_key(k) implies r.list_ok(
        Some(NodeId(k)),
        r.nodes[k].children,
    ) by {
        if k == id.0 {
            assert(r.nodes[k].children == node.children);
        } else {
            let o = Some(NodeId(k));
            assert(r.siblings(o) == r.nodes[k].children);
            assert(r.siblings(o).no_duplicates());
            assert forall|j: int| 0 <= j < r.nodes[k].children.len() implies r.contains(
                #[trigger] r.nodes[k].children[j],
            ) && r.node(r.nodes[k].children[j]).parent == o by {
                let y = r.nodes[k].children[j];
                assert(r.siblings(o).contains(y));
                if y != id {
                    lemma_listed_parent(m, o, y);
                }
            }
        }
    }
    assert forall|k: usize| #[trigger] r.nodes.contains_key(k) implies r.parent_lists(k) by {
        let y = NodeId(k);
        if y == id {
            assert(r.siblings(q).contains(id));
        } else {
            lemma_own_list(m, y);
            let o = m.node(y).parent;
            assert(r.siblings(o).contains(y));
        }
    }
    let du = depth_under(depth, q);
    let d2 = depth.insert(id.0, du);
    let nb = if du > bound { du } else { bound };
    assert forall|k: usize| #[trigger] r.nodes.contains_key(k) implies {
        &&& d2.contains_key(k)
        &&& 1 <= d2[k] <= nb
        &&& match r.nodes[k].parent {
            None => d2[k] == 1,
            Some(p) => d2[k] == d2[p.0] + 1,
        }
    } by {
        if k == id.0 {
            match q {
                None => {},
                Some(p) => {
                    assert(m.nodes.contains_key(p.0));
                },
            }
        } else {
            assert(m.nodes.contains_key(k));
            assert(m.parent_lists(k));
            match m.nodes[k].parent {
                None => {},
                Some(p) => {
                    assert(m.nodes.contains_key(p.0));
                },
            }
        }
    }
}

/// Removing a stored leaf keeps a forest.
pub proof fn lemma_removed_forest(m: TocModel, depth: Map<usize, nat>, bound: nat, id: NodeId)
    requires
        m.is_forest(),
        m.depth_ok(depth, bound),
        m.contains(id),
        m.node(id).children.len() == 0,
    ensures
        m.removed(id).is_forest(),
        m.removed(id).depth_ok(depth, bound),
        m.removed(id).nodes.dom() == m.nodes.dom().remove(id.0),
        forall|k: usize| #[trigger]
            m.removed(id).nodes.contains_key(k) ==> {
                let a = m.removed(id).nodes[k];
                let b = m.nodes[k];
                a.id == b.id && a.title == b.title && a.patch == b.patch && a.meta == b.meta
                    && a.parent == b.parent
            },
{
    let op = m.node(id).parent;
    lemma_own_list(m, id);
    let lo = m.siblings(op);
    lemma_without(lo, id);
    let r = m.removed(id);
    assert(r.nodes.dom() =~= m.nodes.dom().remove(id.0));
    assert forall|q: Option<NodeId>, y: NodeId|
        (q matches Some(p) ==> r.contains(p)) implies #[trigger] r.siblings(q).contains(y) <==> (
        m.siblings(q).contains(y) && y != id) by {
        if q != op {
            if m.siblings(q).contains(id) {
                lemma_listed_parent(m, q, id);
            }
        }
    }
    assert forall|q: Option<NodeId>| (q matches Some(p) ==> r.contains(p)) implies #[trigger] r.siblings(
        q,
    ).no_duplicates() by {
        if q != op {
            match q {
                None => {
                    assert(m.list_ok(None, m.roots));
                },
                Some(p) => {
                    assert(m.nodes.contains_key(p.0));
                    assert(m.list_ok(Some(NodeId(p.0)), m.nodes[p.0].children));
                },
            }
        }
    }
    assert(r.ids_ok());
    assert(r.list_ok(None, r.roots)) by {
        assert(r.siblings(None).no_duplicates());
        assert forall|j: int| 0 <= j < r.roots.len() implies r.contains(#[trigger] r.roots[j])
            && r.node(r.roots[j]).parent == None::<NodeId> by {
            let y = r.roots[j];
            assert(r.siblings(None).contains(y));
            lemma_listed_parent(m, None, y);
        }
    }
    assert forall|k: usize| #[trigger] r.nodes.contains_key(k) implies r.list_ok(
        Some(NodeId(k)),
        r.nodes[k].children,
    ) by {
        let o = Some(NodeId(k));
        assert(r.siblings(o) == r.nodes[k].children);
        assert(r.siblings(o).no_duplicates());
        assert forall|j: int| 0 <= j < r.nodes[k].children.len() implies r.contains(
            #[trigger] r.nodes[k].children[j],
        ) && r.node(r.nodes[k].children[j]).parent == o by {
            let y = r.nodes[k].children[j];
            assert(r.siblings(o).contains(y));
            lemma_listed_parent(m, o, y);
        }
    }
    assert forall|k: usize| #[trigger] r.nodes.contains_key(k) implies r.parent_lists(k) by {
        let y = NodeId(k);
        lemma_own_list(m, y);
        let o = m.node(y).parent;
        match o {
            None => {},
            Some(p) => {
                if p == id {
                    assert(m.node(id).children.contains(y));
                }
            },
        }
        assert(r.siblings(o).contains(y));
    }
    assert forall|k: usize| #[trigger] r.nodes.contains_key(k) implies {
        &&& depth.contains_key(k)
        &&& 1 <= depth[k] <= bound
        &&& match r.nodes[k].parent {
            None => depth[k] == 1,
            Some(p) => depth[k] == depth[p.0] + 1,
        }
    } by {
        assert(m.nodes.contains_key(k));
    }
}

/// Combine two optional ranges: the merge of both, or whichever exists.
pub open spec fn combine(a: Option<TextRange>, b: Option<TextRange>) -> Option<TextRange> {
    match (a, b) {
        (None, b) => b,
        (Some(x), None) => Some(x),
        (Some(x), Some(y)) => Some(x.spec_merge(y)),
    }
}

/// The left-to-right merge of the present ranges.
pub open spec fn fold_ranges(rs: Seq<Option<TextRange>>) -> Option<TextRange>
    decreases rs.len(),
{
    if rs.len() == 0 {
        None
    } else {
        combine(fold_ranges(rs.drop_last()), rs.last())
    }
}

/// The range of `x` once container ranges are filled in bottom-up: its own
/// range, or else the merge of its children's filled ranges (`fuel` bounds
/// the recursion depth).
pub open spec fn filled(m: TocModel, x: NodeId, fuel: nat) -> Option<TextRange>
    decreases fuel, 0nat,
{
    if m.nodes[x.0].meta.range is Some {
        m.nodes[x.0].meta.range
    } else if fuel == 0 {
        None
    } else {
        filled_children(m, m.nodes[x.0].children, (fuel - 1) as nat)
    }
}

/// The merge of the filled ranges of the listed nodes.
pub open spec fn filled_children(m: TocModel, cs: Seq<NodeId>, fuel: nat) -> Option<TextRange>
    decreases fuel, cs.len(),
{
    if cs.len() == 0 {
        None
    } else {
        combine(filled_children(m, cs.drop_last(), fuel), filled(m, cs.last(), fuel))
    }
}

/// Extra fuel does not change a filled range once the fuel covers the
/// depth below the node.
pub proof fn lemma_filled_fuel(m: TocModel, depth: Map<usize, nat>, bound: nat, x: NodeId, fuel: nat)
    requires
        m.is_forest(),
        m.depth_ok(depth, bound),
        m.contains(x),
        fuel + depth[x.0] >= bound,
    ensures
        filled(m, x, fuel) == filled(m, x, fuel + 1),
    decreases fuel, 0nat,
{
    assert(m.nodes.contains_key(x.0));
    assert(m.list_ok(Some(NodeId(x.0)), m.nodes[x.0].children));
    let cs = m.nodes[x.0].children;
    if m.nodes[x.0].meta.range is None {
        if fuel == 0 {
            if cs.len() > 0 {
                let c = cs[0];
                assert(m.nodes.contains_key(c.0));
                assert(m.nodes[c.0].parent == Some(NodeId(x.0)));
            }
            assert(filled_children(m, cs, 0) == None::<TextRange>) by {
                assert(cs.len() == 0);
            }
        } else {
            lemma_filled_children_fuel(m, depth, bound, x, cs, (fuel - 1) as nat);
        }
    }
}

/// `lemma_filled_fuel` for the children of `x`.
pub proof fn lemma_filled_children_fuel(
    m: TocModel,
    depth: Map<usize, nat>,
    bound: nat,
    x: NodeId,
    cs: Seq<NodeId>,
    fuel: nat,
)
    requires
        m.is_forest(),
        m.depth_ok(depth, bound),
        m.contains(x),
        forall|j: int|
            0 <= j < cs.len() ==> m.contains(#[trigger] cs[j]) && m.node(cs[j]).parent == Some(x),
        fuel + 1 + depth[x.0] >= bound,
    ensures
        filled_children(m, cs, fuel) == filled_children(m, cs, fuel + 1),
    decreases fuel, cs.len(),
{
    if cs.len() > 0 {
        lemma_filled_children_fuel(m, depth, bound, x, cs.drop_last(), fuel);
        let c = cs.last();
        assert(cs[cs.len() - 1] == c);
        assert(m.nodes.contains_key(c.0));
        assert(m.nodes.contains_key(x.0));
        lemma_filled_fuel(m, depth, bound, c, fuel);
    }
}

/// The filled ranges of the listed nodes, in order.
pub open spec fn filled_list(m: TocModel, cs: Seq<NodeId>, fuel: nat) -> Seq<Option<TextRange>> {
    Seq::new(cs.len(), |j: int| filled(m, cs[j], fuel))
}

pub proof fn lemma_filled_children_fold(m: TocModel, cs: Seq<NodeId>, fuel: nat)
    ensures
        filled_children(m, cs, fuel) == fold_ranges(filled_list(m, cs, fuel)),
    decreases cs.len(),
{
    if cs.len() > 0 {
        lemma_filled_children_fold(m, cs.drop_last(), fuel);
        assert(filled_list(m, cs, fuel).drop_last() =~= filled_list(m, cs.drop_last(), fuel));
    }
}

} // verus!
