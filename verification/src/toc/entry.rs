//! The nested wire format of a TOC tree.
use vstd::prelude::*;

use super::{clone_opt_string, opt_str_view, NodeId, NodeView, TocError, TocModel, TocRoot, TreeNodeMeta};
use super::model::lemma_own_list;
use super::seqs::{lemma_index_of_unique, without};

verus! {

/// Wire-format TOC entry (aligned with calibre's "TOC entry" terminology).
#[derive(Debug, PartialEq)]
pub struct TocEntry {
    pub id: NodeId,
    pub title: String,
    /// git-diff like patch content, to be applied while the document is split.
    pub patch: Option<String>,
    pub meta: TreeNodeMeta,
    pub children: Vec<TocEntry>,
}

/// The serialized form of a `TocRoot`.
pub type TocSnapshot = Vec<TocEntry>;

/// An entry as a value.
#[verifier::ext_equal]
pub struct EntryView {
    pub id: NodeId,
    pub title: Seq<char>,
    pub patch: Option<Seq<char>>,
    pub meta: TreeNodeMeta,
    pub children: Seq<EntryView>,
}

/// The value of an entry.
pub open spec fn entry_view(e: TocEntry) -> EntryView
    decreases e,
{
    EntryView {
        id: e.id,
        title: e.title@,
        patch: opt_str_view(e.patch),
        meta: e.meta,
        children: entries_view(e.children@),
    }
}

/// The values of a list of entries.
pub open spec fn entries_view(s: Seq<TocEntry>) -> Seq<EntryView>
    decreases s,
{
    if s.len() == 0 {
        Seq::empty()
    } else {
        entries_view(s.drop_last()).push(entry_view(s.last()))
    }
}

/// The entry of node `x`, with its subtree (`fuel` bounds the depth).
pub open spec fn entry_of(m: TocModel, x: NodeId, fuel: nat) -> EntryView
    decreases fuel, 0nat, 0nat,
{
    EntryView {
        id: x,
        title: m.node(x).title,
        patch: m.node(x).patch,
        meta: m.node(x).meta,
        children: if fuel == 0 {
            Seq::empty()
        } else {
            entries_of(m, m.node(x).children, (fuel - 1) as nat)
        },
    }
}

/// The entries of the listed nodes, in order.
pub open spec fn entries_of(m: TocModel, ids: Seq<NodeId>, fuel: nat) -> Seq<EntryView>
    decreases fuel, 1nat, ids.len(),
{
    if ids.len() == 0 {
        Seq::empty()
    } else {
        entries_of(m, ids.drop_last(), fuel).push(entry_of(m, ids.last(), fuel))
    }
}

impl TocRoot {
    /// The nested entries of the tree: the top-level nodes in order, each
    /// with its title, patch, meta and the entries of its children.
    pub open spec fn spec_snapshot(&self) -> Seq<EntryView> {
        entries_of(self@, self@.roots, (self.depth_bound() - 1) as nat)
    }

    /// The nested entries of the tree (see `spec_snapshot`).
    pub fn snapshot(&self) -> (r: TocSnapshot)
        requires
            self.wf(),
        ensures
            entries_view(r@) == self.spec_snapshot(),
    {
        proof {
            self.lemma_roots();
        }
        let roots = self.root_ids();
        self.entries_from(roots, Ghost((self.depth_bound() - 1) as nat))
    }

    fn entries_from(&self, ids: &Vec<NodeId>, Ghost(fuel): Ghost<nat>) -> (r: Vec<TocEntry>)
        requires
            self.wf(),
            forall|j: int|
                0 <= j < ids@.len() ==> self@.contains(#[trigger] ids@[j]) && self.level_of(ids@[j])
                    + fuel == self.depth_bound(),
        ensures
            entries_view(r@) == entries_of(self@, ids@, fuel),
        decreases fuel, 1nat,
    {
        let mut out: Vec<TocEntry> = Vec::new();
        let mut i: usize = 0;
        while i < ids.len()
            invariant
                self.wf(),
                i <= ids@.len(),
                forall|j: int|
                    0 <= j < ids@.len() ==> self@.contains(#[trigger] ids@[j]) && self.level_of(
                        ids@[j],
                    ) + fuel == self.depth_bound(),
                entries_view(out@) == entries_of(self@, ids@.subrange(0, i as int), fuel),
            decreases ids@.len() - i,
        {
            let e = self.entry_from(ids[i], Ghost(fuel));
            let ghost prev = out@;
            out.push(e);
            proof {
                assert(out@.drop_last() == prev);
                assert(ids@.subrange(0, i + 1).drop_last() =~= ids@.subrange(0, i as int));
            }
            i += 1;
        }
        proof {
            assert(ids@.subrange(0, ids@.len() as int) =~= ids@);
        }
        out
    }

    fn entry_from(&self, x: NodeId, Ghost(fuel): Ghost<nat>) -> (r: TocEntry)
        requires
            self.wf(),
            self@.contains(x),
            self.level_of(x) + fuel == self.depth_bound(),
        ensures
            entry_view(r) == entry_of(self@, x, fuel),
        decreases fuel, 0nat,
    {
        proof {
            self.lemma_levels(x, x);
        }
        let node = self.get(x).unwrap();
        let children = if node.children.len() == 0 {
            Vec::new()
        } else {
            proof {
                let c = node.children@[0];
                assert(self@.contains(c));
                self.lemma_levels(x, c);
                assert(fuel > 0);
                assert forall|j: int| 0 <= j < node.children@.len() implies self@.contains(
                    #[trigger] node.children@[j],
                ) && self.level_of(node.children@[j]) + (fuel - 1) as nat == self.depth_bound() by {
                    self.lemma_levels(x, node.children@[j]);
                }
            }
            self.entries_from(&node.children, Ghost((fuel - 1) as nat))
        };
        let r = TocEntry {
            id: node.id,
            title: node.title.clone(),
            patch: clone_opt_string(&node.patch),
            meta: node.meta,
            children,
        };
        proof {
            if fuel == 0 {
                assert(node.children@.len() == 0);
            } else if node.children@.len() == 0 {
                assert(entries_of(self@, node.children@, (fuel - 1) as nat) == Seq::<EntryView>::empty());
            }
            assert(entries_view(Seq::<TocEntry>::empty()) == Seq::<EntryView>::empty());
        }
        r
    }
}

} // verus!

verus! {

/// The number of entries in an entry's subtree, itself included.
pub open spec fn entry_size(e: EntryView) -> nat
    decreases e,
{
    1 + entries_size(e.children)
}

/// The number of entries in the subtrees of the entries.
pub open spec fn entries_size(s: Seq<EntryView>) -> nat
    decreases s,
{
    if s.len() == 0 {
        0
    } else {
        entries_size(s.drop_last()) + entry_size(s.last())
    }
}

/// The entry with the ids of its subtree given anew in preorder, from `n`.
pub open spec fn renumber_entry(e: EntryView, n: nat) -> EntryView
    decreases e,
{
    EntryView {
        id: NodeId(n as usize),
        title: e.title,
        patch: e.patch,
        meta: e.meta,
        children: renumber_entries(e.children, n + 1),
    }
}

/// The entries with the ids of their subtrees given anew in preorder, from `n`.
pub open spec fn renumber_entries(s: Seq<EntryView>, n: nat) -> Seq<EntryView>
    decreases s,
{
    if s.len() == 0 {
        Seq::empty()
    } else {
        renumber_entries(s.drop_last(), n).push(renumber_entry(s.last(), n + entries_size(s.drop_last())))
    }
}

/// Appending an entry appends it renumbered after the entries before it.
proof fn lemma_renumber_push(s: Seq<EntryView>, e: EntryView, n: nat)
    ensures
        renumber_entries(s.push(e), n) == renumber_entries(s, n).push(renumber_entry(e, n + entries_size(s))),
        entries_size(s.push(e)) == entries_size(s) + entry_size(e),
{
    assert(s.push(e).drop_last() =~= s);
}

/// Appending a node appends its entry.
proof fn lemma_entries_of_push(m: TocModel, ids: Seq<NodeId>, x: NodeId, fuel: nat)
    ensures
        entries_of(m, ids.push(x), fuel) == entries_of(m, ids, fuel).push(entry_of(m, x, fuel)),
{
    assert(ids.push(x).drop_last() =~= ids);
}

/// The entries of nodes at level `d` or deeper read only such nodes: a
/// tree that holds those nodes unchanged gives the same entries.
proof fn lemma_entries_frame(t1: TocRoot, t2: TocRoot, d: nat, ids: Seq<NodeId>, fuel: nat)
    requires
        t1.wf(),
        forall|j: int|
            0 <= j < ids.len() ==> t1@.contains(#[trigger] ids[j]) && t1.level_of(ids[j]) >= d,
        forall|y: NodeId|
            #[trigger] t1@.contains(y) && t1.level_of(y) >= d ==> t2@.contains(y) && t2@.node(y)
                == t1@.node(y),
    ensures
        entries_of(t2@, ids, fuel) == entries_of(t1@, ids, fuel),
    decreases fuel, 1nat, ids.len(),
{
    if ids.len() > 0 {
        lemma_entries_frame(t1, t2, d, ids.drop_last(), fuel);
        lemma_entry_frame(t1, t2, d, ids.last(), fuel);
    }
}

/// One node's entry in the same situation (see `lemma_entries_frame`).
proof fn lemma_entry_frame(t1: TocRoot, t2: TocRoot, d: nat, x: NodeId, fuel: nat)
    requires
        t1.wf(),
        t1@.contains(x),
        t1.level_of(x) >= d,
        forall|y: NodeId|
            #[trigger] t1@.contains(y) && t1.level_of(y) >= d ==> t2@.contains(y) && t2@.node(y)
                == t1@.node(y),
    ensures
        entry_of(t2@, x, fuel) == entry_of(t1@, x, fuel),
    decreases fuel, 0nat,
{
    assert(t2@.node(x) == t1@.node(x));
    if fuel > 0 {
        let cs = t1@.node(x).children;
        t1.lemma_levels(x, x);
        assert forall|j: int| 0 <= j < cs.len() implies t1@.contains(#[trigger] cs[j]) && t1.level_of(
            cs[j],
        ) >= d by {
            t1.lemma_levels(x, cs[j]);
        }
        lemma_entries_frame(t1, t2, d, cs, (fuel - 1) as nat);
    }
}

/// The entries in preorder: each entry, then its subtree, then the next.
pub open spec fn flat_entries(es: Seq<EntryView>) -> Seq<EntryView>
    decreases es,
{
    if es.len() == 0 {
        Seq::empty()
    } else {
        seq![es[0]] + flat_entries(es[0].children) + flat_entries(es.drop_first())
    }
}

/// The ids of the entries.
pub open spec fn entry_ids(es: Seq<EntryView>) -> Seq<NodeId> {
    Seq::new(es.len(), |i: int| es[i].id)
}

/// An entry's range, if any, is ordered.
pub open spec fn range_ok(e: EntryView) -> bool {
    match e.meta.range {
        Some(r) => r.start <= r.end,
        None => true,
    }
}

/// Every range of the entries is ordered.
pub open spec fn ranges_ordered(es: Seq<EntryView>) -> bool {
    forall|i: int| 0 <= i < es.len() ==> range_ok(#[trigger] es[i])
}

/// The entries restore after the ids `seen`: no id occurs twice, among them
/// or in `seen`, and no range is inverted.
pub open spec fn restorable(seen: Seq<NodeId>, es: Seq<EntryView>) -> bool {
    (seen + entry_ids(flat_entries(es))).no_duplicates() && ranges_ordered(flat_entries(es))
}

/// Preorder of a concatenation.
pub proof fn lemma_flat_concat(a: Seq<EntryView>, b: Seq<EntryView>)
    ensures
        flat_entries(a + b) == flat_entries(a) + flat_entries(b),
    decreases a.len(),
{
    if a.len() == 0 {
        assert(a + b =~= b);
    } else {
        assert((a + b).drop_first() =~= a.drop_first() + b);
        assert((a + b)[0] == a[0]);
        lemma_flat_concat(a.drop_first(), b);
    }
}

/// Restoring a concatenation is restoring both parts in turn.
pub proof fn lemma_restorable_concat(seen: Seq<NodeId>, a: Seq<EntryView>, b: Seq<EntryView>)
    ensures
        restorable(seen, a + b) <==> restorable(seen, a) && restorable(
            seen + entry_ids(flat_entries(a)),
            b,
        ),
{
    lemma_flat_concat(a, b);
    let fa = flat_entries(a);
    let fb = flat_entries(b);
    assert(entry_ids(fa + fb) =~= entry_ids(fa) + entry_ids(fb));
    assert(seen + entry_ids(fa + fb) =~= (seen + entry_ids(fa)) + entry_ids(fb));
    let whole = (seen + entry_ids(fa)) + entry_ids(fb);
    let pre = seen + entry_ids(fa);
    if whole.no_duplicates() {
        assert forall|i: int, j: int| 0 <= i < pre.len() && 0 <= j < pre.len() && i != j implies pre[i] != pre[j] by {
            assert(pre[i] == whole[i] && pre[j] == whole[j]);
        }
    }
    assert(ranges_ordered(fa + fb) <==> ranges_ordered(fa) && ranges_ordered(fb)) by {
        if ranges_ordered(fa + fb) {
            assert forall|i: int| 0 <= i < fa.len() implies range_ok(#[trigger] fa[i]) by {
                assert(fa[i] == (fa + fb)[i]);
            }
            assert forall|i: int| 0 <= i < fb.len() implies range_ok(#[trigger] fb[i]) by {
                assert(fb[i] == (fa + fb)[fa.len() + i]);
            }
        }
        if ranges_ordered(fa) && ranges_ordered(fb) {
            assert forall|i: int| 0 <= i < (fa + fb).len() implies range_ok(#[trigger] (fa + fb)[i]) by {
                if i < fa.len() {
                    assert((fa + fb)[i] == fa[i]);
                } else {
                    assert((fa + fb)[i] == fb[i - fa.len()]);
                }
            }
        }
    }
}

/// One entry: itself, then its children.
pub proof fn lemma_flat_one(e: EntryView)
    ensures
        flat_entries(seq![e]) == seq![e] + flat_entries(e.children),
{
    assert(seq![e].drop_first() =~= Seq::<EntryView>::empty());
    assert(flat_entries(Seq::<EntryView>::empty()) =~= Seq::<EntryView>::empty());
    assert(seq![e] + flat_entries(e.children) + Seq::<EntryView>::empty() =~= seq![e] + flat_entries(e.children));
}

/// The views of a list of entries are the entries' views, one for one.
pub proof fn lemma_entries_view(s: Seq<TocEntry>)
    ensures
        entries_view(s).len() == s.len(),
        forall|i: int| 0 <= i < s.len() ==> #[trigger] entries_view(s)[i] == entry_view(s[i]),
    decreases s.len(),
{
    if s.len() > 0 {
        lemma_entries_view(s.drop_last());
        assert forall|i: int| 0 <= i < s.len() implies #[trigger] entries_view(s)[i] == entry_view(s[i]) by {
            if i < s.len() - 1 {
                assert(s.drop_last()[i] == s[i]);
            }
        }
    }
}

/// Whether `id` is among `seen`.
fn seen_contains(seen: &Vec<NodeId>, id: NodeId) -> (r: bool)
    ensures
        r == seen@.contains(id),
{
    let mut i: usize = 0;
    while i < seen.len()
        invariant
            i <= seen@.len(),
            forall|j: int| 0 <= j < i ==> seen@[j] != id,
        decreases seen@.len() - i,
    {
        if seen[i].0 == id.0 {
            proof {
                assert(seen@[i as int] == id);
            }
            return true;
        }
        i += 1;
    }
    false
}

} // verus!

verus! {

/// One entry restores after `seen` when its id is new, its range ordered,
/// and its children restore after `seen` and its id.
pub proof fn lemma_restorable_one(seen: Seq<NodeId>, e: EntryView)
    ensures
        restorable(seen, seq![e]) <==> !seen.contains(e.id) && range_ok(e) && restorable(
            seen.push(e.id),
            e.children,
        ),
{
    lemma_flat_one(e);
    let fc = flat_entries(e.children);
    let f = seq![e] + fc;
    assert(entry_ids(f) =~= seq![e.id] + entry_ids(fc));
    assert(seen + entry_ids(f) =~= seen.push(e.id) + entry_ids(fc));
    let whole = seen.push(e.id) + entry_ids(fc);
    if whole.no_duplicates() {
        assert(!seen.contains(e.id)) by {
            if seen.contains(e.id) {
                let k = choose|k: int| 0 <= k < seen.len() && seen[k] == e.id;
                assert(whole[k] == whole[seen.len() as int]);
            }
        }
    }
    if !seen.contains(e.id) && (seen.push(e.id) + entry_ids(fc)).no_duplicates() {
        assert(whole.no_duplicates());
    }
    assert(ranges_ordered(f) <==> range_ok(e) && ranges_ordered(fc)) by {
        if ranges_ordered(f) {
            assert(f[0] == e);
            assert forall|i: int| 0 <= i < fc.len() implies range_ok(#[trigger] fc[i]) by {
                assert(fc[i] == f[i + 1]);
            }
        }
        if range_ok(e) && ranges_ordered(fc) {
            assert forall|i: int| 0 <= i < f.len() implies range_ok(#[trigger] f[i]) by {
                if i > 0 {
                    assert(f[i] == fc[i - 1]);
                }
            }
        }
    }
}

/// The message of a duplicated id.
fn duplicate_message(id: NodeId) -> (r: String)
    ensures
        r@ == "duplicated node id: "@ + crate::text::decimal(id.0 as nat),
{
    let mut m = "duplicated node id: ".to_owned();
    crate::text::push_decimal(&mut m, id.0);
    m
}

/// The message of an inverted range.
fn inverted_message(start: u64, end: u64, title: &str) -> (r: String)
    ensures
        r@ == "inverted range ["@ + crate::text::decimal(start as nat) + ", "@ + crate::text::decimal(
            end as nat,
        ) + ") on node `"@ + title@ + "`"@,
{
    let mut m = "inverted range [".to_owned();
    crate::text::push_decimal_u64(&mut m, start);
    crate::text::push_str(&mut m, ", ");
    crate::text::push_decimal_u64(&mut m, end);
    crate::text::push_str(&mut m, ") on node `");
    crate::text::push_str(&mut m, title);
    crate::text::push_str(&mut m, "`");
    m
}

/// What adding an entry's subtree as a new node `c` below `parent` leaves:
/// `c` is new and ends the parent's list, every other node is as it was,
/// and the entry of `c` is the added entry with its ids given anew in
/// preorder from `c`, the next id of the old tree.
pub open spec fn added_entry(old_toc: TocRoot, new_toc: TocRoot, parent: Option<NodeId>, c: NodeId, e: EntryView) -> bool {
    &&& !old_toc@.contains(c)
    &&& new_toc@.contains(c)
    &&& new_toc.level_of(c) == match parent {
        None => 1,
        Some(p) => old_toc.level_of(p) + 1,
    }
    &&& new_toc@.siblings(parent) == old_toc@.siblings(parent).push(c)
    &&& parent is Some ==> new_toc@.roots == old_toc@.roots
    &&& parent matches Some(p) ==> new_toc@.node(p) == (NodeView {
        children: old_toc@.node(p).children.push(c),
        ..old_toc@.node(p)
    })
    &&& forall|y: NodeId|
        #[trigger] old_toc@.contains(y) && Some(y) != parent ==> new_toc@.contains(y)
            && new_toc@.node(y) == old_toc@.node(y)
    &&& c == old_toc.next_id()
    &&& new_toc.dense()
    &&& new_toc.next_id().0 == c.0 + entry_size(e)
    &&& forall|fuel: nat|
        fuel + new_toc.level_of(c) >= new_toc.depth_bound() ==> #[trigger] entry_of(new_toc@, c, fuel)
            == renumber_entry(e, c.0 as nat)
}

/// Adds the entry and its subtree below `parent`, refusing an id already
/// seen or an inverted range.
fn insert_entry(toc: &mut TocRoot, entry: TocEntry, parent: Option<NodeId>, seen: &mut Vec<NodeId>) -> (r: Result<
    NodeId,
    TocError,
>)
    requires
        old(toc).wf(),
        old(toc).dense(),
        parent matches Some(p) ==> old(toc)@.contains(p),
        old(seen)@.no_duplicates(),
    ensures
        final(toc).wf(),
        r is Ok <==> restorable(old(seen)@, seq![entry_view(entry)]),
        r is Ok ==> final(seen)@ == old(seen)@ + entry_ids(flat_entries(seq![entry_view(entry)])),
        r matches Err(e) ==> e is InvalidSnapshot,
        r matches Ok(c) ==> added_entry(*old(toc), *final(toc), parent, c, entry_view(entry)),
        forall|x: NodeId| old(toc)@.contains(x) ==> #[trigger] final(toc)@.contains(x),
        forall|x: NodeId| #[trigger] old(toc)@.contains(x) ==> final(toc).level_of(x) == old(toc).level_of(x),
        final(toc).depth_bound() >= old(toc).depth_bound(),
    decreases entry,
{
    let ghost e0 = entry_view(entry);
    let ghost seen0 = seen@;
    let ghost entry0 = entry;
    let ghost toc0 = *toc;
    proof {
        lemma_restorable_one(seen0, e0);
    }
    if seen_contains(seen, entry.id) {
        return Err(TocError::InvalidSnapshot(duplicate_message(entry.id)));
    }
    seen.push(entry.id);
    match entry.meta.range {
        Some(range) => {
            if range.start > range.end {
                return Err(TocError::InvalidSnapshot(inverted_message(range.start, range.end, entry.title.as_str())));
            }
        },
        None => {},
    }
    let TocEntry { id: _, title, patch, meta, children } = entry;
    let id = match toc.add_with_meta(title.as_str(), Some(meta), parent) {
        Ok(node) => node.id,
        Err(e) => return Err(e),
    };
    let ghost toc1 = *toc;
    match toc.get_mut(id) {
        Some(node) => {
            node.patch = patch;
        },
        None => {},
    }
    let ghost cs = entries_view(children@);
    let ghost s1 = seen@;
    let ghost lv = toc.level_of(id);
    proof {
        assert(e0.children == cs);
        assert(s1 == seen0.push(e0.id));
        assert(s1.no_duplicates()) by {
            assert forall|i: int, j: int| 0 <= i < s1.len() && 0 <= j < s1.len() && i != j implies s1[i] != s1[j] by {
                if i < seen0.len() && j < seen0.len() {
                    assert(s1[i] == seen0[i] && s1[j] == seen0[j]);
                } else if i < seen0.len() {
                    assert(seen0.contains(s1[i]));
                } else if j < seen0.len() {
                    assert(seen0.contains(s1[j]));
                }
            }
        }
        assert(cs.take(0) =~= Seq::<EntryView>::empty());
        assert(flat_entries(Seq::<EntryView>::empty()) =~= Seq::<EntryView>::empty());
        assert(entry_ids(Seq::<EntryView>::empty()) =~= Seq::<NodeId>::empty());
        assert(s1 + Seq::<NodeId>::empty() =~= s1);
        assert(toc@.node(id).children =~= Seq::<NodeId>::empty());
        assert(renumber_entries(Seq::<EntryView>::empty(), (id.0 + 1) as nat) == Seq::<EntryView>::empty());
        assert(entries_size(Seq::<EntryView>::empty()) == 0);
        assert(toc0@.siblings(parent).push(id) == toc@.siblings(parent)) by {
            match parent {
                Some(p) => {
                    assert(p != id);
                },
                None => {},
            }
        }
    }
    proof {
        lemma_entries_view(children@);
    }
    let mut rest = children;
    let n = rest.len();
    let mut k: usize = 0;
    while rest.len() > 0
        invariant
            toc.wf(),
            n == children@.len(),
            cs.len() == children@.len(),
            forall|j: int| 0 <= j < cs.len() ==> #[trigger] cs[j] == entry_view(children@[j]),
            toc@.contains(id),
            !toc0@.contains(id),
            forall|x: NodeId| old(toc)@.contains(x) ==> #[trigger] toc@.contains(x),
            cs == entries_view(children@),
            k + rest@.len() == children@.len(),
            forall|j: int| 0 <= j < rest@.len() ==> #[trigger] rest@[j] == children@[k + j],
            restorable(s1, cs.take(k as int)),
            seen@ == s1 + entry_ids(flat_entries(cs.take(k as int))),
            decreases_to!(entry => children),
            seen0 == old(seen)@,
            e0 == entry_view(entry),
            restorable(seen0, seq![e0]) == restorable(s1, cs),
            toc0 == *old(toc),
            toc.level_of(id) == lv,
            lv == match parent {
                None => 1,
                Some(p) => toc0.level_of(p) + 1,
            },
            toc.depth_bound() >= toc0.depth_bound(),
            forall|x: NodeId| #[trigger] toc0@.contains(x) ==> toc.level_of(x) == toc0.level_of(x),
            toc@.siblings(parent) == toc0@.siblings(parent).push(id),
            parent is Some ==> toc@.roots == toc0@.roots,
            parent matches Some(p) ==> toc0@.contains(p),
            parent matches Some(p) ==> toc@.node(p) == (NodeView {
                children: toc0@.node(p).children.push(id),
                ..toc0@.node(p)
            }),
            forall|y: NodeId|
                #[trigger] toc0@.contains(y) && Some(y) != parent ==> toc@.contains(y)
                    && toc@.node(y) == toc0@.node(y),
            toc@.node(id).id == id,
            toc@.node(id).title == e0.title,
            toc@.node(id).patch == e0.patch,
            toc@.node(id).meta == e0.meta,
            toc@.node(id).children.len() == k,
            id == toc0.next_id(),
            toc.dense(),
            toc.next_id().0 == id.0 + 1 + entries_size(cs.take(k as int)),
            forall|fuel: nat|
                fuel + lv + 1 >= toc.depth_bound() ==> #[trigger] entries_of(toc@, toc@.node(id).children, fuel)
                    == renumber_entries(cs.take(k as int), (id.0 + 1) as nat),
        decreases rest@.len(),
    {
        let child = rest.remove(0);
        let ghost before = *toc;
        proof {
            assert(child == children@[k as int]);
            assert(cs[k as int] == entry_view(child));
            lemma_restorable_concat(s1, cs.take(k as int), seq![cs[k as int]]);
            assert(cs.take(k + 1) =~= cs.take(k as int) + seq![cs[k as int]]);
            assert(decreases_to!(entry => child));
        }
        let ck = match insert_entry(toc, child, Some(id), seen) {
            Ok(ck) => ck,
            Err(e) => {
                proof {
                    lemma_restorable_concat(s1, cs.take(k + 1), cs.skip(k + 1));
                    assert(cs.take(k + 1) + cs.skip(k + 1) =~= cs);
                    assert forall|x: NodeId| #[trigger] toc0@.contains(x) implies toc.level_of(x)
                        == toc0.level_of(x) by {
                        assert(before@.contains(x));
                    }
                }
                return Err(e);
            },
        };
        proof {
            lemma_flat_concat(cs.take(k as int), seq![cs[k as int]]);
            assert(entry_ids(flat_entries(cs.take(k as int)) + flat_entries(seq![cs[k as int]])) =~= entry_ids(
                flat_entries(cs.take(k as int)),
            ) + entry_ids(flat_entries(seq![cs[k as int]])));
            let l0 = before@.node(id).children;
            before.lemma_levels(id, id);
            assert forall|j: int| 0 <= j < l0.len() implies before@.contains(#[trigger] l0[j])
                && before.level_of(l0[j]) >= lv + 1 by {
                before.lemma_levels(id, l0[j]);
            }
            assert forall|y: NodeId| #[trigger] before@.contains(y) && before.level_of(y) >= lv + 1 implies toc@.contains(y)
                && toc@.node(y) == before@.node(y) by {
                assert(Some(y) != Some(id));
            }
            assert(toc@.node(id).children == l0.push(ck));
            lemma_renumber_push(cs.take(k as int), cs[k as int], (id.0 + 1) as nat);
            assert(cs.take(k + 1) =~= cs.take(k as int).push(cs[k as int]));
            assert forall|fuel: nat| fuel + lv + 1 >= toc.depth_bound() implies #[trigger] entries_of(
                toc@,
                toc@.node(id).children,
                fuel,
            ) == renumber_entries(cs.take(k + 1), (id.0 + 1) as nat) by {
                lemma_entries_frame(before, *toc, lv + 1, l0, fuel);
                lemma_entries_of_push(toc@, l0, ck, fuel);
                assert(entry_of(toc@, ck, fuel) == renumber_entry(cs[k as int], ck.0 as nat));
            }
            assert forall|y: NodeId|
                #[trigger] toc0@.contains(y) && Some(y) != parent implies toc@.contains(y)
                    && toc@.node(y) == toc0@.node(y) by {
                assert(before@.node(y) == toc0@.node(y));
                assert(y != id);
            }
            match parent {
                Some(p) => {
                    assert(p != id);
                    assert(before@.contains(p));
                    assert(toc@.node(p) == before@.node(p));
                },
                None => {},
            }
        }
        k += 1;
    }
    proof {
        assert(cs.take(k as int) =~= cs);
        assert(entry_ids(flat_entries(seq![e0])) =~= seq![e0.id] + entry_ids(flat_entries(cs))) by {
            lemma_flat_one(e0);
        }
        toc.lemma_levels(id, id);
        assert forall|fuel: nat| fuel + toc.level_of(id) >= toc.depth_bound() implies #[trigger] entry_of(
            toc@,
            id,
            fuel,
        ) == renumber_entry(e0, id.0 as nat) by {
            if fuel == 0 {
                if toc@.node(id).children.len() > 0 {
                    toc.lemma_levels(id, toc@.node(id).children[0]);
                }
                assert(cs.len() == 0);
                assert(renumber_entries(cs, (id.0 + 1) as nat) == Seq::<EntryView>::empty());
                assert(entries_of(toc@, toc@.node(id).children, 0) == Seq::<EntryView>::empty());
            } else {
                assert(entries_of(toc@, toc@.node(id).children, (fuel - 1) as nat) == renumber_entries(cs, (id.0 + 1) as nat));
            }
        }
    }
    Ok(id)
}

impl TocRoot {
    /// Restores a tree from its snapshot, rebuilding the parent links: the
    /// tree holds the snapshot's entries, in order and nesting, with ids
    /// given anew in preorder from 0. A snapshot with a duplicated id or an
    /// inverted range is refused.
    pub fn from_snapshot(snapshot: TocSnapshot) -> (r: Result<TocRoot, TocError>)
        ensures
            r is Ok <==> restorable(Seq::empty(), entries_view(snapshot@)),
            r matches Ok(t) ==> t.wf(),
            r matches Ok(t) ==> t.spec_snapshot() == renumber_entries(entries_view(snapshot@), 0),
            r matches Err(e) ==> e is InvalidSnapshot,
    {
        let ghost es = entries_view(snapshot@);
        proof {
            lemma_entries_view(snapshot@);
        }
        let mut seen: Vec<NodeId> = Vec::new();
        let mut toc = TocRoot::new();
        let mut rest = snapshot;
        let n = rest.len();
        let mut k: usize = 0;
        proof {
            assert(es.take(0) =~= Seq::<EntryView>::empty());
            assert(flat_entries(Seq::<EntryView>::empty()) =~= Seq::<EntryView>::empty());
            assert(entry_ids(Seq::<EntryView>::empty()) =~= Seq::<NodeId>::empty());
            assert(Seq::<NodeId>::empty() + Seq::<NodeId>::empty() =~= Seq::<NodeId>::empty());
            assert(toc@.roots =~= Seq::<NodeId>::empty());
            assert(renumber_entries(Seq::<EntryView>::empty(), 0) == Seq::<EntryView>::empty());
            assert(entries_size(Seq::<EntryView>::empty()) == 0);
        }
        while rest.len() > 0
            invariant
                toc.wf(),
                es == entries_view(snapshot@),
                n == snapshot@.len(),
                es.len() == snapshot@.len(),
                forall|j: int| 0 <= j < es.len() ==> #[trigger] es[j] == entry_view(snapshot@[j]),
                k + rest@.len() == snapshot@.len(),
                forall|j: int| 0 <= j < rest@.len() ==> #[trigger] rest@[j] == snapshot@[k + j],
                restorable(Seq::empty(), es.take(k as int)),
                seen@ == Seq::<NodeId>::empty() + entry_ids(flat_entries(es.take(k as int))),
                toc.dense(),
                toc.next_id().0 == entries_size(es.take(k as int)),
                forall|fuel: nat|
                    fuel + 1 >= toc.depth_bound() ==> #[trigger] entries_of(toc@, toc@.roots, fuel)
                        == renumber_entries(es.take(k as int), 0),
            decreases rest@.len(),
        {
            let entry = rest.remove(0);
            let ghost before = toc;
            proof {
                assert(entry == snapshot@[k as int]);
                assert(es[k as int] == entry_view(entry));
                lemma_restorable_concat(Seq::empty(), es.take(k as int), seq![es[k as int]]);
                assert(es.take(k + 1) =~= es.take(k as int) + seq![es[k as int]]);
            }
            let c = match insert_entry(&mut toc, entry, None, &mut seen) {
                Ok(c) => c,
                Err(e) => {
                    proof {
                        lemma_restorable_concat(Seq::empty(), es.take(k + 1), es.skip(k + 1));
                        assert(es.take(k + 1) + es.skip(k + 1) =~= es);
                    }
                    return Err(e);
                },
            };
            proof {
                let l0 = before@.roots;
                assert forall|j: int| 0 <= j < l0.len() implies before@.contains(#[trigger] l0[j])
                    && before.level_of(l0[j]) >= 1 by {
                    before.lemma_levels(l0[j], l0[j]);
                }
                assert forall|y: NodeId| #[trigger] before@.contains(y) && before.level_of(y) >= 1 implies toc@.contains(y)
                    && toc@.node(y) == before@.node(y) by {
                    assert(Some(y) != None::<NodeId>);
                }
                lemma_renumber_push(es.take(k as int), es[k as int], 0);
                assert(es.take(k + 1) =~= es.take(k as int).push(es[k as int]));
                assert forall|fuel: nat| fuel + 1 >= toc.depth_bound() implies #[trigger] entries_of(
                    toc@,
                    toc@.roots,
                    fuel,
                ) == renumber_entries(es.take(k + 1), 0) by {
                    lemma_entries_frame(before, toc, 1, l0, fuel);
                    lemma_entries_of_push(toc@, l0, c, fuel);
                    assert(entry_of(toc@, c, fuel) == renumber_entry(es[k as int], c.0 as nat));
                }
            }
            proof {
                lemma_flat_concat(es.take(k as int), seq![es[k as int]]);
                assert(entry_ids(flat_entries(es.take(k as int)) + flat_entries(seq![es[k as int]])) =~= entry_ids(
                    flat_entries(es.take(k as int)),
                ) + entry_ids(flat_entries(seq![es[k as int]])));
            }
            k += 1;
        }
        proof {
            assert(es.take(k as int) =~= es);
        }
        Ok(toc)
    }
}

} // verus!

verus! {

impl TryFrom<TocSnapshot> for TocRoot {
    type Error = TocError;

    /// Restores a tree from its snapshot (see `TocRoot::from_snapshot`).
    fn try_from(snapshot: TocSnapshot) -> (r: Result<TocRoot, TocError>)
        ensures
            r is Ok <==> restorable(Seq::empty(), entries_view(snapshot@)),
            r matches Ok(t) ==> t.wf(),
            r matches Ok(t) ==> t.spec_snapshot() == renumber_entries(entries_view(snapshot@), 0),
            r matches Err(e) ==> e is InvalidSnapshot,
    {
        TocRoot::from_snapshot(snapshot)
    }
}

impl vstd::std_specs::convert::TryFromSpecImpl<TocSnapshot> for TocRoot {
    open spec fn obeys_try_from_spec() -> bool {
        false
    }

    open spec fn try_from_spec(v: TocSnapshot) -> Result<TocRoot, TocError> {
        arbitrary()
    }
}

} // verus!

verus! {

/// Every node's range, if any, is ordered.
pub open spec fn node_ranges_ordered(m: TocModel) -> bool {
    forall|k: usize| #[trigger]
        m.nodes.contains_key(k) ==> match m.nodes[k].meta.range {
            Some(r) => r.start <= r.end,
            None => true,
        }
}

/// A node in the subtree of `a` lies at `a`'s level or deeper, and at the
/// same level only when it is `a`.
proof fn lemma_subtree_level(t: TocRoot, a: NodeId, y: NodeId)
    requires
        t.wf(),
        t@.contains(y),
        t.in_subtree(a, y),
    ensures
        t.level_of(y) >= t.level_of(a),
        t.level_of(y) == t.level_of(a) ==> y == a,
    decreases t.level_of(y),
{
    t.lemma_levels(a, y);
    if y != a {
        let p = t@.node(y).parent.unwrap();
        t.lemma_levels(a, p);
        lemma_subtree_level(t, a, p);
    }
}

/// A node has one ancestor at each level.
proof fn lemma_subtree_unique(t: TocRoot, a: NodeId, b: NodeId, y: NodeId)
    requires
        t.wf(),
        t@.contains(y),
        t.in_subtree(a, y),
        t.in_subtree(b, y),
        t.level_of(a) == t.level_of(b),
    ensures
        a == b,
    decreases t.level_of(y),
{
    t.lemma_levels(a, y);
    t.lemma_levels(b, y);
    if y == a {
        lemma_subtree_level(t, b, y);
    } else if y == b {
        lemma_subtree_level(t, a, y);
    } else {
        let p = t@.node(y).parent.unwrap();
        t.lemma_levels(a, p);
        lemma_subtree_unique(t, a, b, p);
    }
}

/// The subtree of a child lies in the subtree of its parent.
proof fn lemma_subtree_child(t: TocRoot, x: NodeId, c: NodeId, y: NodeId)
    requires
        t.wf(),
        t@.contains(c),
        t@.contains(y),
        t@.node(c).parent == Some(x),
        t.in_subtree(c, y),
    ensures
        t.in_subtree(x, y),
    decreases t.level_of(y),
{
    t.lemma_levels(c, y);
    t.lemma_levels(x, y);
    if y == c {
        t.lemma_levels(x, x);
    } else {
        let p = t@.node(y).parent.unwrap();
        t.lemma_levels(c, p);
        lemma_subtree_child(t, x, c, p);
    }
}

/// The preorder entries of a node: stored nodes with their metas, all in
/// the node's subtree, each once.
proof fn lemma_flat_entry(t: TocRoot, x: NodeId, fuel: nat)
    requires
        t.wf(),
        t@.contains(x),
    ensures
        ({
            let f = flat_entries(seq![entry_of(t@, x, fuel)]);
            &&& forall|i: int|
                0 <= i < f.len() ==> t@.contains(#[trigger] f[i].id) && f[i].meta == t@.node(
                    f[i].id,
                ).meta && t.in_subtree(x, f[i].id)
            &&& entry_ids(f).no_duplicates()
        }),
    decreases fuel, 0nat,
{
    let e = entry_of(t@, x, fuel);
    let f = flat_entries(seq![e]);
    lemma_flat_one(e);
    t.lemma_levels(x, x);
    let fc = flat_entries(e.children);
    if fuel > 0 {
        let cs = t@.node(x).children;
        assert forall|j: int| 0 <= j < cs.len() implies t@.contains(#[trigger] cs[j]) && t.level_of(cs[j])
            == t.level_of(x) + 1 by {
            t.lemma_levels(x, cs[j]);
        }
        lemma_flat_entries(t, cs, t.level_of(x) + 1, (fuel - 1) as nat);
    } else {
        assert(fc =~= Seq::<EntryView>::empty());
    }
    assert forall|i: int| 0 <= i < fc.len() implies t@.contains(#[trigger] fc[i].id) && fc[i].meta
        == t@.node(fc[i].id).meta && t.in_subtree(x, fc[i].id) && t.level_of(fc[i].id) > t.level_of(x) by {
        let cs = t@.node(x).children;
        let j = choose|j: int| 0 <= j < cs.len() && t.in_subtree(#[trigger] cs[j], fc[i].id);
        t.lemma_levels(x, cs[j]);
        lemma_subtree_child(t, x, cs[j], fc[i].id);
        lemma_subtree_level(t, cs[j], fc[i].id);
    }
    assert(f =~= seq![e] + fc);
    assert forall|i: int| 0 <= i < f.len() implies t@.contains(#[trigger] f[i].id) && f[i].meta == t@.node(
        f[i].id,
    ).meta && t.in_subtree(x, f[i].id) by {
        if i > 0 {
            assert(f[i] == fc[i - 1]);
        }
    }
    let ids = entry_ids(f);
    assert forall|i: int, j: int| 0 <= i < ids.len() && 0 <= j < ids.len() && i != j implies ids[i]
        != ids[j] by {
        if i > 0 && j > 0 {
            assert(ids[i] == entry_ids(fc)[i - 1] && ids[j] == entry_ids(fc)[j - 1]);
        } else if i == 0 {
            assert(f[j] == fc[j - 1]);
        } else {
            assert(f[i] == fc[i - 1]);
        }
    }
}

/// The preorder entries of sibling nodes at level `lv`: stored nodes with
/// their metas, each below one of the listed nodes, each once.
proof fn lemma_flat_entries(t: TocRoot, ids: Seq<NodeId>, lv: nat, fuel: nat)
    requires
        t.wf(),
        ids.no_duplicates(),
        forall|j: int| 0 <= j < ids.len() ==> t@.contains(#[trigger] ids[j]) && t.level_of(ids[j]) == lv,
    ensures
        ({
            let f = flat_entries(entries_of(t@, ids, fuel));
            &&& forall|i: int|
                0 <= i < f.len() ==> t@.contains(#[trigger] f[i].id) && f[i].meta == t@.node(
                    f[i].id,
                ).meta && exists|j: int| 0 <= j < ids.len() && t.in_subtree(#[trigger] ids[j], f[i].id)
            &&& entry_ids(f).no_duplicates()
        }),
    decreases fuel, 1nat, ids.len(),
{
    let f = flat_entries(entries_of(t@, ids, fuel));
    if ids.len() == 0 {
        assert(f =~= Seq::<EntryView>::empty());
    } else {
        let pre = ids.drop_last();
        let x = ids.last();
        assert(pre.no_duplicates());
        lemma_flat_entries(t, pre, lv, fuel);
        lemma_flat_entry(t, x, fuel);
        let fa = flat_entries(entries_of(t@, pre, fuel));
        let fb = flat_entries(seq![entry_of(t@, x, fuel)]);
        assert(entries_of(t@, ids, fuel) == entries_of(t@, pre, fuel) + seq![entry_of(t@, x, fuel)]);
        lemma_flat_concat(entries_of(t@, pre, fuel), seq![entry_of(t@, x, fuel)]);
        assert(f == fa + fb);
        assert forall|i: int| 0 <= i < f.len() implies t@.contains(#[trigger] f[i].id) && f[i].meta == t@.node(
            f[i].id,
        ).meta && exists|j: int| 0 <= j < ids.len() && t.in_subtree(#[trigger] ids[j], f[i].id) by {
            if i < fa.len() {
                assert(f[i] == fa[i]);
                let j = choose|j: int| 0 <= j < pre.len() && t.in_subtree(#[trigger] pre[j], fa[i].id);
                assert(ids[j] == pre[j]);
            } else {
                assert(f[i] == fb[i - fa.len()]);
                assert(ids[ids.len() - 1] == x);
            }
        }
        let ia = entry_ids(fa);
        let ib = entry_ids(fb);
        assert(entry_ids(f) =~= ia + ib);
        assert forall|i: int, j: int| 0 <= i < ia.len() && 0 <= j < ib.len() implies ia[i] != ib[j] by {
            if ia[i] == ib[j] {
                let y = ia[i];
                let k = choose|k: int| 0 <= k < pre.len() && t.in_subtree(#[trigger] pre[k], fa[i].id);
                assert(fb[j].id == y);
                lemma_subtree_unique(t, pre[k], x, y);
                assert(ids[k] == pre[k]);
                assert(ids[ids.len() - 1] == x);
            }
        }
        let all = ia + ib;
        assert forall|i: int, j: int| 0 <= i < all.len() && 0 <= j < all.len() && i != j implies all[i]
            != all[j] by {
            if i < ia.len() && j < ia.len() {
            } else if i >= ia.len() && j >= ia.len() {
                assert(all[i] == ib[i - ia.len()] && all[j] == ib[j - ia.len()]);
            } else if i < ia.len() {
                assert(all[j] == ib[j - ia.len()]);
            } else {
                assert(all[i] == ib[i - ia.len()]);
            }
        }
    }
}

/// A well-formed tree whose ranges are all ordered gives a snapshot that
/// restores: its ids are distinct and its ranges ordered, so
/// `TocRoot::from_snapshot` accepts it and gives back a tree with the same
/// entries, their ids given anew in preorder from 0 (so the very same
/// entries where the tree's ids already run so).
pub proof fn lemma_snapshot_restorable(t: TocRoot, snapshot: TocSnapshot)
    requires
        t.wf(),
        node_ranges_ordered(t@),
        entries_view(snapshot@) == t.spec_snapshot(),
    ensures
        restorable(Seq::empty(), entries_view(snapshot@)),
{
    t.lemma_roots();
    let fuel = (t.depth_bound() - 1) as nat;
    lemma_flat_entries(t, t@.roots, 1, fuel);
    let f = flat_entries(t.spec_snapshot());
    assert(Seq::<NodeId>::empty() + entry_ids(f) =~= entry_ids(f));
    assert forall|i: int| 0 <= i < f.len() implies range_ok(#[trigger] f[i]) by {
        assert(t@.contains(f[i].id));
        assert(t@.nodes.contains_key(f[i].id.0));
    }
}

} // verus!

verus! {

/// The ids of the subtree of `x`: `x` and its descendants, in preorder.
pub open spec fn subtree_ids(t: TocRoot, x: NodeId) -> Seq<NodeId> {
    entry_ids(flat_entries(seq![entry_of(t@, x, (t.depth_bound() - t.level_of(x)) as nat)]))
}

/// The entries of a concatenation of lists.
proof fn lemma_entries_of_concat(m: TocModel, a: Seq<NodeId>, b: Seq<NodeId>, fuel: nat)
    ensures
        entries_of(m, a + b, fuel) == entries_of(m, a, fuel) + entries_of(m, b, fuel),
    decreases b.len(),
{
    if b.len() == 0 {
        assert(a + b =~= a);
        assert(entries_of(m, a, fuel) + entries_of(m, b, fuel) =~= entries_of(m, a, fuel));
    } else {
        lemma_entries_of_concat(m, a, b.drop_last(), fuel);
        assert((a + b).drop_last() =~= a + b.drop_last());
        assert((a + b).last() == b.last());
        assert(entries_of(m, a, fuel) + entries_of(m, b, fuel) =~= (entries_of(m, a, fuel) + entries_of(
            m,
            b.drop_last(),
            fuel,
        )).push(entry_of(m, b.last(), fuel)));
    }
}

/// The ids of a concatenation of entries.
proof fn lemma_entry_ids_concat(a: Seq<EntryView>, b: Seq<EntryView>)
    ensures
        entry_ids(a + b) == entry_ids(a) + entry_ids(b),
{
    assert(entry_ids(a + b) =~= entry_ids(a) + entry_ids(b));
}

/// Entries read only the nodes they list: a tree that holds those nodes
/// unchanged gives the same entries.
proof fn lemma_entries_frame_on(t1: TocRoot, t2: TocRoot, ids: Seq<NodeId>, fuel: nat)
    requires
        t1.wf(),
        forall|j: int| 0 <= j < ids.len() ==> t1@.contains(#[trigger] ids[j]),
        forall|y: NodeId|
            #[trigger] entry_ids(flat_entries(entries_of(t1@, ids, fuel))).contains(y) ==> t2@.contains(y)
                && t2@.node(y) == t1@.node(y),
    ensures
        entries_of(t2@, ids, fuel) == entries_of(t1@, ids, fuel),
    decreases fuel, 1nat, ids.len(),
{
    if ids.len() > 0 {
        let pre = ids.drop_last();
        let x = ids.last();
        let fa = flat_entries(entries_of(t1@, pre, fuel));
        let fb = flat_entries(seq![entry_of(t1@, x, fuel)]);
        assert(entries_of(t1@, ids, fuel) == entries_of(t1@, pre, fuel) + seq![entry_of(t1@, x, fuel)]);
        lemma_flat_concat(entries_of(t1@, pre, fuel), seq![entry_of(t1@, x, fuel)]);
        lemma_entry_ids_concat(fa, fb);
        assert forall|y: NodeId| #[trigger] entry_ids(fa).contains(y) implies t2@.contains(y) && t2@.node(y)
            == t1@.node(y) by {
            let i = choose|i: int| 0 <= i < entry_ids(fa).len() && entry_ids(fa)[i] == y;
            assert(entry_ids(fa + fb)[i] == y);
            assert(entry_ids(flat_entries(entries_of(t1@, ids, fuel))).contains(y));
        }
        assert forall|y: NodeId| #[trigger] entry_ids(fb).contains(y) implies t2@.contains(y) && t2@.node(y)
            == t1@.node(y) by {
            let i = choose|i: int| 0 <= i < entry_ids(fb).len() && entry_ids(fb)[i] == y;
            assert(entry_ids(fa + fb)[fa.len() + i] == y);
            assert(entry_ids(flat_entries(entries_of(t1@, ids, fuel))).contains(y));
        }
        lemma_entries_frame_on(t1, t2, pre, fuel);
        lemma_entry_frame_on(t1, t2, x, fuel);
    }
}

/// One node's entry in the same situation (see `lemma_entries_frame_on`).
proof fn lemma_entry_frame_on(t1: TocRoot, t2: TocRoot, x: NodeId, fuel: nat)
    requires
        t1.wf(),
        t1@.contains(x),
        forall|y: NodeId|
            #[trigger] entry_ids(flat_entries(seq![entry_of(t1@, x, fuel)])).contains(y) ==> t2@.contains(y)
                && t2@.node(y) == t1@.node(y),
    ensures
        entry_of(t2@, x, fuel) == entry_of(t1@, x, fuel),
    decreases fuel, 0nat,
{
    let e = entry_of(t1@, x, fuel);
    lemma_flat_one(e);
    let fc = flat_entries(e.children);
    lemma_entry_ids_concat(seq![e], fc);
    assert(entry_ids(seq![e])[0] == x);
    assert(entry_ids(seq![e] + fc)[0] == x);
    assert(entry_ids(flat_entries(seq![e])).contains(x));
    assert(t2@.node(x) == t1@.node(x));
    if fuel > 0 {
        let cs = t1@.node(x).children;
        t1.lemma_levels(x, x);
        assert forall|y: NodeId| #[trigger] entry_ids(flat_entries(entries_of(t1@, cs, (fuel - 1) as nat))).contains(
            y,
        ) implies t2@.contains(y) && t2@.node(y) == t1@.node(y) by {
            let i = choose|i: int| 0 <= i < entry_ids(fc).len() && entry_ids(fc)[i] == y;
            assert(entry_ids(seq![e] + fc)[1 + i] == y);
            assert(entry_ids(flat_entries(seq![e])).contains(y));
        }
        lemma_entries_frame_on(t1, t2, cs, (fuel - 1) as nat);
    }
}

} // verus!

verus! {

/// Splitting the subtrees of a list of sibling nodes at the node `cs[j - 1]`:
/// the subtrees from `j - 1` on are that node's subtree and those from `j`
/// on, which share no node; all of them lie at the siblings' level or deeper.
proof fn lemma_split_subtrees(t: TocRoot, cs: Seq<NodeId>, lv: nat, fuel: nat, j: int)
    requires
        t.wf(),
        cs.no_duplicates(),
        forall|k: int| 0 <= k < cs.len() ==> t@.contains(#[trigger] cs[k]) && t.level_of(cs[k]) == lv,
        1 <= j <= cs.len(),
    ensures
        ({
            let sub = entry_ids(flat_entries(seq![entry_of(t@, cs[j - 1], fuel)]));
            let g1 = entry_ids(flat_entries(entries_of(t@, cs.skip(j - 1), fuel)));
            let g = entry_ids(flat_entries(entries_of(t@, cs.skip(j), fuel)));
            &&& forall|y: NodeId| #[trigger] g1.contains(y) <==> sub.contains(y) || g.contains(y)
            &&& forall|y: NodeId| #[trigger] sub.contains(y) ==> !g.contains(y)
            &&& forall|y: NodeId|
                #[trigger] g1.contains(y) ==> t@.contains(y) && t.level_of(y) >= lv
        }),
{
    let c = cs[j - 1];
    let ea = entries_of(t@, cs.take(j - 1), fuel);
    let ec = seq![entry_of(t@, c, fuel)];
    let eg = entries_of(t@, cs.skip(j), fuel);
    assert(cs =~= cs.take(j - 1) + cs.skip(j - 1));
    assert(cs.skip(j - 1) =~= seq![c] + cs.skip(j));
    lemma_entries_of_concat(t@, cs.take(j - 1), cs.skip(j - 1), fuel);
    lemma_entries_of_concat(t@, seq![c], cs.skip(j), fuel);
    assert(seq![c].drop_last() =~= Seq::<NodeId>::empty());
    assert(entries_of(t@, Seq::<NodeId>::empty(), fuel) == Seq::<EntryView>::empty());
    assert(seq![c].last() == c);
    assert(entries_of(t@, seq![c], fuel) == Seq::<EntryView>::empty().push(entry_of(t@, c, fuel)));
    assert(Seq::<EntryView>::empty().push(entry_of(t@, c, fuel)) =~= ec);
    lemma_flat_concat(ea, ec + eg);
    lemma_flat_concat(ec, eg);
    let fa = flat_entries(ea);
    let fc = flat_entries(ec);
    let fg = flat_entries(eg);
    lemma_entry_ids_concat(fc, fg);
    lemma_entry_ids_concat(fa, fc + fg);
    let a = entry_ids(fa);
    let sub = entry_ids(fc);
    let g = entry_ids(fg);
    let w = entry_ids(flat_entries(entries_of(t@, cs, fuel)));
    assert(w == a + (sub + g));
    lemma_flat_entries(t, cs, lv, fuel);
    let g1 = entry_ids(flat_entries(entries_of(t@, cs.skip(j - 1), fuel)));
    assert(g1 == sub + g);
    assert forall|y: NodeId| #[trigger] g1.contains(y) <==> sub.contains(y) || g.contains(y) by {
        if g1.contains(y) {
            let i = choose|i: int| 0 <= i < g1.len() && g1[i] == y;
            if i < sub.len() {
                assert(sub[i] == y);
            } else {
                assert(g[i - sub.len()] == y);
            }
        }
        if sub.contains(y) {
            let i = choose|i: int| 0 <= i < sub.len() && sub[i] == y;
            assert(g1[i] == y);
        }
        if g.contains(y) {
            let i = choose|i: int| 0 <= i < g.len() && g[i] == y;
            assert(g1[sub.len() + i] == y);
        }
    }
    assert forall|y: NodeId| #[trigger] sub.contains(y) implies !g.contains(y) by {
        if g.contains(y) {
            let i = choose|i: int| 0 <= i < sub.len() && sub[i] == y;
            let i2 = choose|i2: int| 0 <= i2 < g.len() && g[i2] == y;
            assert(w[a.len() + i] == y);
            assert(w[a.len() + sub.len() + i2] == y);
        }
    }
    let fw = flat_entries(entries_of(t@, cs, fuel));
    assert forall|y: NodeId| #[trigger] g1.contains(y) implies t@.contains(y) && t.level_of(y) >= lv by {
        let i = choose|i: int| 0 <= i < g1.len() && g1[i] == y;
        let iw = a.len() + i;
        assert(w[iw] == y);
        assert(fw[iw].id == y);
        let k = choose|k: int| 0 <= k < cs.len() && t.in_subtree(#[trigger] cs[k], fw[iw].id);
        lemma_subtree_level(t, cs[k], y);
    }
}

} // verus!

verus! {

impl TocRoot {
    /// Removes a node with its whole subtree: the node and every descendant
    /// leave the tree, the node leaves its parent's children (or the top
    /// level), and every other node is as it was. An unknown id changes
    /// nothing.
    pub fn remove(&mut self, id: NodeId)
        requires
            old(self).wf(),
        ensures
            final(self).wf(),
            old(self)@.contains(id) ==> {
                &&& forall|y: NodeId|
                    #[trigger] final(self)@.contains(y) <==> old(self)@.contains(y) && !subtree_ids(
                        *old(self),
                        id,
                    ).contains(y)
                &&& forall|y: NodeId|
                    #[trigger] final(self)@.contains(y) ==> final(self)@.node(y) == old(self)@.detach(id).node(y)
                &&& final(self)@.roots == old(self)@.detach(id).roots
                &&& forall|y: NodeId|
                    #[trigger] final(self)@.contains(y) <==> old(self)@.contains(y) && !old(self).in_subtree(
                        id,
                        y,
                    )
            },
            !old(self)@.contains(id) ==> final(self)@ == old(self)@,
    {
        if self.contains(id) {
            let ghost t0 = *self;
            self.remove_subtree(id);
            proof {
                assert forall|y: NodeId| #[trigger] self@.contains(y) <==> t0@.contains(y) && !t0.in_subtree(
                    id,
                    y,
                ) by {
                    lemma_subtree_ids(t0, id, y);
                }
            }
        }
    }

    /// Removes `id` with its whole subtree: children first, then the node.
    fn remove_subtree(&mut self, id: NodeId)
        requires
            old(self).wf(),
            old(self)@.contains(id),
        ensures
            final(self).wf(),
            final(self).depth_bound() == old(self).depth_bound(),
            forall|x: NodeId| #[trigger] final(self).level_of(x) == old(self).level_of(x),
            forall|y: NodeId|
                #[trigger] final(self)@.contains(y) <==> old(self)@.contains(y) && !subtree_ids(
                    *old(self),
                    id,
                ).contains(y),
            forall|y: NodeId|
                #[trigger] final(self)@.contains(y) ==> final(self)@.node(y) == old(self)@.detach(id).node(y),
            final(self)@.roots == old(self)@.detach(id).roots,
        decreases old(self).depth_bound() - old(self).level_of(id),
    {
        let ghost t0 = *self;
        let ghost lv = self.level_of(id);
        let ghost f = (self.depth_bound() - lv) as nat;
        let ghost f1 = (f - 1) as nat;
        let ghost cs = self@.node(id).children;
        proof {
            self.lemma_levels(id, id);
            assert forall|k: int| 0 <= k < cs.len() implies self@.contains(#[trigger] cs[k]) && self.level_of(
                cs[k],
            ) == lv + 1 by {
                self.lemma_levels(id, cs[k]);
            }
            assert(cs.skip(cs.len() as int) =~= Seq::<NodeId>::empty());
            assert(entries_of(t0@, Seq::<NodeId>::empty(), f1) == Seq::<EntryView>::empty());
            assert(flat_entries(Seq::<EntryView>::empty()) == Seq::<EntryView>::empty());
            assert(entry_ids(Seq::<EntryView>::empty()) =~= Seq::<NodeId>::empty());
            assert(cs.take(cs.len() as int) =~= cs);
            assert(self@.node(id) == (NodeView { children: cs.take(cs.len() as int), ..t0@.node(id) }));
        }
        let n = match self.get(id) {
            Some(node) => node.children.len(),
            None => 0,
        };
        let mut j = n;
        while j > 0
            invariant
                self.wf(),
                t0.wf(),
                t0 == *old(self),
                self.depth_bound() == t0.depth_bound(),
                forall|x: NodeId| #[trigger] self.level_of(x) == t0.level_of(x),
                t0@.contains(id),
                lv == t0.level_of(id),
                lv <= t0.depth_bound(),
                f == (t0.depth_bound() - lv) as nat,
                f1 == (f - 1) as nat,
                cs == t0@.node(id).children,
                cs.no_duplicates(),
                forall|k: int| 0 <= k < cs.len() ==> t0@.contains(#[trigger] cs[k]) && t0.level_of(cs[k]) == lv + 1,
                j <= n,
                n == cs.len(),
                self@.contains(id),
                self@.node(id) == (NodeView { children: cs.take(j as int), ..t0@.node(id) }),
                forall|y: NodeId|
                    #[trigger] self@.contains(y) <==> t0@.contains(y) && !entry_ids(
                        flat_entries(entries_of(t0@, cs.skip(j as int), f1)),
                    ).contains(y),
                forall|y: NodeId| #[trigger] self@.contains(y) && y != id ==> self@.node(y) == t0@.node(y),
                self@.roots == t0@.roots,
            decreases j,
        {
            let c = match self.get(id) {
                Some(node) => node.children[j - 1],
                None => id,
            };
            let ghost before = *self;
            let ghost sub = entry_ids(flat_entries(seq![entry_of(t0@, c, f1)]));
            let ghost g = entry_ids(flat_entries(entries_of(t0@, cs.skip(j as int), f1)));
            proof {
                assert(c == cs[j - 1]);
                lemma_split_subtrees(t0, cs, lv + 1, f1, j as int);
                before.lemma_levels(id, id);
                assert(cs.take(j as int)[j - 1] == c);
                assert(before@.contains(c));
                before.lemma_levels(id, c);
                assert forall|y: NodeId| #[trigger]
                    entry_ids(flat_entries(seq![entry_of(t0@, c, f1)])).contains(y) implies before@.contains(y)
                    && before@.node(y) == t0@.node(y) by {
                    assert(sub.contains(y));
                    let g1 = entry_ids(flat_entries(entries_of(t0@, cs.skip(j - 1), f1)));
                    assert(g1.contains(y));
                    assert(!g.contains(y));
                    assert(t0@.contains(y));
                    assert(t0.level_of(y) >= lv + 1);
                    assert(y != id);
                    assert(before@.contains(y));
                    assert(before@.node(y) == t0@.node(y));
                }
                lemma_entry_frame_on(t0, before, c, f1);
                assert(before.level_of(c) == lv + 1);
                assert((before.depth_bound() - before.level_of(c)) as nat == f1);
                assert(subtree_ids(before, c) == sub);
                assert(before.level_of(c) <= before.depth_bound());
                assert(before.depth_bound() - before.level_of(c) < t0.depth_bound() - t0.level_of(id));
            }
            self.remove_subtree(c);
            proof {
                let tk = cs.take(j as int);
                lemma_index_of_unique(tk, c, j - 1);
                assert(tk.remove(j - 1) =~= cs.take(j - 1));
                assert(before@.node(c).parent == Some(id));
                let g1 = entry_ids(flat_entries(entries_of(t0@, cs.skip(j - 1), f1)));
                if sub.contains(id) {
                    assert(g1.contains(id));
                }
                assert(!subtree_ids(before, c).contains(id));
                assert(self@.contains(id));
                assert(self@.node(id) == before@.detach(c).node(id));
                assert(self@.node(id) == (NodeView { children: cs.take(j - 1), ..t0@.node(id) }));
                assert forall|y: NodeId| #[trigger] self@.contains(y) <==> t0@.contains(y) && !g1.contains(y) by {
                    if g1.contains(y) {
                        assert(sub.contains(y) || g.contains(y));
                    }
                }
                assert forall|y: NodeId| #[trigger] self@.contains(y) && y != id implies self@.node(y)
                    == t0@.node(y) by {
                    assert(before@.contains(y));
                    if Some(y) == before@.node(c).parent {
                    } else {
                        assert(self@.node(y) == before@.node(y));
                    }
                }
            }
            j -= 1;
        }
        let ghost cur = *self;
        proof {
            assert(cs.take(0) =~= Seq::<NodeId>::empty());
            assert(cs.skip(0) =~= cs);
            assert(self@.node(id).children.len() == 0);
        }
        self.remove_leaf(id);
        proof {
            let e = entry_of(t0@, id, f);
            lemma_flat_one(e);
            let fc = flat_entries(e.children);
            lemma_entry_ids_concat(seq![e], fc);
            let all = entry_ids(flat_entries(seq![e]));
            assert(subtree_ids(t0, id) == all);
            let gall = entry_ids(flat_entries(entries_of(t0@, cs, f1)));
            if f == 0 {
                if cs.len() > 0 {
                    t0.lemma_levels(id, cs[0]);
                }
                assert(cs =~= Seq::<NodeId>::empty());
                assert(fc =~= Seq::<EntryView>::empty());
            } else {
                assert(e.children == entries_of(t0@, cs, f1));
            }
            assert(fc == flat_entries(entries_of(t0@, cs, f1))) by {
                if f == 0 {
                    assert(entries_of(t0@, cs, f1) == Seq::<EntryView>::empty());
                }
            }
            assert forall|y: NodeId| #[trigger] all.contains(y) <==> y == id || gall.contains(y) by {
                if all.contains(y) {
                    let i = choose|i: int| 0 <= i < all.len() && all[i] == y;
                    if i > 0 {
                        assert(gall[i - 1] == y);
                    }
                }
                if gall.contains(y) {
                    let i = choose|i: int| 0 <= i < gall.len() && gall[i] == y;
                    assert(all[i + 1] == y);
                }
                if y == id {
                    assert(all[0] == id);
                }
            }
            lemma_own_list(t0@, id);
            let op = t0@.node(id).parent;
            match op {
                Some(p) => {
                    t0.lemma_levels(id, id);
                    t0.lemma_levels(p, p);
                    assert(t0.level_of(p) < lv);
                    if gall.contains(p) {
                        lemma_split_subtrees(t0, cs, lv + 1, f1, 1);
                        assert(cs.skip(0) =~= cs);
                    }
                    assert(cur@.contains(p));
                    assert(cur@.node(p) == t0@.node(p));
                },
                None => {},
            }
            assert(cur@.siblings(op) == t0@.siblings(op));
            assert(cur@.node(id).parent == op);
            assert(entries_of(t0@, cs.skip(0), f1) == entries_of(t0@, cs, f1));
            assert forall|y: NodeId| #[trigger] self@.contains(y) <==> t0@.contains(y) && !subtree_ids(t0, id).contains(
                y,
            ) by {
                if self@.contains(y) {
                    assert(cur@.contains(y) && y != id);
                }
                if t0@.contains(y) && !all.contains(y) {
                    assert(y != id && !gall.contains(y));
                    assert(cur@.contains(y));
                }
            }
            assert forall|y: NodeId| #[trigger] self@.contains(y) implies self@.node(y) == t0@.detach(id).node(y) by {
                assert(cur@.contains(y));
                assert(y != id);
                if Some(y) == op {
                } else {
                    assert(cur@.node(y) == t0@.node(y));
                }
            }
        }
    }
}

} // verus!

verus! {

/// The entry of a listed node is among the entries of the list.
proof fn lemma_entry_in_list(m: TocModel, ids: Seq<NodeId>, k: int, fuel: nat, y: NodeId)
    requires
        0 <= k < ids.len(),
        entry_ids(flat_entries(seq![entry_of(m, ids[k], fuel)])).contains(y),
    ensures
        entry_ids(flat_entries(entries_of(m, ids, fuel))).contains(y),
{
    let x = ids[k];
    assert(ids =~= ids.take(k) + (seq![x] + ids.skip(k + 1)));
    lemma_entries_of_concat(m, ids.take(k), seq![x] + ids.skip(k + 1), fuel);
    lemma_entries_of_concat(m, seq![x], ids.skip(k + 1), fuel);
    assert(seq![x].drop_last() =~= Seq::<NodeId>::empty());
    assert(entries_of(m, Seq::<NodeId>::empty(), fuel) == Seq::<EntryView>::empty());
    assert(seq![x].last() == x);
    let ec = seq![entry_of(m, x, fuel)];
    assert(entries_of(m, seq![x], fuel) == Seq::<EntryView>::empty().push(entry_of(m, x, fuel)));
    assert(Seq::<EntryView>::empty().push(entry_of(m, x, fuel)) =~= ec);
    let ea = entries_of(m, ids.take(k), fuel);
    let eg = entries_of(m, ids.skip(k + 1), fuel);
    lemma_flat_concat(ea, ec + eg);
    lemma_flat_concat(ec, eg);
    let fa = flat_entries(ea);
    let fc = flat_entries(ec);
    let fg = flat_entries(eg);
    lemma_entry_ids_concat(fc, fg);
    lemma_entry_ids_concat(fa, fc + fg);
    let i = choose|i: int| 0 <= i < entry_ids(fc).len() && entry_ids(fc)[i] == y;
    let w = entry_ids(flat_entries(entries_of(m, ids, fuel)));
    assert(w == entry_ids(fa) + (entry_ids(fc) + entry_ids(fg)));
    assert(w[entry_ids(fa).len() + i] == y);
}

/// A descendant of `a` lies in the subtree of one of `a`'s children.
proof fn lemma_child_ancestor(t: TocRoot, a: NodeId, y: NodeId) -> (c: NodeId)
    requires
        t.wf(),
        t@.contains(a),
        t@.contains(y),
        y != a,
        t.in_subtree(a, y),
    ensures
        t@.node(a).children.contains(c),
        t@.contains(c),
        t.in_subtree(c, y),
    decreases t.level_of(y),
{
    t.lemma_levels(a, y);
    let p = t@.node(y).parent.unwrap();
    t.lemma_levels(y, y);
    t.lemma_levels(a, p);
    if p == a {
        t.lemma_levels(y, y);
        y
    } else {
        let c = lemma_child_ancestor(t, a, p);
        t.lemma_levels(c, y);
        c
    }
}

/// Every node of the subtree of `a` is listed by the entry of `a`, given
/// fuel enough for the tree's depth.
proof fn lemma_subtree_listed_fuel(t: TocRoot, a: NodeId, y: NodeId, fuel: nat)
    requires
        t.wf(),
        t@.contains(a),
        t@.contains(y),
        t.in_subtree(a, y),
        t.level_of(a) + fuel >= t.depth_bound(),
    ensures
        entry_ids(flat_entries(seq![entry_of(t@, a, fuel)])).contains(y),
    decreases fuel,
{
    let e = entry_of(t@, a, fuel);
    lemma_flat_one(e);
    let fc = flat_entries(e.children);
    lemma_entry_ids_concat(seq![e], fc);
    let all = entry_ids(flat_entries(seq![e]));
    if y == a {
        assert(all[0] == a);
    } else {
        let c = lemma_child_ancestor(t, a, y);
        t.lemma_levels(a, a);
        t.lemma_levels(a, c);
        t.lemma_levels(c, c);
        assert(fuel > 0);
        lemma_subtree_listed_fuel(t, c, y, (fuel - 1) as nat);
        let cs = t@.node(a).children;
        let k = choose|k: int| 0 <= k < cs.len() && cs[k] == c;
        lemma_entry_in_list(t@, cs, k, (fuel - 1) as nat, y);
        let gc = entry_ids(fc);
        let i = choose|i: int| 0 <= i < gc.len() && gc[i] == y;
        assert(all[i + 1] == y);
    }
}

/// The ids `subtree_ids` lists are exactly the node and its descendants:
/// a stored node is listed when it lies in the subtree, and what is listed
/// is stored and lies in the subtree.
pub proof fn lemma_subtree_ids(t: TocRoot, a: NodeId, y: NodeId)
    requires
        t.wf(),
        t@.contains(a),
    ensures
        subtree_ids(t, a).contains(y) <==> t@.contains(y) && t.in_subtree(a, y),
{
    t.lemma_levels(a, a);
    let fuel = (t.depth_bound() - t.level_of(a)) as nat;
    lemma_flat_entry(t, a, fuel);
    if subtree_ids(t, a).contains(y) {
        let f = flat_entries(seq![entry_of(t@, a, fuel)]);
        let i = choose|i: int| 0 <= i < entry_ids(f).len() && entry_ids(f)[i] == y;
        assert(f[i].id == y);
    }
    if t@.contains(y) && t.in_subtree(a, y) {
        lemma_subtree_listed_fuel(t, a, y, fuel);
    }
}

} // verus!
