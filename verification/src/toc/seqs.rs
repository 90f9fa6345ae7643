//! Facts about the id lists (children and roots) of the tree.
use vstd::prelude::*;

use super::id::NodeId;

verus! {

/// The list without `x` (lists hold each id at most once, so this removes
/// its single occurrence, and leaves a list without `x` as it is).
pub open spec fn without(s: Seq<NodeId>, x: NodeId) -> Seq<NodeId> {
    if s.contains(x) {
        s.remove(s.index_of(x))
    } else {
        s
    }
}

/// The position of `x` in a list that holds it.
pub open spec fn position(s: Seq<NodeId>, x: NodeId) -> int {
    s.index_of(x)
}

pub proof fn lemma_index_of_unique(s: Seq<NodeId>, x: NodeId, i: int)
    requires
        s.no_duplicates(),
        0 <= i < s.len(),
        s[i] == x,
    ensures
        s.index_of(x) == i,
        s.contains(x),
{
    assert(s.contains(x));
    let j = s.index_of(x);
    assert(0 <= j < s.len() && s[j] == x);
}

pub proof fn lemma_without(s: Seq<NodeId>, x: NodeId)
    requires
        s.no_duplicates(),
    ensures
        without(s, x).no_duplicates(),
        forall|y: NodeId| #[trigger] without(s, x).contains(y) <==> (s.contains(y) && y != x),
        !s.contains(x) ==> without(s, x) == s,
        s.contains(x) ==> without(s, x).len() == s.len() - 1,
{
    if s.contains(x) {
        let i = s.index_of(x);
        let r = s.remove(i);
        s.remove_ensures(i);
        assert forall|a: int, b: int| 0 <= a < b < r.len() implies r[a] != r[b] by {
            let a0 = if a < i { a } else { a + 1 };
            let b0 = if b < i { b } else { b + 1 };
            assert(r[a] == s[a0]);
            assert(r[b] == s[b0]);
        }
        assert forall|y: NodeId| r.contains(y) <==> (s.contains(y) && y != x) by {
            if r.contains(y) {
                let k = choose|k: int| 0 <= k < r.len() && r[k] == y;
                let k0 = if k < i { k } else { k + 1 };
                assert(s[k0] == y);
                assert(k0 != i);
            }
            if s.contains(y) && y != x {
                let k0 = choose|k: int| 0 <= k < s.len() && s[k] == y;
                assert(k0 != i);
                let k = if k0 < i { k0 } else { k0 - 1 };
                assert(r[k] == y);
            }
        }
    }
}

pub proof fn lemma_insert_fresh(s: Seq<NodeId>, ix: int, x: NodeId)
    requires
        s.no_duplicates(),
        !s.contains(x),
        0 <= ix <= s.len(),
    ensures
        s.insert(ix, x).no_duplicates(),
        forall|y: NodeId| #[trigger] s.insert(ix, x).contains(y) <==> (s.contains(y) || y == x),
        s.insert(ix, x)[ix] == x,
        s.insert(ix, x).len() == s.len() + 1,
{
    let r = s.insert(ix, x);
    s.insert_ensures(ix, x);
    assert forall|a: int, b: int| 0 <= a < b < r.len() implies r[a] != r[b] by {
        if a != ix && b != ix {
            let a0 = if a < ix { a } else { a - 1 };
            let b0 = if b < ix { b } else { b - 1 };
            assert(r[a] == s[a0]);
            assert(r[b] == s[b0]);
        } else if a == ix {
            let b0 = b - 1;
            assert(r[b] == s[b0]);
        } else {
            let a0 = if a < ix { a } else { a - 1 };
            assert(r[a] == s[a0]);
        }
    }
    assert forall|y: NodeId| r.contains(y) <==> (s.contains(y) || y == x) by {
        if r.contains(y) {
            let k = choose|k: int| 0 <= k < r.len() && r[k] == y;
            if k != ix {
                let k0 = if k < ix { k } else { k - 1 };
                assert(s[k0] == y);
            }
        }
        if s.contains(y) {
            let k0 = choose|k: int| 0 <= k < s.len() && s[k] == y;
            let k = if k0 < ix { k0 } else { k0 + 1 };
            assert(r[k] == y);
        }
        if y == x {
            assert(r[ix] == y);
        }
    }
}

pub proof fn lemma_push_fresh(s: Seq<NodeId>, x: NodeId)
    requires
        s.no_duplicates(),
        !s.contains(x),
    ensures
        s.push(x).no_duplicates(),
        forall|y: NodeId| #[trigger] s.push(x).contains(y) <==> (s.contains(y) || y == x),
{
    assert(s.push(x) =~= s.insert(s.len() as int, x));
    lemma_insert_fresh(s, s.len() as int, x);
}

pub proof fn lemma_swap(s: Seq<NodeId>, i: int, j: int)
    requires
        s.no_duplicates(),
        0 <= i < s.len(),
        0 <= j < s.len(),
    ensures
        s.update(i, s[j]).update(j, s[i]).no_duplicates(),
        forall|y: NodeId| #[trigger] s.update(i, s[j]).update(j, s[i]).contains(y) <==> s.contains(y),
{
    let r = s.update(i, s[j]).update(j, s[i]);
    let f = |k: int| if k == i { j } else if k == j { i } else { k };
    assert forall|k: int| 0 <= k < r.len() implies r[k] == s[f(k)] by {}
    assert forall|a: int, b: int| 0 <= a < b < r.len() implies r[a] != r[b] by {
        assert(r[a] == s[f(a)]);
        assert(r[b] == s[f(b)]);
    }
    assert forall|y: NodeId| r.contains(y) <==> s.contains(y) by {
        if r.contains(y) {
            let k = choose|k: int| 0 <= k < r.len() && r[k] == y;
            assert(s[f(k)] == y);
        }
        if s.contains(y) {
            let k = choose|k: int| 0 <= k < s.len() && s[k] == y;
            assert(r[f(k)] == y);
        }
    }
}

/// Index of `id` in `v`, which holds it.
pub fn find_position(v: &Vec<NodeId>, id: NodeId) -> (r: usize)
    requires
        v@.contains(id),
    ensures
        r < v@.len(),
        r < v.len(),
        v@[r as int] == id,
        v@.no_duplicates() ==> r == position(v@, id),
{
    let mut i: usize = 0;
    while i < v.len()
        invariant
            i <= v@.len(),
            v@.contains(id),
            forall|k: int| 0 <= k < i ==> v@[k] != id,
        decreases v@.len() - i,
    {
        if v[i] == id {
            proof {
                if v@.no_duplicates() {
                    lemma_index_of_unique(v@, id, i as int);
                }
            }
            return i;
        }
        i += 1;
    }
    proof {
        let k = choose|k: int| 0 <= k < v@.len() && v@[k] == id;
        assert(v@[k] != id);
    }
    0
}

/// Remove every occurrence of `id` from `v` (a list holds it at most once).
pub fn remove_id(v: &mut Vec<NodeId>, id: NodeId)
    requires
        old(v)@.no_duplicates(),
    ensures
        final(v)@ == without(old(v)@, id),
{
    let mut i: usize = 0;
    while i < v.len()
        invariant
            i <= v@.len(),
            v@ == old(v)@,
            v@.no_duplicates(),
            forall|k: int| 0 <= k < i ==> v@[k] != id,
        decreases v@.len() - i,
    {
        if v[i] == id {
            proof {
                lemma_index_of_unique(v@, id, i as int);
            }
            v.remove(i);
            return;
        }
        i += 1;
    }
    proof {
        if v@.contains(id) {
            let k = choose|k: int| 0 <= k < v@.len() && v@[k] == id;
            assert(v@[k] != id);
        }
    }
}

} // verus!
