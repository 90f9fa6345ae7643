//! The slab that owns the TOC nodes, and the contracts of the slab calls
//! that the tree makes.
use vstd::prelude::*;

use slab::Slab;

use super::TocNode;

verus! {

#[verifier::external_type_specification]
#[verifier::external_body]
#[verifier::reject_recursive_types(T)]
pub struct ExSlab<T>(Slab<T>);

/// The nodes that a slab holds, by key.
pub uninterp spec fn slab_nodes(s: Slab<TocNode>) -> Map<usize, TocNode>;

/// The key that the next insertion into a slab will use.
pub uninterp spec fn slab_next(s: Slab<TocNode>) -> usize;

/// No entry of the slab is vacant: nothing was ever removed from it, so its
/// next insertion appends after the last entry.
pub uninterp spec fn slab_dense(s: Slab<TocNode>) -> bool;

/// Facts that hold of every slab: it holds finitely many values, and their
/// number fits its `usize` length counter.
pub open spec fn slab_facts(s: Slab<TocNode>) -> bool {
    &&& slab_nodes(s).dom().finite()
    &&& slab_nodes(s).dom().len() <= usize::MAX
}

/// `Slab::new`: an empty slab, whose first insertion uses key 0.
#[verifier::external_body]
pub(crate) fn store_new() -> (store: Slab<TocNode>)
    ensures
        slab_nodes(store).dom().is_empty(),
        slab_next(store) == 0,
        slab_facts(store),
        slab_dense(store),
{
    Slab::new()
}

/// `Slab::vacant_key`: the key of the next insertion, which is vacant.
#[verifier::external_body]
pub(crate) fn store_vacant_key(s: &Slab<TocNode>) -> (k: usize)
    ensures
        k == slab_next(*s),
        !slab_nodes(*s).contains_key(k),
{
    s.vacant_key()
}

/// `Slab::insert`: stores the value at the vacant key `slab_next` and returns
/// that key. A slab without vacant entries appends the value, stays so, and
/// will next insert at the following key.
#[verifier::external_body]
pub(crate) fn store_insert(s: &mut Slab<TocNode>, value: TocNode) -> (k: usize)
    ensures
        k == slab_next(*old(s)),
        !slab_nodes(*old(s)).contains_key(k),
        slab_nodes(*final(s)) == slab_nodes(*old(s)).insert(k, value),
        slab_facts(*final(s)),
        slab_dense(*old(s)) ==> slab_dense(*final(s)) && slab_next(*final(s)) == k + 1,
{
    s.insert(value)
}

/// `Slab::get`: the value stored at `key`, if any.
#[verifier::external_body]
pub(crate) fn store_get(s: &Slab<TocNode>, key: usize) -> (r: Option<&TocNode>)
    ensures
        r is Some <==> slab_nodes(*s).contains_key(key),
        r is Some ==> *r.unwrap() == slab_nodes(*s)[key],
{
    s.get(key)
}

/// `Slab::get_mut`: a mutable reference to the value stored at `key`, if
/// any; what is written through it is what the slab then holds at `key`.
#[verifier::external_body]
pub(crate) fn store_get_mut(s: &mut Slab<TocNode>, key: usize) -> (r: Option<&mut TocNode>)
    ensures
        r is Some <==> slab_nodes(*old(s)).contains_key(key),
        r is None ==> *final(s) == *old(s),
        r is Some ==> *r.unwrap() == slab_nodes(*old(s))[key],
        r is Some ==> slab_nodes(*final(s)) == slab_nodes(*old(s)).insert(key, *final(r.unwrap())),
        r is Some ==> slab_next(*final(s)) == slab_next(*old(s)),
        r is Some ==> slab_dense(*final(s)) == slab_dense(*old(s)),
        slab_facts(*old(s)) ==> slab_facts(*final(s)),
{
    s.get_mut(key)
}

/// `IndexMut` on a slab: overwrites the value stored at an occupied key
/// (the indexing panics on a vacant key, which the precondition excludes).
#[verifier::external_body]
pub(crate) fn store_set(s: &mut Slab<TocNode>, key: usize, value: TocNode)
    requires
        slab_nodes(*old(s)).contains_key(key),
    ensures
        slab_nodes(*final(s)) == slab_nodes(*old(s)).insert(key, value),
        slab_next(*final(s)) == slab_next(*old(s)),
        slab_dense(*final(s)) == slab_dense(*old(s)),
        slab_facts(*old(s)) ==> slab_facts(*final(s)),
{
    s[key] = value;
}

/// `Slab::remove`: takes the value out of an occupied key (the call panics
/// on a vacant key, which the precondition excludes).
#[verifier::external_body]
pub(crate) fn store_remove(s: &mut Slab<TocNode>, key: usize) -> (r: TocNode)
    requires
        slab_nodes(*old(s)).contains_key(key),
    ensures
        r == slab_nodes(*old(s))[key],
        slab_nodes(*final(s)) == slab_nodes(*old(s)).remove(key),
        slab_facts(*old(s)) ==> slab_facts(*final(s)),
{
    s.remove(key)
}

/// `Slab::contains`: whether a value is stored at `key`.
#[verifier::external_body]
pub(crate) fn store_contains(s: &Slab<TocNode>, key: usize) -> (r: bool)
    ensures
        r == slab_nodes(*s).contains_key(key),
{
    s.contains(key)
}

/// `Slab::iter`, keeping the keys: every occupied key once, in increasing order.
#[verifier::external_body]
pub(crate) fn store_keys(s: &Slab<TocNode>) -> (r: Vec<usize>)
    ensures
        forall|i: int, j: int| 0 <= i < j < r@.len() ==> r@[i] < r@[j],
        forall|k: usize| r@.contains(k) <==> slab_nodes(*s).contains_key(k),
{
    s.iter().map(|(key, _)| key).collect()
}

} // verus!
