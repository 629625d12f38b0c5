//! The trusted layer over the `slotmap` crate.
//!
//! Two `HopSlotMap`s back the workspace set: one holds every tree node, one
//! holds every workspace tree.  A `SparseSecondaryMap` per tree records which
//! node identifiers belong to it.  Each map sits in a private field of an
//! opaque struct; its contents are named by an uninterpreted spec function,
//! and every method the library calls goes through a wrapper below whose
//! contract states what the `slotmap` source shows.

use vstd::prelude::*;
use crate::ids::{TabId, ViewId};
use crate::node::Node;
use crate::tree::Tree;

verus! {

/// The arena owning every tree node of every workspace.
#[verifier::external_body]
#[derive(Debug)]
pub struct NodeArena {
    inner: slotmap::HopSlotMap<ViewId, Node>,
}

/// The store owning every workspace tree.
#[verifier::external_body]
#[derive(Debug)]
pub struct TreeStore {
    inner: slotmap::HopSlotMap<TabId, Tree>,
}

/// The contents of the node arena, as a map from identifier to node.
pub uninterp spec fn node_map_of(m: NodeArena) -> Map<ViewId, Node>;

/// The iteration order of the node arena: stable between mutations.
pub uninterp spec fn node_order_of(m: NodeArena) -> Seq<ViewId>;

/// The contents of the workspace store, as a map from identifier to tree.
pub uninterp spec fn tree_map_of(m: TreeStore) -> Map<TabId, Tree>;

/// The iteration order of the workspace store: stable between mutations.
pub uninterp spec fn tree_order_of(m: TreeStore) -> Seq<TabId>;

impl NodeArena {
    /// Relies on `HopSlotMap::new`: an empty map.
    #[verifier::external_body]
    pub fn new() -> (r: NodeArena)
        ensures
            node_map_of(r).dom() == Set::<ViewId>::empty(),
    {
        NodeArena { inner: slotmap::HopSlotMap::new() }
    }

    /// Relies on `HopSlotMap::insert`: stores the value under a key that is
    /// not in the map before the call; no other entry changes.
    #[verifier::external_body]
    pub fn insert(&mut self, v: Node) -> (k: ViewId)
        requires
            node_map_of(*old(self)).dom().finite(),
            node_map_of(*old(self)).dom().len() < 0xFFFF_FFFE,
        ensures
            !node_map_of(*old(self)).dom().contains(k),
            node_map_of(*final(self)) == node_map_of(*old(self)).insert(k, v),
    {
        self.inner.insert(v)
    }

    /// Relies on `HopSlotMap::get_mut`: replaces the value stored under a
    /// key that is present; no other entry changes.
    #[verifier::external_body]
    pub fn set(&mut self, k: ViewId, v: Node)
        requires
            node_map_of(*old(self)).dom().contains(k),
        ensures
            node_map_of(*final(self)) == node_map_of(*old(self)).insert(k, v),
    {
        if let Some(slot) = self.inner.get_mut(k) {
            *slot = v;
        }
    }

    /// Relies on `HopSlotMap::get`: returns the value stored under the key,
    /// or nothing when the key is absent.
    #[verifier::external_body]
    pub fn get(&self, k: ViewId) -> (r: Option<&Node>)
        ensures
            r is Some <==> node_map_of(*self).dom().contains(k),
            r matches Some(n) ==> *n == node_map_of(*self)[k],
    {
        self.inner.get(k)
    }

    /// Relies on `HopSlotMap::remove`: removes and returns the value stored
    /// under the key, if any; no other entry changes.
    #[verifier::external_body]
    pub fn remove(&mut self, k: ViewId) -> (r: Option<Node>)
        ensures
            node_map_of(*final(self)) == node_map_of(*old(self)).remove(k),
            r is Some <==> node_map_of(*old(self)).dom().contains(k),
            r matches Some(n) ==> n == node_map_of(*old(self))[k],
    {
        self.inner.remove(k)
    }

    /// Relies on `HopSlotMap::contains_key`.
    #[verifier::external_body]
    pub fn contains(&self, k: ViewId) -> (r: bool)
        ensures
            r == node_map_of(*self).dom().contains(k),
    {
        self.inner.contains_key(k)
    }

    /// Relies on `HopSlotMap::len`.
    #[verifier::external_body]
    pub fn count(&self) -> (r: usize)
        requires
            node_map_of(*self).dom().finite(),
        ensures
            r == node_map_of(*self).dom().len(),
    {
        self.inner.len()
    }

    /// Relies on `HopSlotMap::keys`: every key exactly once, in iteration
    /// order.
    #[verifier::external_body]
    pub fn keys(&self) -> (r: Vec<ViewId>)
        ensures
            r@ == node_order_of(*self),
            r@.no_duplicates(),
            r@.to_set() == node_map_of(*self).dom(),
    {
        self.inner.keys().collect()
    }
}

impl TreeStore {
    /// Relies on `HopSlotMap::with_key`: an empty map.
    #[verifier::external_body]
    pub fn new() -> (r: TreeStore)
        ensures
            tree_map_of(r).dom() == Set::<TabId>::empty(),
    {
        TreeStore { inner: slotmap::HopSlotMap::with_key() }
    }

    /// Relies on `HopSlotMap::insert`: stores the value under a key that is
    /// not in the map before the call; no other entry changes.
    #[verifier::external_body]
    pub fn insert(&mut self, v: Tree) -> (k: TabId)
        requires
            tree_map_of(*old(self)).dom().finite(),
            tree_map_of(*old(self)).dom().len() < 0xFFFF_FFFE,
        ensures
            !tree_map_of(*old(self)).dom().contains(k),
            tree_map_of(*final(self)) == tree_map_of(*old(self)).insert(k, v),
    {
        self.inner.insert(v)
    }

    /// Relies on `HopSlotMap::get_mut`: replaces the value stored under a
    /// key that is present; no other entry changes.
    #[verifier::external_body]
    pub fn set(&mut self, k: TabId, v: Tree)
        requires
            tree_map_of(*old(self)).dom().contains(k),
        ensures
            tree_map_of(*final(self)) == tree_map_of(*old(self)).insert(k, v),
    {
        if let Some(slot) = self.inner.get_mut(k) {
            *slot = v;
        }
    }

    /// Relies on `HopSlotMap::get`: returns the value stored under the key,
    /// or nothing when the key is absent.
    #[verifier::external_body]
    pub fn get(&self, k: TabId) -> (r: Option<&Tree>)
        ensures
            r is Some <==> tree_map_of(*self).dom().contains(k),
            r matches Some(t) ==> *t == tree_map_of(*self)[k],
    {
        self.inner.get(k)
    }

    /// Relies on `HopSlotMap::remove`: removes and returns the value stored
    /// under the key, if any; no other entry changes.
    #[verifier::external_body]
    pub fn remove(&mut self, k: TabId) -> (r: Option<Tree>)
        ensures
            tree_map_of(*final(self)) == tree_map_of(*old(self)).remove(k),
            r is Some <==> tree_map_of(*old(self)).dom().contains(k),
            r matches Some(t) ==> t == tree_map_of(*old(self))[k],
    {
        self.inner.remove(k)
    }

    /// Relies on `HopSlotMap::contains_key`.
    #[verifier::external_body]
    pub fn contains(&self, k: TabId) -> (r: bool)
        ensures
            r == tree_map_of(*self).dom().contains(k),
    {
        self.inner.contains_key(k)
    }

    /// Relies on `HopSlotMap::len`.
    #[verifier::external_body]
    pub fn count(&self) -> (r: usize)
        requires
            tree_map_of(*self).dom().finite(),
        ensures
            r == tree_map_of(*self).dom().len(),
    {
        self.inner.len()
    }

    /// Relies on `HopSlotMap::keys`: every key exactly once, in iteration
    /// order.
    #[verifier::external_body]
    pub fn keys(&self) -> (r: Vec<TabId>)
        ensures
            r@ == tree_order_of(*self),
            r@.no_duplicates(),
            r@.to_set() == tree_map_of(*self).dom(),
    {
        self.inner.keys().collect()
    }
}

/// The set of node identifiers registered to one workspace tree.
///
/// Backed by a `slotmap::SparseSecondaryMap` keyed by the arena's own keys.
/// The secondary map resolves a slot-index collision between two generations
/// of the same slot by evicting the older one, so `insert` below requires
/// that everything registered, and the key being registered, are live in one
/// arena: live keys of one map never share a slot index.
#[verifier::external_body]
#[derive(Debug)]
pub struct MemberSet {
    inner: slotmap::SparseSecondaryMap<ViewId, ()>,
}

/// The contents of a member set.
pub uninterp spec fn member_set_of(s: MemberSet) -> Set<ViewId>;

/// The iteration order of a member set: stable between mutations.
pub uninterp spec fn member_order_of(s: MemberSet) -> Seq<ViewId>;

impl MemberSet {
    /// Relies on `SparseSecondaryMap::new`: an empty map.
    #[verifier::external_body]
    pub fn new() -> (s: MemberSet)
        ensures
            member_set_of(s) == Set::<ViewId>::empty(),
    {
        MemberSet { inner: slotmap::SparseSecondaryMap::new() }
    }

    /// Relies on `SparseSecondaryMap::insert`: adds the key.  The requires
    /// rules out the older-generation eviction case: all keys involved are
    /// live in the one arena `nodes`, so their slot indices are distinct.
    #[verifier::external_body]
    pub fn insert(&mut self, nodes: &NodeArena, k: ViewId)
        requires
            member_set_of(*old(self)).subset_of(node_map_of(*nodes).dom()),
            node_map_of(*nodes).dom().contains(k),
        ensures
            member_set_of(*final(self)) == member_set_of(*old(self)).insert(k),
    {
        self.inner.insert(k, ());
    }

    /// Relies on `SparseSecondaryMap::remove`: removes the key, if present;
    /// a key of another generation of the same slot is left alone.
    #[verifier::external_body]
    pub fn remove(&mut self, k: ViewId)
        ensures
            member_set_of(*final(self)) == member_set_of(*old(self)).remove(k),
    {
        self.inner.remove(k);
    }

    /// Relies on `SparseSecondaryMap::contains_key`.
    #[verifier::external_body]
    pub fn contains(&self, k: ViewId) -> (r: bool)
        ensures
            r == member_set_of(*self).contains(k),
    {
        self.inner.contains_key(k)
    }

    /// Relies on `SparseSecondaryMap::keys`: every key exactly once, in
    /// iteration order.
    #[verifier::external_body]
    pub fn keys(&self) -> (r: Vec<ViewId>)
        ensures
            r@ == member_order_of(*self),
            r@.no_duplicates(),
            r@.to_set() == member_set_of(*self),
    {
        self.inner.keys().collect()
    }
}

impl Clone for MemberSet {
    /// Relies on the derived `Clone` of `SparseSecondaryMap`: same contents.
    #[verifier::external_body]
    fn clone(&self) -> (r: Self)
        ensures
            member_set_of(r) == member_set_of(*self),
    {
        MemberSet { inner: self.inner.clone() }
    }
}

} // verus!
