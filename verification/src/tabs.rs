//! The workspace set: entry point for every operation on the layout forest.

use vstd::prelude::*;
use crate::chains::{chain_hops, chain_to_root, has_chain, lemma_chain_frame, lemma_hops_shape};
use crate::geom::Rect;
use crate::ids::{TabId, ViewId, key_eq, null_key};
use crate::node::{
    Container, Content, Layout, Node, Pane, children_of, is_container, is_pane, layout_of,
    node_same_shape, pane_of, parent_of,
};
use crate::store::{MemberSet, NodeArena, TreeStore, node_map_of, tree_map_of, tree_order_of};
use crate::tree::{Tree, children_wf, lemma_tree_wf_preserved, tree_wf};

verus! {

/// The most nodes the arena may hold: keeps every child count within `u16`
/// for the layout arithmetic, far below the backing map's own capacity.
pub const MAX_NODES: usize = 0xFFFF;

/// All workspaces: the shared node arena, the tree store, and which
/// workspace is active.
#[derive(Debug)]
pub struct Tabs {
    pub trees: TreeStore,
    pub nodes: NodeArena,
    pub focus: TabId,
}

impl Tabs {
    /// The arena contents: every node of every workspace.
    pub open spec fn arena(self) -> Map<ViewId, Node> {
        node_map_of(self.nodes)
    }

    /// The workspace trees, by workspace identifier.
    pub open spec fn tmap(self) -> Map<TabId, Tree> {
        tree_map_of(self.trees)
    }

    /// The iteration order of the workspace store.
    pub open spec fn tab_order(self) -> Seq<TabId> {
        tree_order_of(self.trees)
    }

    /// The identifier of the active workspace.
    pub open spec fn active(self) -> TabId {
        self.focus
    }

    /// The member set of one workspace.
    pub open spec fn mset_of(self, tab: TabId) -> Set<ViewId> {
        self.tmap()[tab].mset()
    }

    /// Both backing stores are sound and every tree is well-formed over the
    /// shared arena, with pairwise disjoint member sets.
    pub open spec fn stores_wf(self) -> bool {
        &&& self.tmap().dom().finite()
        &&& self.arena().dom().finite()
        &&& self.arena().dom().len() <= MAX_NODES
        &&& self.tmap().dom().len() <= MAX_NODES
        &&& forall|tid: TabId|
            #[trigger] self.tmap().dom().contains(tid) ==> {
                &&& self.tmap()[tid].id == tid
                &&& tree_wf(self.arena(), self.tmap()[tid])
                &&& self.tmap()[tid].area.valid()
            }
        &&& forall|t1: TabId, t2: TabId, id: ViewId|
            self.tmap().dom().contains(t1) && self.tmap().dom().contains(t2) && t1 != t2
                && #[trigger] self.tmap()[t1].mset().contains(id) ==> !(
            #[trigger] self.tmap()[t2].mset().contains(id))
    }

    /// Well-formedness of the whole workspace set: the stores are sound, at
    /// least one workspace exists, and the active identifier names one.
    pub open spec fn wf(self) -> bool {
        &&& self.stores_wf()
        &&& self.tmap().dom().len() >= 1
        &&& self.tmap().dom().contains(self.active())
    }

    /// Creates the workspace set with one empty workspace covering `area`,
    /// which becomes active.
    pub fn new(area: Rect) -> (r: Tabs)
        requires
            area.valid(),
        ensures
            r.wf(),
            r.tmap().dom().len() == 1,
            r.tmap().dom().contains(r.active()),
            r.tmap()[r.active()].area == area,
            r.tmap()[r.active()].focus == r.tmap()[r.active()].root,
            children_of(r.arena(), r.tmap()[r.active()].root).len() == 0,
            r.mset_of(r.active()) == Set::<ViewId>::empty().insert(r.tmap()[r.active()].root),
            layout_of(r.arena(), r.tmap()[r.active()].root) == Layout::Vertical,
            r.arena().dom() == Set::<ViewId>::empty().insert(r.tmap()[r.active()].root),
            r.arena().dom().len() == 1,
    {
        let nodes = NodeArena::new();
        let trees = TreeStore::new();
        let mut this = Tabs { focus: null_key(), trees, nodes };
        proof {
            assert(this.tmap().dom() =~= Set::<TabId>::empty());
            assert(this.arena().dom() =~= Set::<ViewId>::empty());
        }
        let tab = this.new_tree(area);
        this.focus = tab;
        proof {
            assert(this.tmap().dom().len() == 1) by {
                assert(this.tmap().dom() =~= Set::<TabId>::empty().insert(tab));
            }
        }
        this
    }

    /// Creates a fresh workspace tree covering `area`: a single empty root
    /// container, registered in the store; the active workspace is not
    /// changed here.
    fn new_tree(&mut self, area: Rect) -> (tab: TabId)
        requires
            old(self).stores_wf(),
            old(self).arena().dom().len() < MAX_NODES,
            old(self).tmap().dom().len() < MAX_NODES,
            area.valid(),
        ensures
            final(self).stores_wf(),
            !old(self).tmap().dom().contains(tab),
            final(self).tmap().dom() == old(self).tmap().dom().insert(tab),
            forall|tid: TabId|
                #[trigger] old(self).tmap().dom().contains(tid) ==> final(self).tmap()[tid]
                    == old(self).tmap()[tid],
            final(self).active() == old(self).active(),
            final(self).tmap()[tab].id == tab,
            final(self).tmap()[tab].area == area,
            final(self).tmap()[tab].focus == final(self).tmap()[tab].root,
            children_of(final(self).arena(), final(self).tmap()[tab].root).len() == 0,
            !old(self).arena().dom().contains(final(self).tmap()[tab].root),
            final(self).tmap()[tab].mset() == Set::<ViewId>::empty().insert(
                final(self).tmap()[tab].root,
            ),
            final(self).arena() == old(self).arena().insert(
                final(self).tmap()[tab].root,
                final(self).arena()[final(self).tmap()[tab].root],
            ),
            final(self).arena().dom().len() == old(self).arena().dom().len() + 1,
            final(self).tmap().dom().len() == old(self).tmap().dom().len() + 1,
            layout_of(final(self).arena(), final(self).tmap()[tab].root) == Layout::Vertical,
    {
        let ghost a0 = self.arena();
        let root = self.nodes.insert(Node::container(Layout::Vertical));
        self.nodes.set(
            root,
            Node { parent: root, content: Content::Container(Container::new(Layout::Vertical)) },
        );
        let ghost a1 = self.arena();

        let mut members = MemberSet::new();
        members.insert(&self.nodes, root);

        let tree = Tree {
            id: null_key(),
            root,
            focus: root,
            area,
            members,
            stack: Vec::new(),
        };
        proof {
            assert(tree.mset() =~= Set::<ViewId>::empty().insert(root));
        }
        let tab = self.trees.insert(tree);
        let t_ref = self.trees.get(tab).unwrap();
        let mut t2 = t_ref.clone();
        t2.id = tab;
        self.trees.set(tab, t2);

        proof {
            let a = self.arena();
            let t = self.tmap()[tab];
            assert(a =~= a0.insert(root, a[root]));
            assert(a.dom() =~= a0.dom().insert(root));
            vstd::set_lib::lemma_len_subset(a0.dom(), a.dom());
            assert(a.dom().len() == a0.dom().len() + 1);
            assert(self.tmap().dom() =~= old(self).tmap().dom().insert(tab));
            assert(tree_wf(a, t)) by {
                assert(t.mset() == Set::<ViewId>::empty().insert(root));
                assert(chain_to_root(a, root, root, 0));
                assert(children_of(a, root).len() == 0);
                assert(children_wf(a, t, root));
                assert(forall|id: ViewId|
                    #[trigger] t.mset().contains(id) && is_container(a, id) ==> children_wf(
                        a,
                        t,
                        id,
                    ));
            }
            assert forall|tid: TabId| #[trigger] old(self).tmap().dom().contains(tid)
                implies tree_wf(a, self.tmap()[tid]) by {
                let ot = old(self).tmap()[tid];
                crate::tree::lemma_tree_wf_preserved(a0, a, ot);
            }
            assert(self.stores_wf());
        }
        tab
    }

    /// How many workspaces exist.
    pub fn len(&self) -> (r: usize)
        requires
            self.wf(),
        ensures
            r == self.tmap().dom().len(),
    {
        self.trees.count()
    }

    /// How many nodes (panes and containers) the shared arena holds, over
    /// all workspaces; grows by one per insert, two at most per split, and
    /// must stay below `MAX_NODES` for those operations.
    pub fn node_count(&self) -> (r: usize)
        requires
            self.wf(),
        ensures
            r == self.arena().dom().len(),
    {
        self.nodes.count()
    }

    /// Whether no workspace exists; under well-formedness, never.
    pub fn is_empty(&self) -> (r: bool)
        requires
            self.wf(),
        ensures
            r == false,
    {
        self.trees.count() == 0
    }

    /// The workspace tree for `tab_id`, or nothing if there is none.
    pub fn try_get_tree(&self, tab_id: TabId) -> (r: Option<&Tree>)
        ensures
            r is Some <==> self.tmap().dom().contains(tab_id),
            r matches Some(t) ==> *t == self.tmap()[tab_id],
    {
        self.trees.get(tab_id)
    }

    /// The workspace tree for `tab_id`; the caller must have validated it.
    pub fn get_tree(&self, tab_id: TabId) -> (r: &Tree)
        requires
            self.tmap().dom().contains(tab_id),
        ensures
            *r == self.tmap()[tab_id],
    {
        self.trees.get(tab_id).unwrap()
    }

    /// The identifier of the active workspace.
    pub fn active_tab(&self) -> (r: TabId)
        ensures
            r == self.active(),
    {
        self.focus
    }

    /// The rectangle of workspace `tab`.
    pub fn area(&self, tab: TabId) -> (r: Rect)
        requires
            self.tmap().dom().contains(tab),
        ensures
            r == self.tmap()[tab].area,
    {
        self.get_tree(tab).area
    }

    /// The focus of workspace `tab`, or nothing if there is none.
    pub fn try_get_focused_view_for_tab(&self, tab: TabId) -> (r: Option<ViewId>)
        ensures
            r is Some <==> self.tmap().dom().contains(tab),
            r matches Some(v) ==> v == self.tmap()[tab].focus,
    {
        match self.try_get_tree(tab) {
            Some(t) => Some(t.focus),
            None => None,
        }
    }

    /// The focus of workspace `tab`; the caller must have validated it.
    pub fn get_focused_view_for_tab(&self, tab: TabId) -> (r: ViewId)
        requires
            self.tmap().dom().contains(tab),
        ensures
            r == self.tmap()[tab].focus,
    {
        self.get_tree(tab).focus
    }

    /// The focus of the active workspace.
    pub fn focused_view(&self) -> (r: ViewId)
        requires
            self.wf(),
        ensures
            r == self.tmap()[self.active()].focus,
    {
        self.get_tree(self.focus).focus
    }

    /// Moves the focus of workspace `tab` to `index`, which the caller must
    /// have validated as a member pane of that workspace.
    pub fn set_focused_view(&mut self, tab: TabId, index: ViewId)
        requires
            old(self).wf(),
            old(self).tmap().dom().contains(tab),
            old(self).mset_of(tab).contains(index),
            is_pane(old(self).arena(), index),
        ensures
            final(self).wf(),
            final(self).arena() == old(self).arena(),
            final(self).active() == old(self).active(),
            final(self).tmap().dom() == old(self).tmap().dom(),
            final(self).tmap()[tab].focus == index,
            final(self).tmap()[tab].root == old(self).tmap()[tab].root,
            final(self).tmap()[tab].area == old(self).tmap()[tab].area,
            final(self).tmap()[tab].mset() == old(self).tmap()[tab].mset(),
            forall|tid: TabId|
                #[trigger] old(self).tmap().dom().contains(tid) && tid != tab
                    ==> final(self).tmap()[tid] == old(self).tmap()[tid],
    {
        let t_ref = self.trees.get(tab).unwrap();
        let mut t = t_ref.clone();
        t.focus = index;
        self.trees.set(tab, t);
        proof {
            assert(final(self).tmap().dom() =~= old(self).tmap().dom());
            let a = self.arena();
            let nt = self.tmap()[tab];
            let ot = old(self).tmap()[tab];
            assert(is_pane(a, index));
            assert(children_of(a, ot.root).len() != 0) by {
                if children_of(a, ot.root).len() == 0 {
                    assert(ot.focus == ot.root);
                }
                assert(ot.mset().contains(index));
                if index == ot.root {
                    assert(is_container(a, ot.root));
                }
                assert(index != ot.root);
                assert(children_of(a, parent_of(a, index)).contains(index));
                if children_of(a, ot.root).len() == 0 {
                    lemma_nonroot_member_root_nonempty(a, ot, index);
                }
            }
            assert(tree_wf(a, nt));
        }
    }

    /// Moves the focus of the active workspace to `index`.
    pub fn set_focused_view_for_current_tab(&mut self, index: ViewId)
        requires
            old(self).wf(),
            old(self).mset_of(old(self).active()).contains(index),
            is_pane(old(self).arena(), index),
        ensures
            final(self).wf(),
            final(self).arena() == old(self).arena(),
            final(self).active() == old(self).active(),
            final(self).tmap().dom() == old(self).tmap().dom(),
            final(self).tmap()[old(self).active()].focus == index,
    {
        let tab = self.focus;
        self.set_focused_view(tab, index);
    }

    /// Whether any workspace holds a node with identifier `index`.
    pub fn node_exists(&self, index: ViewId) -> (r: bool)
        ensures
            r == self.arena().dom().contains(index),
    {
        self.nodes.contains(index)
    }

    /// Whether workspace `tab_id` holds the node `index`; nothing if no such
    /// workspace exists.
    pub fn tab_contains(&self, tab_id: TabId, index: ViewId) -> (r: Option<bool>)
        ensures
            r is Some <==> self.tmap().dom().contains(tab_id),
            r matches Some(b) ==> b == self.mset_of(tab_id).contains(index),
    {
        match self.try_get_tree(tab_id) {
            Some(t) => Some(t.members.contains(index)),
            None => None,
        }
    }
}

impl Tabs {
    /// Whether workspace `tab` has no panes; tolerates a root missing from
    /// the arena during a bulk teardown by treating the tree as empty.
    pub fn tab_is_empty(&self, tab: TabId) -> (r: Option<bool>)
        requires
            self.wf(),
            self.tmap().dom().contains(tab),
        ensures
            r is Some,
            r matches Some(b) ==> b == (children_of(self.arena(), self.tmap()[tab].root).len()
                == 0),
    {
        let tree = self.get_tree(tab);
        match self.nodes.get(tree.root) {
            None => None,
            Some(n) => match &n.content {
                Content::Container(c) => Some(c.children.len() == 0),
                Content::Pane(_) => {
                    proof {
                        assert(is_container(self.arena(), self.tmap()[tab].root));
                    }
                    None
                },
            },
        }
    }

    /// Whether every workspace has no panes.
    pub fn all_empty(&self) -> (r: bool)
        requires
            self.wf(),
        ensures
            r == (forall|tid: TabId|
                #[trigger] self.tmap().dom().contains(tid) ==> children_of(
                    self.arena(),
                    self.tmap()[tid].root,
                ).len() == 0),
    {
        let ids = self.trees.keys();
        let mut i: usize = 0;
        let mut all: bool = true;
        while i < ids.len()
            invariant
                self.wf(),
                i <= ids.len(),
                ids@ == tree_order_of(self.trees),
                ids@.to_set() == self.tmap().dom(),
                all == (forall|j: int|
                    0 <= j < i ==> children_of(self.arena(), self.tmap()[#[trigger] ids@[j]].root).len()
                        == 0),
            decreases ids.len() - i,
        {
            proof {
                assert(ids@.to_set().contains(ids@[i as int]));
            }
            let e = self.tab_is_empty(ids[i]).unwrap();
            if !e {
                all = false;
            }
            proof {
                if !e {
                    assert(!(forall|j: int|
                        0 <= j < i + 1 ==> children_of(
                            self.arena(),
                            self.tmap()[#[trigger] ids@[j]].root,
                        ).len() == 0)) by {
                        assert(ids@[i as int] == ids@[i as int]);
                    }
                }
            }
            i = i + 1;
        }
        proof {
            if all {
                assert forall|tid: TabId| #[trigger] self.tmap().dom().contains(tid)
                    implies children_of(self.arena(), self.tmap()[tid].root).len() == 0 by {
                    assert(ids@.to_set().contains(tid));
                    let j = choose|j: int| 0 <= j < ids@.len() && ids@[j] == tid;
                    assert(children_of(self.arena(), self.tmap()[ids@[j]].root).len() == 0);
                }
            } else {
                let j = choose|j: int|
                    0 <= j < ids@.len() && children_of(self.arena(), self.tmap()[ids@[j]].root).len()
                        != 0;
                assert(ids@.to_set().contains(ids@[j]));
                assert(self.tmap().dom().contains(ids@[j]));
            }
        }
        all
    }
}

/// A workspace with a non-root member has children under its root.
pub proof fn lemma_nonroot_member_root_nonempty(a: Map<ViewId, Node>, t: Tree, id: ViewId)
    requires
        crate::tree::tree_linked(a, t),
        t.mset().contains(id),
        id != t.root,
    ensures
        children_of(a, t.root).len() >= 1,
{
    let n = choose|n: nat| chain_to_root(a, t.root, id, n);
    lemma_chain_exit(a, t, id, n);
}

/// Helper: the chain of a non-root member enters the root's child list.
proof fn lemma_chain_exit(a: Map<ViewId, Node>, t: Tree, id: ViewId, n: nat)
    requires
        crate::tree::tree_linked(a, t),
        t.mset().contains(id),
        id != t.root,
        chain_to_root(a, t.root, id, n),
    ensures
        children_of(a, t.root).len() >= 1,
    decreases n,
{
    let p = parent_of(a, id);
    assert(children_of(a, p).contains(id));
    if p == t.root {
        assert(children_of(a, t.root).contains(id));
    } else {
        assert(n != 0);
        lemma_chain_exit(a, t, p, (n - 1) as nat);
    }
}

/// The element before `x` in `ord`, wrapping to the last when `x` is
/// first; meaningful when `x` occurs in `ord`.
pub open spec fn pred_wrapping(ord: Seq<TabId>, x: TabId) -> TabId
    recommends
        ord.contains(x),
{
    let i = choose|i: int| 0 <= i < ord.len() && ord[i] == x;
    if i > 0 {
        ord[i - 1]
    } else {
        ord[ord.len() - 1]
    }
}

/// The element after `x` in `ord`, wrapping to the first when `x` is
/// last; meaningful when `x` occurs in `ord`.
pub open spec fn succ_wrapping(ord: Seq<TabId>, x: TabId) -> TabId
    recommends
        ord.contains(x),
{
    let i = choose|i: int| 0 <= i < ord.len() && ord[i] == x;
    if i < ord.len() - 1 {
        ord[i + 1]
    } else {
        ord[0]
    }
}

impl Tabs {
    /// Opens a fresh, empty workspace covering the active workspace's
    /// rectangle, and makes it active.
    pub fn new_tab(&mut self) -> (tab: TabId)
        requires
            old(self).wf(),
            old(self).arena().dom().len() < MAX_NODES,
            old(self).tmap().dom().len() < MAX_NODES,
        ensures
            final(self).wf(),
            !old(self).tmap().dom().contains(tab),
            final(self).tmap().dom() == old(self).tmap().dom().insert(tab),
            final(self).active() == tab,
            final(self).tmap()[tab].area == old(self).tmap()[old(self).active()].area,
            final(self).tmap()[tab].focus == final(self).tmap()[tab].root,
            children_of(final(self).arena(), final(self).tmap()[tab].root).len() == 0,
            layout_of(final(self).arena(), final(self).tmap()[tab].root) == Layout::Vertical,
            !old(self).arena().dom().contains(final(self).tmap()[tab].root),
            final(self).mset_of(tab) == Set::<ViewId>::empty().insert(
                final(self).tmap()[tab].root,
            ),
            final(self).arena() == old(self).arena().insert(
                final(self).tmap()[tab].root,
                final(self).arena()[final(self).tmap()[tab].root],
            ),
            final(self).arena().dom().len() == old(self).arena().dom().len() + 1,
            forall|m: ViewId|
                old(self).arena().dom().contains(m) ==> final(self).arena()[m]
                    == #[trigger] old(self).arena()[m],
            forall|tid: TabId|
                #[trigger] old(self).tmap().dom().contains(tid) ==> final(self).tmap()[tid]
                    == old(self).tmap()[tid],
    {
        let area = self.get_tree(self.focus).area;
        let tab = self.new_tree(area);
        self.focus = tab;
        tab
    }

    /// Closes workspace `tab`: refused (`None`) when it is the only one.
    /// Otherwise all its nodes leave the arena, the tree is dropped, and if
    /// it was active, the workspace before it in iteration order (wrapping
    /// to the last) becomes active.
    pub fn close_tab(&mut self, tab: TabId) -> (r: Option<TabId>)
        requires
            old(self).wf(),
            old(self).tmap().dom().contains(tab),
        ensures
            final(self).wf(),
            r is None <==> old(self).tmap().dom().len() == 1,
            r is None ==> *final(self) == *old(self),
            r matches Some(next) ==> {
                &&& final(self).tmap().dom() == old(self).tmap().dom().remove(tab)
                &&& final(self).arena().dom().len() <= old(self).arena().dom().len()
                &&& next == final(self).active()
                &&& (old(self).active() != tab ==> next == old(self).active())
                &&& (old(self).active() == tab ==> next == pred_wrapping(
                    old(self).tab_order(),
                    tab,
                ))
                &&& forall|tid: TabId|
                    #[trigger] old(self).tmap().dom().contains(tid) && tid != tab
                        ==> final(self).tmap()[tid] == old(self).tmap()[tid]
                &&& forall|id: ViewId|
                    old(self).arena().dom().contains(id) && !old(self).mset_of(tab).contains(id)
                        ==> final(self).arena().dom().contains(id) && final(self).arena()[id]
                        == #[trigger] old(self).arena()[id]
                &&& forall|id: ViewId|
                    #[trigger] old(self).mset_of(tab).contains(id)
                        ==> !final(self).arena().dom().contains(id)
            },
    {
        let ghost pre = *old(self);
        let n = self.trees.count();
        if n == 1 {
            return None;
        }
        proof {
            assert(pre.tmap().dom().len() >= 2);
        }
        // pick the next active workspace before anything is removed
        let next: TabId;
        if !key_eq(self.focus, tab) {
            next = self.focus;
        } else {
            let ids = self.trees.keys();
            proof {
                assert(ids@ == pre.tab_order());
                assert(ids@.to_set().contains(tab));
                ids@.unique_seq_to_set();
                assert(ids@.len() == pre.tmap().dom().len());
            }
            let idx = tab_index_in(&ids, tab);
            if idx > 0 {
                next = ids[idx - 1];
            } else {
                next = ids[ids.len() - 1];
            }
            proof {
                let ord = pre.tab_order();
                let i = choose|i: int| 0 <= i < ord.len() && ord[i] == tab;
                assert(ord[idx as int] == tab);
                assert(i == idx);
                assert(next == pred_wrapping(ord, tab));
                assert(ord.to_set().contains(next)) by {
                    if idx > 0 {
                        assert(ord[idx - 1] == next);
                    } else {
                        assert(ord[ord.len() - 1] == next);
                    }
                }
                assert(next != tab) by {
                    if idx > 0 {
                        assert(ord[idx - 1] != ord[idx as int]);
                    } else {
                        assert(ord.len() - 1 != 0);
                        assert(ord[ord.len() - 1] != ord[0]);
                    }
                }
            }
        }
        proof {
            assert(pre.tmap().dom().contains(next) && next != tab) by {
                if pre.active() != tab {
                    assert(pre.tmap().dom().contains(pre.active()));
                }
            }
        }
        // drop every member node of the closed workspace from the arena
        let t_ref = self.trees.get(tab).unwrap();
        let members = t_ref.members.keys();
        let ghost ms = pre.mset_of(tab);
        let ghost mut removed: Set<ViewId> = Set::empty();
        let mut i: usize = 0;
        while i < members.len()
            invariant
                pre.wf(),
                pre.tmap().dom().contains(tab),
                members@.no_duplicates(),
                members@.to_set() == ms,
                ms == pre.mset_of(tab),
                i <= members@.len(),
                self.trees == pre.trees,
                self.focus == pre.focus,
                removed.subset_of(ms),
                forall|j: int| 0 <= j < i ==> removed.contains(#[trigger] members@[j]),
                self.arena().dom() == pre.arena().dom().difference(removed),
                forall|id: ViewId|
                    pre.arena().dom().contains(id) && !removed.contains(id) ==> self.arena()[id]
                        == #[trigger] pre.arena()[id],
            decreases members@.len() - i,
        {
            proof {
                assert(members@.to_set().contains(members@[i as int]));
            }
            self.nodes.remove(members[i]);
            proof {
                removed = removed.insert(members@[i as int]);
                assert(self.arena().dom() =~= pre.arena().dom().difference(removed));
            }
            i = i + 1;
        }
        proof {
            assert(removed =~= ms) by {
                assert forall|m: ViewId| ms.contains(m) implies removed.contains(m) by {
                    assert(members@.to_set().contains(m));
                    let j = choose|j: int| 0 <= j < members@.len() && members@[j] == m;
                    assert(removed.contains(members@[j]));
                }
            }
        }
        // drop the tree itself and activate the survivor
        self.trees.remove(tab);
        self.focus = next;
        proof {
            assert(self.tmap() =~= pre.tmap().remove(tab));
            assert(self.tmap().dom() =~= pre.tmap().dom().remove(tab));
            assert(self.arena().dom() =~= pre.arena().dom().difference(ms));
            vstd::set_lib::lemma_len_subset(self.arena().dom(), pre.arena().dom());
            vstd::set_lib::lemma_len_subset(self.tmap().dom(), pre.tmap().dom());
            // the surviving active workspace exists
            assert(self.tmap().dom().contains(next)) by {
                assert(pre.tmap().dom().contains(next) && next != tab);
            }
            assert(self.tmap().dom().len() >= 1) by {
                assert(self.tmap().dom().contains(next));
                vstd::set_lib::lemma_len_subset(Set::empty().insert(next), self.tmap().dom());
            }
            assert forall|tid: TabId| #[trigger] self.tmap().dom().contains(tid) implies tree_wf(
                self.arena(),
                self.tmap()[tid],
            ) && self.tmap()[tid].id == tid && self.tmap()[tid].area.valid() by {
                let o = pre.tmap()[tid];
                assert(self.tmap()[tid] == o);
                assert forall|m: ViewId| #[trigger] o.mset().contains(m)
                    implies self.arena().dom().contains(m) && self.arena()[m]
                    == pre.arena()[m] by {
                    assert(pre.arena().dom().contains(m));
                    assert(!ms.contains(m));
                }
                lemma_tree_wf_preserved(pre.arena(), self.arena(), o);
            }
            assert(self.wf());
        }
        Some(next)
    }

    /// Makes the workspace after the active one (in iteration order,
    /// wrapping) active, and returns it.
    pub fn focus_next(&mut self) -> (r: TabId)
        requires
            old(self).wf(),
        ensures
            final(self).wf(),
            final(self).tmap() == old(self).tmap(),
            final(self).arena() == old(self).arena(),
            r == final(self).active(),
            r == succ_wrapping(old(self).tab_order(), old(self).active()),
    {
        let ids = self.trees.keys();
        let idx = tab_index_in(&ids, self.focus);
        let r = if idx < ids.len() - 1 {
            ids[idx + 1]
        } else {
            ids[0]
        };
        proof {
            let ord = self.tab_order();
            let i = choose|i: int| 0 <= i < ord.len() && ord[i] == self.active();
            assert(ids@[idx as int] == self.active());
            assert(i == idx) by {
                assert(ord[i] == ord[idx as int]);
            }
            assert(ord.to_set().contains(r)) by {
                if idx < ids@.len() - 1 {
                    assert(ord[idx + 1] == r);
                } else {
                    assert(ord[0] == r);
                }
            }
        }
        self.focus = r;
        r
    }

    /// Makes the workspace before the active one (in iteration order,
    /// wrapping) active, and returns it.
    pub fn focus_previous(&mut self) -> (r: TabId)
        requires
            old(self).wf(),
        ensures
            final(self).wf(),
            final(self).tmap() == old(self).tmap(),
            final(self).arena() == old(self).arena(),
            r == final(self).active(),
            r == pred_wrapping(old(self).tab_order(), old(self).active()),
    {
        let ids = self.trees.keys();
        let idx = tab_index_in(&ids, self.focus);
        let r = if idx > 0 {
            ids[idx - 1]
        } else {
            ids[ids.len() - 1]
        };
        proof {
            let ord = self.tab_order();
            let i = choose|i: int| 0 <= i < ord.len() && ord[i] == self.active();
            assert(ids@[idx as int] == self.active());
            assert(i == idx) by {
                assert(ord[i] == ord[idx as int]);
            }
            assert(ord.to_set().contains(r)) by {
                if idx > 0 {
                    assert(ord[idx - 1] == r);
                } else {
                    assert(ord[ord.len() - 1] == r);
                }
            }
        }
        self.focus = r;
        r
    }

    /// Flips the axis of the focused node's parent container in workspace
    /// `tab`, then recomputes every workspace's layout.
    pub fn transpose(&mut self, tab: TabId)
        requires
            old(self).wf(),
            old(self).tmap().dom().contains(tab),
        ensures
            final(self).wf(),
            final(self).tmap().dom() == old(self).tmap().dom(),
            final(self).active() == old(self).active(),
            final(self).arena().dom() == old(self).arena().dom(),
            final(self).tmap()[tab].focus == old(self).tmap()[tab].focus,
            final(self).tmap()[tab].root == old(self).tmap()[tab].root,
            final(self).tmap()[tab].mset() == old(self).tmap()[tab].mset(),
            layout_of(
                final(self).arena(),
                parent_of(old(self).arena(), old(self).tmap()[tab].focus),
            ) == (match layout_of(
                old(self).arena(),
                parent_of(old(self).arena(), old(self).tmap()[tab].focus),
            ) {
                Layout::Horizontal => Layout::Vertical,
                Layout::Vertical => Layout::Horizontal,
            }),
            children_of(
                final(self).arena(),
                parent_of(old(self).arena(), old(self).tmap()[tab].focus),
            ) == children_of(
                old(self).arena(),
                parent_of(old(self).arena(), old(self).tmap()[tab].focus),
            ),
            forall|m: ViewId|
                old(self).arena().dom().contains(m) && m != parent_of(
                    old(self).arena(),
                    old(self).tmap()[tab].focus,
                ) ==> node_same_shape(final(self).arena()[m], #[trigger] old(self).arena()[m]),
            children_of(old(self).arena(), old(self).tmap()[tab].root).len() != 0
                ==> crate::solve::tree_solved(final(self).arena(), final(self).tmap()[tab]),
            forall|tid: TabId|
                #[trigger] old(self).tmap().dom().contains(tid) && tid != tab ==> {
                    &&& final(self).tmap()[tid].root == old(self).tmap()[tid].root
                    &&& final(self).tmap()[tid].area == old(self).tmap()[tid].area
                    &&& final(self).tmap()[tid].mset() == old(self).tmap()[tid].mset()
                    &&& (children_of(old(self).arena(), old(self).tmap()[tid].root).len() != 0
                        ==> final(self).tmap()[tid].focus == old(self).tmap()[tid].focus
                            && crate::solve::tree_solved(final(self).arena(), final(self).tmap()[tid]))
                },
    {
        let ghost pre = *old(self);
        let ghost ot = old(self).tmap()[tab];
        let ghost a0 = pre.arena();
        let focus = self.trees.get(tab).unwrap().focus;
        proof {
            assert(tree_wf(a0, ot));
            assert(ot.mset().contains(focus));
        }
        let parent = self.nodes.get(focus).unwrap().parent;
        let ghost p = parent;
        proof {
            assert(ot.mset().contains(p)) by {
                if focus != ot.root {
                    assert(ot.mset().contains(parent_of(a0, focus)));
                } else {
                    assert(parent_of(a0, ot.root) == ot.root);
                }
            }
            assert(is_container(a0, p)) by {
                if focus == ot.root {
                    assert(p == ot.root);
                }
            }
        }
        let pnode = self.nodes.get(parent).unwrap();
        let pparent = pnode.parent;
        let (playout, parea, pchildren) = match &pnode.content {
            Content::Container(c) => (c.layout, c.area, crate::node::copy_ids(&c.children)),
            Content::Pane(_) => {
                proof {
                    assert(is_container(a0, p));
                }
                (Layout::Vertical, crate::geom::Rect::default(), Vec::new())
            },
        };
        let flipped = match playout {
            Layout::Horizontal => Layout::Vertical,
            Layout::Vertical => Layout::Horizontal,
        };
        self.nodes.set(
            parent,
            Node {
                parent: pparent,
                content: Content::Container(
                    Container { layout: flipped, children: pchildren, area: parea },
                ),
            },
        );
        proof {
            let a1 = self.arena();
            assert(a1.dom() =~= a0.dom());
            assert(children_of(a1, p) =~= children_of(a0, p));
            assert forall|tid: TabId| #[trigger] self.tmap().dom().contains(tid) implies tree_wf(
                a1,
                self.tmap()[tid],
            ) by {
                let o = pre.tmap()[tid];
                assert(self.tmap()[tid] == o);
                assert(tree_wf(a0, o));
                lemma_node_refit_wf(a0, a1, o, p);
            }
            assert(self.wf());
        }
        let ghost smid = *self;
        self.recalculate();
        proof {
            assert forall|m: ViewId|
                pre.arena().dom().contains(m) && m != p implies node_same_shape(
                self.arena()[m],
                #[trigger] pre.arena()[m],
            ) by {
                assert(smid.arena()[m] == pre.arena()[m]);
                assert(smid.arena().dom().contains(m));
                assert(node_same_shape(self.arena()[m], smid.arena()[m]));
            }
            assert(children_of(smid.arena(), ot.root) == children_of(pre.arena(), ot.root)) by {
                assert(ot.mset().contains(ot.root));
                if ot.root != p {
                    assert(smid.arena()[ot.root] == pre.arena()[ot.root]);
                } else {
                    assert(children_of(smid.arena(), p) == children_of(pre.arena(), p));
                }
            }
            assert forall|tid: TabId|
                #[trigger] pre.tmap().dom().contains(tid) && tid != tab implies {
                &&& self.tmap()[tid].root == pre.tmap()[tid].root
                &&& self.tmap()[tid].area == pre.tmap()[tid].area
                &&& self.tmap()[tid].mset() == pre.tmap()[tid].mset()
                &&& (children_of(pre.arena(), pre.tmap()[tid].root).len() != 0 ==> self.tmap()[
                    tid
                ].focus == pre.tmap()[tid].focus && crate::solve::tree_solved(
                    self.arena(),
                    self.tmap()[tid],
                ))
            } by {
                let mid_t = pre.tmap()[tid];
                assert(children_of(smid.arena(), mid_t.root) == children_of(
                    pre.arena(),
                    mid_t.root,
                )) by {
                    assert(mid_t.mset().contains(mid_t.root)) by {
                        assert(tree_wf(pre.arena(), mid_t));
                    }
                    assert(mid_t.root != p) by {
                        assert(ot.mset().contains(p));
                    }
                    assert(smid.arena()[mid_t.root] == pre.arena()[mid_t.root]);
                }
            }
        }
    }

    /// Resizes workspace `tab` to `area`: a no-op (`false`) when the
    /// rectangle is unchanged, otherwise stores it, recomputes that
    /// workspace's layout, and returns `true`.
    pub fn resize_tab(&mut self, tab: TabId, area: Rect) -> (r: bool)
        requires
            old(self).wf(),
            old(self).tmap().dom().contains(tab),
            area.valid(),
        ensures
            final(self).wf(),
            r == (old(self).tmap()[tab].area != area),
            !r ==> *final(self) == *old(self),
            r ==> {
                &&& final(self).tmap().dom() == old(self).tmap().dom()
                &&& final(self).active() == old(self).active()
                &&& final(self).tmap()[tab].area == area
                &&& final(self).tmap()[tab].mset() == old(self).tmap()[tab].mset()
                &&& forall|tid: TabId|
                    #[trigger] old(self).tmap().dom().contains(tid) && tid != tab
                        ==> final(self).tmap()[tid] == old(self).tmap()[tid]
                &&& (children_of(final(self).arena(), final(self).tmap()[tab].root).len() != 0
                    ==> crate::solve::tree_solved(final(self).arena(), final(self).tmap()[tab]))
            },
    {
        let t_ref = self.trees.get(tab).unwrap();
        if t_ref.area == area {
            return false;
        }
        let mut t2 = t_ref.clone();
        t2.area = area;
        self.trees.set(tab, t2);
        proof {
            assert(self.tmap().dom() =~= old(self).tmap().dom());
            assert(tree_wf(self.arena(), self.tmap()[tab]));
            assert(self.wf());
        }
        self.recalculate_tab(tab);
        proof {
            assert(children_of(old(self).arena(), old(self).tmap()[tab].root).len() != 0
                ==> children_of(self.arena(), self.tmap()[tab].root).len() != 0) by {
                assert(self.tmap()[tab].mset().contains(self.tmap()[tab].root));
            }
        }
        true
    }

    /// Resizes every workspace to `area`; `true` when any of them changed.
    pub fn resize(&mut self, area: Rect) -> (r: bool)
        requires
            old(self).wf(),
            area.valid(),
        ensures
            final(self).wf(),
            final(self).tmap().dom() == old(self).tmap().dom(),
            final(self).active() == old(self).active(),
            forall|tid: TabId|
                #[trigger] final(self).tmap().dom().contains(tid) ==> final(self).tmap()[tid].area
                    == area,
            r == (exists|tid: TabId|
                #[trigger] old(self).tmap().dom().contains(tid) && old(self).tmap()[tid].area
                    != area),
            !r ==> *final(self) == *old(self),
            r ==> forall|tid: TabId|
                #[trigger] old(self).tmap().dom().contains(tid) && children_of(
                    old(self).arena(),
                    old(self).tmap()[tid].root,
                ).len() != 0 ==> crate::solve::tree_solved(
                    final(self).arena(),
                    final(self).tmap()[tid],
                ),
    {
        let ghost pre = *old(self);
        let ids = self.tab_ids();
        let mut result = false;
        let mut i: usize = 0;
        while i < ids.len()
            invariant
                pre.wf(),
                area.valid(),
                ids@.no_duplicates(),
                ids@.to_set() == pre.tmap().dom(),
                ids@ == pre.tab_order(),
                i <= ids@.len(),
                self.wf(),
                self.arena() == pre.arena(),
                self.tmap().dom() == pre.tmap().dom(),
                self.active() == pre.active(),
                forall|j: int| 0 <= j < i ==> self.tmap()[#[trigger] ids@[j]].area == area,
                forall|tid: TabId|
                    #[trigger] pre.tmap().dom().contains(tid) ==> {
                        &&& self.tmap()[tid].id == pre.tmap()[tid].id
                        &&& self.tmap()[tid].root == pre.tmap()[tid].root
                        &&& self.tmap()[tid].focus == pre.tmap()[tid].focus
                        &&& self.tmap()[tid].mset() == pre.tmap()[tid].mset()
                    },
                forall|j: int|
                    i <= j < ids@.len() ==> self.tmap()[#[trigger] ids@[j]].area == pre.tmap()[
                        ids@[j]
                    ].area,
                result == (exists|j: int|
                    0 <= j < i && pre.tmap()[#[trigger] ids@[j]].area != area),
                !result ==> *self == pre,
            decreases ids@.len() - i,
        {
            proof {
                assert(ids@.to_set().contains(ids@[i as int]));
            }
            let ghost mid = *self;
            let tab = ids[i];
            let t_ref = self.trees.get(tab).unwrap();
            let differs = !(t_ref.area == area);
            if differs {
                let mut t2 = t_ref.clone();
                t2.area = area;
                self.trees.set(tab, t2);
                result = true;
            }
            proof {
                assert(self.tmap().dom() =~= pre.tmap().dom());
                assert(mid.tmap()[ids@[i as int]].area == pre.tmap()[ids@[i as int]].area);
                assert forall|j: int|
                    i + 1 <= j < ids@.len() implies self.tmap()[#[trigger] ids@[j]].area
                    == pre.tmap()[ids@[j]].area by {
                    assert(ids@[j] != ids@[i as int]);
                    assert(self.tmap()[ids@[j]] == mid.tmap()[ids@[j]]);
                }
                assert forall|tid: TabId| #[trigger] self.tmap().dom().contains(tid)
                    implies tree_wf(self.arena(), self.tmap()[tid]) && self.tmap()[tid].id == tid
                    && self.tmap()[tid].area.valid() by {
                    if tid != tab || !differs {
                        assert(self.tmap()[tid] == mid.tmap()[tid]);
                        assert(tree_wf(mid.arena(), mid.tmap()[tid]));
                    } else {
                        assert(tree_wf(mid.arena(), mid.tmap()[tab]));
                        assert(tree_wf(self.arena(), self.tmap()[tab]));
                    }
                }
                assert(self.wf());
                assert forall|j: int| 0 <= j < i + 1 implies self.tmap()[#[trigger] ids@[j]].area
                    == area by {
                    if j < i {
                        assert(ids@[j] != ids@[i as int]);
                        assert(self.tmap()[ids@[j]] == mid.tmap()[ids@[j]]);
                    }
                }
                if differs {
                    assert(pre.tmap()[ids@[i as int]].area != area);
                } else {
                    assert(mid.tmap()[tab].area == area);
                    if exists|j: int| 0 <= j < i + 1 && pre.tmap()[#[trigger] ids@[j]].area
                        != area {
                        let j = choose|j: int|
                            0 <= j < i + 1 && pre.tmap()[#[trigger] ids@[j]].area != area;
                        assert(j < i);
                    }
                }
            }
            i = i + 1;
        }
        proof {
            assert forall|tid: TabId| #[trigger] self.tmap().dom().contains(tid)
                implies self.tmap()[tid].area == area by {
                assert(ids@.to_set().contains(tid));
                let j = choose|j: int| 0 <= j < ids@.len() && ids@[j] == tid;
            }
            if exists|tid: TabId|
                #[trigger] pre.tmap().dom().contains(tid) && pre.tmap()[tid].area != area {
                let tid = choose|tid: TabId|
                    #[trigger] pre.tmap().dom().contains(tid) && pre.tmap()[tid].area != area;
                assert(ids@.to_set().contains(tid));
                let j = choose|j: int| 0 <= j < ids@.len() && ids@[j] == tid;
                assert(pre.tmap()[ids@[j]].area != area);
            }
            if exists|j: int| 0 <= j < ids@.len() && pre.tmap()[#[trigger] ids@[j]].area != area {
                let j = choose|j: int|
                    0 <= j < ids@.len() && pre.tmap()[#[trigger] ids@[j]].area != area;
                assert(pre.tmap().dom().contains(ids@[j]));
            }
        }
        if result {
            let ghost smid = *self;
            self.recalculate();
            proof {
                assert forall|tid: TabId|
                    #[trigger] pre.tmap().dom().contains(tid) && children_of(
                        pre.arena(),
                        pre.tmap()[tid].root,
                    ).len() != 0 implies crate::solve::tree_solved(
                    self.arena(),
                    self.tmap()[tid],
                ) by {
                    assert(smid.tmap()[tid].root == pre.tmap()[tid].root);
                    assert(smid.arena() == pre.arena());
                }
            }
        }
        result
    }

    /// The identifiers of every workspace, in iteration order.
    pub fn tab_ids(&self) -> (r: Vec<TabId>)
        ensures
            r@ == self.tab_order(),
            r@.no_duplicates(),
            r@.to_set() == self.tmap().dom(),
    {
        self.trees.keys()
    }

    /// The pane with identifier `index`, if the arena holds one.
    pub fn try_get(&self, index: ViewId) -> (r: Option<&Pane>)
        ensures
            r is Some <==> self.arena().dom().contains(index) && is_pane(self.arena(), index),
            r matches Some(v) ==> *v == pane_of(self.arena(), index),
    {
        match self.nodes.get(index) {
            Some(node) => match &node.content {
                Content::Pane(v) => Some(v),
                Content::Container(_) => None,
            },
            None => None,
        }
    }

    /// Replaces the pane stored under `index` — the write half of pane
    /// iteration: callers read panes with `tab_views` or `get` and write
    /// them back here.  The pane must keep its own identifier; the tree
    /// structure is untouched.
    pub fn set_pane(&mut self, index: ViewId, p: Pane)
        requires
            old(self).wf(),
            is_pane(old(self).arena(), index),
            p.id == index,
        ensures
            final(self).wf(),
            final(self).tmap() == old(self).tmap(),
            final(self).active() == old(self).active(),
            final(self).arena() == old(self).arena().insert(
                index,
                Node {
                    parent: parent_of(old(self).arena(), index),
                    content: Content::Pane(p),
                },
            ),
    {
        let ghost pre = *old(self);
        let ghost a0 = pre.arena();
        let parent = self.nodes.get(index).unwrap().parent;
        self.nodes.set(index, Node { parent, content: Content::Pane(p) });
        proof {
            let a1 = self.arena();
            assert(a1.dom() =~= a0.dom());
            assert forall|tid: TabId| #[trigger] self.tmap().dom().contains(tid) implies tree_wf(
                a1,
                self.tmap()[tid],
            ) by {
                let o = pre.tmap()[tid];
                assert(self.tmap()[tid] == o);
                assert(tree_wf(a0, o));
                lemma_node_refit_wf(a0, a1, o, index);
            }
            assert(self.wf());
        }
    }

    /// The pane with identifier `index`; the caller must have validated it.
    pub fn get(&self, index: ViewId) -> (r: &Pane)
        requires
            is_pane(self.arena(), index),
        ensures
            *r == pane_of(self.arena(), index),
    {
        self.try_get(index).unwrap()
    }

    /// The identifiers of every pane of workspace `tab`, in the member
    /// bookkeeping's iteration order.
    pub fn view_ids(&self, tab: TabId) -> (r: Vec<ViewId>)
        requires
            self.wf(),
            self.tmap().dom().contains(tab),
        ensures
            r@.no_duplicates(),
            forall|i: int|
                0 <= i < r@.len() ==> self.mset_of(tab).contains(#[trigger] r@[i]) && is_pane(
                    self.arena(),
                    r@[i],
                ),
            forall|m: ViewId|
                #[trigger] self.mset_of(tab).contains(m) && is_pane(self.arena(), m)
                    ==> r@.contains(m),
    {
        let t_ref = self.trees.get(tab).unwrap();
        let all = t_ref.members.keys();
        let ghost ms = self.mset_of(tab);
        let mut out: Vec<ViewId> = Vec::new();
        let mut i: usize = 0;
        while i < all.len()
            invariant
                self.wf(),
                self.tmap().dom().contains(tab),
                all@.no_duplicates(),
                all@.to_set() == ms,
                ms == self.mset_of(tab),
                i <= all@.len(),
                out@.no_duplicates(),
                forall|k: int|
                    0 <= k < out@.len() ==> ms.contains(#[trigger] out@[k]) && is_pane(
                        self.arena(),
                        out@[k],
                    ),
                forall|k: int|
                    0 <= k < out@.len() ==> all@.take(i as int).contains(#[trigger] out@[k]),
                forall|j: int|
                    0 <= j < i && is_pane(self.arena(), #[trigger] all@[j]) ==> out@.contains(
                        all@[j],
                    ),
            decreases all@.len() - i,
        {
            proof {
                assert(all@.to_set().contains(all@[i as int]));
                assert(self.arena().dom().contains(all@[i as int])) by {
                    assert(self.tmap()[tab].mset().contains(all@[i as int]));
                    assert(tree_wf(self.arena(), self.tmap()[tab]));
                }
            }
            let ghost out0 = out@;
            let id = all[i];
            let node = self.nodes.get(id).unwrap();
            let is_view = match &node.content {
                Content::Pane(_) => true,
                Content::Container(_) => false,
            };
            if is_view {
                proof {
                    assert(!out0.contains(id)) by {
                        if out0.contains(id) {
                            let k = choose|k: int| 0 <= k < out0.len() && out0[k] == id;
                            assert(all@.take(i as int).contains(id));
                            let j = choose|j: int| 0 <= j < i && all@[j] == id;
                            assert(all@[j] == all@[i as int]);
                        }
                    }
                }
                out.push(id);
            }
            proof {
                assert forall|k: int| 0 <= k < out@.len() implies all@.take(i + 1).contains(
                    #[trigger] out@[k],
                ) by {
                    if k < out0.len() {
                        assert(all@.take(i as int).contains(out0[k]));
                        let j = choose|j: int| 0 <= j < i && all@[j] == out0[k];
                        assert(all@.take(i + 1)[j] == out0[k]);
                    } else {
                        assert(out@[k] == all@[i as int]);
                        assert(all@.take(i + 1)[i as int] == all@[i as int]);
                    }
                }
                assert forall|j: int|
                    0 <= j < i + 1 && is_pane(self.arena(), #[trigger] all@[j])
                    implies out@.contains(all@[j]) by {
                    if j < i {
                        assert(out0.contains(all@[j]));
                        let k = choose|k: int| 0 <= k < out0.len() && out0[k] == all@[j];
                        assert(out@[k] == all@[j]);
                    } else {
                        assert(out@[out@.len() - 1] == all@[j]);
                    }
                }
            }
            i = i + 1;
        }
        proof {
            assert forall|m: ViewId|
                #[trigger] ms.contains(m) && is_pane(self.arena(), m) implies out@.contains(
                m,
            ) by {
                assert(all@.to_set().contains(m));
                let j = choose|j: int| 0 <= j < all@.len() && all@[j] == m;
            }
        }
        out
    }

    /// Every pane of workspace `tab`, each with whether it is the focused
    /// one.
    pub fn tab_views(&self, tab: TabId) -> (r: Vec<(Pane, bool)>)
        requires
            self.wf(),
            self.tmap().dom().contains(tab),
        ensures
            forall|i: int|
                0 <= i < r@.len() ==> {
                    &&& self.mset_of(tab).contains(#[trigger] r@[i].0.id)
                    &&& is_pane(self.arena(), r@[i].0.id)
                    &&& r@[i].0 == pane_of(self.arena(), r@[i].0.id)
                    &&& r@[i].1 == (r@[i].0.id == self.tmap()[tab].focus)
                },
            forall|m: ViewId|
                #[trigger] self.mset_of(tab).contains(m) && is_pane(self.arena(), m)
                    ==> exists|i: int| 0 <= i < r@.len() && #[trigger] r@[i].0.id == m,
            forall|i: int, j: int|
                0 <= i < r@.len() && 0 <= j < r@.len() && i != j ==> #[trigger] r@[i].0.id
                    != #[trigger] r@[j].0.id,
    {
        let ids = self.view_ids(tab);
        let focus = self.trees.get(tab).unwrap().focus;
        let mut out: Vec<(Pane, bool)> = Vec::new();
        let mut i: usize = 0;
        while i < ids.len()
            invariant
                self.wf(),
                self.tmap().dom().contains(tab),
                focus == self.tmap()[tab].focus,
                i <= ids@.len(),
                forall|k: int|
                    0 <= k < ids@.len() ==> self.mset_of(tab).contains(#[trigger] ids@[k])
                        && is_pane(self.arena(), ids@[k]),
                out@.len() == i,
                forall|k: int|
                    0 <= k < i ==> {
                        &&& #[trigger] out@[k].0 == pane_of(self.arena(), ids@[k])
                        &&& out@[k].0.id == ids@[k]
                        &&& out@[k].1 == (ids@[k] == self.tmap()[tab].focus)
                    },
            decreases ids@.len() - i,
        {
            proof {
                assert(self.arena().dom().contains(ids@[i as int])) by {
                    assert(self.tmap()[tab].mset().contains(ids@[i as int]));
                    assert(tree_wf(self.arena(), self.tmap()[tab]));
                }
                assert(pane_of(self.arena(), ids@[i as int]).id == ids@[i as int]) by {
                    assert(tree_wf(self.arena(), self.tmap()[tab]));
                    assert(self.tmap()[tab].mset().contains(ids@[i as int]));
                }
            }
            let id = ids[i];
            let v = *self.get(id);
            out.push((v, key_eq(id, focus)));
            i = i + 1;
        }
        proof {
            assert forall|m: ViewId|
                #[trigger] self.mset_of(tab).contains(m) && is_pane(self.arena(), m)
                implies exists|i2: int| 0 <= i2 < out@.len() && #[trigger] out@[i2].0.id == m by {
                assert(ids@.contains(m));
                let k = choose|k: int| 0 <= k < ids@.len() && ids@[k] == m;
                assert(out@[k].0.id == m);
            }
        }
        out
    }

    /// Every pane of every workspace, each with whether it is the focused
    /// pane of the active workspace.
    pub fn all_views(&self) -> (r: Vec<(Pane, bool)>)
        requires
            self.wf(),
        ensures
            forall|i: int|
                0 <= i < r@.len() ==> {
                    &&& self.arena().dom().contains(#[trigger] r@[i].0.id)
                    &&& is_pane(self.arena(), r@[i].0.id)
                    &&& r@[i].0 == pane_of(self.arena(), r@[i].0.id)
                    &&& r@[i].1 == (r@[i].0.id == self.tmap()[self.active()].focus)
                },
            forall|tid: TabId, m: ViewId|
                #[trigger] self.tmap().dom().contains(tid) && #[trigger] self.mset_of(
                    tid,
                ).contains(m) && is_pane(self.arena(), m) ==> exists|i: int|
                    0 <= i < r@.len() && #[trigger] r@[i].0.id == m,
            forall|i: int, j: int|
                0 <= i < r@.len() && 0 <= j < r@.len() && i != j ==> #[trigger] r@[i].0.id
                    != #[trigger] r@[j].0.id,
    {
        let focus = self.trees.get(self.focus).unwrap().focus;
        let tabs = self.tab_ids();
        let mut out: Vec<(Pane, bool)> = Vec::new();
        let ghost mut processed: Set<ViewId> = Set::empty();
        let mut i: usize = 0;
        while i < tabs.len()
            invariant
                self.wf(),
                focus == self.tmap()[self.active()].focus,
                i <= tabs@.len(),
                tabs@.no_duplicates(),
                tabs@.to_set() == self.tmap().dom(),
                forall|k: int|
                    0 <= k < out@.len() ==> {
                        &&& self.arena().dom().contains(#[trigger] out@[k].0.id)
                        &&& is_pane(self.arena(), out@[k].0.id)
                        &&& out@[k].0 == pane_of(self.arena(), out@[k].0.id)
                        &&& out@[k].1 == (out@[k].0.id == self.tmap()[self.active()].focus)
                    },
                forall|k: int| 0 <= k < out@.len() ==> processed.contains(#[trigger] out@[k].0.id),
                forall|j: int, m: ViewId|
                    i <= j < tabs@.len() && #[trigger] self.mset_of(tabs@[j]).contains(m)
                        ==> !processed.contains(m),
                forall|j: int, m: ViewId|
                    0 <= j < i && #[trigger] self.mset_of(tabs@[j]).contains(m) && is_pane(
                        self.arena(),
                        m,
                    ) ==> exists|k: int| 0 <= k < out@.len() && #[trigger] out@[k].0.id == m,
                forall|k1: int, k2: int|
                    0 <= k1 < out@.len() && 0 <= k2 < out@.len() && k1 != k2
                        ==> #[trigger] out@[k1].0.id != #[trigger] out@[k2].0.id,
            decreases tabs@.len() - i,
        {
            proof {
                assert(tabs@.to_set().contains(tabs@[i as int]));
            }
            let ghost out0 = out@;
            let tab = tabs[i];
            let ids = self.view_ids(tab);
            let mut k: usize = 0;
            while k < ids.len()
                invariant
                    self.wf(),
                    focus == self.tmap()[self.active()].focus,
                    self.tmap().dom().contains(tab),
                    tab == tabs@[i as int],
                    i < tabs@.len(),
                    k <= ids@.len(),
                    ids@.no_duplicates(),
                    forall|q: int|
                        0 <= q < ids@.len() ==> self.mset_of(tab).contains(#[trigger] ids@[q])
                            && is_pane(self.arena(), ids@[q]),
                    forall|q: int| 0 <= q < ids@.len() ==> !processed.contains(#[trigger] ids@[q]),
                    out@.len() == out0.len() + k,
                    forall|q: int| 0 <= q < out0.len() ==> #[trigger] out@[q] == out0[q],
                    forall|q: int|
                        0 <= q < out0.len() ==> processed.contains(#[trigger] out@[q].0.id),
                    forall|q: int|
                        out0.len() <= q < out@.len() ==> #[trigger] out@[q].0.id == ids@[q
                            - out0.len()],
                    forall|q: int|
                        0 <= q < out@.len() ==> {
                            &&& self.arena().dom().contains(#[trigger] out@[q].0.id)
                            &&& is_pane(self.arena(), out@[q].0.id)
                            &&& out@[q].0 == pane_of(self.arena(), out@[q].0.id)
                            &&& out@[q].1 == (out@[q].0.id == self.tmap()[self.active()].focus)
                        },
                decreases ids@.len() - k,
            {
                proof {
                    assert(self.mset_of(tab).contains(ids@[k as int]));
                    assert(self.arena().dom().contains(ids@[k as int])) by {
                        assert(self.tmap()[tab].mset().contains(ids@[k as int]));
                        assert(tree_wf(self.arena(), self.tmap()[tab]));
                    }
                    assert(pane_of(self.arena(), ids@[k as int]).id == ids@[k as int]) by {
                        assert(tree_wf(self.arena(), self.tmap()[tab]));
                        assert(self.tmap()[tab].mset().contains(ids@[k as int]));
                    }
                }
                let id = ids[k];
                let v = *self.get(id);
                out.push((v, key_eq(id, focus)));
                k = k + 1;
            }
            proof {
                let ghost ms = self.mset_of(tab);
                processed = processed.union(ms);
                assert forall|k2: int| 0 <= k2 < out@.len() implies processed.contains(
                    #[trigger] out@[k2].0.id,
                ) by {
                    if k2 >= out0.len() {
                        assert(out@[k2].0.id == ids@[k2 - out0.len()]);
                        assert(ms.contains(out@[k2].0.id));
                    }
                }
                assert forall|j: int, m: ViewId|
                    i + 1 <= j < tabs@.len() && #[trigger] self.mset_of(tabs@[j]).contains(m)
                    implies !processed.contains(m) by {
                    if ms.contains(m) {
                        assert(tabs@[j] != tabs@[i as int]);
                        assert(tabs@.to_set().contains(tabs@[j]));
                        assert(self.tmap()[tabs@[j]].mset().contains(m));
                        assert(self.tmap()[tabs@[i as int]].mset().contains(m));
                    }
                }
                assert forall|j: int, m: ViewId|
                    0 <= j < i + 1 && #[trigger] self.mset_of(tabs@[j]).contains(m) && is_pane(
                        self.arena(),
                        m,
                    ) implies exists|k2: int|
                    0 <= k2 < out@.len() && #[trigger] out@[k2].0.id == m by {
                    if j < i {
                        let k2 = choose|k2: int|
                            0 <= k2 < out0.len() && #[trigger] out0[k2].0.id == m;
                        assert(out@[k2].0.id == m);
                    } else {
                        assert(ids@.contains(m));
                        let q = choose|q: int| 0 <= q < ids@.len() && ids@[q] == m;
                        assert(out@[out0.len() + q].0.id == ids@[q]);
                    }
                }
                assert forall|k1: int, k2: int|
                    0 <= k1 < out@.len() && 0 <= k2 < out@.len() && k1 != k2
                    implies #[trigger] out@[k1].0.id != #[trigger] out@[k2].0.id by {
                    let n0 = out0.len() as int;
                    if k1 >= n0 && k2 >= n0 {
                        assert(out@[k1].0.id == ids@[k1 - n0]);
                        assert(out@[k2].0.id == ids@[k2 - n0]);
                    } else if k1 < n0 && k2 >= n0 {
                        assert(out@[k2].0.id == ids@[k2 - n0]);
                        assert(!processed.contains(ids@[k2 - n0]) || ms.contains(ids@[k2 - n0]));
                    } else if k2 < n0 && k1 >= n0 {
                        assert(out@[k1].0.id == ids@[k1 - n0]);
                        assert(!processed.contains(ids@[k1 - n0]) || ms.contains(ids@[k1 - n0]));
                    }
                }
            }
            i = i + 1;
        }
        proof {
            assert forall|tid: TabId, m: ViewId|
                #[trigger] self.tmap().dom().contains(tid) && #[trigger] self.mset_of(
                    tid,
                ).contains(m) && is_pane(self.arena(), m) implies exists|q: int|
                0 <= q < out@.len() && #[trigger] out@[q].0.id == m by {
                assert(tabs@.to_set().contains(tid));
                let j = choose|j: int| 0 <= j < tabs@.len() && tabs@[j] == tid;
                assert(self.mset_of(tabs@[j]).contains(m));
            }
        }
        out
    }
}

/// Rewriting one node in place — a container keeping its child list, or a
/// pane keeping its identifier — leaves every structural fact intact.
proof fn lemma_node_refit_wf(
    a0: Map<ViewId, Node>,
    a1: Map<ViewId, Node>,
    t: Tree,
    p: ViewId,
)
    requires
        tree_wf(a0, t),
        a1.dom() == a0.dom(),
        forall|m: ViewId| a0.dom().contains(m) && m != p ==> a1[m] == #[trigger] a0[m],
        a0.dom().contains(p),
        is_container(a1, p) == is_container(a0, p),
        is_pane(a1, p) == is_pane(a0, p),
        parent_of(a1, p) == parent_of(a0, p),
        is_container(a0, p) ==> children_of(a1, p) == children_of(a0, p),
        is_pane(a0, p) && t.mset().contains(p) ==> pane_of(a1, p).id == pane_of(a0, p).id,
    ensures
        tree_wf(a1, t),
{
    assert forall|m: ViewId| #[trigger] t.mset().contains(m) implies {
        &&& a1.dom().contains(m)
        &&& parent_of(a1, m) == parent_of(a0, m)
        &&& is_container(a1, m) == is_container(a0, m)
        &&& is_pane(a1, m) == is_pane(a0, m)
        &&& (is_container(a0, m) ==> children_of(a1, m) == children_of(a0, m))
        &&& (is_pane(a0, m) ==> pane_of(a1, m).id == pane_of(a0, m).id)
    } by {
        if m != p {
            assert(a1[m] == a0[m]);
        }
    }
    assert forall|m: ViewId| #[trigger] t.mset().contains(m) && is_container(a1, m)
        implies children_wf(a1, t, m) by {
        assert(children_wf(a0, t, m));
        assert forall|j: int| 0 <= j < children_of(a1, m).len() implies {
            &&& t.mset().contains(#[trigger] children_of(a1, m)[j])
            &&& children_of(a1, m)[j] != t.root
            &&& parent_of(a1, children_of(a1, m)[j]) == m
        } by {
            assert(children_of(a0, m)[j] == children_of(a1, m)[j]);
            assert(t.mset().contains(children_of(a0, m)[j]));
        }
    }
    assert forall|m: ViewId| #[trigger] t.mset().contains(m) implies has_chain(a1, t.root, m) by {
        let n = choose|n: nat| chain_to_root(a0, t.root, m, n);
        assert(chain_to_root(a0, t.root, m, n));
        crate::chains::lemma_hops_shape(a0, t.root, t.mset(), m, n);
        assert forall|x: ViewId| #[trigger] crate::chains::chain_hops(a0, t.root, m, n).contains(
            x,
        ) implies {
            &&& a1.dom().contains(x)
            &&& parent_of(a1, x) == parent_of(a0, x)
        } by {
            assert(t.mset().contains(x));
        }
        crate::chains::lemma_chain_frame(a0, a1, t.root, m, n);
    }
}

/// The position of `x` in `v`, which must occur in it.
fn tab_index_in(v: &Vec<TabId>, x: TabId) -> (r: usize)
    requires
        v@.contains(x),
    ensures
        r < v@.len(),
        v@[r as int] == x,
{
    let mut i: usize = 0;
    while i < v.len()
        invariant
            v@.contains(x),
            i <= v@.len(),
            forall|j: int| 0 <= j < i ==> v@[j] != x,
        decreases v@.len() - i,
    {
        if key_eq(v[i], x) {
            return i;
        }
        i = i + 1;
    }
    proof {
        let j = choose|j: int| 0 <= j < v@.len() && v@[j] == x;
        assert(v@[j] != x);
    }
    0
}

} // verus!
