//! One workspace (tab): a tree of containers and panes over the shared arena.

use vstd::prelude::*;
use crate::chains::{
    chain_hops, chain_to_root, has_chain, lemma_chain_frame, lemma_hops_shape,
    lemma_reach_extend, reach_n, reachable,
};
use crate::geom::Rect;
use crate::ids::{TabId, ViewId};
use crate::node::{
    Node, children_of, is_container, is_pane, node_same_shape, pane_of, parent_of,
};
use crate::store::{MemberSet, member_set_of};

verus! {

/// The per-workspace bookkeeping: root, focus, bounding rectangle, member
/// set, and a reusable traversal scratch buffer.
#[derive(Debug)]
pub struct Tree {
    /// This workspace's own identifier in the workspace store.
    pub id: TabId,
    /// The root container; it is its own parent in the arena.
    pub root: ViewId,
    /// The focused pane, or the root itself while the tree has no panes.
    pub focus: ViewId,
    /// The rectangle the whole workspace covers.
    pub area: Rect,
    /// The arena identifiers belonging to this tree.
    pub members: MemberSet,
    /// Scratch space reused by the layout pass.
    pub stack: Vec<(ViewId, Rect)>,
}

impl Tree {
    /// The member set, as a mathematical set of identifiers.
    pub open spec fn mset(self) -> Set<ViewId> {
        member_set_of(self.members)
    }
}

impl Clone for Tree {
    fn clone(&self) -> (r: Self)
        ensures
            r.id == self.id,
            r.root == self.root,
            r.focus == self.focus,
            r.area == self.area,
            r.mset() == self.mset(),
    {
        Tree {
            id: self.id,
            root: self.root,
            focus: self.focus,
            area: self.area,
            members: self.members.clone(),
            stack: Vec::new(),
        }
    }
}

/// The child lists of one member container are sound: members only, never
/// the root, each backlinked to this container, no duplicates.
pub open spec fn children_wf(a: Map<ViewId, Node>, t: Tree, id: ViewId) -> bool {
    &&& children_of(a, id).no_duplicates()
    &&& forall|j: int|
        0 <= j < children_of(a, id).len() ==> {
            &&& t.mset().contains(#[trigger] children_of(a, id)[j])
            &&& children_of(a, id)[j] != t.root
            &&& parent_of(a, children_of(a, id)[j]) == id
        }
}

/// The structural half of well-formedness: the member set is closed under
/// parent and child links, child lists partition the members one level
/// down, every member is anchored to the root by a parent chain (so the
/// links form a tree), non-root containers are never left empty, and panes
/// carry their own identifier.
pub open spec fn tree_linked(a: Map<ViewId, Node>, t: Tree) -> bool {
    &&& t.mset().contains(t.root)
    &&& forall|id: ViewId| #[trigger] t.mset().contains(id) ==> a.dom().contains(id)
    &&& is_container(a, t.root)
    &&& parent_of(a, t.root) == t.root
    &&& forall|id: ViewId|
        #[trigger] t.mset().contains(id) && id != t.root ==> {
            &&& t.mset().contains(parent_of(a, id))
            &&& is_container(a, parent_of(a, id))
            &&& children_of(a, parent_of(a, id)).contains(id)
        }
    &&& forall|id: ViewId|
        #[trigger] t.mset().contains(id) && is_container(a, id) ==> children_wf(a, t, id)
    &&& forall|id: ViewId|
        #[trigger] t.mset().contains(id) && is_container(a, id) && id != t.root
            ==> children_of(a, id).len() >= 1
    &&& forall|id: ViewId|
        #[trigger] t.mset().contains(id) && is_pane(a, id) ==> pane_of(a, id).id == id
    &&& forall|id: ViewId| #[trigger] t.mset().contains(id) ==> has_chain(a, t.root, id)
}

/// Well-formedness of one workspace tree: its links form a tree, and the
/// focus is a member pane unless the tree is empty, in which case it is
/// the root.
pub open spec fn tree_wf(a: Map<ViewId, Node>, t: Tree) -> bool {
    &&& tree_linked(a, t)
    &&& t.mset().contains(t.focus)
    &&& if children_of(a, t.root).len() == 0 {
        t.focus == t.root
    } else {
        is_pane(a, t.focus)
    }
}

/// Somewhere at or below a member that is not in the removed set `bad`
/// there is a member pane that is not in `bad` either, provided removed
/// nodes only ever hang below each other or below `q`, and `c` sits
/// strictly deeper than `q`.  The visited set `V` carries the descent's
/// termination measure.
pub proof fn lemma_pane_below(
    a: Map<ViewId, Node>,
    t: Tree,
    q: ViewId,
    bad: Set<ViewId>,
    c: ViewId,
    V: Set<ViewId>,
)
    requires
        tree_wf(a, t),
        a.dom().finite(),
        t.mset().contains(c),
        !bad.contains(c),
        forall|x: ViewId|
            #[trigger] bad.contains(x) ==> bad.contains(parent_of(a, x)) || parent_of(a, x)
                == q,
        has_chain(a, t.root, q),
        has_chain(a, t.root, c),
        crate::chains::depth_of(a, t.root, c) > crate::chains::depth_of(a, t.root, q),
        V.finite(),
        V.subset_of(t.mset()),
        forall|v: ViewId|
            #[trigger] V.contains(v) ==> crate::chains::depth_of(a, t.root, v)
                < crate::chains::depth_of(a, t.root, c),
    ensures
        exists|m: ViewId|
            #[trigger] t.mset().contains(m) && is_pane(a, m) && !bad.contains(m),
    decreases t.mset().len() - V.len(),
{
    if is_pane(a, c) {
        assert(t.mset().contains(c) && is_pane(a, c) && !bad.contains(c));
    } else {
        assert(is_container(a, c)) by {
            assert(a.dom().contains(c)) by {
                assert(t.mset().contains(c));
            }
        }
        assert(c != t.root) by {
            if c == t.root {
                crate::chains::lemma_depth(a, t.root, c);
                assert(chain_to_root(a, t.root, c, 0));
            }
        }
        assert(children_of(a, c).len() >= 1);
        let c1 = children_of(a, c)[0];
        assert(children_wf(a, t, c));
        assert(t.mset().contains(c1) && c1 != t.root && parent_of(a, c1) == c);
        assert(a.dom().contains(c1)) by {
            assert(t.mset().contains(c1));
        }
        crate::chains::lemma_depth_child(a, t.root, c, c1);
        assert(!bad.contains(c1)) by {
            if bad.contains(c1) {
                assert(bad.contains(c) || c == q);
                if c == q {
                    assert(crate::chains::depth_of(a, t.root, c) > crate::chains::depth_of(
                        a,
                        t.root,
                        q,
                    ));
                }
            }
        }
        let V1 = V.insert(c);
        assert(!V.contains(c));
        assert(t.mset().finite()) by {
            assert forall|x: ViewId| t.mset().contains(x) implies a.dom().contains(x) by {}
            vstd::set_lib::lemma_set_subset_finite(a.dom(), t.mset());
        }
        vstd::set_lib::lemma_len_subset(V1, t.mset());
        assert(V1.len() == V.len() + 1);
        lemma_pane_below(a, t, q, bad, c1, V1);
    }
}

/// A member sits strictly fewer parent hops from the root than the tree
/// has members: shortest chains visit distinct members.
pub proof fn lemma_depth_bound(a: Map<ViewId, Node>, t: Tree, m: ViewId)
    requires
        tree_wf(a, t),
        a.dom().finite(),
        t.mset().contains(m),
    ensures
        crate::chains::depth_of(a, t.root, m) < t.mset().len(),
{
    crate::chains::lemma_depth(a, t.root, m);
    let d = crate::chains::depth_of(a, t.root, m);
    crate::chains::lemma_min_chain_hops_card(a, t.root, m, d);
    crate::chains::lemma_hops_shape(a, t.root, t.mset(), m, d);
    crate::chains::lemma_root_not_hop(a, t.root, m, d);
    let hops = chain_hops(a, t.root, m, d);
    assert(t.mset().finite()) by {
        assert forall|x: ViewId| t.mset().contains(x) implies a.dom().contains(x) by {}
        vstd::set_lib::lemma_set_subset_finite(a.dom(), t.mset());
    }
    assert(hops.subset_of(t.mset().remove(t.root)));
    vstd::set_lib::lemma_len_subset(hops, t.mset().remove(t.root));
    assert(t.mset().remove(t.root).len() == t.mset().len() - 1);
}

/// In a well-formed workspace tree the member set is exactly the set of
/// nodes reachable from the root through child lists: no orphans, and no
/// dangling references.
pub proof fn lemma_members_reachable(a: Map<ViewId, Node>, t: Tree)
    requires
        tree_wf(a, t),
    ensures
        forall|id: ViewId| #[trigger] t.mset().contains(id) <==> #[trigger] reachable(a, t.root, id),
{
    assert forall|id: ViewId| t.mset().contains(id) implies reachable(a, t.root, id) by {
        let n = choose|n: nat| chain_to_root(a, t.root, id, n);
        lemma_member_reach_up(a, t, id, n);
    }
    assert forall|id: ViewId| #[trigger] reachable(a, t.root, id) implies t.mset().contains(
        id,
    ) by {
        let n = choose|n: nat| reach_n(a, t.root, id, n);
        lemma_reach_down_member(a, t, t.root, id, n);
    }
}

/// Climbing the chain shows a member is reachable from the root.
proof fn lemma_member_reach_up(a: Map<ViewId, Node>, t: Tree, id: ViewId, n: nat)
    requires
        tree_wf(a, t),
        t.mset().contains(id),
        chain_to_root(a, t.root, id, n),
    ensures
        reachable(a, t.root, id),
    decreases n,
{
    if id == t.root {
        assert(reach_n(a, t.root, id, 0));
    } else {
        assert(n != 0);
        let p = parent_of(a, id);
        lemma_member_reach_up(a, t, p, (n - 1) as nat);
        let m = choose|m: nat| reach_n(a, t.root, p, m);
        lemma_reach_extend(a, t.root, p, id, m);
    }
}

/// Descending from a member along child lists stays in the member set.
proof fn lemma_reach_down_member(a: Map<ViewId, Node>, t: Tree, start: ViewId, id: ViewId, n: nat)
    requires
        tree_wf(a, t),
        t.mset().contains(start),
        reach_n(a, start, id, n),
    ensures
        t.mset().contains(id),
    decreases n,
{
    if start != id {
        assert(n != 0);
        let j = choose|j: int|
            0 <= j < children_of(a, start).len() && reach_n(
                a,
                children_of(a, start)[j],
                id,
                (n - 1) as nat,
            );
        assert(children_wf(a, t, start));
        assert(t.mset().contains(children_of(a, start)[j]));
        lemma_reach_down_member(a, t, children_of(a, start)[j], id, (n - 1) as nat);
    }
}

/// Well-formedness survives any arena change that keeps the shape (parent,
/// kind, child list, pane identity) of every member node; rectangles and
/// foreign nodes may change freely.
pub proof fn lemma_tree_wf_shape(a1: Map<ViewId, Node>, a2: Map<ViewId, Node>, t: Tree)
    requires
        tree_wf(a1, t),
        forall|id: ViewId|
            #[trigger] t.mset().contains(id) ==> {
                &&& a2.dom().contains(id)
                &&& node_same_shape(a2[id], a1[id])
            },
    ensures
        tree_wf(a2, t),
{
    assert forall|id: ViewId| #[trigger] t.mset().contains(id) implies {
        &&& a2.dom().contains(id)
        &&& parent_of(a2, id) == parent_of(a1, id)
        &&& (is_container(a1, id) ==> is_container(a2, id) && children_of(a2, id) == children_of(
            a1,
            id,
        ))
        &&& (is_pane(a1, id) ==> is_pane(a2, id) && pane_of(a2, id).id == pane_of(a1, id).id)
    } by {
        assert(node_same_shape(a2[id], a1[id]));
    }
    assert forall|id: ViewId| #[trigger] t.mset().contains(id) && is_container(a2, id)
        implies children_wf(a2, t, id) by {
        assert(is_container(a1, id));
        assert(children_wf(a1, t, id));
        assert(children_of(a2, id) == children_of(a1, id));
        assert forall|j: int| 0 <= j < children_of(a2, id).len() implies {
            &&& t.mset().contains(#[trigger] children_of(a2, id)[j])
            &&& children_of(a2, id)[j] != t.root
            &&& parent_of(a2, children_of(a2, id)[j]) == id
        } by {
            assert(t.mset().contains(children_of(a1, id)[j]));
            assert(parent_of(a1, children_of(a1, id)[j]) == id);
        }
    }
    assert forall|id: ViewId| #[trigger] t.mset().contains(id) implies has_chain(a2, t.root, id) by {
        let n = choose|n: nat| chain_to_root(a1, t.root, id, n);
        lemma_hops_shape(a1, t.root, t.mset(), id, n);
        assert forall|x: ViewId| #[trigger] chain_hops(a1, t.root, id, n).contains(x) implies {
            &&& a2.dom().contains(x)
            &&& parent_of(a2, x) == parent_of(a1, x)
        } by {
            assert(t.mset().contains(x));
        }
        lemma_chain_frame(a1, a2, t.root, id, n);
    }
}

/// Well-formedness survives any arena change that keeps member nodes
/// unchanged; foreign nodes may change freely.
pub proof fn lemma_tree_wf_preserved(a1: Map<ViewId, Node>, a2: Map<ViewId, Node>, t: Tree)
    requires
        tree_wf(a1, t),
        forall|id: ViewId|
            #[trigger] t.mset().contains(id) ==> {
                &&& a2.dom().contains(id)
                &&& a2[id] == a1[id]
            },
    ensures
        tree_wf(a2, t),
{
    assert forall|id: ViewId| #[trigger] t.mset().contains(id) implies node_same_shape(
        a2[id],
        a1[id],
    ) by {
        assert(a2[id] == a1[id]);
    }
    lemma_tree_wf_shape(a1, a2, t);
}

} // verus!
