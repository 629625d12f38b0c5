//! Parent chains: the acyclicity backbone of a workspace tree.
//!
//! A node is anchored in a tree when some number of parent hops from it
//! reaches the tree's root.  Well-formedness requires an anchor chain for
//! every member, which rules out parent cycles and gives the termination
//! measure for upward recursion and the reachability argument.

use vstd::prelude::*;
use crate::ids::ViewId;
use crate::node::{Node, children_of, is_container, parent_of};

verus! {

/// `n` parent hops or fewer lead from `id` to `root`.
pub open spec fn chain_to_root(a: Map<ViewId, Node>, root: ViewId, id: ViewId, n: nat) -> bool
    decreases n,
{
    if id == root {
        true
    } else if n == 0 {
        false
    } else {
        a.dom().contains(id) && chain_to_root(a, root, parent_of(a, id), (n - 1) as nat)
    }
}

/// Some number of parent hops leads from `id` to `root`.
pub open spec fn has_chain(a: Map<ViewId, Node>, root: ViewId, id: ViewId) -> bool {
    exists|n: nat| chain_to_root(a, root, id, n)
}

/// The nodes visited by the chain before reaching `root` (`root` excluded).
pub open spec fn chain_hops(a: Map<ViewId, Node>, root: ViewId, id: ViewId, n: nat) -> Set<
    ViewId,
>
    decreases n,
{
    if id == root {
        Set::empty()
    } else if n == 0 {
        Set::empty()
    } else {
        chain_hops(a, root, parent_of(a, id), (n - 1) as nat).insert(id)
    }
}

/// The length of the shortest chain from `id` to `root`.
pub closed spec fn depth_of(a: Map<ViewId, Node>, root: ViewId, id: ViewId) -> nat {
    choose|n: nat|
        chain_to_root(a, root, id, n) && (forall|m: nat|
            m < n ==> !chain_to_root(a, root, id, m))
}

/// Every anchored node has a shortest chain.
pub proof fn lemma_minimal_chain(a: Map<ViewId, Node>, root: ViewId, id: ViewId, n: nat)
    requires
        chain_to_root(a, root, id, n),
    ensures
        exists|m: nat|
            chain_to_root(a, root, id, m) && (forall|l: nat|
                l < m ==> !chain_to_root(a, root, id, l)),
    decreases n,
{
    if exists|l: nat| l < n && chain_to_root(a, root, id, l) {
        let l = choose|l: nat| l < n && chain_to_root(a, root, id, l);
        lemma_minimal_chain(a, root, id, l);
    } else {
        assert(chain_to_root(a, root, id, n) && (forall|l: nat|
            l < n ==> !chain_to_root(a, root, id, l)));
    }
}

/// `depth_of` is a chain length, and no shorter chain exists.
pub proof fn lemma_depth(a: Map<ViewId, Node>, root: ViewId, id: ViewId)
    requires
        has_chain(a, root, id),
    ensures
        chain_to_root(a, root, id, depth_of(a, root, id)),
        forall|m: nat| m < depth_of(a, root, id) ==> !chain_to_root(a, root, id, m),
{
    let n = choose|n: nat| chain_to_root(a, root, id, n);
    lemma_minimal_chain(a, root, id, n);
}

/// A non-root anchored node's parent is anchored, strictly closer to root.
pub proof fn lemma_depth_parent(a: Map<ViewId, Node>, root: ViewId, id: ViewId)
    requires
        has_chain(a, root, id),
        id != root,
    ensures
        has_chain(a, root, parent_of(a, id)),
        depth_of(a, root, parent_of(a, id)) < depth_of(a, root, id),
{
    lemma_depth(a, root, id);
    let d = depth_of(a, root, id);
    assert(d != 0) by {
        assert(!chain_to_root(a, root, id, 0) ==> id != root);
        if chain_to_root(a, root, id, 0) {
            assert(id == root);
        }
    }
    assert(chain_to_root(a, root, parent_of(a, id), (d - 1) as nat));
    lemma_depth(a, root, parent_of(a, id));
    let dp = depth_of(a, root, parent_of(a, id));
    if dp >= d {
        assert(chain_to_root(a, root, parent_of(a, id), (d - 1) as nat));
        assert(!chain_to_root(a, root, parent_of(a, id), (d - 1) as nat));
    }
}

/// A chain one hop longer, through a known parent link.
pub proof fn lemma_chain_step(a: Map<ViewId, Node>, root: ViewId, id: ViewId, n: nat)
    requires
        a.dom().contains(id),
        chain_to_root(a, root, parent_of(a, id), n),
    ensures
        chain_to_root(a, root, id, n + 1),
{
}

/// A chain survives any arena change that keeps its hops' parent links.
pub proof fn lemma_chain_frame(
    a1: Map<ViewId, Node>,
    a2: Map<ViewId, Node>,
    root: ViewId,
    id: ViewId,
    n: nat,
)
    requires
        chain_to_root(a1, root, id, n),
        forall|x: ViewId|
            #[trigger] chain_hops(a1, root, id, n).contains(x) ==> {
                &&& a2.dom().contains(x)
                &&& parent_of(a2, x) == parent_of(a1, x)
            },
    ensures
        chain_to_root(a2, root, id, n),
    decreases n,
{
    if id != root {
        assert(n != 0);
        let p = parent_of(a1, id);
        assert(chain_hops(a1, root, id, n) == chain_hops(a1, root, p, (n - 1) as nat).insert(id));
        assert(chain_hops(a1, root, id, n).contains(id));
        assert forall|x: ViewId| #[trigger] chain_hops(a1, root, p, (n - 1) as nat).contains(x)
            implies {
            &&& a2.dom().contains(x)
            &&& parent_of(a2, x) == parent_of(a1, x)
        } by {
            assert(chain_hops(a1, root, id, n).contains(x));
        }
        lemma_chain_frame(a1, a2, root, p, (n - 1) as nat);
        assert(parent_of(a2, id) == p);
        assert(a2.dom().contains(id));
    }
}

/// `n` child-list hops or fewer lead from `root` down to `id`.
pub open spec fn reach_n(a: Map<ViewId, Node>, root: ViewId, id: ViewId, n: nat) -> bool
    decreases n,
{
    if root == id {
        true
    } else if n == 0 {
        false
    } else {
        is_container(a, root) && exists|j: int|
            0 <= j < children_of(a, root).len() && reach_n(
                a,
                #[trigger] children_of(a, root)[j],
                id,
                (n - 1) as nat,
            )
    }
}

/// `id` is reachable from `root` by following child lists.
pub open spec fn reachable(a: Map<ViewId, Node>, root: ViewId, id: ViewId) -> bool {
    exists|n: nat| reach_n(a, root, id, n)
}

/// Reachability extends one hop down into a child.
pub proof fn lemma_reach_extend(
    a: Map<ViewId, Node>,
    root: ViewId,
    p: ViewId,
    id: ViewId,
    m: nat,
)
    requires
        reach_n(a, root, p, m),
        is_container(a, p),
        children_of(a, p).contains(id),
    ensures
        reach_n(a, root, id, m + 1),
    decreases m,
{
    if root == p {
        let j = choose|j: int| 0 <= j < children_of(a, p).len() && children_of(a, p)[j] == id;
        assert(reach_n(a, children_of(a, root)[j], id, m));
    } else {
        assert(m != 0);
        let j = choose|j: int|
            0 <= j < children_of(a, root).len() && reach_n(
                a,
                children_of(a, root)[j],
                p,
                (m - 1) as nat,
            );
        lemma_reach_extend(a, children_of(a, root)[j], p, id, (m - 1) as nat);
        assert(reach_n(a, children_of(a, root)[j], id, ((m - 1) as nat) + 1));
    }
}

/// Every hop of a chain has its own, no longer, chain to the root.
pub proof fn lemma_hops_have_chains(a: Map<ViewId, Node>, root: ViewId, id: ViewId, n: nat)
    requires
        chain_to_root(a, root, id, n),
    ensures
        forall|x: ViewId|
            #[trigger] chain_hops(a, root, id, n).contains(x) ==> exists|m: nat|
                m <= n && #[trigger] chain_to_root(a, root, x, m),
    decreases n,
{
    if id != root {
        assert(n != 0);
        let p = parent_of(a, id);
        lemma_hops_have_chains(a, root, p, (n - 1) as nat);
        assert forall|x: ViewId| #[trigger] chain_hops(a, root, id, n).contains(x)
            implies exists|m: nat| m <= n && #[trigger] chain_to_root(a, root, x, m) by {
            if x == id {
                assert(n <= n && chain_to_root(a, root, x, n));
            } else {
                assert(chain_hops(a, root, p, (n - 1) as nat).contains(x));
                let m = choose|m: nat| m <= n - 1 && #[trigger] chain_to_root(a, root, x, m);
                assert(m <= n && chain_to_root(a, root, x, m));
            }
        }
    }
}

/// The root never appears among a chain's hops.
pub proof fn lemma_root_not_hop(a: Map<ViewId, Node>, root: ViewId, id: ViewId, n: nat)
    ensures
        !chain_hops(a, root, id, n).contains(root),
    decreases n,
{
    if id != root && n != 0 {
        lemma_root_not_hop(a, root, parent_of(a, id), (n - 1) as nat);
    }
}

/// A shortest chain never revisits a node: it has exactly as many hops as
/// its length.
pub proof fn lemma_min_chain_hops_card(a: Map<ViewId, Node>, root: ViewId, id: ViewId, n: nat)
    requires
        chain_to_root(a, root, id, n),
        forall|m: nat| m < n ==> !chain_to_root(a, root, id, m),
    ensures
        chain_hops(a, root, id, n).finite(),
        chain_hops(a, root, id, n).len() == n,
    decreases n,
{
    if id == root {
        assert(chain_to_root(a, root, id, 0));
        assert(n == 0);
    } else {
        assert(n != 0);
        let p = parent_of(a, id);
        assert forall|m: nat| m < n - 1 implies !(#[trigger] chain_to_root(a, root, p, m)) by {
            if chain_to_root(a, root, p, m) {
                assert(chain_to_root(a, root, id, m + 1));
            }
        }
        lemma_min_chain_hops_card(a, root, p, (n - 1) as nat);
        assert(!chain_hops(a, root, p, (n - 1) as nat).contains(id)) by {
            if chain_hops(a, root, p, (n - 1) as nat).contains(id) {
                lemma_hops_have_chains(a, root, p, (n - 1) as nat);
                let m = choose|m: nat| m <= n - 1 && #[trigger] chain_to_root(a, root, id, m);
                assert(!chain_to_root(a, root, id, m));
            }
        }
        assert(chain_hops(a, root, id, n) == chain_hops(a, root, p, (n - 1) as nat).insert(id));
    }
}

/// A non-root anchored node is not its own parent.
pub proof fn lemma_no_self_parent(a: Map<ViewId, Node>, root: ViewId, id: ViewId)
    requires
        has_chain(a, root, id),
        id != root,
    ensures
        parent_of(a, id) != id,
{
    lemma_depth(a, root, id);
    if parent_of(a, id) == id {
        let d0 = depth_of(a, root, id);
        assert(d0 != 0) by {
            if chain_to_root(a, root, id, 0) {
                assert(id == root);
            }
        }
        assert(chain_to_root(a, root, id, (d0 - 1) as nat));
        assert(!chain_to_root(a, root, id, (d0 - 1) as nat));
    }
}

/// A set that contains the root and the children of each of its container
/// elements contains every anchored member: descending the chain from the
/// root reaches it.
pub proof fn lemma_chain_covered(
    a: Map<ViewId, Node>,
    root: ViewId,
    mset: Set<ViewId>,
    done: Set<ViewId>,
    id: ViewId,
    n: nat,
)
    requires
        chain_to_root(a, root, id, n),
        mset.contains(id),
        done.contains(root),
        forall|x: ViewId|
            #[trigger] mset.contains(x) && x != root ==> {
                &&& mset.contains(parent_of(a, x))
                &&& is_container(a, parent_of(a, x))
                &&& children_of(a, parent_of(a, x)).contains(x)
            },
        forall|d: ViewId, j: int|
            #[trigger] done.contains(d) && is_container(a, d) && 0 <= j < children_of(a, d).len()
                ==> done.contains(#[trigger] children_of(a, d)[j]),
    ensures
        done.contains(id),
    decreases n,
{
    if id != root {
        assert(n != 0);
        let p = parent_of(a, id);
        lemma_chain_covered(a, root, mset, done, p, (n - 1) as nat);
        let j = choose|j: int| 0 <= j < children_of(a, p).len() && children_of(a, p)[j] == id;
        assert(done.contains(children_of(a, p)[j]));
    }
}

/// A child of an anchored container sits exactly one step deeper.
pub proof fn lemma_depth_child(a: Map<ViewId, Node>, root: ViewId, c: ViewId, child: ViewId)
    requires
        has_chain(a, root, c),
        a.dom().contains(child),
        parent_of(a, child) == c,
        child != root,
    ensures
        has_chain(a, root, child),
        depth_of(a, root, child) == depth_of(a, root, c) + 1,
{
    lemma_depth(a, root, c);
    let dc = depth_of(a, root, c);
    lemma_chain_step(a, root, child, dc);
    assert(chain_to_root(a, root, child, dc + 1));
    lemma_depth(a, root, child);
    let dch = depth_of(a, root, child);
    assert(dch <= dc + 1);
    lemma_depth_parent(a, root, child);
}

/// A chain from outside a removed set never passes through it, as long as
/// no survivor hangs below a removed node.
pub proof fn lemma_chain_avoid(
    a: Map<ViewId, Node>,
    root: ViewId,
    mset: Set<ViewId>,
    bad: Set<ViewId>,
    m: ViewId,
    n: nat,
)
    requires
        chain_to_root(a, root, m, n),
        mset.contains(m),
        !bad.contains(m),
        forall|y: ViewId|
            #[trigger] mset.contains(y) && !bad.contains(y) && y != root ==> mset.contains(
                parent_of(a, y),
            ) && !bad.contains(parent_of(a, y)),
    ensures
        forall|x: ViewId| #[trigger] chain_hops(a, root, m, n).contains(x) ==> !bad.contains(x),
    decreases n,
{
    if m != root {
        assert(n != 0);
        let p = parent_of(a, m);
        lemma_chain_avoid(a, root, mset, bad, p, (n - 1) as nat);
        assert(chain_hops(a, root, m, n) == chain_hops(a, root, p, (n - 1) as nat).insert(m));
        assert forall|x: ViewId| #[trigger] chain_hops(a, root, m, n).contains(x)
            implies !bad.contains(x) by {
            if x != m {
                assert(chain_hops(a, root, p, (n - 1) as nat).contains(x));
            }
        }
    }
}

/// Under the tree's link discipline, hops stay inside the member set and,
/// past the first, are containers.
pub proof fn lemma_hops_shape(
    a: Map<ViewId, Node>,
    root: ViewId,
    mset: Set<ViewId>,
    id: ViewId,
    n: nat,
)
    requires
        chain_to_root(a, root, id, n),
        mset.contains(id),
        forall|x: ViewId|
            #[trigger] mset.contains(x) && x != root ==> {
                &&& mset.contains(parent_of(a, x))
                &&& is_container(a, parent_of(a, x))
            },
    ensures
        forall|x: ViewId| #[trigger] chain_hops(a, root, id, n).contains(x) ==> mset.contains(x),
        forall|x: ViewId|
            #[trigger] chain_hops(a, root, id, n).contains(x) && x != id ==> is_container(a, x),
    decreases n,
{
    if id != root {
        assert(n != 0);
        let p = parent_of(a, id);
        assert(mset.contains(p) && is_container(a, p));
        lemma_hops_shape(a, root, mset, p, (n - 1) as nat);
        assert(chain_hops(a, root, id, n) == chain_hops(a, root, p, (n - 1) as nat).insert(id));
        assert forall|x: ViewId| #[trigger] chain_hops(a, root, id, n).contains(x) implies mset.contains(
            x,
        ) by {
            if x != id {
                assert(chain_hops(a, root, p, (n - 1) as nat).contains(x));
            }
        }
        assert forall|x: ViewId|
            #[trigger] chain_hops(a, root, id, n).contains(x) && x != id implies is_container(
            a,
            x,
        ) by {
            assert(chain_hops(a, root, p, (n - 1) as nat).contains(x));
            if x != p {
                assert(is_container(a, x));
            }
        }
    }
}

} // verus!
